use connect_four::ai_q_player::{Experience, PlayerAIQ};
use connect_four::ai_qoff_player::{OffStep, PlayerAIQOff};
use connect_four::ai_value_player::PlayerAIValue;
use connect_four::field::Field;
use connect_four::player::Player;
use connect_four::random_player::PlayerRandom;

#[test]
fn argmax_takes_the_first_greatest_entry() {
    assert_eq!(PlayerAIQ::argmax(&[5]), 0);
    assert_eq!(PlayerAIQ::argmax(&[1, 3, 2]), 1);
    assert_eq!(PlayerAIQ::argmax(&[7, 3, 7]), 0);
    assert_eq!(PlayerAIQ::argmax(&[0, 0, 9, 9]), 2);
}

#[test]
fn q_target_blends_reward_and_next_value() {
    // (1000 * 500 + 990 * 1000) / 1990, in thousandths
    assert_eq!(PlayerAIQ::q_target(500, 1000), 748);
    // the maximal blend stays exactly at the top of the range
    assert_eq!(PlayerAIQ::q_target(1000, 1000), 1000);
    assert_eq!(PlayerAIQ::q_target(0, 0), 0);
    // a terminal reward short-circuits, anything else is blended
    assert_eq!(PlayerAIQ::replay_target(1000, 300), 1000);
    assert_eq!(PlayerAIQ::replay_target(0, 300), 0);
    assert_eq!(PlayerAIQ::replay_target(500, 300), PlayerAIQ::q_target(500, 300));
}

#[test]
fn schedules_decay_toward_their_floors() {
    let mut a = PlayerAIQ::new(false, true);
    assert_eq!(a.get_exploration(), 500);
    assert_eq!(a.get_lr(), 100000);
    a.resume(20000);
    assert_eq!(a.get_exploration(), 250);
    assert_eq!(a.get_lr(), 80000);
    a.resume(40000);
    assert_eq!(a.get_exploration(), 125);
    a.resume(2000000);
    assert_eq!(a.get_exploration(), 50);
    assert_eq!(a.get_lr(), 1000);

    let mut b = PlayerAIQOff::new(false);
    assert_eq!(b.get_exploration(), 1000);
    assert_eq!(b.get_lr(), 1000000);
    b.resume(10000);
    assert_eq!(b.get_lr(), 500000);
    b.resume(20000);
    assert_eq!(b.get_exploration(), 500);
    b.resume(1000000);
    assert_eq!(b.get_lr(), 100000);
    assert_eq!(b.get_exploration(), 0);

    let mut c = PlayerAIValue::new(false);
    assert_eq!(c.get_lr(), 100000);
    c.resume(5000);
    assert_eq!(c.get_lr(), 50000);
    c.resume(9000);
    assert_eq!(c.get_lr(), 10000);
}

#[test]
fn encoding_of_the_empty_board() {
    let mut f = Field::new(7, 6);
    let input = PlayerAIQ::field_to_input(&mut f, 1, 1);
    assert_eq!(input.len(), 2 * 42 + 7 + 1);
    for k in 0..42 {
        // every cell is empty
        assert_eq!(input[2 * k], 0);
        // only the bottom row is reachable in one move
        assert_eq!(input[2 * k + 1], if k >= 35 { 1 } else { 0 });
    }
    for c in 0..7 {
        // nobody can win at once
        assert_eq!(input[2 * 42 + c], 0);
    }
    assert_eq!(input[2 * 42 + 7], 1);
    // probing left the board untouched
    assert_eq!(f.get_turns().len(), 0);
}

#[test]
fn encoding_marks_winning_columns() {
    let mut f = Field::new(7, 6);
    for _ in 0..3 {
        f.play(1, 2);
        f.play(2, 6);
    }
    // player 1 could win at once in column 2; so the feature is set for
    // either side's encoding
    let input1 = PlayerAIQ::field_to_input(&mut f, 1, 1);
    assert_eq!(input1[2 * 42 + 2], 1);
    assert_eq!(input1[2 * 42 + 0], 0);
    let input2 = PlayerAIQ::field_to_input(&mut f, 2, -1);
    assert_eq!(input2[2 * 42 + 2], 1);
    // occupancy is signed from the agent's own perspective
    assert_eq!(input1[2 * (5 * 7 + 2)], 1);
    assert_eq!(input2[2 * (5 * 7 + 2)], -1);
    assert_eq!(f.get_turns().len(), 6);

    // the offline agent's tactical feature marks only the mover's own
    // immediate win: the opponent's stone there would not end the game
    let off1 = PlayerAIQOff::field_to_input(&mut f, 1);
    assert_eq!(off1[2 * 42 + 2], 1);
    let off2 = PlayerAIQOff::field_to_input(&mut f, 2);
    assert_eq!(off2[2 * 42 + 2], 0);
}

#[test]
fn terminal_reward_is_stored_exactly() {
    // after a won game the stored target for the final action is the win
    // reward itself, with no bootstrap blending
    let mut f = Field::new(7, 6);
    let mut a = PlayerAIQ::new(false, false);
    assert!(a.init(&f, 1));
    a.startp(1);
    let state = PlayerAIQ::field_to_input(&mut f, 1, 1);
    let qvals = vec![400i64, 300, 300, 300, 300, 300, 300];
    assert!(a.choose_and_play(&mut f, state, &qvals));
    let taken = a.get_memplay();
    a.outcome(&mut f, 1);
    assert_eq!(a.get_memqval()[taken as usize], 1000);
    assert_eq!(a.get_games_played(), 1);
    // the terminal transition was kept for replay
    assert_eq!(a.buffer_len(), 1);
    assert_eq!(a.get_experience(0).reward, 1000);
    assert_eq!(a.get_experience(0).next_state.len(), 0);
}

#[test]
fn lost_game_stores_the_loss_reward() {
    let mut f = Field::new(7, 6);
    let mut a = PlayerAIQ::new(false, false);
    assert!(a.init(&f, 2));
    a.startp(1);
    let state = PlayerAIQ::field_to_input(&mut f, 2, -1);
    let qvals = vec![400i64, 300, 300, 300, 300, 300, 300];
    assert!(a.choose_and_play(&mut f, state, &qvals));
    let taken = a.get_memplay();
    a.outcome(&mut f, 1);
    assert_eq!(a.get_memqval()[taken as usize], 0);
    // the lost terminal transition is kept for replay too
    assert_eq!(a.buffer_len(), 1);
    assert_eq!(a.get_experience(0).reward, 0);
    assert_eq!(a.get_experience(0).next_state.len(), 0);
    // the pending flag is cleared
    assert_eq!(a.get_memreward(), -1000000);
}

#[test]
fn drawn_game_keeps_the_midpoint_and_stores_nothing() {
    let mut f = Field::new(7, 6);
    let mut a = PlayerAIQ::new(false, false);
    assert!(a.init(&f, 1));
    a.startp(1);
    let state = PlayerAIQ::field_to_input(&mut f, 1, 1);
    let qvals = vec![400i64, 300, 300, 300, 300, 300, 300];
    assert!(a.choose_and_play(&mut f, state, &qvals));
    let taken = a.get_memplay();
    a.outcome(&mut f, -1);
    // the draw target is the midpoint, and no replay entry is stored for it
    assert_eq!(a.get_memqval()[taken as usize], 500);
    assert_eq!(a.buffer_len(), 0);
    assert_eq!(a.get_memreward(), -1000000);
}

#[test]
fn fixed_agent_plays_greedily_without_noise() {
    // a fixed agent never draws exploration noise, even with its exploration
    // flag set, so its choice is exactly the greatest-rated legal column
    for _ in 0..50 {
        let mut f = Field::new(7, 6);
        let mut a = PlayerAIQ::new(true, true);
        assert!(a.init(&f, 1));
        a.startp(1);
        let state = PlayerAIQ::field_to_input(&mut f, 1, 1);
        let qvals = vec![300i64, 300, 300, 300, 300, 900, 300];
        assert!(a.choose_and_play(&mut f, state, &qvals));
        assert_eq!(a.get_memplay(), 5);
        assert_eq!(f.get_turns().last().copied(), Some((5, 5)));
    }
}

#[test]
fn fixed_agent_never_learns_from_outcomes() {
    let mut f = Field::new(7, 6);
    let mut a = PlayerAIQ::new(true, false);
    assert!(a.init(&f, 1));
    a.startp(1);
    let state = PlayerAIQ::field_to_input(&mut f, 1, 1);
    let qvals = vec![400i64, 300, 300, 300, 300, 300, 300];
    assert!(a.choose_and_play(&mut f, state, &qvals));
    let taken = a.get_memplay();
    a.outcome(&mut f, 1);
    // counters advance, but no target is written and nothing is stored
    assert_eq!(a.get_games_played(), 1);
    assert_eq!(a.get_memqval()[taken as usize], 400);
    assert_eq!(a.buffer_len(), 0);
}

#[test]
fn replay_buffer_evicts_first_in_first_out() {
    let mut a = PlayerAIQ::new(false, true);
    for i in 0..20001usize {
        a.push_experience(Experience {
            state: Vec::new(),
            action: i,
            reward: 500,
            next_state: Vec::new(),
        });
        assert!(a.buffer_len() <= 20000);
    }
    assert_eq!(a.buffer_len(), 20000);
    // the very first entry left; the second is now at the front
    assert_eq!(a.get_experience(0).action, 1);
    assert_eq!(a.get_experience(19999).action, 20000);
}

#[test]
fn illegal_choice_is_corrected_and_recorded() {
    let mut f = Field::new(7, 6);
    // fill column 0 so the greedy pick is illegal
    for _ in 0..3 {
        f.play(1, 0);
        f.play(2, 0);
    }
    let mut a = PlayerAIQ::new(false, false);
    assert!(a.init(&f, 1));
    let state = PlayerAIQ::field_to_input(&mut f, 1, 1);
    let qvals = vec![900i64, 300, 300, 300, 300, 300, 300];
    assert!(a.choose_and_play(&mut f, state, &qvals));
    // the rule-violation signal was written on the bad column's entry
    assert_eq!(a.get_memqval()[0], 100);
    // the move actually made is legal
    let taken = a.get_memplay();
    assert!(taken >= 1 && taken < 7);
}

#[test]
fn offline_agent_marks_and_backfills() {
    let mut f = Field::new(7, 6);
    let mut b = PlayerAIQOff::new(false);
    assert!(b.init(&f, 1));
    let state = PlayerAIQOff::field_to_input(&mut f, 1);
    let qvals = vec![700i64, 300, 300, 300, 300, 300, 300];
    match b.step(&mut f, state, &qvals) {
        OffStep::Played => {},
        _ => panic!("a legal greedy choice must be played"),
    }
    assert_eq!(b.buffer_len(), 1);
    // the chosen column holds the marker until the outcome
    let chosen = f.get_turns().last().copied().unwrap().0 as usize;
    assert_eq!(b.get_buffer_entry(0).1[chosen], -1000);
    b.outcome_core(1);
    // one ply from the end of a won game: (990 * 1000 / 1000 + 1000) / 2
    assert_eq!(b.get_buffer_entry(0).1[chosen], 995);
    assert_eq!(b.get_games_played(), 1);
}

#[test]
fn offline_agent_retrains_on_an_illegal_choice() {
    let mut f = Field::new(7, 6);
    for _ in 0..3 {
        f.play(1, 4);
        f.play(2, 4);
    }
    let mut b = PlayerAIQOff::new(false);
    assert!(b.init(&f, 1));
    // exploration may preempt the greedy pick; retry until greedy applies
    let mut saw_retrain = false;
    for _ in 0..200 {
        let state = PlayerAIQOff::field_to_input(&mut f, 1);
        let qvals = vec![300i64, 300, 300, 300, 900, 300, 300];
        match b.step(&mut f, state, &qvals) {
            OffStep::Retrain(_, q) => {
                assert_eq!(q[4], 0);
                saw_retrain = true;
                break;
            },
            OffStep::Played => {
                f.undo();
            },
            OffStep::NoMove => panic!("columns remain playable"),
        }
    }
    assert!(saw_retrain);
}

#[test]
fn value_agent_collects_discounted_targets() {
    let f = Field::new(7, 6);
    let mut c = PlayerAIValue::new(false);
    assert!(c.init(&f, 1));
    c.startp(1);
    let s1 = vec![0i64; 42];
    let mut s2 = vec![0i64; 42];
    s2[41] = 1;
    c.record_state(s1.clone());
    c.record_state(s2.clone());
    assert_eq!(c.pending_len(), 2);
    let learn_now = c.outcome_core(1);
    assert!(!learn_now);
    assert_eq!(c.pending_len(), 0);
    assert_eq!(c.buffer_len(), 2);
    // the last state pairs with the undiscounted win value, the one before
    // with one discount step: 900, then 900 * 900 / 1000
    assert_eq!(c.get_buffer_entry(0).0, s2);
    assert_eq!(c.get_buffer_entry(0).1[0], 900);
    assert_eq!(c.get_buffer_entry(1).0, s1);
    assert_eq!(c.get_buffer_entry(1).1[0], 810);
}

#[test]
fn value_agent_lost_game_and_learning_cadence() {
    let f = Field::new(7, 6);
    let mut c = PlayerAIValue::new(false);
    assert!(c.init(&f, 2));
    c.startp(1);
    c.record_state(vec![0i64; 42]);
    // the starting player lost from its own perspective
    assert!(!c.outcome_core(2));
    assert_eq!(c.get_buffer_entry(0).1[0], -900);
    // the tenth game triggers a training episode
    for _ in 0..8 {
        assert!(!c.outcome_core(1));
    }
    assert!(c.outcome_core(1));
    assert_eq!(c.get_games_played(), 10);
}

#[test]
fn shuffle_keeps_the_training_pairs() {
    let f = Field::new(7, 6);
    let mut c = PlayerAIValue::new(false);
    assert!(c.init(&f, 1));
    c.startp(1);
    for k in 0..5 {
        let mut s = vec![0i64; 42];
        s[k] = 1;
        c.record_state(s);
    }
    c.outcome_core(1);
    let before: Vec<i64> = (0..5).map(|i| c.get_buffer_entry(i).1[0]).collect();
    c.shuffle_games();
    assert_eq!(c.buffer_len(), 5);
    let mut after: Vec<i64> = (0..5).map(|i| c.get_buffer_entry(i).1[0]).collect();
    let mut sorted_before = before.clone();
    sorted_before.sort();
    after.sort();
    assert_eq!(sorted_before, after);
    c.flush_buffer();
    assert_eq!(c.buffer_len(), 0);
}

#[test]
fn random_strategy_forced_into_the_last_column() {
    let mut f = Field::new(7, 6);
    // fill every column but the fifth to the top
    for x in [0u32, 1, 2, 3, 5, 6] {
        for _ in 0..3 {
            f.play(1, x);
            f.play(2, x);
        }
    }
    let mut r = PlayerRandom::new();
    assert!(r.init(&f, 1));
    assert!(r.play(&mut f));
    assert_eq!(f.get_turns().last().copied(), Some((4, 5)));
}

#[test]
fn random_strategy_declines_on_a_full_board() {
    let mut f = Field::new(2, 2);
    f.play(1, 0);
    f.play(2, 0);
    f.play(1, 1);
    f.play(2, 1);
    let mut r = PlayerRandom::new();
    assert!(r.init(&f, 1));
    assert!(!r.play(&mut f));
}
