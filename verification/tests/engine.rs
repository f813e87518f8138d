use connect_four::field::Field;
use connect_four::minimax_player::{heur, minimax, PlayerMinimax};
use connect_four::player::Player;

#[test]
fn heuristic_returns_exact_terminal_values() {
    let mut f = Field::new(7, 6);
    for x in 0..3 {
        f.play(1, x);
        f.play(2, x);
    }
    f.play(1, 3);
    // player 1 has won: the full win value rebated by the depth
    assert_eq!(heur(&f, 1, 2), 10000 - 2);
    assert_eq!(heur(&f, 2, 2), -10000 + 2);
    assert_eq!(heur(&f, 1, 6), 10000 - 6);
}

#[test]
fn heuristic_of_a_draw_is_zero() {
    let mut f = Field::new(2, 2);
    f.play(1, 0);
    f.play(2, 0);
    f.play(1, 1);
    f.play(2, 1);
    assert_eq!(heur(&f, 1, 3), 0);
    assert_eq!(minimax(&mut f, 1, 2, 5), 0);
}

#[test]
fn search_takes_an_immediate_win() {
    // player 1 to move holds three in the bottom row; at every depth the
    // engine must win on the spot
    for depth in 1..5 {
        let mut f = Field::new(7, 6);
        f.play(1, 0);
        f.play(2, 5);
        f.play(1, 1);
        f.play(2, 6);
        f.play(1, 2);
        f.play(2, 5);
        let mut engine = PlayerMinimax::with_depth(depth);
        assert!(engine.init(&f, 1));
        assert!(engine.play(&mut f));
        assert_eq!(f.get_state(), 1);
        assert_eq!(f.get_turns().last().copied(), Some((3, 5)));
    }
}

#[test]
fn search_blocks_an_immediate_threat() {
    // player 1 threatens to complete the bottom row at column 3; the engine,
    // playing 2, must block that column at every depth that sees the reply
    for depth in 2..5 {
        let mut f = Field::new(7, 6);
        f.play(1, 0);
        f.play(2, 5);
        f.play(1, 1);
        f.play(2, 5);
        f.play(1, 2);
        let mut engine = PlayerMinimax::with_depth(depth);
        assert!(engine.init(&f, 2));
        assert!(engine.play(&mut f));
        assert_eq!(f.get_turns().last().copied(), Some((3, 5)));
        assert_eq!(f.get_state(), 0);
    }
}

#[test]
fn search_declines_without_a_playable_column() {
    let mut f = Field::new(2, 2);
    f.play(1, 0);
    f.play(2, 0);
    f.play(1, 1);
    f.play(2, 1);
    let mut engine = PlayerMinimax::new();
    assert!(engine.init(&f, 1));
    assert!(!engine.play(&mut f));
    assert_eq!(f.get_turns().len(), 4);
}

#[test]
fn uninitialized_search_declines() {
    let mut f = Field::new(7, 6);
    let mut engine = PlayerMinimax::new();
    assert!(!engine.play(&mut f));
    assert_eq!(f.get_turns().len(), 0);
}
