use connect_four::game::{string_to_player, Game, PlayerType};

#[test]
fn unready_match_reports_failure() {
    let mut g = Game::new();
    assert!(!g.play());
    assert!(!g.is_ready());
    let mut g2 = Game::new();
    assert!(g2.set_player1(PlayerType::Random));
    assert!(!g2.is_ready());
    assert!(!g2.play());
}

#[test]
fn console_match_is_not_driven_inside_the_library() {
    // a console strategy binds fine, but its match must be driven from
    // outside; the controller reports failure distinctly from a finished game
    let mut g = Game::new();
    assert!(g.set_player1(PlayerType::IO));
    assert!(g.set_player2(PlayerType::Random));
    assert!(g.is_ready());
    assert!(!g.play());
}

#[test]
fn set_start_player_validates() {
    let mut g = Game::new();
    assert!(!g.set_start_player(0));
    assert!(!g.set_start_player(3));
    assert!(g.set_start_player(2));
    assert!(g.set_start_player(1));
}

#[test]
fn one_random_game_finishes() {
    let mut g = Game::new();
    assert!(g.set_player1(PlayerType::Random));
    assert!(g.set_player2(PlayerType::Random));
    assert!(g.play());
    let s = g.get_field().get_state();
    assert!(s == -1 || s == 1 || s == 2);
}

#[test]
fn thousand_random_games_tally_exactly() {
    let mut g = Game::new();
    assert!(g.set_player1(PlayerType::Random));
    assert!(g.set_player2(PlayerType::Random));
    assert!(g.play_many(1000, 1));
    let (wins, draws, losses) = g.get_results();
    assert_eq!(wins as u64 + draws as u64 + losses as u64, 1000);
}

#[test]
fn play_many_rejects_a_zero_count() {
    let mut g = Game::new();
    assert!(g.set_player1(PlayerType::Random));
    assert!(g.set_player2(PlayerType::Random));
    let (w0, d0, l0) = g.get_results();
    assert!(!g.play_many(0, 1));
    // a rejected count changes nothing
    assert_eq!(g.get_results(), (w0, d0, l0));
    assert_eq!(g.get_start_player(), 1);
}

#[test]
fn the_side_switch_persists_after_a_run() {
    let mut g = Game::new();
    assert!(g.set_player1(PlayerType::Random));
    assert!(g.set_player2(PlayerType::Random));
    assert_eq!(g.get_start_player(), 1);
    // four games switching sides every two: one flip happens, and it stays
    assert!(g.play_many(4, 2));
    assert_eq!(g.get_start_player(), 2);
    // three more games switching every game: two flips, back where it stood
    assert!(g.play_many(3, 1));
    assert_eq!(g.get_start_player(), 2);
    // two games switching every game: a single flip
    assert!(g.play_many(2, 1));
    assert_eq!(g.get_start_player(), 1);
}

#[test]
fn search_beats_random_over_a_short_run() {
    let mut g = Game::new();
    assert!(g.set_player1(PlayerType::Minimax));
    assert!(g.set_player2(PlayerType::Random));
    assert!(g.play_many(2, 1));
    let (wins, draws, losses) = g.get_results();
    assert_eq!(wins + draws + losses, 2);
}

#[test]
fn names_map_to_player_kinds() {
    assert_eq!(string_to_player("io"), Some(PlayerType::IO));
    assert_eq!(string_to_player("random"), Some(PlayerType::Random));
    assert_eq!(string_to_player("minimax"), Some(PlayerType::Minimax));
    assert_eq!(string_to_player("aiq"), Some(PlayerType::AIQ));
    assert_eq!(string_to_player("aiqfixed"), Some(PlayerType::AIQFixed));
    assert_eq!(string_to_player("aiqplay"), Some(PlayerType::AIQPlay));
    assert_eq!(string_to_player("aiqoff"), Some(PlayerType::AIQOff));
    assert_eq!(string_to_player("aiqofffixed"), Some(PlayerType::AIQOffFixed));
    assert_eq!(string_to_player("aivalue"), Some(PlayerType::AIValue));
    assert_eq!(string_to_player("console"), None);
    assert_eq!(string_to_player(""), None);
    assert_eq!(string_to_player("ai"), None);
}
