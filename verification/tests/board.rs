use connect_four::field::Field;

#[test]
fn new_board_dimensions() {
    let f = Field::new(7, 6);
    assert_eq!(f.get_w(), 7);
    assert_eq!(f.get_h(), 6);
    assert_eq!(f.get_size(), 42);
    assert_eq!(f.get_field().len(), 42);
    assert_eq!(f.get_turns().len(), 0);
    assert_eq!(f.get_val(0, 0), 0);
    assert_eq!(f.get_val(6, 5), 0);
    // out-of-range cells read as empty
    assert_eq!(f.get_val(7, 0), 0);
    assert_eq!(f.get_val(0, 6), 0);
}

#[test]
fn gravity_fills_bottom_up() {
    let mut f = Field::new(7, 6);
    assert!(f.play(1, 3));
    assert!(f.play(2, 3));
    assert_eq!(f.get_val(3, 5), 1);
    assert_eq!(f.get_val(3, 4), 2);
    assert_eq!(f.get_turns()[0], (3, 5));
    assert_eq!(f.get_turns()[1], (3, 4));
}

#[test]
fn play_undo_round_trip() {
    let mut f = Field::new(7, 6);
    assert!(f.play(1, 0));
    assert!(f.play(2, 3));
    assert!(f.play(1, 3));
    assert!(f.play(2, 6));
    let snapshot = f.get_field().clone();
    assert!(f.play(1, 2));
    assert!(f.play(2, 2));
    assert!(f.undo());
    assert!(f.undo());
    assert_eq!(f.get_field(), &snapshot);
    assert_eq!(f.get_turns().len(), 4);
    // unwinding everything restores the empty grid and an empty stack
    assert!(f.undo());
    assert!(f.undo());
    assert!(f.undo());
    assert!(f.undo());
    assert!(!f.undo());
    assert_eq!(f.get_turns().len(), 0);
    for i in 0..42 {
        assert_eq!(f.get_field()[i], 0);
    }
}

#[test]
fn play_acceptance_matches_is_valid_play() {
    let mut f = Field::new(7, 6);
    // out of range and bad player ids are refused without mutation
    assert!(!f.play(1, 7));
    assert!(!f.play(0, 3));
    assert!(!f.play(3, 3));
    assert_eq!(f.get_turns().len(), 0);
    // a column refuses its seventh stone
    for k in 0..6 {
        assert!(f.is_valid_play(0));
        assert!(f.play(1 + (k % 2), 0));
    }
    assert!(!f.is_valid_play(0));
    assert!(!f.play(1, 0));
    assert_eq!(f.get_turns().len(), 6);
    // agreement on every column at an arbitrary position
    for x in 0..7 {
        let before = f.get_turns().len();
        let accepted = f.play(1, x);
        assert_eq!(accepted, f.get_turns().len() == before + 1);
        if accepted {
            f.undo();
        }
        assert_eq!(accepted, f.is_valid_play(x));
    }
}

#[test]
fn horizontal_win_detected() {
    let mut f = Field::new(7, 6);
    for x in 0..3 {
        f.play(1, x);
        f.play(2, x);
    }
    assert_eq!(f.get_state(), 0);
    f.play(1, 3);
    assert_eq!(f.get_state(), 1);
}

#[test]
fn vertical_win_detected() {
    let mut f = Field::new(7, 6);
    for _ in 0..3 {
        f.play(2, 4);
        f.play(1, 5);
    }
    assert_eq!(f.get_state(), 0);
    f.play(2, 4);
    assert_eq!(f.get_state(), 2);
}

#[test]
fn diagonal_win_detected() {
    // a down-right diagonal for player 1, rising from column 0 to column 3
    let mut f = Field::new(7, 6);
    f.play(1, 0);
    f.play(2, 1);
    f.play(1, 1);
    f.play(2, 2);
    f.play(1, 2);
    f.play(2, 3);
    f.play(1, 2);
    f.play(2, 3);
    f.play(1, 3);
    f.play(2, 6);
    assert_eq!(f.get_state(), 0);
    f.play(1, 3);
    assert_eq!(f.get_state(), 1);
}

#[test]
fn anti_diagonal_win_detected() {
    // a down-left diagonal for player 2, rising from column 6 to column 3
    let mut f = Field::new(7, 6);
    f.play(2, 6);
    f.play(1, 5);
    f.play(2, 5);
    f.play(1, 4);
    f.play(2, 4);
    f.play(1, 3);
    f.play(2, 4);
    f.play(1, 3);
    f.play(2, 3);
    f.play(1, 0);
    f.play(2, 3);
    assert_eq!(f.get_state(), 2);
}

#[test]
fn full_board_without_line_is_a_draw() {
    // on a 2 by 2 board no line of four can exist
    let mut f = Field::new(2, 2);
    assert!(!f.is_full());
    f.play(1, 0);
    f.play(2, 0);
    f.play(1, 1);
    assert_eq!(f.get_state(), 0);
    f.play(2, 1);
    assert!(f.is_full());
    assert_eq!(f.get_state(), -1);
}

#[test]
fn reset_clears_grid_and_stack() {
    let mut f = Field::new(7, 6);
    f.play(1, 0);
    f.play(2, 1);
    f.reset();
    assert_eq!(f.get_turns().len(), 0);
    for i in 0..42 {
        assert_eq!(f.get_field()[i], 0);
    }
    assert_eq!(f.get_state(), 0);
}

#[test]
fn clone_is_an_independent_snapshot() {
    let mut f = Field::new(7, 6);
    f.play(1, 2);
    f.play(2, 2);
    let snap = f.clone();
    f.play(1, 4);
    assert_eq!(snap.get_turns().len(), 2);
    assert_eq!(f.get_turns().len(), 3);
    assert_eq!(snap.get_val(4, 5), 0);
    assert_eq!(f.get_val(4, 5), 1);
}
