use mankala::board_state::BoardState;

fn setup() -> [u8; 14] {
    [0; 14]
}

#[test]
fn simple() {
    let mut board_array = setup();
    board_array[2] = 15;
    let mut board = BoardState::from(board_array);
    board.make_move(2);

    let result_array = [1u8; 14];
    assert_eq!(board, BoardState::make_state(result_array, false));
}

#[test]
fn complex_moves() {
    let mut test = BoardState::new();

    test.make_move(5);
    assert_eq!(test.get_board(), [7, 7, 7, 1, 7, 0, 1, 8, 8, 8, 2, 8, 1, 7]);

    test.make_move(3);
    assert_eq!(test.get_board(), [8, 8, 8, 2, 8, 1, 1, 8, 8, 8, 2, 0, 2, 8]);

    test.make_move(1);
    assert_eq!(test.get_board(), [0, 2, 11, 5, 1, 4, 4, 11, 11, 2, 5, 2, 4, 10]);
}

#[test]
fn board_state_simple() {
    let mut board_array = setup();
    let board1 = BoardState::from(board_array);
    assert!(board1.is_won());

    board_array[0] = 1;
    let board2 = BoardState::from(board_array);
    assert!(board2.is_won());

    board_array[0] = 0;
    board_array[9] = 1;
    assert!(BoardState::from(board_array).is_won());

    board_array[0] = 1;
    assert!(!BoardState::from(board_array).is_won());
}

#[test]
fn terminal_ignores_turn_and_stores() {
    // One side empty is terminal whatever the stores hold and whoever
    // is to move.
    let mut board_array = [0u8; 14];
    board_array[3] = 30;
    board_array[10] = 12;
    board_array[7] = 2;
    assert!(BoardState::make_state(board_array, true).is_won());
    assert!(BoardState::make_state(board_array, false).is_won());

    // Both sides holding seeds is not terminal.
    board_array[0] = 1;
    assert!(!BoardState::make_state(board_array, true).is_won());
    assert!(!BoardState::make_state(board_array, false).is_won());
}

#[test]
fn canonical_equality_ignores_stores() {
    let mut a = [2u8; 14];
    let mut b = [2u8; 14];
    a[3] = 9;
    a[10] = 0;
    b[3] = 0;
    b[10] = 9;
    // Same per-side projections, different store layout: equal.
    assert_eq!(BoardState::make_state(a, true), BoardState::make_state(b, true));
    // Only the turn flag differs: unequal.
    assert_ne!(BoardState::make_state(a, true), BoardState::make_state(a, false));
    // A play pit differs: unequal.
    b[4] = 3;
    assert_ne!(BoardState::make_state(a, true), BoardState::make_state(b, true));
}

#[test]
fn seed_conservation_across_moves() {
    let mut board = BoardState::new();
    let start: u32 = board.get_board().iter().map(|&x| x as u32).sum();
    assert_eq!(start, 72);
    for _ in 0..12 {
        if board.is_won() {
            break;
        }
        let choices = board.get_valid_choices();
        board.make_move(choices[0]);
        let now: u32 = board.get_board().iter().map(|&x| x as u32).sum();
        assert_eq!(now, start);
    }
}

#[test]
fn valid_choices_lists_nonempty_pits() {
    let mut board_array = [0u8; 14];
    board_array[0] = 3;
    board_array[2] = 1;
    board_array[5] = 2;
    board_array[8] = 4;
    let board = BoardState::make_state(board_array, true);
    // First player's row is 0,1,2,4,5,6: pits 0, 2 and 4 hold seeds.
    assert_eq!(board.get_valid_choices(), vec![0u8, 2, 4]);
    let board2 = BoardState::make_state(board_array, false);
    // Second player's row is 7,8,9,11,12,13: only pit 1 holds seeds.
    assert_eq!(board2.get_valid_choices(), vec![1u8]);
}

#[test]
fn side_views_follow_the_turn() {
    let board_array = [1, 2, 3, 90, 4, 5, 6, 7, 8, 9, 91, 10, 11, 12];
    let board = BoardState::make_state(board_array, true);
    assert_eq!(board.current_side(), [1, 2, 3, 4, 5, 6]);
    assert_eq!(board.opponent_side(), [7, 8, 9, 10, 11, 12]);
    assert!(board.get_current_player());
    let board2 = BoardState::make_state(board_array, false);
    assert_eq!(board2.current_side(), [7, 8, 9, 10, 11, 12]);
    assert_eq!(board2.opponent_side(), [1, 2, 3, 4, 5, 6]);
    assert!(!board2.get_current_player());
}

#[test]
fn move_flips_turn_unconditionally() {
    // Landing in the mover's own store still hands the turn over.
    let mut board_array = [0u8; 14];
    board_array[2] = 1;
    board_array[7] = 5;
    let mut board = BoardState::make_state(board_array, true);
    board.make_move(2);
    assert!(!board.get_current_player());
    assert_eq!(board.get_board(), [0, 0, 0, 1, 0, 0, 0, 5, 0, 0, 0, 0, 0, 0]);
}
