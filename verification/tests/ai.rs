use mankala::ai::{best_choice, deepening_eval, minimax, BaseEval, StupidEval, SCORE_SCALE};
use mankala::board_state::BoardState;

#[test]
fn minimax_terminal_returns_loss() {
    // An already-terminal board scores 0 at every depth.
    let mut board_array = [0u8; 14];
    board_array[8] = 4;
    let board = BoardState::make_state(board_array, true);
    assert!(board.is_won());
    assert_eq!(minimax(&board, 0, &StupidEval), 0);
    assert_eq!(minimax(&board, 5, &StupidEval), 0);
    assert_eq!(minimax(&board, 5, &BaseEval), 0);
}

#[test]
fn minimax_depth_zero_delegates() {
    // At depth 0 on a live board, the leaf evaluator decides.
    let board = BoardState::new();
    assert_eq!(minimax(&board, 0, &StupidEval), SCORE_SCALE / 2);
    // Both sides hold 36 seeds: the ratio evaluator also says one half.
    assert_eq!(minimax(&board, 0, &BaseEval), SCORE_SCALE / 2);

    // Opponent holds 9 of 12 circulating seeds.
    let mut board_array = [0u8; 14];
    board_array[0] = 2;
    board_array[2] = 1;
    board_array[7] = 4;
    board_array[8] = 5;
    let board2 = BoardState::make_state(board_array, true);
    assert_eq!(minimax(&board2, 0, &BaseEval), SCORE_SCALE * 9 / 12);
}

#[test]
fn minimax_sees_forced_win() {
    // The only move empties the mover's own row, ending the game; the
    // child is terminal (0 for the opponent), so the mover scores 1.
    let mut board_array = [0u8; 14];
    board_array[6] = 1;
    board_array[8] = 4;
    let board = BoardState::make_state(board_array, true);
    assert!(!board.is_won());
    assert_eq!(minimax(&board, 1, &StupidEval), SCORE_SCALE);
}

#[test]
fn best_choice_minimizes_child_score() {
    let board = BoardState::new();
    for depth in 0..3u8 {
        let c = best_choice(&board, depth, &BaseEval);
        let choices = board.get_valid_choices();
        assert!(choices.contains(&c));
        let score_of = |choice: u8| {
            let mut child = board;
            child.make_move(choice);
            minimax(&child, depth, &BaseEval)
        };
        let min = choices.iter().map(|&x| score_of(x)).min().unwrap();
        assert_eq!(score_of(c), min);
    }
}

#[test]
fn best_choice_takes_the_winning_move() {
    // Relative pit 5 empties the mover's row at once and wins; the
    // other choice leaves the game open.
    let mut board_array = [0u8; 14];
    board_array[6] = 1;
    board_array[8] = 4;
    let board = BoardState::make_state(board_array, true);
    assert_eq!(best_choice(&board, 1, &StupidEval), 5);
}

#[test]
fn deepening_with_no_budget_stops_at_depth_zero() {
    // With a zero budget the deepening loop never goes past depth 0.
    let board = BoardState::new();
    assert_eq!(deepening_eval(&board, &StupidEval, 0), SCORE_SCALE / 2);
}

#[test]
fn deepening_stops_at_a_forced_outcome() {
    let mut board_array = [0u8; 14];
    board_array[6] = 1;
    board_array[8] = 4;
    let board = BoardState::make_state(board_array, true);
    let r = deepening_eval(&board, &StupidEval, 10000);
    assert_eq!(r, SCORE_SCALE);
}
