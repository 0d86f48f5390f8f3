use mankala::ai::{MinimaxAi, StupidEval};
use mankala::board_state::BoardState;
use mankala::mankala::{FirstChoice, LastChoice, Mankala, Player};
use rayon::iter::{IntoParallelIterator, ParallelIterator};

#[test]
fn first_and_last_choice_pick_the_ends() {
    let mut board_array = [0u8; 14];
    board_array[1] = 2;
    board_array[5] = 1;
    board_array[9] = 3;
    let board = BoardState::make_state(board_array, true);
    // Legal choices for the first player are pits 1 and 4.
    assert_eq!(board.get_valid_choices(), vec![1u8, 4]);
    assert_eq!(FirstChoice.pick(&board), 1);
    assert_eq!(LastChoice.pick(&board), 4);
}

#[test]
fn play_is_deterministic_with_deterministic_strategies() {
    let w1 = Mankala::new(FirstChoice, LastChoice).play();
    let w2 = Mankala::new(FirstChoice, LastChoice).play();
    assert_eq!(w1, w2);
}

#[test]
fn play_from_a_won_in_one_position() {
    // The first player's only pit empties their row on the first move,
    // so the first player wins at once whatever the strategies.
    let mut board_array = [0u8; 14];
    board_array[6] = 1;
    board_array[8] = 4;
    let mut m = Mankala::new(FirstChoice, FirstChoice);
    m.set_board(BoardState::make_state(board_array, true));
    assert!(m.play());
}

#[test]
fn stats_counts_every_game_the_same_way() {
    let m = Mankala::new(FirstChoice, LastChoice);
    let w = Mankala::new(FirstChoice, LastChoice).play();
    let wins = m.stats(8);
    assert_eq!(wins, if w { 8 } else { 0 });
}

#[test]
fn parallel_runs_match_sequential_stats() {
    // With deterministic strategies, running the same match many times
    // concurrently gives exactly the sequential win count.
    let games: u32 = 16;
    let sequential = Mankala::new(FirstChoice, LastChoice).stats(games);
    let parallel = (0..games)
        .into_par_iter()
        .map(|_| Mankala::new(FirstChoice, LastChoice).play())
        .filter(|&won| won)
        .count() as u32;
    assert_eq!(sequential, parallel);
}

#[test]
fn minimax_strategy_plays_a_full_match() {
    let ai = MinimaxAi { zero_depth_eval: StupidEval, depth: 2 };
    let w1 = Mankala::new(ai, FirstChoice).play();
    let w2 = Mankala::new(ai, FirstChoice).play();
    assert_eq!(w1, w2);
}
