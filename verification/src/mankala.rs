use vstd::prelude::*;

use crate::board_state::BoardState;
use crate::board_state::BoardView;
use crate::board_state::abs_index;
use crate::board_state::choices_spec;
use crate::board_state::is_choice;
use crate::board_state::lemma_choices_nonempty;
use crate::board_state::lemma_choices_upto_facts;
use crate::board_state::lemma_measure_nonneg;
use crate::board_state::outside;
use crate::board_state::phi;
use crate::board_state::resow;
use crate::board_state::starting_pits;
use crate::board_state::total;
use crate::board_state::won_spec;

verus! {

/// `b` follows from `a` by one legal move: the side to move in `a`
/// sows one of its legal pits, and the turn flips.
pub open spec fn legal_step(a: BoardView, b: BoardView) -> bool {
    exists|c: int|
        #[trigger] is_choice(a.pits, a.first, c) && b.pits == resow(a.pits, abs_index(a.first, c))
            && b.first == !a.first
}

/// A legal game history: each board follows from the one before it by
/// one legal move.
pub open spec fn legal_trace(t: Seq<BoardView>) -> bool {
    forall|i: int| 0 <= i < t.len() - 1 ==> #[trigger] legal_step(t[i], t[i + 1])
}

/// `b` is reached from `a` by some sequence of legal moves.
pub open spec fn plays_to(a: BoardView, b: BoardView) -> bool {
    exists|t: Seq<BoardView>|
        #[trigger] legal_trace(t) && t.len() >= 1 && t[0] == a && t.last() == b
}

/// A move-selection strategy: given a board, pick a legal relative pit
/// for the side to move. Strategies carry no shared mutable state, so
/// a match can be cloned and run many times, concurrently if need be.
pub trait Player: Sized + Clone {
    fn pick(&self, board: &BoardState) -> (c: u8)
        requires
            total(board@.pits) <= 255,
            !won_spec(board@.pits),
        ensures
            is_choice(board@.pits, board@.first, c as int),
    ;
}

/// Always sows the lowest legal pit.
#[derive(Clone, Copy, Debug)]
pub struct FirstChoice;

impl Player for FirstChoice {
    fn pick(&self, board: &BoardState) -> (c: u8)
        ensures
            c == choices_spec(board@.pits, board@.first)[0],
    {
        proof {
            board.lemma_wf();
            lemma_choices_nonempty(board@.pits, board@.first);
            lemma_choices_upto_facts(board@.pits, board@.first, 6);
        }
        let choices = board.get_valid_choices();
        choices[0]
    }
}

/// Always sows the highest legal pit.
#[derive(Clone, Copy, Debug)]
pub struct LastChoice;

impl Player for LastChoice {
    fn pick(&self, board: &BoardState) -> (c: u8)
        ensures
            c == choices_spec(board@.pits, board@.first).last(),
    {
        proof {
            board.lemma_wf();
            lemma_choices_nonempty(board@.pits, board@.first);
            lemma_choices_upto_facts(board@.pits, board@.first, 6);
        }
        let choices = board.get_valid_choices();
        choices[choices.len() - 1]
    }
}

/// One match: a board and a strategy for each side, the first player's
/// strategy first. The simulator clones it afresh for every game.
pub struct Mankala<P1: Player, P2: Player> {
    board: BoardState,
    players: (P1, P2),
}

impl<P1: Player, P2: Player> Mankala<P1, P2> {
    /// The match's current board.
    pub closed spec fn spec_board(self) -> BoardState {
        self.board
    }

    /// The two strategies, the first player's first.
    pub closed spec fn spec_players(self) -> (P1, P2) {
        self.players
    }

    /// The match's current board, for callers outside the library.
    pub fn get_board(&self) -> (b: BoardState)
        ensures
            b == self.spec_board(),
    {
        self.board
    }

    /// A match can be played while the board's seed total fits in a
    /// pit and the game is not already over.
    pub open spec fn ok(self) -> bool {
        &&& total(self.spec_board()@.pits) <= 255
        &&& !won_spec(self.spec_board()@.pits)
    }

    /// A match on the standard starting position.
    pub fn new(p1_logic: P1, p2_logic: P2) -> (m: Self)
        ensures
            m.spec_board()@.pits == starting_pits(),
            m.spec_board()@.first == true,
            m.spec_players() == (p1_logic, p2_logic),
            m.ok(),
    {
        let board = BoardState::new();
        proof {
            assert(board@.pits[abs_index(true, 0)] == 6);
            assert(board@.pits[abs_index(false, 0)] == 6);
        }
        Mankala { board, players: (p1_logic, p2_logic) }
    }

    /// Replace the match's board, e.g. to start from a custom position.
    pub fn set_board(&mut self, board: BoardState)
        ensures
            final(self).spec_board() == board,
            final(self).spec_players() == old(self).spec_players(),
    {
        self.board = board;
    }

    /// Play the match to the end: the active side's strategy picks a
    /// legal pit, the move is applied, and the turn alternates, until a
    /// move leaves one side's row empty. The winner is the side that
    /// made that final move; since the flag flips after every move, it
    /// is the complement of the side left to move. The game always
    /// ends, because every move strictly shrinks the board's measure.
    pub fn play(&mut self) -> (winner: bool)
        requires
            old(self).ok(),
        ensures
            won_spec(final(self).spec_board()@.pits),
            winner == !final(self).spec_board()@.first,
            total(final(self).spec_board()@.pits) == total(old(self).spec_board()@.pits),
            plays_to(old(self).spec_board()@, final(self).spec_board()@),
            final(self).spec_players() == old(self).spec_players(),
    {
        proof {
            let t0 = seq![self.board@];
            assert(legal_trace(t0) && t0.len() >= 1 && t0[0] == old(self).spec_board()@
                && t0.last() == self.board@);
        }
        while !self.board.is_won()
            invariant
                total(self.board@.pits) == total(old(self).spec_board()@.pits),
                total(self.board@.pits) <= 255,
                plays_to(old(self).spec_board()@, self.board@),
                self.spec_players() == old(self).spec_players(),
            decreases outside(self.board@.pits), phi(self.board@.pits),
        {
            proof {
                self.board.lemma_wf();
                lemma_measure_nonneg(self.board@.pits);
            }
            let ghost before = self.board@;
            let choice = if self.board.get_current_player() {
                self.players.0.pick(&self.board)
            } else {
                self.players.1.pick(&self.board)
            };
            self.board.make_move(choice);
            proof {
                lemma_measure_nonneg(self.board@.pits);
                assert(is_choice(before.pits, before.first, choice as int));
                assert(legal_step(before, self.board@));
                let t = choose|t: Seq<BoardView>|
                    #[trigger] legal_trace(t) && t.len() >= 1 && t[0] == old(self).spec_board()@
                        && t.last() == before;
                let t2 = t.push(self.board@);
                assert(legal_trace(t2)) by {
                    assert forall|i: int| 0 <= i < t2.len() - 1 implies #[trigger] legal_step(
                        t2[i],
                        t2[i + 1],
                    ) by {
                        if i < t.len() - 1 {
                            assert(t2[i] == t[i] && t2[i + 1] == t[i + 1]);
                            assert(legal_step(t[i], t[i + 1]));
                        } else {
                            assert(t2[i] == t.last() && t2[i + 1] == self.board@);
                        }
                    }
                }
                assert(t2.len() >= 1 && t2[0] == old(self).spec_board()@ && t2.last()
                    == self.board@);
            }
        }
        !self.board.get_current_player()
    }

    /// Run `num_of_games` fresh copies of this match to completion,
    /// one after another, and count how many the first player won.
    pub fn stats(&self, num_of_games: u32) -> (wins: u32)
        requires
            self.ok(),
        ensures
            wins <= num_of_games,
    {
        let mut wins: u32 = 0;
        let mut i: u32 = 0;
        while i < num_of_games
            invariant
                wins <= i <= num_of_games,
                self.ok(),
            decreases num_of_games - i,
        {
            let mut game = self.clone();
            if game.play() {
                wins = wins + 1;
            }
            i = i + 1;
        }
        wins
    }
}

impl<P1: Player, P2: Player> Clone for Mankala<P1, P2> {
    /// A fresh copy for one independent game: the same board position
    /// and the two strategies.
    fn clone(&self) -> (m: Self)
        ensures
            m.spec_board() == self.spec_board(),
    {
        Mankala { board: self.board, players: (self.players.0.clone(), self.players.1.clone()) }
    }
}

} // verus!
