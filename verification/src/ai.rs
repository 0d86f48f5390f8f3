use vstd::prelude::*;

use crate::board_state::BoardState;
use crate::board_state::abs_index;
use crate::board_state::is_choice;
use crate::board_state::is_play_pit;
use crate::board_state::lemma_resow;
use crate::board_state::pits_of6;
use crate::board_state::pits_ok;
use crate::board_state::resow;
use crate::board_state::side_counts;
use crate::board_state::side_empty;
use crate::board_state::sum_to;
use crate::board_state::total;
use crate::board_state::won_spec;
use crate::clock::elapsed_millis;
use crate::clock::instant_now;
use crate::mankala::Player;

verus! {

/// Fixed-point scale for evaluation scores: a score `s` stands for the
/// rational number `s / SCORE_SCALE` in the interval [0, 1].
pub const SCORE_SCALE: u32 = 1000000;

/// A static evaluation of a position, used when the search runs out
/// of depth. The score is from the viewpoint of the side to move:
/// `SCORE_SCALE` is a certain win, 0 a certain loss.
pub trait LeafEval: Sized + Clone {
    /// The score this evaluator assigns, as a function of the position.
    spec fn leaf_spec(&self, p: Seq<int>, first: bool) -> int;

    /// Every leaf score lies in [0, SCORE_SCALE].
    proof fn leaf_in_range(&self, p: Seq<int>, first: bool)
        requires
            pits_ok(p),
        ensures
            0 <= self.leaf_spec(p, first) <= SCORE_SCALE,
    ;

    /// Score the board from the viewpoint of the side to move.
    fn leaf(&self, board: &BoardState) -> (r: u32)
        ensures
            r as int == self.leaf_spec(board@.pits, board@.first),
            r <= SCORE_SCALE,
    ;
}

/// Depth-limited minimax value of a position, from the viewpoint of
/// the side to move. A terminal position scores 0 (the mover has no
/// row left to play for); at depth 0 the leaf evaluator decides;
/// otherwise the mover picks the child that is worst for the opponent,
/// and the score is the complement of that child's score.
pub open spec fn mm_spec<E: LeafEval>(e: E, p: Seq<int>, first: bool, depth: nat) -> int
    decreases depth, 7int,
{
    if won_spec(p) {
        0
    } else if depth == 0 {
        e.leaf_spec(p, first)
    } else {
        SCORE_SCALE - best_spec(e, p, first, (depth - 1) as nat, 6)
    }
}

/// The least minimax score, at depth `child_depth`, among the children
/// reached by the legal choices below `n`. `SCORE_SCALE + 1` when no
/// such choice exists.
pub open spec fn best_spec<E: LeafEval>(
    e: E,
    p: Seq<int>,
    first: bool,
    child_depth: nat,
    n: int,
) -> int
    decreases child_depth + 1, n,
{
    if n <= 0 {
        SCORE_SCALE + 1
    } else {
        let rest = best_spec(e, p, first, child_depth, n - 1);
        if is_choice(p, first, n - 1) {
            let v = mm_spec(e, resow(p, abs_index(first, n - 1)), !first, child_depth);
            if v < rest {
                v
            } else {
                rest
            }
        } else {
            rest
        }
    }
}

/// Minimax scores stay in [0, SCORE_SCALE].
pub proof fn lemma_mm_range<E: LeafEval>(e: E, p: Seq<int>, first: bool, depth: nat)
    requires
        pits_ok(p),
    ensures
        0 <= mm_spec(e, p, first, depth) <= SCORE_SCALE,
    decreases depth, 7int,
{
    if won_spec(p) {
    } else if depth == 0 {
        e.leaf_in_range(p, first);
    } else {
        lemma_best_range(e, p, first, (depth - 1) as nat, 6);
        assert(!side_empty(p, first));
        let c = choose|c: int| 0 <= c < 6 && p[abs_index(first, c)] != 0;
        assert(c < 6 && is_choice(p, first, c));
    }
}

/// The best child score is at most `SCORE_SCALE + 1`, and at most
/// `SCORE_SCALE` as soon as some legal choice exists below `n`.
pub proof fn lemma_best_range<E: LeafEval>(e: E, p: Seq<int>, first: bool, child_depth: nat, n: int)
    requires
        pits_ok(p),
        n <= 6,
    ensures
        0 <= best_spec(e, p, first, child_depth, n) <= SCORE_SCALE + 1,
        (exists|c: int| c < n && is_choice(p, first, c)) ==> best_spec(e, p, first, child_depth, n)
            <= SCORE_SCALE,
    decreases child_depth + 1, n,
{
    if n > 0 {
        lemma_best_range(e, p, first, child_depth, n - 1);
        if is_choice(p, first, n - 1) {
            assert(is_play_pit(abs_index(first, n - 1)));
            lemma_resow(p, abs_index(first, n - 1));
            lemma_mm_range(e, resow(p, abs_index(first, n - 1)), !first, child_depth);
        }
        if exists|c: int| c < n && is_choice(p, first, c) {
            let c = choose|c: int| c < n && is_choice(p, first, c);
            if c < n - 1 {
                assert(exists|k: int| k < n - 1 && is_choice(p, first, k));
            }
        }
    }
}

/// Depth-limited minimax search. The result is exactly `mm_spec`: a
/// terminal board scores 0 without recursing, depth 0 delegates to the
/// leaf evaluator unchanged, and otherwise the score is the complement
/// of the best child score.
pub fn minimax<E: LeafEval>(board: &BoardState, depth: u8, zero_depth_eval: &E) -> (r: u32)
    requires
        total(board@.pits) <= 255,
    ensures
        r as int == mm_spec(*zero_depth_eval, board@.pits, board@.first, depth as nat),
        r <= SCORE_SCALE,
        won_spec(board@.pits) ==> r == 0,
        !won_spec(board@.pits) && depth == 0 ==> r as int == zero_depth_eval.leaf_spec(
            board@.pits,
            board@.first,
        ),
    decreases depth,
{
    proof {
        board.lemma_wf();
    }
    if board.is_won() {
        return 0;
    }
    if depth == 0 {
        return zero_depth_eval.leaf(board);
    }
    let ghost p = board@.pits;
    let ghost first = board@.first;
    let ghost d: nat = (depth - 1) as nat;
    let side = board.current_side();
    let mut best: u32 = SCORE_SCALE + 1;
    let mut c: u8 = 0;
    while c < 6
        invariant
            c <= 6,
            depth >= 1,
            pits_ok(p),
            total(p) <= 255,
            !won_spec(p),
            d == (depth - 1) as nat,
            board@.pits == p,
            board@.first == first,
            pits_of6(side) == side_counts(p, first),
            best as int == best_spec(*zero_depth_eval, p, first, d, c as int),
        decreases 6 - c,
    {
        let ghost n: int = c as int;
        let ghost prev: int = best as int;
        proof {
            assert(pits_of6(side)[n] == side_counts(p, first)[n]);
            assert(side@[n] as int == p[abs_index(first, n)]);
        }
        if side[c as usize] > 0 {
            let mut child = *board;
            child.make_move(c);
            let v = minimax(&child, depth - 1, zero_depth_eval);
            proof {
                assert(v as int == mm_spec(
                    *zero_depth_eval,
                    resow(p, abs_index(first, n)),
                    !first,
                    d,
                ));
            }
            if v < best {
                best = v;
            }
        }
        c = c + 1;
        proof {
            assert(best_spec(*zero_depth_eval, p, first, d, n + 1) == if is_choice(p, first, n) {
                let v = mm_spec(*zero_depth_eval, resow(p, abs_index(first, n)), !first, d);
                if v < prev {
                    v
                } else {
                    prev
                }
            } else {
                prev
            });
        }
    }
    proof {
        lemma_best_range(*zero_depth_eval, p, first, d, 6);
        assert(!side_empty(p, first));
        let w = choose|w: int| 0 <= w < 6 && p[abs_index(first, w)] != 0;
        assert(w < 6 && is_choice(p, first, w));
    }
    SCORE_SCALE - best
}

/// Sum of a six-pit row.
fn sum_side(side: &[u8; 6]) -> (s: u32)
    ensures
        s as int == sum_to(pits_of6(*side), 6),
        s <= 1530,
{
    let s: u32 = side[0] as u32 + side[1] as u32 + side[2] as u32 + side[3] as u32 + side[4] as u32
        + side[5] as u32;
    proof {
        reveal_with_fuel(sum_to, 7);
    }
    s
}

proof fn lemma_side_sum_nonneg(p: Seq<int>, first: bool)
    requires
        pits_ok(p),
    ensures
        sum_to(side_counts(p, first), 6) >= 0,
{
    reveal_with_fuel(sum_to, 7);
    assert(forall|c: int| 0 <= c < 6 ==> #[trigger] side_counts(p, first)[c] >= 0);
}

/// The leaf evaluator the search falls back on by default: the share
/// of the seeds still in play that sit on the opponent's side. The
/// more of the circulating seeds the opponent holds, the better for
/// the mover, who gets to sow next.
#[derive(Clone, Copy, Debug)]
pub struct BaseEval;

impl LeafEval for BaseEval {
    open spec fn leaf_spec(&self, p: Seq<int>, first: bool) -> int {
        let op = sum_to(side_counts(p, !first), 6);
        let me = sum_to(side_counts(p, first), 6);
        if op + me == 0 {
            0
        } else {
            SCORE_SCALE * op / (op + me)
        }
    }

    proof fn leaf_in_range(&self, p: Seq<int>, first: bool) {
        lemma_side_sum_nonneg(p, !first);
        lemma_side_sum_nonneg(p, first);
        let op = sum_to(side_counts(p, !first), 6);
        let me = sum_to(side_counts(p, first), 6);
        if op + me > 0 {
            let t = op + me;
            assert(SCORE_SCALE * op >= 0 && SCORE_SCALE * op <= SCORE_SCALE * t)
                by (nonlinear_arith)
                requires
                    0 <= op,
                    op <= t,
            ;
            vstd::arithmetic::div_mod::lemma_div_basics_4(SCORE_SCALE * op, t);
            vstd::arithmetic::div_mod::lemma_div_is_ordered(SCORE_SCALE * op, SCORE_SCALE * t, t);
            vstd::arithmetic::div_mod::lemma_div_multiples_vanish(SCORE_SCALE as int, t);
            assert(SCORE_SCALE * t == t * SCORE_SCALE) by (nonlinear_arith);
        }
    }

    fn leaf(&self, board: &BoardState) -> (r: u32) {
        proof {
            board.lemma_wf();
            self.leaf_in_range(board@.pits, board@.first);
        }
        let op_row = board.opponent_side();
        let me_row = board.current_side();
        let op = sum_side(&op_row);
        let me = sum_side(&me_row);
        if op + me == 0 {
            0
        } else {
            (SCORE_SCALE * op) / (op + me)
        }
    }
}

/// A constant leaf evaluator: every position is worth one half. With
/// it, minimax plays out only what the search depth can prove.
#[derive(Clone, Copy, Debug)]
pub struct StupidEval;

impl LeafEval for StupidEval {
    open spec fn leaf_spec(&self, p: Seq<int>, first: bool) -> int {
        SCORE_SCALE as int / 2
    }

    proof fn leaf_in_range(&self, p: Seq<int>, first: bool) {
    }

    fn leaf(&self, board: &BoardState) -> (r: u32) {
        SCORE_SCALE / 2
    }
}

/// Pick the legal choice whose resulting board scores lowest under
/// depth-limited minimax. The child board's score is from the
/// opponent's viewpoint, so minimizing it maximizes the mover's own
/// prospects. Among equally scored choices the lowest pit wins.
pub fn best_choice<E: LeafEval>(board: &BoardState, depth: u8, zero_depth_eval: &E) -> (c: u8)
    requires
        total(board@.pits) <= 255,
        !side_empty(board@.pits, board@.first),
    ensures
        is_choice(board@.pits, board@.first, c as int),
        mm_spec(
            *zero_depth_eval,
            resow(board@.pits, abs_index(board@.first, c as int)),
            !board@.first,
            depth as nat,
        ) == best_spec(*zero_depth_eval, board@.pits, board@.first, depth as nat, 6),
{
    proof {
        board.lemma_wf();
    }
    let ghost p = board@.pits;
    let ghost first = board@.first;
    let ghost d: nat = depth as nat;
    let side = board.current_side();
    let mut best_v: u32 = SCORE_SCALE + 1;
    let mut best_c: u8 = 0;
    let mut has: bool = false;
    let mut c: u8 = 0;
    while c < 6
        invariant
            c <= 6,
            pits_ok(p),
            total(p) <= 255,
            d == depth as nat,
            board@.pits == p,
            board@.first == first,
            pits_of6(side) == side_counts(p, first),
            best_v as int == best_spec(*zero_depth_eval, p, first, d, c as int),
            has == exists|k: int| k < c as int && is_choice(p, first, k),
            (!has) ==> best_v == SCORE_SCALE + 1,
            has ==> is_choice(p, first, best_c as int) && best_v as int == mm_spec(
                *zero_depth_eval,
                resow(p, abs_index(first, best_c as int)),
                !first,
                d,
            ),
        decreases 6 - c,
    {
        let ghost n: int = c as int;
        let ghost prev: int = best_v as int;
        proof {
            assert(pits_of6(side)[n] == side_counts(p, first)[n]);
            assert(side@[n] as int == p[abs_index(first, n)]);
        }
        if side[c as usize] > 0 {
            let mut child = *board;
            child.make_move(c);
            let v = minimax(&child, depth, zero_depth_eval);
            proof {
                assert(v as int == mm_spec(
                    *zero_depth_eval,
                    resow(p, abs_index(first, n)),
                    !first,
                    d,
                ));
            }
            if v < best_v {
                best_v = v;
                best_c = c;
            }
            has = true;
        }
        c = c + 1;
        proof {
            assert(best_spec(*zero_depth_eval, p, first, d, n + 1) == if is_choice(p, first, n) {
                let v = mm_spec(*zero_depth_eval, resow(p, abs_index(first, n)), !first, d);
                if v < prev {
                    v
                } else {
                    prev
                }
            } else {
                prev
            });
            assert((exists|k: int| k < n + 1 && is_choice(p, first, k)) == (is_choice(p, first, n)
                || exists|k: int| k < n && is_choice(p, first, k)));
        }
    }
    proof {
        assert(!side_empty(p, first));
        let w = choose|w: int| 0 <= w < 6 && p[abs_index(first, w)] != 0;
        assert(w < 6 && is_choice(p, first, w));
    }
    best_c
}

/// A decisive score: a forced outcome, which deeper search cannot
/// improve on.
pub open spec fn decisive(s: int) -> bool {
    s == 0 || s == SCORE_SCALE as int
}

/// Iterative deepening: re-run the depth-limited search at depths
/// 0, 1, 2, ... until the wall-clock budget runs out or the score
/// becomes decisive. The budget is checked between depths, never
/// within one. The result is the exact minimax value at the last depth
/// searched: some depth such that no depth from 1 up to it scored
/// decisively (else the loop would have stopped there), and with no
/// budget at all the depth searched is 0.
pub fn deepening_eval<E: LeafEval>(board: &BoardState, zero_depth_eval: &E, budget_ms: u64) -> (r:
    u32)
    requires
        total(board@.pits) <= 255,
    ensures
        r <= SCORE_SCALE,
        exists|dd: nat|
            r as int == mm_spec(*zero_depth_eval, board@.pits, board@.first, dd) && (forall|d: int|
                1 <= d < dd ==> !decisive(
                    #[trigger] mm_spec(*zero_depth_eval, board@.pits, board@.first, d as nat),
                )),
        budget_ms == 0 ==> r as int == mm_spec(*zero_depth_eval, board@.pits, board@.first, 0),
{
    let start = instant_now();
    let mut result = minimax(board, 0, zero_depth_eval);
    let mut depth: u8 = 0;
    loop
        invariant_except_break
            total(board@.pits) <= 255,
            result <= SCORE_SCALE,
            result as int == mm_spec(*zero_depth_eval, board@.pits, board@.first, depth as nat),
            forall|d: int|
                1 <= d <= depth as int ==> !decisive(
                    #[trigger] mm_spec(*zero_depth_eval, board@.pits, board@.first, d as nat),
                ),
            budget_ms == 0 ==> depth == 0,
        ensures
            result <= SCORE_SCALE,
            exists|dd: nat|
                result as int == mm_spec(*zero_depth_eval, board@.pits, board@.first, dd) && (
                forall|d: int|
                    1 <= d < dd ==> !decisive(
                        #[trigger] mm_spec(*zero_depth_eval, board@.pits, board@.first, d as nat),
                    )),
            budget_ms == 0 ==> result as int == mm_spec(
                *zero_depth_eval,
                board@.pits,
                board@.first,
                0,
            ),
        decreases u8::MAX - depth,
    {
        if depth == u8::MAX {
            break;
        }
        if elapsed_millis(&start) >= budget_ms {
            break;
        }
        depth = depth + 1;
        result = minimax(board, depth, zero_depth_eval);
        proof {
            assert(result as int == mm_spec(
                *zero_depth_eval,
                board@.pits,
                board@.first,
                depth as nat,
            ));
        }
        if result == SCORE_SCALE || result == 0 {
            proof {
                assert(forall|d: int|
                    1 <= d < depth as int ==> !decisive(
                        #[trigger] mm_spec(*zero_depth_eval, board@.pits, board@.first, d as nat),
                    ));
            }
            break;
        }
        proof {
            assert forall|d: int| 1 <= d <= depth as int implies !decisive(
                #[trigger] mm_spec(*zero_depth_eval, board@.pits, board@.first, d as nat),
            ) by {
                if d == depth as int {
                    assert(result as int != 0 && result as int != SCORE_SCALE as int);
                }
            }
        }
    }
    result
}

/// A strategy that picks the choice whose child board scores lowest
/// under depth-limited minimax with the given leaf evaluator.
#[derive(Clone, Copy, Debug)]
pub struct MinimaxAi<E: LeafEval> {
    pub zero_depth_eval: E,
    pub depth: u8,
}

impl<E: LeafEval> Player for MinimaxAi<E> {
    fn pick(&self, board: &BoardState) -> (c: u8)
        ensures
            mm_spec(
                self.zero_depth_eval,
                resow(board@.pits, abs_index(board@.first, c as int)),
                !board@.first,
                self.depth as nat,
            ) == best_spec(
                self.zero_depth_eval,
                board@.pits,
                board@.first,
                self.depth as nat,
                6,
            ),
    {
        best_choice(board, self.depth, &self.zero_depth_eval)
    }
}

/// A strategy that scores each child board with the iterative-deepening
/// search under a wall-clock budget and picks the lowest-scoring one.
/// How deep each child gets searched depends on the clock, so only the
/// legality of the choice is promised.
#[derive(Clone, Copy, Debug)]
pub struct DeepeningAi<E: LeafEval> {
    pub zero_depth_eval: E,
    pub budget_ms: u64,
}

impl<E: LeafEval> Player for DeepeningAi<E> {
    fn pick(&self, board: &BoardState) -> (c: u8) {
        proof {
            board.lemma_wf();
        }
        let ghost p = board@.pits;
        let ghost first = board@.first;
        let side = board.current_side();
        let mut best_v: u32 = 0;
        let mut best_c: u8 = 0;
        let mut has: bool = false;
        let mut c: u8 = 0;
        while c < 6
            invariant
                c <= 6,
                pits_ok(p),
                total(p) <= 255,
                board@.pits == p,
                board@.first == first,
                pits_of6(side) == side_counts(p, first),
                has == exists|k: int| k < c as int && is_choice(p, first, k),
                has ==> is_choice(p, first, best_c as int),
            decreases 6 - c,
        {
            let ghost n: int = c as int;
            proof {
                assert(pits_of6(side)[n] == side_counts(p, first)[n]);
                assert(side@[n] as int == p[abs_index(first, n)]);
            }
            if side[c as usize] > 0 {
                let mut child = *board;
                child.make_move(c);
                let v = deepening_eval(&child, &self.zero_depth_eval, self.budget_ms);
                if (!has) || v < best_v {
                    best_v = v;
                    best_c = c;
                }
                has = true;
            }
            c = c + 1;
            proof {
                assert((exists|k: int| k < n + 1 && is_choice(p, first, k)) == (is_choice(
                    p,
                    first,
                    n,
                ) || exists|k: int| k < n && is_choice(p, first, k)));
            }
        }
        proof {
            assert(!side_empty(p, first));
            let w = choose|w: int| 0 <= w < 6 && p[abs_index(first, w)] != 0;
            assert(w < 6 && is_choice(p, first, w));
        }
        best_c
    }
}

} // verus!
