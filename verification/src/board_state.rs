use vstd::prelude::*;

verus! {

broadcast use vstd::array::group_array_axioms;

/// Mathematical view of a board: the 14 slot counts as integers, and
/// whose turn it is.
pub struct BoardView {
    pub pits: Seq<int>,
    pub first: bool,
}

/// True of the two store slots (accumulators); they are never a legal
/// sowing source.
pub open spec fn is_store(i: int) -> bool {
    i == 3 || i == 10
}

/// True of the twelve play slots.
pub open spec fn is_play_pit(i: int) -> bool {
    0 <= i < 14 && i != 3 && i != 10
}

/// Absolute slot index of a side's relative pit `c` (0..6).
/// The first player's row is 0,1,2,4,5,6 (store 3); the second
/// player's row is 7,8,9,11,12,13 (store 10).
pub open spec fn abs_index(first: bool, c: int) -> int {
    if first {
        if c < 3 {
            c
        } else {
            c + 1
        }
    } else {
        if c < 3 {
            c + 7
        } else {
            c + 8
        }
    }
}

/// Sum of the first `n` slot counts.
pub open spec fn sum_to(p: Seq<int>, n: int) -> int
    decreases n,
{
    if n <= 0 {
        0
    } else {
        sum_to(p, n - 1) + p[n - 1]
    }
}

/// Total seed count over all 14 slots.
pub open spec fn total(p: Seq<int>) -> int {
    sum_to(p, 14)
}

/// Seeds held by the two stores.
pub open spec fn store_sum(p: Seq<int>) -> int {
    p[3] + p[10]
}

/// Seeds still in circulation: everything outside the stores.
pub open spec fn outside(p: Seq<int>) -> int {
    total(p) - store_sum(p)
}

/// Steps from slot `i` to the next store going forward (1..=7).
pub open spec fn store_dist(i: int) -> int {
    if i < 3 {
        3 - i
    } else if i < 10 {
        10 - i
    } else {
        17 - i
    }
}

/// Sowing potential of the first `n` slots: each circulating seed
/// weighted by its distance to the next store.
pub open spec fn phi_to(p: Seq<int>, n: int) -> int
    decreases n,
{
    if n <= 0 {
        0
    } else {
        phi_to(p, n - 1) + if is_store(n - 1) {
            0
        } else {
            p[n - 1] * store_dist(n - 1)
        }
    }
}

/// Sowing potential of the whole board. Every sowing pass strictly
/// decreases the pair (outside, phi) lexicographically, which is why
/// moves and games terminate.
pub open spec fn phi(p: Seq<int>) -> int {
    phi_to(p, 14)
}

/// The slot after `i`, wrapping around the board.
pub open spec fn next_slot(i: int) -> int {
    if i >= 13 {
        0
    } else {
        i + 1
    }
}

/// Where a hand of `h` seeds sown from slot `i` lands.
pub open spec fn land(i: int, h: nat) -> int
    decreases h,
{
    if h == 0 {
        i
    } else {
        land(next_slot(i), (h - 1) as nat)
    }
}

/// The board after sowing `h` seeds one by one into the slots that
/// follow `i`.
pub open spec fn sow(p: Seq<int>, i: int, h: nat) -> Seq<int>
    decreases h,
{
    if h == 0 {
        p
    } else {
        let j = next_slot(i);
        sow(p.update(j, p[j] + 1), j, (h - 1) as nat)
    }
}

/// Well-formed slot sequence: 14 slots, all counts nonnegative.
pub open spec fn pits_ok(p: Seq<int>) -> bool {
    p.len() == 14 && (forall|k: int| 0 <= k < 14 ==> 0 <= #[trigger] p[k])
}

/// The lexicographic measure (outside, phi) strictly decreases from
/// `b` to `a`.
pub open spec fn measure_lt(a: Seq<int>, b: Seq<int>) -> bool {
    outside(a) < outside(b) || (outside(a) == outside(b) && phi(a) < phi(b))
}

/// The board after one sowing pass from slot `i`: pick up everything
/// at `i` and sow it forward.
pub open spec fn pass_board(p: Seq<int>, i: int) -> Seq<int> {
    sow(p.update(i, 0), i, p[i] as nat)
}

/// Where one sowing pass from slot `i` lands.
pub open spec fn pass_land(p: Seq<int>, i: int) -> int {
    land(i, p[i] as nat)
}

proof fn lemma_sum_to_update(p: Seq<int>, k: int, v: int, n: int)
    requires
        0 <= k < p.len(),
        n <= p.len(),
    ensures
        sum_to(p.update(k, v), n) == sum_to(p, n) + if k < n {
            v - p[k]
        } else {
            0
        },
    decreases n,
{
    if n > 0 {
        lemma_sum_to_update(p, k, v, n - 1);
    }
}

proof fn lemma_phi_to_update(p: Seq<int>, k: int, v: int, n: int)
    requires
        0 <= k < p.len(),
        n <= p.len(),
    ensures
        phi_to(p.update(k, v), n) == phi_to(p, n) + if k < n && !is_store(k) {
            (v - p[k]) * store_dist(k)
        } else {
            0
        },
    decreases n,
{
    if n > 0 {
        lemma_phi_to_update(p, k, v, n - 1);
        if k == n - 1 && !is_store(k) {
            assert((v - p[k]) * store_dist(k) == v * store_dist(k) - p[k] * store_dist(k))
                by (nonlinear_arith);
        }
    }
}

proof fn lemma_sum_to_nonneg(p: Seq<int>, n: int)
    requires
        pits_ok(p),
        n <= 14,
    ensures
        sum_to(p, n) >= 0,
    decreases n,
{
    if n > 0 {
        lemma_sum_to_nonneg(p, n - 1);
    }
}

proof fn lemma_phi_to_nonneg(p: Seq<int>, n: int)
    requires
        pits_ok(p),
        n <= 14,
    ensures
        phi_to(p, n) >= 0,
    decreases n,
{
    if n > 0 {
        lemma_phi_to_nonneg(p, n - 1);
        if !is_store(n - 1) {
            assert(p[n - 1] * store_dist(n - 1) >= 0) by (nonlinear_arith)
                requires
                    p[n - 1] >= 0,
                    store_dist(n - 1) >= 0,
            ;
        }
    }
}

proof fn lemma_elem_le_total(p: Seq<int>, k: int)
    requires
        pits_ok(p),
        0 <= k < 14,
    ensures
        p[k] <= total(p),
{
    lemma_sum_to_update(p, k, 0, 14);
    lemma_sum_to_nonneg(p.update(k, 0), 14);
}

/// Every board with nonnegative counts has a nonnegative measure.
pub proof fn lemma_measure_nonneg(p: Seq<int>)
    requires
        pits_ok(p),
    ensures
        outside(p) >= 0,
        phi(p) >= 0,
        total(p) >= 0,
{
    let q = p.update(3, 0);
    lemma_sum_to_update(p, 3, 0, 14);
    lemma_sum_to_update(q, 10, 0, 14);
    lemma_sum_to_nonneg(q.update(10, 0), 14);
    lemma_sum_to_nonneg(p, 14);
    lemma_phi_to_nonneg(p, 14);
}

/// A sowing pass only adds seeds slot by slot: counts stay
/// nonnegative, the total grows by the hand, stores never shrink.
proof fn lemma_sow_basic(p: Seq<int>, i: int, h: nat)
    requires
        pits_ok(p),
        0 <= i < 14,
    ensures
        pits_ok(sow(p, i, h)),
        total(sow(p, i, h)) == total(p) + h,
        store_sum(sow(p, i, h)) >= store_sum(p),
        forall|k: int| 0 <= k < 14 ==> #[trigger] sow(p, i, h)[k] >= p[k],
    decreases h,
{
    if h > 0 {
        let j: int = next_slot(i);
        let p1 = p.update(j, p[j] + 1);
        lemma_sum_to_update(p, j, p[j] + 1, 14);
        lemma_sow_basic(p1, j, (h - 1) as nat);
    }
}

proof fn lemma_land_range(i: int, h: nat)
    requires
        0 <= i < 14,
    ensures
        0 <= land(i, h) < 14,
    decreases h,
{
    if h > 0 {
        lemma_land_range(next_slot(i), (h - 1) as nat);
    }
}

proof fn lemma_land_succ(i: int, h: nat)
    requires
        0 <= i < 14,
    ensures
        land(i, h + 1) == next_slot(land(i, h)),
    decreases h,
{
    let j: int = next_slot(i);
    assert(land(i, h + 1) == land(j, h));
    if h > 0 {
        lemma_land_succ(j, (h - 1) as nat);
        assert(land(j, ((h - 1) as nat) + 1) == next_slot(land(j, (h - 1) as nat)));
        assert(land(i, h) == land(j, (h - 1) as nat));
    } else {
        assert(land(j, 0) == j);
        assert(land(i, 0) == i);
    }
}

/// Sowing `h` seeds is sowing `h - 1` seeds and then dropping one more
/// where the hand lands.
proof fn lemma_sow_unroll_back(p: Seq<int>, i: int, h: nat)
    requires
        p.len() == 14,
        0 <= i < 14,
        h >= 1,
    ensures
        sow(p, i, h) == sow(p, i, (h - 1) as nat).update(
            land(i, h),
            sow(p, i, (h - 1) as nat)[land(i, h)] + 1,
        ),
    decreases h,
{
    let j: int = next_slot(i);
    let p1 = p.update(j, p[j] + 1);
    if h == 1 {
        assert(sow(p1, j, 0) == p1);
        assert(sow(p, i, 0) == p);
        assert(land(j, 0) == j);
    } else {
        lemma_sow_unroll_back(p1, j, (h - 1) as nat);
        lemma_land_succ(i, (h - 1) as nat);
    }
}

/// The landing slot of a nonempty hand has at least one seed.
proof fn lemma_sow_land_deposit(p: Seq<int>, i: int, h: nat)
    requires
        pits_ok(p),
        0 <= i < 14,
        h >= 1,
    ensures
        0 <= land(i, h) < 14,
        sow(p, i, h)[land(i, h)] >= p[land(i, h)] + 1,
{
    lemma_land_range(i, h);
    lemma_sow_unroll_back(p, i, h);
    lemma_sow_basic(p, i, (h - 1) as nat);
}

/// Walking forward one slot takes one step off the distance to the
/// next store, until that store itself is reached.
proof fn lemma_store_dist_step(i: int)
    requires
        0 <= i < 14,
    ensures
        1 <= store_dist(i) <= 7,
        0 <= next_slot(i) < 14,
        is_store(next_slot(i)) <==> store_dist(i) == 1,
        !is_store(next_slot(i)) ==> store_dist(next_slot(i)) == store_dist(i) - 1,
{
}

/// Potential gained by dropping `h` seeds at distances `d - 1`,
/// `d - 2`, ... from the next store.
pub open spec fn gap_gain(d: int, h: nat) -> int
    decreases h,
{
    if h == 0 {
        0
    } else {
        (d - 1) + gap_gain(d - 1, (h - 1) as nat)
    }
}

/// A pass too short to reach a store keeps every seed in circulation
/// and gains exactly `gap_gain` potential.
proof fn lemma_sow_in_gap(p: Seq<int>, i: int, h: nat)
    requires
        pits_ok(p),
        0 <= i < 14,
        h < store_dist(i),
    ensures
        outside(sow(p, i, h)) == outside(p) + h,
        phi(sow(p, i, h)) == phi(p) + gap_gain(store_dist(i), h),
    decreases h,
{
    if h > 0 {
        let j: int = next_slot(i);
        lemma_store_dist_step(i);
        let p1 = p.update(j, p[j] + 1);
        lemma_sum_to_update(p, j, p[j] + 1, 14);
        lemma_phi_to_update(p, j, p[j] + 1, 14);
        lemma_sow_in_gap(p1, j, (h - 1) as nat);
    }
}

proof fn lemma_gap_gain_bound(d: int, h: nat)
    requires
        1 <= h <= d - 1,
    ensures
        gap_gain(d, h) <= h * (d - 1),
    decreases h,
{
    if h == 1 {
        assert(gap_gain(d - 1, 0) == 0);
    } else {
        lemma_gap_gain_bound(d - 1, (h - 1) as nat);
        assert((h - 1) * (d - 2) <= (h - 1) * (d - 1)) by (nonlinear_arith)
            requires
                h >= 1,
        ;
        assert((d - 1) + (h - 1) * (d - 1) == h * (d - 1)) by (nonlinear_arith);
    }
}

/// A pass long enough to reach a store banks at least one seed there.
proof fn lemma_sow_store_visit(p: Seq<int>, i: int, h: nat)
    requires
        pits_ok(p),
        0 <= i < 14,
        h >= store_dist(i),
    ensures
        store_sum(sow(p, i, h)) >= store_sum(p) + 1,
    decreases h,
{
    let j: int = next_slot(i);
    lemma_store_dist_step(i);
    let p1 = p.update(j, p[j] + 1);
    if store_dist(i) == 1 {
        lemma_sow_basic(p1, j, (h - 1) as nat);
    } else {
        lemma_sow_store_visit(p1, j, (h - 1) as nat);
    }
}

/// One full sowing pass from a nonempty play pit: the total is
/// conserved, the landing slot is nonempty, and the measure
/// (outside, phi) strictly decreases lexicographically.
pub proof fn lemma_pass(p: Seq<int>, i: int)
    requires
        pits_ok(p),
        is_play_pit(i),
        p[i] >= 1,
    ensures
        pits_ok(pass_board(p, i)),
        total(pass_board(p, i)) == total(p),
        0 <= pass_land(p, i) < 14,
        pass_board(p, i)[pass_land(p, i)] >= 1,
        measure_lt(pass_board(p, i), p),
{
    let h = p[i] as nat;
    let p1 = p.update(i, 0);
    let q = pass_board(p, i);
    let j: int = pass_land(p, i);
    lemma_sum_to_update(p, i, 0, 14);
    lemma_phi_to_update(p, i, 0, 14);
    lemma_sow_basic(p1, i, h);
    lemma_sow_land_deposit(p1, i, h);
    lemma_store_dist_step(i);
    if h < store_dist(i) {
        lemma_sow_in_gap(p1, i, h);
        lemma_gap_gain_bound(store_dist(i), h);
        assert((0 - p[i]) * store_dist(i) == -(p[i] * store_dist(i))) by (nonlinear_arith);
        assert(phi(p1) == phi(p) - p[i] * store_dist(i));
        assert(h * (store_dist(i) - 1) < h * store_dist(i)) by (nonlinear_arith)
            requires
                h >= 1,
        ;
    } else {
        lemma_sow_store_visit(p1, i, h);
    }
}

/// The measure ordering is transitive.
proof fn lemma_measure_trans(a: Seq<int>, b: Seq<int>, c: Seq<int>)
    requires
        measure_lt(a, b),
        measure_lt(b, c),
    ensures
        measure_lt(a, c),
{
}

/// The board after a whole move from slot `i`: sow the pit, and keep
/// re-sowing the landing slot until the hand lands in a store or in a
/// slot that was empty.
pub open spec fn resow(p: Seq<int>, i: int) -> Seq<int>
    decreases outside(p), phi(p),
        when pits_ok(p) && is_play_pit(i) && p[i] >= 1
{
    let q = pass_board(p, i);
    let j: int = pass_land(p, i);
    if is_store(j) || q[j] == 1 {
        q
    } else {
        proof {
            lemma_pass(p, i);
            lemma_measure_nonneg(q);
        }
        resow(q, j)
    }
}

/// The slot counts of an executable board, as integers.
pub open spec fn pits_of(a: [u8; 14]) -> Seq<int> {
    Seq::new(14, |k: int| a@[k] as int)
}

/// The standard starting layout: 6 seeds in each play pit, empty stores.
pub open spec fn starting_pits() -> Seq<int> {
    seq![6, 6, 6, 0, 6, 6, 6, 6, 6, 6, 0, 6, 6, 6]
}

/// A side's six play-pit counts, in play order.
pub open spec fn side_counts(p: Seq<int>, first: bool) -> Seq<int> {
    Seq::new(6, |c: int| p[abs_index(first, c)])
}

/// A side has run out of seeds: all six of its play pits are empty.
pub open spec fn side_empty(p: Seq<int>, first: bool) -> bool {
    forall|c: int| 0 <= c < 6 ==> p[abs_index(first, c)] == 0
}

/// A board is terminal as soon as either side's row is empty,
/// whoever's turn it is.
pub open spec fn won_spec(p: Seq<int>) -> bool {
    side_empty(p, true) || side_empty(p, false)
}

/// Relative pit `c` is a legal sowing source for the side to move.
pub open spec fn is_choice(p: Seq<int>, first: bool, c: int) -> bool {
    0 <= c < 6 && p[abs_index(first, c)] >= 1
}

/// The legal choices among the relative pits `0..n`, in increasing order.
pub open spec fn choices_upto(p: Seq<int>, first: bool, n: int) -> Seq<u8>
    decreases n,
{
    if n <= 0 {
        Seq::empty()
    } else if p[abs_index(first, n - 1)] >= 1 {
        choices_upto(p, first, n - 1).push((n - 1) as u8)
    } else {
        choices_upto(p, first, n - 1)
    }
}

/// All legal choices of the side to move, in increasing order.
pub open spec fn choices_spec(p: Seq<int>, first: bool) -> Seq<u8> {
    choices_upto(p, first, 6)
}

/// Canonical board equality: the per-side projections and the turn
/// flag agree. Store counts play no part, and neither does which
/// absolute row a side happens to occupy.
pub open spec fn canon_eq(a: BoardView, b: BoardView) -> bool {
    &&& a.first == b.first
    &&& side_counts(a.pits, true) == side_counts(b.pits, true)
    &&& side_counts(a.pits, false) == side_counts(b.pits, false)
}

/// A whole move conserves the total, keeps the board well formed, and
/// strictly decreases the measure (outside, phi).
pub proof fn lemma_resow(p: Seq<int>, i: int)
    requires
        pits_ok(p),
        is_play_pit(i),
        p[i] >= 1,
    ensures
        pits_ok(resow(p, i)),
        total(resow(p, i)) == total(p),
        measure_lt(resow(p, i), p),
    decreases outside(p), phi(p),
{
    lemma_pass(p, i);
    lemma_measure_nonneg(p);
    lemma_measure_nonneg(pass_board(p, i));
    let q = pass_board(p, i);
    let j: int = pass_land(p, i);
    if is_store(j) || q[j] == 1 {
    } else {
        lemma_resow(q, j);
        lemma_measure_trans(resow(q, j), q, p);
    }
}

proof fn lemma_pits_of_update(a: [u8; 14], b: [u8; 14], k: int, w: u8)
    requires
        0 <= k < 14,
        b@ == a@.update(k, w),
    ensures
        pits_of(b) == pits_of(a).update(k, w as int),
{
    assert(pits_of(b) =~= pits_of(a).update(k, w as int));
}

/// One game position: the 14 slot counts and whose turn it is.
#[derive(Clone, Copy, Debug)]
pub struct BoardState {
    board: [u8; 14],
    is_first_player: bool,
}

impl View for BoardState {
    type V = BoardView;

    closed spec fn view(&self) -> BoardView {
        BoardView { pits: pits_of(self.board), first: self.is_first_player }
    }
}

impl BoardState {
    /// Every board is well formed: 14 slots, each holding between 0
    /// and 255 seeds.
    pub open spec fn wf(self) -> bool {
        &&& pits_ok(self@.pits)
        &&& forall|k: int| 0 <= k < 14 ==> #[trigger] self@.pits[k] <= 255
    }

    /// Well-formedness is not an assumption: it holds of every value
    /// of the type.
    pub proof fn lemma_wf(self)
        ensures
            self.wf(),
    {
        assert forall|k: int| 0 <= k < 14 implies 0 <= #[trigger] self@.pits[k] <= 255 by {
            assert(self@.pits[k] == self.board@[k] as int);
        }
    }

    /// The standard starting position: 6 seeds in each of the 12 play
    /// pits, empty stores, first player to move.
    pub fn new() -> (b: BoardState)
        ensures
            b@.pits == starting_pits(),
            b@.first == true,
            total(b@.pits) == 72,
    {
        let b = BoardState {
            board: [6, 6, 6, 0, 6, 6, 6, 6, 6, 6, 0, 6, 6, 6],
            is_first_player: true,
        };
        proof {
            assert(b@.pits =~= starting_pits());
            reveal_with_fuel(sum_to, 15);
        }
        b
    }

    /// A custom layout with the first player to move.
    pub fn from(custom_board: [u8; 14]) -> (b: BoardState)
        ensures
            b@.pits == pits_of(custom_board),
            b@.first == true,
    {
        BoardState { board: custom_board, is_first_player: true }
    }

    /// A custom layout with the given side to move.
    pub fn make_state(custom_board: [u8; 14], is_first_players_turn: bool) -> (b: BoardState)
        ensures
            b@.pits == pits_of(custom_board),
            b@.first == is_first_players_turn,
    {
        BoardState { board: custom_board, is_first_player: is_first_players_turn }
    }

    /// The raw slot counts, in absolute board order.
    pub fn get_board(&self) -> (a: [u8; 14])
        ensures
            pits_of(a) == self@.pits,
    {
        self.board
    }

    /// Absolute slot index of relative pit `choice` on the given side.
    fn get_idx(&self, choice: u8, is_first_player: bool) -> (idx: u8)
        requires
            choice < 6,
        ensures
            idx as int == abs_index(is_first_player, choice as int),
            idx < 14,
            is_play_pit(idx as int),
    {
        if is_first_player {
            if choice < 3 {
                choice
            } else {
                choice + 1
            }
        } else {
            if choice < 3 {
                choice + 7
            } else {
                choice + 8
            }
        }
    }

    /// Absolute slot index of relative pit `choice` for the side to move.
    fn choice_to_idx(&self, choice: u8) -> (idx: u8)
        requires
            choice < 6,
        ensures
            idx as int == abs_index(self@.first, choice as int),
            idx < 14,
            is_play_pit(idx as int),
    {
        self.get_idx(choice, self.is_first_player)
    }

    /// Apply one move: sow relative pit `choice` of the side to move,
    /// re-sowing each landing slot until the hand lands in a store or
    /// in a previously empty slot, then flip the turn unconditionally.
    ///
    /// The resulting slots are exactly `resow` of the old ones; the
    /// total seed count is conserved, and the measure (outside, phi)
    /// strictly decreases, which is what bounds the length of a game.
    pub fn make_move(&mut self, choice: u8)
        requires
            choice < 6,
            total(old(self)@.pits) <= 255,
            old(self)@.pits[abs_index(old(self)@.first, choice as int)] >= 1,
        ensures
            final(self)@.first == !old(self)@.first,
            final(self)@.pits == resow(
                old(self)@.pits,
                abs_index(old(self)@.first, choice as int),
            ),
            total(final(self)@.pits) == total(old(self)@.pits),
            measure_lt(final(self)@.pits, old(self)@.pits),
            final(self).wf(),
    {
        let ghost p0 = self@.pits;
        let ghost first0 = self@.first;
        let ghost start: int = abs_index(self@.first, choice as int);
        let mut idx: usize = self.choice_to_idx(choice) as usize;
        proof {
            self.lemma_wf();
        }
        loop
            invariant_except_break
                idx < 14,
                is_play_pit(idx as int),
                self.wf(),
                self@.first == first0,
                self@.pits[idx as int] >= 1,
                total(self@.pits) == total(p0),
                total(p0) <= 255,
                resow(self@.pits, idx as int) == resow(p0, start),
                self@.pits == p0 || measure_lt(self@.pits, p0),
            ensures
                self@.pits == resow(p0, start),
                measure_lt(self@.pits, p0),
                total(self@.pits) == total(p0),
                self.wf(),
                self@.first == first0,
            decreases outside(self@.pits), phi(self@.pits),
        {
            let ghost ptop = self@.pits;
            let ghost s: int = idx as int;
            let ghost p1 = ptop.update(s, 0);
            let ghost a0 = self.board;
            let mut hand: u8 = self.board[idx];
            let ghost h0: nat = hand as nat;
            self.board[idx] = 0;
            proof {
                lemma_pits_of_update(a0, self.board, s, 0);
                lemma_pass(ptop, s);
                lemma_measure_nonneg(ptop);
                lemma_sum_to_update(ptop, s, 0, 14);
                assert(sow(p1, s, 0) == p1);
                assert(land(s, 0) == s);
            }
            while hand > 0
                invariant
                    idx < 14,
                    pits_ok(ptop),
                    ptop.len() == 14,
                    0 <= s < 14,
                    hand as nat <= h0,
                    h0 == ptop[s],
                    total(ptop) <= 255,
                    p1 == ptop.update(s, 0),
                    self@.pits == sow(p1, s, (h0 - hand) as nat),
                    idx as int == land(s, (h0 - hand) as nat),
                    self@.first == first0,
                decreases hand,
            {
                idx = idx + 1;
                if idx == 14 {
                    idx = 0;
                }
                let ghost t: nat = (h0 - hand) as nat;
                let ghost cur = self@.pits;
                proof {
                    assert(pits_ok(p1));
                    lemma_land_succ(s, t);
                    lemma_land_range(s, (t + 1) as nat);
                    lemma_sow_basic(p1, s, t);
                    lemma_sum_to_update(ptop, s, 0, 14);
                    lemma_elem_le_total(cur, idx as int);
                    assert(total(cur) == total(ptop) - h0 + t);
                }
                let v: u8 = self.board[idx];
                let ghost a1 = self.board;
                self.board[idx] = v + 1;
                hand = hand - 1;
                proof {
                    lemma_pits_of_update(a1, self.board, idx as int, (v + 1) as u8);
                    lemma_sow_unroll_back(p1, s, (t + 1) as nat);
                    assert(self@.pits == sow(p1, s, (t + 1) as nat));
                }
            }
            proof {
                assert(self@.pits == pass_board(ptop, s));
                assert(idx as int == pass_land(ptop, s));
            }
            if idx == 3 || idx == 10 || self.board[idx] == 1 {
                proof {
                    assert(is_store(idx as int) || self@.pits[idx as int] == 1);
                    assert(resow(ptop, s) == pass_board(ptop, s));
                    if ptop != p0 {
                        lemma_measure_trans(self@.pits, ptop, p0);
                    }
                    self.lemma_wf();
                }
                break;
            }
            proof {
                assert(resow(ptop, s) == resow(self@.pits, idx as int));
                if ptop != p0 {
                    lemma_measure_trans(self@.pits, ptop, p0);
                }
                self.lemma_wf();
                lemma_measure_nonneg(self@.pits);
            }
        }
        self.is_first_player = !self.is_first_player;
    }

    /// The six play-pit counts of the given side, in play order.
    fn get_side(&self, is_first_player: bool) -> (side: [u8; 6])
        ensures
            forall|c: int| 0 <= c < 6 ==> #[trigger] side@[c] as int == self@.pits[
                abs_index(is_first_player, c)
            ],
            pits_of6(side) == side_counts(self@.pits, is_first_player),
    {
        let side = [
            self.board[self.get_idx(0, is_first_player) as usize],
            self.board[self.get_idx(1, is_first_player) as usize],
            self.board[self.get_idx(2, is_first_player) as usize],
            self.board[self.get_idx(3, is_first_player) as usize],
            self.board[self.get_idx(4, is_first_player) as usize],
            self.board[self.get_idx(5, is_first_player) as usize],
        ];
        proof {
            assert(pits_of6(side) =~= side_counts(self@.pits, is_first_player));
        }
        side
    }

    /// Play-pit counts of the side to move.
    pub fn current_side(&self) -> (side: [u8; 6])
        ensures
            pits_of6(side) == side_counts(self@.pits, self@.first),
    {
        self.get_side(self.is_first_player)
    }

    /// Play-pit counts of the side not to move.
    pub fn opponent_side(&self) -> (side: [u8; 6])
        ensures
            pits_of6(side) == side_counts(self@.pits, !self@.first),
    {
        self.get_side(!self.is_first_player)
    }

    /// Whether the game is over: true exactly when at least one side's
    /// six play pits are all empty, whoever's turn it is.
    pub fn is_won(&self) -> (r: bool)
        ensures
            r == won_spec(self@.pits),
    {
        let a = self.get_side(true);
        let b = self.get_side(false);
        let first_empty = a[0] == 0 && a[1] == 0 && a[2] == 0 && a[3] == 0 && a[4] == 0 && a[5]
            == 0;
        let second_empty = b[0] == 0 && b[1] == 0 && b[2] == 0 && b[3] == 0 && b[4] == 0 && b[5]
            == 0;
        proof {
            assert(first_empty == side_empty(self@.pits, true)) by {
                if first_empty {
                    assert forall|c: int| 0 <= c < 6 implies self@.pits[abs_index(true, c)]
                        == 0 by {
                        assert(a@[c] == 0);
                    }
                }
            }
            assert(second_empty == side_empty(self@.pits, false)) by {
                if second_empty {
                    assert forall|c: int| 0 <= c < 6 implies self@.pits[abs_index(false, c)]
                        == 0 by {
                        assert(b@[c] == 0);
                    }
                }
            }
        }
        first_empty || second_empty
    }

    /// Which side is to move: true for the first player.
    pub fn get_current_player(&self) -> (r: bool)
        ensures
            r == self@.first,
    {
        self.is_first_player
    }

    /// The relative pits the side to move may sow from: every pit of
    /// its row that holds at least one seed, in increasing order.
    pub fn get_valid_choices(&self) -> (choices: Vec<u8>)
        ensures
            choices@ == choices_spec(self@.pits, self@.first),
    {
        let mut choices: Vec<u8> = Vec::new();
        let mut c: u8 = 0;
        while c < 6
            invariant
                c <= 6,
                choices@ == choices_upto(self@.pits, self@.first, c as int),
            decreases 6 - c,
        {
            if self.board[self.choice_to_idx(c) as usize] > 0 {
                choices.push(c);
            }
            c = c + 1;
        }
        choices
    }
}

/// The counts of a six-slot row, as integers.
pub open spec fn pits_of6(a: [u8; 6]) -> Seq<int> {
    Seq::new(6, |k: int| a@[k] as int)
}

impl PartialEq for BoardState {
    /// Boards compare by their canonical per-side view: the two side
    /// projections and the turn flag, never the raw slot array. Store
    /// counts do not take part in the comparison.
    fn eq(&self, other: &Self) -> (r: bool) {
        let a1 = self.get_side(true);
        let a2 = other.get_side(true);
        let b1 = self.get_side(false);
        let b2 = other.get_side(false);
        let r = self.is_first_player == other.is_first_player && a1[0] == a2[0] && a1[1] == a2[1]
            && a1[2] == a2[2] && a1[3] == a2[3] && a1[4] == a2[4] && a1[5] == a2[5] && b1[0]
            == b2[0] && b1[1] == b2[1] && b1[2] == b2[2] && b1[3] == b2[3] && b1[4] == b2[4] && b1[5]
            == b2[5];
        proof {
            if r {
                assert(side_counts(self@.pits, true) =~= side_counts(other@.pits, true));
                assert(side_counts(self@.pits, false) =~= side_counts(other@.pits, false));
            } else {
                if canon_eq(self@, other@) {
                    assert forall|c: int| 0 <= c < 6 implies a1@[c] == a2@[c] && b1@[c]
                        == b2@[c] by {
                        assert(side_counts(self@.pits, true)[c] == side_counts(
                            other@.pits,
                            true,
                        )[c]);
                        assert(side_counts(self@.pits, false)[c] == side_counts(
                            other@.pits,
                            false,
                        )[c]);
                    }
                }
            }
        }
        r
    }
}

impl vstd::std_specs::cmp::PartialEqSpecImpl for BoardState {
    open spec fn obeys_eq_spec() -> bool {
        true
    }

    open spec fn eq_spec(&self, other: &Self) -> bool {
        canon_eq(self@, other@)
    }
}

/// If the side to move still has a seed somewhere, it has a legal
/// choice, and the first entry of the choice list is one.
pub proof fn lemma_choices_nonempty(p: Seq<int>, first: bool)
    requires
        pits_ok(p),
        !side_empty(p, first),
    ensures
        choices_spec(p, first).len() >= 1,
        is_choice(p, first, choices_spec(p, first)[0] as int),
{
    let c = choose|c: int| 0 <= c < 6 && p[abs_index(first, c)] != 0;
    lemma_choices_upto_facts(p, first, 6);
    assert(choices_spec(p, first).contains(c as u8));
}

/// Everything the choice list promises: each entry is a legal choice,
/// entries increase, and every legal choice is listed.
pub proof fn lemma_choices_upto_facts(p: Seq<int>, first: bool, n: int)
    requires
        pits_ok(p),
        n <= 6,
    ensures
        forall|t: int| #![auto] 0 <= t < choices_upto(p, first, n).len() ==> is_choice(
            p,
            first,
            choices_upto(p, first, n)[t] as int,
        ) && choices_upto(p, first, n)[t] < n,
        forall|c: int| 0 <= c < n && p[abs_index(first, c)] >= 1 ==> choices_upto(
            p,
            first,
            n,
        ).contains(c as u8),
    decreases n,
{
    if n > 0 {
        lemma_choices_upto_facts(p, first, n - 1);
        assert forall|c: int| 0 <= c < n && p[abs_index(first, c)] >= 1 implies choices_upto(
            p,
            first,
            n,
        ).contains(c as u8) by {
            if c < n - 1 {
                let t = choose|t: int|
                    0 <= t < choices_upto(p, first, n - 1).len() && #[trigger] choices_upto(
                        p,
                        first,
                        n - 1,
                    )[t] == c as u8;
                assert(choices_upto(p, first, n)[t] == c as u8);
            } else {
                let w = choices_upto(p, first, n);
                assert(w[w.len() - 1] == c as u8);
            }
        }
    }
}

} // verus!
