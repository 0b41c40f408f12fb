//! The mathematical model of the board: cell states, the peer relation
//! between positions, candidate flags, and candidate counts, together with
//! the lemmas that the executable code and the stated laws rest on.

use vstd::prelude::*;

verus! {

/// One cell of the board: either committed to a single digit, or still a
/// superposition of candidate digits. `states[d]` is true when digit `d`
/// is still a candidate. Digits range over 0 through 8 (shown as 1 to 9).
pub enum Field {
    Collapsed { num: u8 },
    Superposition { states: Vec<bool> },
}

/// The 9-by-9 board. The grid is stored flat: the cell at column `x`,
/// row `y` (each in 0 through 8) sits at index `x * 9 + y`.
pub struct Sudoku {
    pub fields: Vec<Field>,
    pub solved: bool,
}

/// A coordinate on the board.
pub open spec fn in_range(v: int) -> bool {
    0 <= v < 9
}

/// A digit value.
pub open spec fn digit_in_range(d: int) -> bool {
    0 <= d < 9
}

/// Well-formedness of one cell: a committed digit is in range, and a
/// superposition carries exactly nine flags.
pub open spec fn field_wf(f: Field) -> bool {
    match f {
        Field::Collapsed { num } => num < 9,
        Field::Superposition { states } => states@.len() == 9,
    }
}

/// Two distinct positions constrain each other: they share a row, share a
/// column, or share a 3-by-3 box. The box clause excludes positions that
/// share either coordinate, mirroring how the peer scan walks the box;
/// those positions are already covered by the row and column clauses.
pub open spec fn is_peer(x: int, y: int, i: int, j: int) -> bool {
    &&& in_range(i)
    &&& in_range(j)
    &&& {
        ||| (i != x && j == y)
        ||| (i == x && j != y)
        ||| (i / 3 == x / 3 && j / 3 == y / 3 && i != x && j != y)
    }
}

/// The number of true flags in `s` from index `k` on.
pub open spec fn count_true_from(s: Seq<bool>, k: int) -> int
    decreases s.len() - k,
{
    if k < 0 || k >= s.len() {
        0
    } else {
        (if s[k] { 1int } else { 0int }) + count_true_from(s, k + 1)
    }
}

/// The number of true flags in `s`.
pub open spec fn count_true(s: Seq<bool>) -> int {
    count_true_from(s, 0)
}

impl Sudoku {
    /// The cell at column `x`, row `y`.
    pub open spec fn cell(self, x: int, y: int) -> Field {
        self.fields@[x * 9 + y]
    }

    /// The grid has 81 well-formed cells.
    pub open spec fn grid_wf(self) -> bool {
        &&& self.fields@.len() == 81
        &&& forall|x: int, y: int|
            in_range(x) && in_range(y) ==> field_wf(#[trigger] self.cell(x, y))
    }

    /// The cell at (x, y) is committed to some digit.
    pub open spec fn is_collapsed(self, x: int, y: int) -> bool {
        self.cell(x, y) is Collapsed
    }

    /// The cell at (x, y) is committed to exactly the digit `d`.
    pub open spec fn collapsed_to(self, x: int, y: int, d: int) -> bool {
        match self.cell(x, y) {
            Field::Collapsed { num } => num == d,
            Field::Superposition { .. } => false,
        }
    }

    /// Digit `d` is still a candidate of the open cell at (x, y).
    pub open spec fn candidate(self, x: int, y: int, d: int) -> bool {
        match self.cell(x, y) {
            Field::Collapsed { .. } => false,
            Field::Superposition { states } => digit_in_range(d) && states@[d],
        }
    }

    /// Some peer of (x, y) is committed to digit `d`.
    pub open spec fn peer_has(self, x: int, y: int, d: int) -> bool {
        exists|i: int, j: int| is_peer(x, y, i, j) && self.collapsed_to(i, j, d)
    }

    /// The candidate count of the cell at (x, y); committed cells count as -1.
    pub open spec fn cand_count(self, x: int, y: int) -> int {
        match self.cell(x, y) {
            Field::Collapsed { .. } => -1,
            Field::Superposition { states } => count_true(states@),
        }
    }

    /// The open cell at (x, y) carries exactly the candidates that no
    /// committed peer rules out.
    pub open spec fn cell_propagated(self, x: int, y: int) -> bool {
        !self.is_collapsed(x, y) ==> forall|d: int|
            #![trigger self.candidate(x, y, d)]
            #![trigger self.peer_has(x, y, d)]
            digit_in_range(d) ==> (self.candidate(x, y, d) <==> !self.peer_has(x, y, d))
    }

    /// Every open cell's flags agree with the committed digits of its peers.
    pub open spec fn propagated(self) -> bool {
        forall|x: int, y: int|
            in_range(x) && in_range(y) ==> #[trigger] self.cell_propagated(x, y)
    }

    /// No cell remains open.
    pub open spec fn all_collapsed(self) -> bool {
        forall|x: int, y: int|
            in_range(x) && in_range(y) ==> #[trigger] self.is_collapsed(x, y)
    }

    /// The open cell at (x, y) has no candidate left: a dead end.
    pub open spec fn cell_dead(self, x: int, y: int) -> bool {
        &&& !self.is_collapsed(x, y)
        &&& forall|d: int| digit_in_range(d) ==> !self.candidate(x, y, d)
    }

    /// Some open cell has run out of candidates.
    pub open spec fn has_contradiction(self) -> bool {
        exists|x: int, y: int|
            in_range(x) && in_range(y) && #[trigger] self.cell_dead(x, y)
    }

    /// The solved flag agrees with the grid.
    pub open spec fn solved_ok(self) -> bool {
        self.solved <==> self.all_collapsed()
    }
}

/// `a` and `b` have the same committed cells, with the same digits; their
/// open cells may carry different flags.
pub open spec fn same_skeleton(a: Sudoku, b: Sudoku) -> bool {
    forall|i: int, j: int|
        in_range(i) && in_range(j) ==> {
            &&& (#[trigger] a.is_collapsed(i, j) <==> b.is_collapsed(i, j))
            &&& (a.is_collapsed(i, j) ==> a.cell(i, j) == b.cell(i, j))
        }
}

/// `a` and `b` agree on the committedness and committed digits of every
/// position but (x, y).
pub open spec fn cells_match_except(a: Sudoku, b: Sudoku, x: int, y: int) -> bool {
    forall|i: int, j: int|
        in_range(i) && in_range(j) && !(i == x && j == y) ==> {
            &&& (#[trigger] a.is_collapsed(i, j) <==> b.is_collapsed(i, j))
            &&& (a.is_collapsed(i, j) ==> a.cell(i, j) == b.cell(i, j))
        }
}

/// `post` is `pre` with the cell at (x, y) committed to `d` and the whole
/// grid then propagated: every other position keeps its committedness and
/// committed digit, every open cell's flags are rebuilt from its peers, and
/// the solved flag is recomputed.
pub open spec fn collapse_result(pre: Sudoku, post: Sudoku, x: int, y: int, d: int) -> bool {
    &&& post.grid_wf()
    &&& post.collapsed_to(x, y, d)
    &&& cells_match_except(pre, post, x, y)
    &&& post.propagated()
    &&& post.solved_ok()
}

/// A solver step: the cell at (x, y) was open in `pre` with `d` among its
/// candidates, and `post` is `pre` with that cell committed to `d` and the
/// grid propagated.
pub open spec fn chosen_step(pre: Sudoku, post: Sudoku, x: int, y: int, d: int) -> bool {
    &&& in_range(x)
    &&& in_range(y)
    &&& digit_in_range(d)
    &&& !pre.is_collapsed(x, y)
    &&& pre.candidate(x, y, d)
    &&& collapse_result(pre, post, x, y, d)
}

impl Sudoku {
    /// No open cell with a positive candidate count has fewer candidates
    /// than the cell at (x, y): the minimum-entropy selection rule.
    pub open spec fn min_choice(self, x: int, y: int) -> bool {
        forall|i: int, j: int|
            in_range(i) && in_range(j) && !self.is_collapsed(i, j)
                && #[trigger] self.cand_count(i, j) >= 1
                ==> self.cand_count(i, j) >= self.cand_count(x, y)
    }
}

/// What one call of the solver does: some open minimum-count cell is
/// committed to one of its candidates, and the grid is propagated.
pub open spec fn solve_step(pre: Sudoku, post: Sudoku) -> bool {
    exists|x: int, y: int, d: int|
        #[trigger] chosen_step(pre, post, x, y, d) && pre.min_choice(x, y)
}

/// Scan order of the grid walks: (i, j) comes strictly before (x, y).
pub open spec fn earlier(i: int, j: int, x: int, y: int) -> bool {
    i < x || (i == x && j < y)
}

/// Distinct positions occupy distinct slots of the flat grid.
pub proof fn lemma_pos_inj(x1: int, y1: int, x2: int, y2: int)
    requires
        in_range(x1),
        in_range(y1),
        in_range(x2),
        in_range(y2),
        x1 * 9 + y1 == x2 * 9 + y2,
    ensures
        x1 == x2 && y1 == y2,
{
}

/// Writing one slot of the grid leaves every other position's cell as it was.
pub proof fn lemma_set_cell_frame(pre: Sudoku, post: Sudoku, x: int, y: int, f: Field)
    requires
        pre.fields@.len() == 81,
        in_range(x),
        in_range(y),
        post.fields@ == pre.fields@.update(x * 9 + y, f),
    ensures
        post.fields@.len() == 81,
        post.cell(x, y) == f,
        forall|i: int, j: int|
            in_range(i) && in_range(j) && !(i == x && j == y)
                ==> #[trigger] post.cell(i, j) == pre.cell(i, j),
{
    assert forall|i: int, j: int|
        in_range(i) && in_range(j) && !(i == x && j == y)
            implies #[trigger] post.cell(i, j) == pre.cell(i, j) by {
        if i * 9 + j == x * 9 + y {
            lemma_pos_inj(i, j, x, y);
        }
    }
}

pub proof fn lemma_count_true_from_bounds(s: Seq<bool>, k: int)
    requires
        0 <= k <= s.len(),
    ensures
        0 <= count_true_from(s, k) <= s.len() - k,
    decreases s.len() - k,
{
    if k < s.len() {
        lemma_count_true_from_bounds(s, k + 1);
    }
}

/// The count from `k` on is zero exactly when no flag from `k` on is true.
pub proof fn lemma_count_zero_iff_none(s: Seq<bool>, k: int)
    requires
        0 <= k <= s.len(),
    ensures
        count_true_from(s, k) == 0 <==> (forall|d: int| k <= d < s.len() ==> !s[d]),
    decreases s.len() - k,
{
    if k < s.len() {
        lemma_count_zero_iff_none(s, k + 1);
        lemma_count_true_from_bounds(s, k + 1);
    }
}

/// When exactly one flag from `k` on is true, the count from `k` on is one.
pub proof fn lemma_count_single(s: Seq<bool>, k: int, d0: int)
    requires
        0 <= k <= s.len(),
        0 <= d0 < s.len(),
        s[d0],
        forall|d: int| 0 <= d < s.len() && d != d0 ==> !s[d],
    ensures
        count_true_from(s, k) == if k <= d0 { 1int } else { 0int },
    decreases s.len() - k,
{
    if k < s.len() {
        lemma_count_single(s, k + 1, d0);
    }
}

/// An open, well-formed cell that still has some candidate has a positive
/// candidate count.
pub proof fn lemma_live_cell_count(s: Sudoku, x: int, y: int)
    requires
        s.grid_wf(),
        in_range(x),
        in_range(y),
        !s.is_collapsed(x, y),
        !s.cell_dead(x, y),
    ensures
        1 <= s.cand_count(x, y) <= 9,
{
    match s.cell(x, y) {
        Field::Collapsed { .. } => {}
        Field::Superposition { states } => {
            assert(field_wf(s.cell(x, y)));
            lemma_count_true_from_bounds(states@, 0);
            lemma_count_zero_iff_none(states@, 0);
            let d = choose|d: int| digit_in_range(d) && s.candidate(x, y, d);
            assert(states@[d]);
        }
    }
}

/// The peer relation is symmetric.
pub proof fn lemma_peer_symmetric(x: int, y: int, i: int, j: int)
    requires
        in_range(x),
        in_range(y),
        is_peer(x, y, i, j),
    ensures
        is_peer(i, j, x, y),
{
}

/// Which digits a peer rules out depends only on the committed cells, so
/// two boards with the same committed cells rule out the same digits.
pub proof fn lemma_same_skeleton_peer_has(a: Sudoku, b: Sudoku, x: int, y: int, d: int)
    requires
        same_skeleton(a, b),
    ensures
        a.peer_has(x, y, d) == b.peer_has(x, y, d),
{
    if a.peer_has(x, y, d) {
        let (i, j) = choose|i: int, j: int| is_peer(x, y, i, j) && a.collapsed_to(i, j, d);
        assert(a.is_collapsed(i, j));
        assert(is_peer(x, y, i, j) && b.collapsed_to(i, j, d));
    }
    if b.peer_has(x, y, d) {
        let (i, j) = choose|i: int, j: int| is_peer(x, y, i, j) && b.collapsed_to(i, j, d);
        assert(b.is_collapsed(i, j));
        assert(a.is_collapsed(i, j));
        assert(is_peer(x, y, i, j) && a.collapsed_to(i, j, d));
    }
}

/// On a propagated board, the digit of a committed cell is not a candidate
/// of any of its open row, column, or box peers.
pub proof fn lemma_no_committed_digit_among_peers(s: Sudoku)
    requires
        s.grid_wf(),
        s.propagated(),
    ensures
        forall|i: int, j: int, x: int, y: int, d: int|
            in_range(i) && in_range(j) && #[trigger] s.collapsed_to(i, j, d)
                && #[trigger] is_peer(i, j, x, y) && !s.is_collapsed(x, y)
                ==> !s.candidate(x, y, d),
{
    assert forall|i: int, j: int, x: int, y: int, d: int|
        in_range(i) && in_range(j) && #[trigger] s.collapsed_to(i, j, d)
            && #[trigger] is_peer(i, j, x, y) && !s.is_collapsed(x, y)
            implies !s.candidate(x, y, d) by {
        lemma_peer_symmetric(i, j, x, y);
        assert(is_peer(x, y, i, j) && s.collapsed_to(i, j, d));
        assert(s.peer_has(x, y, d));
        assert(s.cell_propagated(x, y));
        if digit_in_range(d) {
            assert(!s.candidate(x, y, d));
        }
    }
}

/// The skeleton relation is transitive.
pub proof fn lemma_skeleton_trans(a: Sudoku, b: Sudoku, c: Sudoku)
    requires
        same_skeleton(a, b),
        same_skeleton(b, c),
    ensures
        same_skeleton(a, c),
{
    assert forall|i: int, j: int| in_range(i) && in_range(j)
        implies ((#[trigger] a.is_collapsed(i, j) <==> c.is_collapsed(i, j))
            && (a.is_collapsed(i, j) ==> a.cell(i, j) == c.cell(i, j))) by {
        assert(a.is_collapsed(i, j) <==> b.is_collapsed(i, j));
        assert(b.is_collapsed(i, j) <==> c.is_collapsed(i, j));
    }
}

/// Two boards with the same grid share every grid-level property; only the
/// solved flag may differ.
pub proof fn lemma_same_fields(a: Sudoku, b: Sudoku)
    requires
        a.fields@ == b.fields@,
    ensures
        same_skeleton(a, b),
        a.grid_wf() ==> b.grid_wf(),
        a.propagated() ==> b.propagated(),
        a.all_collapsed() == b.all_collapsed(),
{
    assert forall|i: int, j: int| in_range(i) && in_range(j)
        implies ((#[trigger] a.is_collapsed(i, j) <==> b.is_collapsed(i, j))
            && (a.is_collapsed(i, j) ==> a.cell(i, j) == b.cell(i, j))) by {
        assert(a.cell(i, j) == b.cell(i, j));
    }
    assert(same_skeleton(a, b));
    if a.grid_wf() {
        assert forall|i: int, j: int| in_range(i) && in_range(j)
            implies field_wf(#[trigger] b.cell(i, j)) by {
            assert(b.cell(i, j) == a.cell(i, j));
            assert(field_wf(a.cell(i, j)));
        }
    }
    if a.propagated() {
        assert forall|i: int, j: int| in_range(i) && in_range(j)
            implies #[trigger] b.cell_propagated(i, j) by {
            assert(a.cell_propagated(i, j));
            assert(b.cell(i, j) == a.cell(i, j));
            if !b.is_collapsed(i, j) {
                assert forall|d: int| digit_in_range(d)
                    implies (b.candidate(i, j, d) <==> !b.peer_has(i, j, d)) by {
                    lemma_same_skeleton_peer_has(a, b, i, j, d);
                }
            }
        }
    }
    if a.all_collapsed() {
        assert forall|i: int, j: int| in_range(i) && in_range(j)
            implies #[trigger] b.is_collapsed(i, j) by {
            assert(a.is_collapsed(i, j));
        }
    }
    if b.all_collapsed() {
        assert forall|i: int, j: int| in_range(i) && in_range(j)
            implies #[trigger] a.is_collapsed(i, j) by {
            assert(b.is_collapsed(i, j));
        }
    }
}

/// Propagation is canonical: two propagated boards with the same committed
/// cells carry identical candidate flags and agree on the solved flag. In
/// particular, propagating a second time with no intervening collapse
/// changes nothing.
pub proof fn lemma_propagation_canonical(a: Sudoku, b: Sudoku)
    requires
        a.grid_wf(),
        b.grid_wf(),
        same_skeleton(a, b),
        a.propagated(),
        b.propagated(),
        a.solved_ok(),
        b.solved_ok(),
    ensures
        forall|x: int, y: int, d: int|
            in_range(x) && in_range(y) && digit_in_range(d)
                ==> #[trigger] a.candidate(x, y, d) == b.candidate(x, y, d),
        a.solved == b.solved,
{
    assert forall|x: int, y: int, d: int|
        in_range(x) && in_range(y) && digit_in_range(d)
            implies #[trigger] a.candidate(x, y, d) == b.candidate(x, y, d) by {
        lemma_same_skeleton_peer_has(a, b, x, y, d);
        assert(a.cell_propagated(x, y));
        assert(b.cell_propagated(x, y));
        if a.is_collapsed(x, y) {
            assert(b.is_collapsed(x, y));
            assert(!a.candidate(x, y, d) && !b.candidate(x, y, d));
        }
    }
    if a.all_collapsed() {
        assert forall|x: int, y: int| in_range(x) && in_range(y)
            implies #[trigger] b.is_collapsed(x, y) by {
            assert(a.is_collapsed(x, y));
        }
    }
    if b.all_collapsed() {
        assert forall|x: int, y: int| in_range(x) && in_range(y)
            implies #[trigger] a.is_collapsed(x, y) by {
            assert(b.is_collapsed(x, y));
            assert(a.is_collapsed(x, y));
        }
    }
    assert(a.all_collapsed() <==> b.all_collapsed());
}

} // verus!
