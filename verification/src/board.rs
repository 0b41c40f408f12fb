//! The executable board operations: construction, reading a cell,
//! committing a cell to a digit, full constraint propagation, and the
//! dead-end check.

use vstd::prelude::*;
use crate::model::{
    cells_match_except, collapse_result, Field, Sudoku, count_true, count_true_from,
    digit_in_range, earlier, field_wf, in_range,
    is_peer, lemma_count_true_from_bounds, lemma_count_zero_iff_none, lemma_same_fields,
    lemma_same_skeleton_peer_has, lemma_set_cell_frame, lemma_skeleton_trans, same_skeleton,
};

verus! {

/// A fresh superposition cell: all nine digits still possible.
spec fn fresh_cell(f: Field) -> bool {
    match f {
        Field::Collapsed { .. } => false,
        Field::Superposition { states } => {
            &&& states@.len() == 9
            &&& forall|d: int| 0 <= d < 9 ==> states@[d]
        },
    }
}

/// Clamping an axis value to the board, as the cell reader does.
pub open spec fn clamp_idx(v: int) -> int {
    if v > 8 {
        8
    } else {
        v
    }
}

/// The number of true flags in a nine-flag candidate set.
pub(crate) fn count_candidates(states: &Vec<bool>) -> (c: u8)
    requires
        states@.len() == 9,
    ensures
        c as int == count_true(states@),
        c <= 9,
{
    let mut c: u8 = 0;
    let mut d: usize = 0;
    while d < 9
        invariant
            d <= 9,
            c <= d,
            states@.len() == 9,
            c as int == count_true(states@) - count_true_from(states@, d as int),
        decreases 9 - d,
    {
        if states[d] {
            c = c + 1;
        }
        d = d + 1;
    }
    c
}

impl Sudoku {
    /// A fresh board: 81 superposition cells, each with all nine digits
    /// still possible, and the solved flag down.
    pub fn new() -> (s: Sudoku)
        ensures
            s.grid_wf(),
            !s.solved,
            s.solved_ok(),
            s.propagated(),
            forall|x: int, y: int|
                in_range(x) && in_range(y) ==> !(#[trigger] s.is_collapsed(x, y)),
            forall|x: int, y: int, d: int|
                in_range(x) && in_range(y) && digit_in_range(d)
                    ==> #[trigger] s.candidate(x, y, d),
    {
        let mut fields: Vec<Field> = Vec::new();
        let mut n: usize = 0;
        while n < 81
            invariant
                n <= 81,
                fields@.len() == n,
                forall|k: int| 0 <= k < n ==> fresh_cell(#[trigger] fields@[k]),
            decreases 81 - n,
        {
            let mut states: Vec<bool> = Vec::new();
            let mut d: usize = 0;
            while d < 9
                invariant
                    d <= 9,
                    states@.len() == d,
                    forall|k: int| 0 <= k < d ==> states@[k],
                decreases 9 - d,
            {
                states.push(true);
                d = d + 1;
            }
            fields.push(Field::Superposition { states });
            n = n + 1;
        }
        let s = Sudoku { fields, solved: false };
        proof {
            assert forall|x: int, y: int| in_range(x) && in_range(y)
                implies fresh_cell(#[trigger] s.cell(x, y)) by {
                assert(0 <= x * 9 + y < 81);
                assert(fresh_cell(s.fields@[x * 9 + y]));
            }
            assert forall|x: int, y: int| in_range(x) && in_range(y)
                implies #[trigger] s.cell_propagated(x, y) by {
                assert forall|d: int| digit_in_range(d)
                    implies !s.peer_has(x, y, d) by {
                    if s.peer_has(x, y, d) {
                        let (i, j) = choose|i: int, j: int|
                            is_peer(x, y, i, j) && s.collapsed_to(i, j, d);
                        assert(fresh_cell(s.cell(i, j)));
                    }
                }
            }
            assert(!s.is_collapsed(0, 0));
        }
        s
    }

    /// The cell at (x, y), with each axis clamped to the board's edge:
    /// out-of-range input reads the nearest edge cell instead of failing.
    pub fn get_cell(&self, x: usize, y: usize) -> (r: &Field)
        requires
            self.grid_wf(),
        ensures
            *r == self.cell(clamp_idx(x as int), clamp_idx(y as int)),
    {
        let cx: usize = if x > 8 { 8 } else { x };
        let cy: usize = if y > 8 { 8 } else { y };
        &self.fields[cx * 9 + cy]
    }

    /// Commit the cell at (x, y) to `num` and propagate the constraint to
    /// the whole grid. Nothing checks that the cell was still open or that
    /// `num` was among its candidates: an already committed cell or an
    /// infeasible digit is silently overwritten, and the caller is
    /// responsible for not doing so.
    pub fn collapse_cell(&mut self, x: usize, y: usize, num: u8)
        requires
            old(self).grid_wf(),
            x < 9,
            y < 9,
            num < 9,
        ensures
            collapse_result(*old(self), *final(self), x as int, y as int, num as int),
    {
        let ghost pre = *self;
        self.fields.set(x * 9 + y, Field::Collapsed { num });
        proof {
            lemma_set_cell_frame(pre, *self, x as int, y as int, Field::Collapsed { num });
            assert forall|i2: int, j2: int| in_range(i2) && in_range(j2)
                implies field_wf(#[trigger] self.cell(i2, j2)) by {
                if !(i2 == x as int && j2 == y as int) {
                    assert(self.cell(i2, j2) == pre.cell(i2, j2));
                    assert(field_wf(pre.cell(i2, j2)));
                }
            }
            assert(self.grid_wf());
        }
        let ghost mid = *self;
        self.update_superpositions();
        proof {
            assert(mid.cell(x as int, y as int) == (Field::Collapsed { num }));
            assert(mid.is_collapsed(x as int, y as int));
            assert(self.cell(x as int, y as int) == mid.cell(x as int, y as int));
            assert(self.collapsed_to(x as int, y as int, num as int));
            assert forall|i2: int, j2: int|
                in_range(i2) && in_range(j2) && !(i2 == x as int && j2 == y as int)
                implies ((#[trigger] pre.is_collapsed(i2, j2) <==> self.is_collapsed(i2, j2))
                    && (pre.is_collapsed(i2, j2)
                        ==> pre.cell(i2, j2) == self.cell(i2, j2))) by {
                assert(mid.cell(i2, j2) == pre.cell(i2, j2));
                assert(mid.is_collapsed(i2, j2) <==> self.is_collapsed(i2, j2));
                if mid.is_collapsed(i2, j2) {
                    assert(mid.cell(i2, j2) == self.cell(i2, j2));
                }
            }
            assert(cells_match_except(pre, *self, x as int, y as int));
        }
    }

    /// Full constraint propagation: every open cell's candidate set is
    /// rebuilt from scratch as all nine digits minus every digit already
    /// committed among its row, column, and box peers, and the solved flag
    /// is recomputed as "no cell remains open". Committed cells are never
    /// touched, so the result depends only on the committed cells and the
    /// recompute is idempotent.
    #[verifier::loop_isolation(false)]
    pub fn update_superpositions(&mut self)
        requires
            old(self).grid_wf(),
        ensures
            final(self).grid_wf(),
            same_skeleton(*old(self), *final(self)),
            final(self).propagated(),
            final(self).solved_ok(),
    {
        let mut all_solved: bool = true;
        let mut x: usize = 0;
        while x < 9
            invariant
                x <= 9,
                self.grid_wf(),
                same_skeleton(*old(self), *self),
                forall|i: int, j: int|
                    in_range(i) && in_range(j) && earlier(i, j, x as int, 0)
                        ==> #[trigger] self.cell_propagated(i, j),
                all_solved <==> (forall|i: int, j: int|
                    in_range(i) && in_range(j) && earlier(i, j, x as int, 0)
                        ==> #[trigger] self.is_collapsed(i, j)),
            decreases 9 - x,
        {
            let mut y: usize = 0;
            while y < 9
                invariant
                    y <= 9,
                    self.grid_wf(),
                    same_skeleton(*old(self), *self),
                    forall|i: int, j: int|
                        in_range(i) && in_range(j) && earlier(i, j, x as int, y as int)
                            ==> #[trigger] self.cell_propagated(i, j),
                    all_solved <==> (forall|i: int, j: int|
                        in_range(i) && in_range(j) && earlier(i, j, x as int, y as int)
                            ==> #[trigger] self.is_collapsed(i, j)),
                decreases 9 - y,
            {
                let n: usize = x * 9 + y;
                let is_open: bool = match &self.fields[n] {
                    Field::Collapsed { .. } => false,
                    Field::Superposition { .. } => true,
                };
                if !is_open {
                    proof {
                        assert(self.is_collapsed(x as int, y as int));
                        assert(self.cell_propagated(x as int, y as int));
                        if all_solved {
                            assert forall|i2: int, j2: int|
                                in_range(i2) && in_range(j2)
                                    && earlier(i2, j2, x as int, y as int + 1)
                                implies #[trigger] self.is_collapsed(i2, j2) by {
                                if earlier(i2, j2, x as int, y as int) {
                                    assert(self.is_collapsed(i2, j2));
                                }
                            }
                        }
                    }
                } else {
                    all_solved = false;
                    // rebuild this cell's candidate set from its committed peers
                    let mut found: Vec<bool> = Vec::new();
                    let mut t: usize = 0;
                    while t < 9
                        invariant
                            t <= 9,
                            found@.len() == t,
                            forall|k: int| 0 <= k < t ==> found@[k],
                        decreases 9 - t,
                    {
                        found.push(true);
                        t = t + 1;
                    }
                    // row and column peers
                    let mut i: usize = 0;
                    while i < 9
                        invariant
                            i <= 9,
                            found@.len() == 9,
                            forall|d: int|
                                digit_in_range(d) && !found@[d]
                                    ==> self.peer_has(x as int, y as int, d),
                            forall|d: int, k: int|
                                digit_in_range(d) && 0 <= k < i && k != x as int
                                    && #[trigger] self.collapsed_to(k, y as int, d)
                                    ==> !found@[d],
                            forall|d: int, k: int|
                                digit_in_range(d) && 0 <= k < i && k != y as int
                                    && #[trigger] self.collapsed_to(x as int, k, d)
                                    ==> !found@[d],
                        decreases 9 - i,
                    {
                        if i != x {
                            match &self.fields[i * 9 + y] {
                                Field::Collapsed { num } => {
                                    proof {
                                        assert(field_wf(self.cell(i as int, y as int)));
                                        assert(is_peer(x as int, y as int, i as int, y as int));
                                    }
                                    let d0: usize = *num as usize;
                                    found.set(d0, false);
                                    proof {
                                        assert(self.collapsed_to(i as int, y as int, d0 as int));
                                        assert(self.peer_has(x as int, y as int, d0 as int));
                                    }
                                }
                                Field::Superposition { .. } => {}
                            }
                        }
                        if i != y {
                            match &self.fields[x * 9 + i] {
                                Field::Collapsed { num } => {
                                    proof {
                                        assert(field_wf(self.cell(x as int, i as int)));
                                        assert(is_peer(x as int, y as int, x as int, i as int));
                                    }
                                    let d0: usize = *num as usize;
                                    found.set(d0, false);
                                    proof {
                                        assert(self.collapsed_to(x as int, i as int, d0 as int));
                                        assert(self.peer_has(x as int, y as int, d0 as int));
                                    }
                                }
                                Field::Superposition { .. } => {}
                            }
                        }
                        i = i + 1;
                    }
                    // box peers, skipping those that share a coordinate:
                    // the row and column scans have covered them already
                    let gx: usize = (x / 3) * 3;
                    let gy: usize = (y / 3) * 3;
                    let mut mx: usize = 0;
                    while mx < 3
                        invariant
                            mx <= 3,
                            found@.len() == 9,
                            forall|d: int|
                                digit_in_range(d) && !found@[d]
                                    ==> self.peer_has(x as int, y as int, d),
                            forall|d: int, k: int|
                                digit_in_range(d) && 0 <= k < 9 && k != x as int
                                    && #[trigger] self.collapsed_to(k, y as int, d)
                                    ==> !found@[d],
                            forall|d: int, k: int|
                                digit_in_range(d) && 0 <= k < 9 && k != y as int
                                    && #[trigger] self.collapsed_to(x as int, k, d)
                                    ==> !found@[d],
                            forall|d: int, a: int, b: int|
                                digit_in_range(d) && 0 <= a < mx && 0 <= b < 3
                                    && gx + a != x as int && gy + b != y as int
                                    && #[trigger] self.collapsed_to(gx + a, gy + b, d)
                                    ==> !found@[d],
                        decreases 3 - mx,
                    {
                        let mut my: usize = 0;
                        while my < 3
                            invariant
                                my <= 3,
                                found@.len() == 9,
                                forall|d: int|
                                    digit_in_range(d) && !found@[d]
                                        ==> self.peer_has(x as int, y as int, d),
                                forall|d: int, k: int|
                                    digit_in_range(d) && 0 <= k < 9 && k != x as int
                                        && #[trigger] self.collapsed_to(k, y as int, d)
                                        ==> !found@[d],
                                forall|d: int, k: int|
                                    digit_in_range(d) && 0 <= k < 9 && k != y as int
                                        && #[trigger] self.collapsed_to(x as int, k, d)
                                        ==> !found@[d],
                                forall|d: int, a: int, b: int|
                                    digit_in_range(d) && 0 <= a < mx && 0 <= b < 3
                                        && gx + a != x as int && gy + b != y as int
                                        && #[trigger] self.collapsed_to(gx + a, gy + b, d)
                                        ==> !found@[d],
                                forall|d: int, b: int|
                                    digit_in_range(d) && 0 <= b < my
                                        && gx + mx != x as int && gy + b != y as int
                                        && #[trigger] self.collapsed_to(gx + mx, gy + b, d)
                                        ==> !found@[d],
                            decreases 3 - my,
                        {
                            let bx: usize = gx + mx;
                            let by: usize = gy + my;
                            if !(bx == x || by == y) {
                                match &self.fields[bx * 9 + by] {
                                    Field::Collapsed { num } => {
                                        proof {
                                            assert(in_range(bx as int) && in_range(by as int));
                                            assert(field_wf(self.cell(bx as int, by as int)));
                                            assert(bx as int / 3 == x as int / 3);
                                            assert(by as int / 3 == y as int / 3);
                                            assert(is_peer(x as int, y as int, bx as int, by as int));
                                        }
                                        let d0: usize = *num as usize;
                                        found.set(d0, false);
                                        proof {
                                            assert(self.collapsed_to(bx as int, by as int, d0 as int));
                                            assert(self.peer_has(x as int, y as int, d0 as int));
                                        }
                                    }
                                    Field::Superposition { .. } => {}
                                }
                            }
                            my = my + 1;
                        }
                        mx = mx + 1;
                    }
                    // the rebuilt flags are exactly the digits no peer rules out
                    proof {
                        assert forall|d: int| digit_in_range(d)
                            implies (found@[d] <==> !self.peer_has(x as int, y as int, d)) by {
                            if self.peer_has(x as int, y as int, d) {
                                let (pi, pj) = choose|pi: int, pj: int|
                                    is_peer(x as int, y as int, pi, pj)
                                        && self.collapsed_to(pi, pj, d);
                                if pj == y as int && pi != x as int {
                                    assert(self.collapsed_to(pi, y as int, d));
                                    assert(!found@[d]);
                                } else if pi == x as int && pj != y as int {
                                    assert(self.collapsed_to(x as int, pj, d));
                                    assert(!found@[d]);
                                } else {
                                    assert(pi / 3 == x as int / 3 && pj / 3 == y as int / 3);
                                    assert(pi == 3 * (pi / 3) + pi % 3);
                                    assert(pj == 3 * (pj / 3) + pj % 3);
                                    let a = pi - gx;
                                    let b = pj - gy;
                                    assert(0 <= a < 3);
                                    assert(0 <= b < 3);
                                    assert(self.collapsed_to(gx + a, gy + b, d));
                                    assert(!found@[d]);
                                }
                            }
                        }
                    }
                    let ghost prev = *self;
                    let ghost new_states = found@;
                    let ghost newf = Field::Superposition { states: found };
                    self.fields.set(n, Field::Superposition { states: found });
                    proof {
                        assert(self.fields@ == prev.fields@.update(n as int, newf));
                        lemma_set_cell_frame(prev, *self, x as int, y as int, newf);
                        assert(self.cell(x as int, y as int) == newf);
                        assert(!self.is_collapsed(x as int, y as int));
                        assert(field_wf(newf));
                        // well-formedness and skeleton of the written grid
                        assert forall|i2: int, j2: int| in_range(i2) && in_range(j2)
                            implies field_wf(#[trigger] self.cell(i2, j2)) by {
                            if !(i2 == x as int && j2 == y as int) {
                                assert(self.cell(i2, j2) == prev.cell(i2, j2));
                            }
                        }
                        assert forall|i2: int, j2: int| in_range(i2) && in_range(j2)
                            implies ((#[trigger] prev.is_collapsed(i2, j2)
                                    <==> self.is_collapsed(i2, j2))
                                && (prev.is_collapsed(i2, j2)
                                    ==> prev.cell(i2, j2) == self.cell(i2, j2))) by {
                            if !(i2 == x as int && j2 == y as int) {
                                assert(self.cell(i2, j2) == prev.cell(i2, j2));
                            }
                        }
                        assert(same_skeleton(prev, *self));
                        assert forall|i2: int, j2: int| in_range(i2) && in_range(j2)
                            implies ((#[trigger] old(self).is_collapsed(i2, j2)
                                    <==> self.is_collapsed(i2, j2))
                                && (old(self).is_collapsed(i2, j2)
                                    ==> old(self).cell(i2, j2) == self.cell(i2, j2))) by {
                            assert(prev.is_collapsed(i2, j2) <==> self.is_collapsed(i2, j2));
                        }
                        assert(same_skeleton(*old(self), *self));
                        // the recomputed cells, this one included, are propagated
                        assert forall|i2: int, j2: int|
                            in_range(i2) && in_range(j2)
                                && earlier(i2, j2, x as int, y as int + 1)
                            implies #[trigger] self.cell_propagated(i2, j2) by {
                            if i2 == x as int && j2 == y as int {
                                assert forall|d: int| digit_in_range(d)
                                    implies (self.candidate(x as int, y as int, d)
                                        <==> !self.peer_has(x as int, y as int, d)) by {
                                    lemma_same_skeleton_peer_has(
                                        prev, *self, x as int, y as int, d);
                                    assert(self.candidate(x as int, y as int, d)
                                        == new_states[d]);
                                }
                            } else {
                                assert(earlier(i2, j2, x as int, y as int));
                                assert(prev.cell_propagated(i2, j2));
                                assert(self.cell(i2, j2) == prev.cell(i2, j2));
                                if !self.is_collapsed(i2, j2) {
                                    assert forall|d: int| digit_in_range(d)
                                        implies (self.candidate(i2, j2, d)
                                            <==> !self.peer_has(i2, j2, d)) by {
                                        lemma_same_skeleton_peer_has(prev, *self, i2, j2, d);
                                    }
                                }
                            }
                        }
                    }
                }
                y = y + 1;
            }
            x = x + 1;
        }
        proof {
            assert forall|i2: int, j2: int| in_range(i2) && in_range(j2)
                implies #[trigger] self.cell_propagated(i2, j2) by {
                assert(earlier(i2, j2, 9, 0));
            }
            assert(self.propagated());
            if all_solved {
                assert forall|i2: int, j2: int| in_range(i2) && in_range(j2)
                    implies #[trigger] self.is_collapsed(i2, j2) by {
                    assert(earlier(i2, j2, 9, 0));
                }
                assert(self.all_collapsed());
            } else if self.all_collapsed() {
                assert forall|i2: int, j2: int|
                    in_range(i2) && in_range(j2) && earlier(i2, j2, 9, 0)
                    implies #[trigger] self.is_collapsed(i2, j2) by {}
                assert(false);
            }
        }
        let ghost pre_flag = *self;
        self.solved = all_solved;
        proof {
            lemma_same_fields(pre_flag, *self);
            lemma_skeleton_trans(*old(self), pre_flag, *self);
            assert(self.all_collapsed() == pre_flag.all_collapsed());
        }
    }

    /// Whether the board can still make progress: false exactly when some
    /// open cell has run out of candidates.
    pub fn check_if_solvable(&self) -> (r: bool)
        requires
            self.grid_wf(),
        ensures
            r == !self.has_contradiction(),
    {
        let mut x: usize = 0;
        while x < 9
            invariant
                x <= 9,
                self.grid_wf(),
                forall|i: int, j: int|
                    0 <= i < x && in_range(j) ==> !(#[trigger] self.cell_dead(i, j)),
            decreases 9 - x,
        {
            let mut y: usize = 0;
            while y < 9
                invariant
                    x < 9,
                    y <= 9,
                    self.grid_wf(),
                    forall|i: int, j: int|
                        0 <= i < x && in_range(j) ==> !(#[trigger] self.cell_dead(i, j)),
                    forall|j: int| 0 <= j < y ==> !(#[trigger] self.cell_dead(x as int, j)),
                decreases 9 - y,
            {
                match &self.fields[x * 9 + y] {
                    Field::Collapsed { .. } => {
                        proof {
                            assert(self.is_collapsed(x as int, y as int));
                        }
                    }
                    Field::Superposition { states } => {
                        proof {
                            assert(field_wf(self.cell(x as int, y as int)));
                        }
                        let c = count_candidates(states);
                        if c == 0 {
                            proof {
                                lemma_count_zero_iff_none(states@, 0);
                                assert(self.cell_dead(x as int, y as int));
                            }
                            return false;
                        }
                        proof {
                            lemma_count_zero_iff_none(states@, 0);
                            lemma_count_true_from_bounds(states@, 0);
                            let d = choose|d: int| 0 <= d < 9 && states@[d];
                            assert(self.candidate(x as int, y as int, d));
                            assert(!self.cell_dead(x as int, y as int));
                        }
                    }
                }
                y = y + 1;
            }
            x = x + 1;
        }
        proof {
            if self.has_contradiction() {
                let (i, j) = choose|i: int, j: int|
                    in_range(i) && in_range(j) && #[trigger] self.cell_dead(i, j);
                assert(!self.cell_dead(i, j));
            }
        }
        true
    }
}

} // verus!
