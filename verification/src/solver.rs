//! The solver driver: one minimum-entropy collapse step, and the loop that
//! repeats it until the board is solved or stuck.

use vstd::prelude::*;
use crate::model::{
    Field, Sudoku, chosen_step, count_true, count_true_from, digit_in_range, earlier, field_wf,
    in_range, lemma_count_single, lemma_count_true_from_bounds, lemma_live_cell_count, solve_step,
};
use crate::board::count_candidates;
use crate::rng::gen_index;

verus! {

/// The open cell at (i, j) has candidate count exactly `m`.
spec fn qualifies(s: Sudoku, i: int, j: int, m: int) -> bool {
    &&& in_range(i)
    &&& in_range(j)
    &&& !s.is_collapsed(i, j)
    &&& s.cand_count(i, j) == m
}

/// The number of open cells in column `x` from row `y` down.
pub open spec fn open_in_col(s: Sudoku, x: int, y: int) -> int
    decreases 9 - y,
{
    if y < 0 || y >= 9 {
        0
    } else {
        (if s.is_collapsed(x, y) { 0int } else { 1int }) + open_in_col(s, x, y + 1)
    }
}

/// The number of open cells in the columns from `x` on.
pub open spec fn open_from(s: Sudoku, x: int) -> int
    decreases 9 - x,
{
    if x < 0 || x >= 9 {
        0
    } else {
        open_in_col(s, x, 0) + open_from(s, x + 1)
    }
}

/// The number of open cells on the board.
pub open spec fn open_cells(s: Sudoku) -> int {
    open_from(s, 0)
}

proof fn lemma_open_in_col_nonneg(s: Sudoku, x: int, y: int)
    requires
        0 <= y <= 9,
    ensures
        0 <= open_in_col(s, x, y) <= 9 - y,
    decreases 9 - y,
{
    if y < 9 {
        lemma_open_in_col_nonneg(s, x, y + 1);
    }
}

pub proof fn lemma_open_from_nonneg(s: Sudoku, x: int)
    requires
        0 <= x <= 9,
    ensures
        0 <= open_from(s, x),
    decreases 9 - x,
{
    if x < 9 {
        lemma_open_in_col_nonneg(s, x, 0);
        lemma_open_from_nonneg(s, x + 1);
    }
}

proof fn lemma_open_in_col_step(a: Sudoku, b: Sudoku, x0: int, y0: int, x: int, y: int)
    requires
        in_range(x0),
        in_range(y0),
        crate::model::cells_match_except(a, b, x0, y0),
        !a.is_collapsed(x0, y0),
        b.is_collapsed(x0, y0),
        in_range(x),
        0 <= y <= 9,
    ensures
        open_in_col(b, x, y) == open_in_col(a, x, y)
            - (if x == x0 && y <= y0 { 1int } else { 0int }),
    decreases 9 - y,
{
    if y < 9 {
        lemma_open_in_col_step(a, b, x0, y0, x, y + 1);
        if !(x == x0 && y == y0) {
            assert(a.is_collapsed(x, y) <==> b.is_collapsed(x, y));
        }
    }
}

proof fn lemma_open_from_step(a: Sudoku, b: Sudoku, x0: int, y0: int, x: int)
    requires
        in_range(x0),
        in_range(y0),
        crate::model::cells_match_except(a, b, x0, y0),
        !a.is_collapsed(x0, y0),
        b.is_collapsed(x0, y0),
        0 <= x <= 9,
    ensures
        open_from(b, x) == open_from(a, x) - (if x <= x0 { 1int } else { 0int }),
    decreases 9 - x,
{
    if x < 9 {
        lemma_open_from_step(a, b, x0, y0, x + 1);
        lemma_open_in_col_step(a, b, x0, y0, x, 0);
    }
}

/// Committing one open cell lowers the number of open cells by exactly one.
pub proof fn lemma_collapse_decreases_open(a: Sudoku, b: Sudoku, x0: int, y0: int)
    requires
        in_range(x0),
        in_range(y0),
        crate::model::cells_match_except(a, b, x0, y0),
        !a.is_collapsed(x0, y0),
        b.is_collapsed(x0, y0),
    ensures
        open_cells(b) == open_cells(a) - 1,
{
    lemma_open_from_step(a, b, x0, y0, 0);
}

impl Sudoku {
    /// One solving step: among the open cells with the fewest (but at least
    /// one) remaining candidates, one is chosen at random, committed to one
    /// of its candidates chosen at random, and the grid is propagated.
    /// There must be an open cell that still has a candidate.
    #[verifier::loop_isolation(false)]
    pub fn solve_next(&mut self)
        requires
            old(self).grid_wf(),
            exists|x: int, y: int|
                in_range(x) && in_range(y) && !old(self).is_collapsed(x, y)
                    && (#[trigger] old(self).cand_count(x, y)) >= 1,
        ensures
            solve_step(*old(self), *final(self)),
    {
        // the minimum candidate count over the open cells that still have one
        let mut min_count: u8 = 9;
        let mut x: usize = 0;
        while x < 9
            invariant
                x <= 9,
                1 <= min_count <= 9,
                min_count == 9 || (exists|i: int, j: int|
                    #[trigger] qualifies(*self, i, j, min_count as int)),
                forall|i: int, j: int|
                    in_range(i) && in_range(j) && earlier(i, j, x as int, 0)
                        && !self.is_collapsed(i, j)
                        && (#[trigger] self.cand_count(i, j)) >= 1
                        ==> self.cand_count(i, j) >= min_count as int,
            decreases 9 - x,
        {
            let mut y: usize = 0;
            while y < 9
                invariant
                    y <= 9,
                    1 <= min_count <= 9,
                    min_count == 9 || (exists|i: int, j: int|
                        #[trigger] qualifies(*self, i, j, min_count as int)),
                    forall|i: int, j: int|
                        in_range(i) && in_range(j) && earlier(i, j, x as int, y as int)
                            && !self.is_collapsed(i, j)
                            && (#[trigger] self.cand_count(i, j)) >= 1
                            ==> self.cand_count(i, j) >= min_count as int,
                decreases 9 - y,
            {
                match &self.fields[x * 9 + y] {
                    Field::Collapsed { .. } => {
                        proof {
                            assert(self.is_collapsed(x as int, y as int));
                        }
                    }
                    Field::Superposition { states } => {
                        proof {
                            assert(field_wf(self.cell(x as int, y as int)));
                        }
                        let c = count_candidates(states);
                        if c > 0 && c < min_count {
                            min_count = c;
                            proof {
                                assert(qualifies(*self, x as int, y as int, min_count as int));
                            }
                        }
                    }
                }
                y = y + 1;
            }
            x = x + 1;
        }
        proof {
            let (wx, wy) = choose|i: int, j: int|
                in_range(i) && in_range(j) && !old(self).is_collapsed(i, j)
                    && (#[trigger] old(self).cand_count(i, j)) >= 1;
            assert(field_wf(self.cell(wx, wy)));
            match self.cell(wx, wy) {
                Field::Superposition { states } => {
                    lemma_count_true_from_bounds(states@, 0);
                }
                Field::Collapsed { .. } => {}
            }
            assert(self.cand_count(wx, wy) <= 9);
            if min_count == 9 {
                assert(earlier(wx, wy, 9, 0));
                assert(self.cand_count(wx, wy) >= 9);
                assert(qualifies(*self, wx, wy, 9));
            }
        }
        // every open cell whose count equals the minimum is a possible choice
        let mut picks: Vec<(usize, usize)> = Vec::new();
        let mut x2: usize = 0;
        while x2 < 9
            invariant
                x2 <= 9,
                forall|k: int|
                    0 <= k < picks@.len()
                        ==> qualifies(*self, (#[trigger] picks@[k]).0 as int,
                            picks@[k].1 as int, min_count as int),
                picks@.len() == 0 ==> (forall|i: int, j: int|
                    in_range(i) && in_range(j) && earlier(i, j, x2 as int, 0)
                        ==> !(#[trigger] qualifies(*self, i, j, min_count as int))),
            decreases 9 - x2,
        {
            let mut y2: usize = 0;
            while y2 < 9
                invariant
                    y2 <= 9,
                    forall|k: int|
                        0 <= k < picks@.len()
                            ==> qualifies(*self, (#[trigger] picks@[k]).0 as int,
                                picks@[k].1 as int, min_count as int),
                    picks@.len() == 0 ==> (forall|i: int, j: int|
                        in_range(i) && in_range(j) && earlier(i, j, x2 as int, y2 as int)
                            ==> !(#[trigger] qualifies(*self, i, j, min_count as int))),
                decreases 9 - y2,
            {
                match &self.fields[x2 * 9 + y2] {
                    Field::Collapsed { .. } => {
                        proof {
                            assert(self.is_collapsed(x2 as int, y2 as int));
                        }
                    }
                    Field::Superposition { states } => {
                        proof {
                            assert(field_wf(self.cell(x2 as int, y2 as int)));
                        }
                        let c = count_candidates(states);
                        if c == min_count {
                            picks.push((x2, y2));
                            proof {
                                assert(qualifies(*self, x2 as int, y2 as int, min_count as int));
                            }
                        }
                    }
                }
                y2 = y2 + 1;
            }
            x2 = x2 + 1;
        }
        proof {
            let (ax, ay) = choose|i: int, j: int|
                #[trigger] qualifies(*self, i, j, min_count as int);
            if picks@.len() == 0 {
                assert(earlier(ax, ay, 9, 0));
                assert(!qualifies(*self, ax, ay, min_count as int));
            }
        }
        let k = gen_index(picks.len());
        let p = picks[k];
        let px: usize = p.0;
        let py: usize = p.1;
        proof {
            assert(qualifies(*self, px as int, py as int, min_count as int));
        }
        // the candidates of the chosen cell
        let mut digits: Vec<u8> = Vec::new();
        let n: usize = px * 9 + py;
        match &self.fields[n] {
            Field::Superposition { states } => {
                proof {
                    assert(field_wf(self.cell(px as int, py as int)));
                }
                let mut d: usize = 0;
                while d < 9
                    invariant
                        d <= 9,
                        states@.len() == 9,
                        digits@.len() == count_true(states@) - count_true_from(
                            states@, d as int),
                        forall|k2: int|
                            0 <= k2 < digits@.len()
                                ==> digit_in_range((#[trigger] digits@[k2]) as int)
                                    && states@[digits@[k2] as int],
                    decreases 9 - d,
                {
                    if states[d] {
                        digits.push(d as u8);
                    }
                    d = d + 1;
                }
                proof {
                    assert(digits@.len() == count_true(states@));
                    assert(digits@.len() == min_count as int);
                    assert forall|k2: int| 0 <= k2 < digits@.len()
                        implies #[trigger] self.candidate(px as int, py as int,
                            digits@[k2] as int) by {}
                }
            }
            Field::Collapsed { .. } => {
                proof {
                    assert(false);
                }
            }
        }
        let k2 = gen_index(digits.len());
        let dd = digits[k2];
        proof {
            assert(self.candidate(px as int, py as int, dd as int));
            assert(digit_in_range(dd as int));
        }
        let ghost pre = *self;
        self.collapse_cell(px, py, dd);
        proof {
            assert(chosen_step(pre, *self, px as int, py as int, dd as int));
            assert forall|i: int, j: int|
                in_range(i) && in_range(j) && !pre.is_collapsed(i, j)
                    && (#[trigger] pre.cand_count(i, j)) >= 1
                implies pre.cand_count(i, j) >= pre.cand_count(px as int, py as int) by {
                assert(earlier(i, j, 9, 0));
            }
            assert(pre.min_choice(px as int, py as int));
            assert(solve_step(pre, *self));
        }
    }

    /// Run single solving steps until the board is fully committed or some
    /// open cell has run out of candidates; at most one step per open cell.
    #[verifier::loop_isolation(false)]
    pub fn solve_all(&mut self)
        requires
            old(self).grid_wf(),
            old(self).solved_ok(),
        ensures
            final(self).grid_wf(),
            final(self).solved_ok(),
            final(self).solved || final(self).has_contradiction(),
            forall|i: int, j: int|
                in_range(i) && in_range(j) && old(self).is_collapsed(i, j)
                    ==> #[trigger] final(self).cell(i, j) == old(self).cell(i, j),
    {
        let mut solvable = self.check_if_solvable();
        while !self.solved && solvable
            invariant
                self.grid_wf(),
                self.solved_ok(),
                solvable == !self.has_contradiction(),
                forall|i: int, j: int|
                    in_range(i) && in_range(j) && old(self).is_collapsed(i, j)
                        ==> #[trigger] self.cell(i, j) == old(self).cell(i, j),
            decreases open_cells(*self),
        {
            proof {
                assert(!self.all_collapsed());
                let (wx, wy) = choose|i: int, j: int|
                    in_range(i) && in_range(j) && !(#[trigger] self.is_collapsed(i, j));
                if self.cell_dead(wx, wy) {
                    assert(self.has_contradiction());
                }
                lemma_live_cell_count(*self, wx, wy);
                assert(in_range(wx) && in_range(wy) && !self.is_collapsed(wx, wy)
                    && (self.cand_count(wx, wy)) >= 1);
            }
            let ghost before = *self;
            self.solve_next();
            proof {
                let (sx, sy, sd) = choose|sx: int, sy: int, sd: int|
                    #[trigger] chosen_step(before, *self, sx, sy, sd)
                        && before.min_choice(sx, sy);
                lemma_collapse_decreases_open(before, *self, sx, sy);
                lemma_open_from_nonneg(*self, 0);
                // cells committed on entry are untouched: the chosen cell
                // was open, and every other cell keeps its committed state
                assert forall|i: int, j: int|
                    in_range(i) && in_range(j) && old(self).is_collapsed(i, j)
                    implies #[trigger] self.cell(i, j) == old(self).cell(i, j) by {
                    assert(before.cell(i, j) == old(self).cell(i, j));
                    assert(before.is_collapsed(i, j));
                    assert(!(i == sx && j == sy));
                    assert(self.cell(i, j) == before.cell(i, j));
                }
            }
            solvable = self.check_if_solvable();
        }
    }
}

/// When one open cell is the unique minimum-count choice and exactly one
/// candidate remains to it, a solver step deterministically commits that
/// cell to that digit.
pub proof fn lemma_forced_step(pre: Sudoku, post: Sudoku, x0: int, y0: int, d0: int)
    requires
        pre.grid_wf(),
        solve_step(pre, post),
        in_range(x0),
        in_range(y0),
        digit_in_range(d0),
        !pre.is_collapsed(x0, y0),
        pre.candidate(x0, y0, d0),
        forall|d: int| digit_in_range(d) && #[trigger] pre.candidate(x0, y0, d) ==> d == d0,
        forall|i: int, j: int|
            in_range(i) && in_range(j) && !pre.is_collapsed(i, j) && !(i == x0 && j == y0)
                && (#[trigger] pre.cand_count(i, j)) >= 1
                ==> pre.cand_count(i, j) > pre.cand_count(x0, y0),
    ensures
        post.collapsed_to(x0, y0, d0),
{
    let (sx, sy, sd) = choose|sx: int, sy: int, sd: int|
        #[trigger] chosen_step(pre, post, sx, sy, sd) && pre.min_choice(sx, sy);
    assert(field_wf(pre.cell(x0, y0)));
    match pre.cell(x0, y0) {
        Field::Superposition { states } => {
            assert(states@[d0]);
            assert forall|d: int| 0 <= d < 9 && d != d0 implies !states@[d] by {
                assert(pre.candidate(x0, y0, d) ==> d == d0);
            }
            lemma_count_single(states@, 0, d0);
            assert(pre.cand_count(x0, y0) == 1);
        }
        Field::Collapsed { .. } => {}
    }
    assert(!pre.cell_dead(sx, sy));
    lemma_live_cell_count(pre, sx, sy);
    assert(pre.cand_count(x0, y0) >= pre.cand_count(sx, sy));
    if !(sx == x0 && sy == y0) {
        assert(pre.cand_count(sx, sy) > 1);
        assert(false);
    }
    assert(pre.candidate(x0, y0, sd));
    assert(sd == d0);
}

} // verus!
