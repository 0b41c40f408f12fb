use wave_sudoku::{Field, Sudoku};

fn collapsed_to(b: &Sudoku, x: usize, y: usize) -> Option<u8> {
    match b.get_cell(x, y) {
        Field::Collapsed { num } => Some(*num),
        Field::Superposition { .. } => None,
    }
}

fn open_count(b: &Sudoku, x: usize, y: usize) -> usize {
    match b.get_cell(x, y) {
        Field::Superposition { states } => states.iter().filter(|&&t| t).count(),
        Field::Collapsed { .. } => 0,
    }
}

#[test]
fn forced_cell_is_collapsed_deterministically() {
    let mut b = Sudoku::new();
    // commit (0,0)..(0,7), leaving (0,8) with digit 8 as its only candidate
    for y in 0..8u8 {
        b.collapse_cell(0, y as usize, y);
    }
    assert_eq!(open_count(&b, 0, 8), 1);
    // every other open cell has lost at most three candidates
    for x in 1..9 {
        for y in 0..9 {
            assert!(open_count(&b, x, y) >= 6);
        }
    }
    b.solve_next();
    assert_eq!(collapsed_to(&b, 0, 8), Some(8));
}

#[test]
fn single_step_commits_exactly_one_cell() {
    let mut b = Sudoku::new();
    b.solve_next();
    let mut committed = 0;
    for x in 0..9 {
        for y in 0..9 {
            if collapsed_to(&b, x, y).is_some() {
                committed += 1;
            }
        }
    }
    assert_eq!(committed, 1);
    assert!(!b.solved);
}

#[test]
fn full_runs_end_solved_or_stuck() {
    for _ in 0..20 {
        let mut b = Sudoku::new();
        b.solve_all();
        if b.solved {
            for x in 0..9 {
                for y in 0..9 {
                    assert!(collapsed_to(&b, x, y).is_some());
                }
            }
        } else {
            assert!(!b.check_if_solvable());
            let mut dead = false;
            for x in 0..9 {
                for y in 0..9 {
                    if collapsed_to(&b, x, y).is_none() && open_count(&b, x, y) == 0 {
                        dead = true;
                    }
                }
            }
            assert!(dead, "an unsolved run must leave a cell without candidates");
        }
    }
}

#[test]
fn solving_a_nearly_finished_board_succeeds() {
    let mut b = Sudoku::new();
    // fill all but the last row of a known valid grid
    for y in 0..8usize {
        for x in 0..9usize {
            let d = ((3 * (y % 3) + y / 3 + x) % 9) as u8;
            b.collapse_cell(x, y, d);
        }
    }
    // each remaining cell has exactly one candidate, so the steps are forced
    b.solve_all();
    assert!(b.solved);
    for x in 0..9usize {
        let d = ((3 * (8 % 3) + 8 / 3 + x) % 9) as u8;
        assert_eq!(collapsed_to(&b, x, 8), Some(d));
    }
}
