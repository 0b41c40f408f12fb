use wave_sudoku::{Field, Sudoku};

fn cand(b: &Sudoku, x: usize, y: usize, d: usize) -> bool {
    match b.get_cell(x, y) {
        Field::Superposition { states } => states[d],
        Field::Collapsed { .. } => false,
    }
}

fn collapsed_digit(b: &Sudoku, x: usize, y: usize) -> Option<u8> {
    match b.get_cell(x, y) {
        Field::Collapsed { num } => Some(*num),
        Field::Superposition { .. } => None,
    }
}

fn cand_count(b: &Sudoku, x: usize, y: usize) -> usize {
    match b.get_cell(x, y) {
        Field::Superposition { states } => states.iter().filter(|&&t| t).count(),
        Field::Collapsed { .. } => 0,
    }
}

fn snapshot(b: &Sudoku) -> Vec<(Option<u8>, Vec<bool>)> {
    let mut cells = Vec::new();
    for x in 0..9 {
        for y in 0..9 {
            match b.get_cell(x, y) {
                Field::Collapsed { num } => cells.push((Some(*num), Vec::new())),
                Field::Superposition { states } => cells.push((None, states.clone())),
            }
        }
    }
    cells
}

#[test]
fn fresh_board_is_fully_open() {
    let b = Sudoku::new();
    assert!(!b.solved);
    assert!(b.check_if_solvable());
    for x in 0..9 {
        for y in 0..9 {
            assert_eq!(collapsed_digit(&b, x, y), None);
            assert_eq!(cand_count(&b, x, y), 9);
        }
    }
}

#[test]
fn collapse_corner_clears_its_peers() {
    let mut b = Sudoku::new();
    b.collapse_cell(0, 0, 0);
    assert_eq!(collapsed_digit(&b, 0, 0), Some(0));
    for j in 1..9 {
        assert!(!cand(&b, 0, j, 0), "column peer (0,{}) kept digit 0", j);
        assert!(!cand(&b, j, 0, 0), "row peer ({},0) kept digit 0", j);
        assert!(cand(&b, 0, j, 1));
        assert!(cand(&b, j, 0, 1));
    }
    for &(i, j) in &[(1, 1), (1, 2), (2, 1), (2, 2)] {
        assert!(!cand(&b, i, j, 0), "box peer ({},{}) kept digit 0", i, j);
        assert!(cand(&b, i, j, 1));
    }
    // a cell outside every peer family of (0,0) keeps all nine candidates
    assert_eq!(cand_count(&b, 4, 4), 9);
    assert!(cand(&b, 4, 4, 0));
    assert!(!b.solved);
    assert!(b.check_if_solvable());
}

#[test]
fn collapsing_one_line_clears_peers_of_each_digit() {
    let mut b = Sudoku::new();
    for i in 0..9u8 {
        b.collapse_cell(i as usize, 0, i);
    }
    for i in 0..9 {
        // every other cell sharing the collapsed cell's column loses its digit
        for j in 1..9 {
            assert!(!cand(&b, i, j, i), "({},{}) kept digit {}", i, j, i);
        }
        // box peers that share neither coordinate lose it too
        let bx = (i / 3) * 3;
        for a in bx..bx + 3 {
            for j in 1..3 {
                if a != i {
                    assert!(!cand(&b, a, j, i), "box peer ({},{}) kept digit {}", a, j, i);
                }
            }
        }
    }
    // a cell far from the collapsed line keeps digits its peers do not hold
    assert_eq!(cand_count(&b, 4, 8), 8);
    assert!(!b.solved);
    assert!(b.check_if_solvable());
}

#[test]
fn propagation_is_idempotent() {
    let mut b = Sudoku::new();
    b.collapse_cell(0, 0, 3);
    b.collapse_cell(4, 4, 3);
    b.collapse_cell(8, 2, 7);
    let first = snapshot(&b);
    let solved_first = b.solved;
    b.update_superpositions();
    assert_eq!(first, snapshot(&b));
    assert_eq!(solved_first, b.solved);
    b.update_superpositions();
    assert_eq!(first, snapshot(&b));
}

#[test]
fn solved_flag_tracks_the_last_open_cell() {
    let mut b = Sudoku::new();
    for y in 0..9usize {
        for x in 0..9usize {
            assert!(!b.solved, "solved before the grid was full");
            let d = ((3 * (y % 3) + y / 3 + x) % 9) as u8;
            b.collapse_cell(x, y, d);
        }
    }
    assert!(b.solved);
    assert!(b.check_if_solvable());
    for x in 0..9 {
        for y in 0..9 {
            assert!(collapsed_digit(&b, x, y).is_some());
        }
    }
}

#[test]
fn get_cell_clamps_out_of_range_coordinates() {
    let mut b = Sudoku::new();
    b.collapse_cell(8, 3, 5);
    assert_eq!(collapsed_digit(&b, 100, 3), Some(5));
    b.collapse_cell(2, 8, 1);
    assert_eq!(collapsed_digit(&b, 2, 42), Some(1));
    assert_eq!(collapsed_digit(&b, 7, 7), None);
}

fn peers(x: usize, y: usize) -> Vec<(usize, usize)> {
    let mut out = Vec::new();
    for i in 0..9 {
        if i != x {
            out.push((i, y));
        }
        if i != y {
            out.push((x, i));
        }
    }
    let (gx, gy) = ((x / 3) * 3, (y / 3) * 3);
    for i in gx..gx + 3 {
        for j in gy..gy + 3 {
            if i != x && j != y {
                out.push((i, j));
            }
        }
    }
    out
}

#[test]
fn committed_digits_never_survive_among_peer_candidates() {
    let mut b = Sudoku::new();
    b.collapse_cell(0, 0, 0);
    b.collapse_cell(4, 4, 7);
    b.collapse_cell(8, 1, 3);
    b.collapse_cell(2, 7, 5);
    b.collapse_cell(6, 6, 0);
    for x in 0..9 {
        for y in 0..9 {
            if let Some(d) = collapsed_digit(&b, x, y) {
                for (i, j) in peers(x, y) {
                    assert!(
                        !cand(&b, i, j, d as usize),
                        "peer ({},{}) of ({},{}) kept digit {}",
                        i, j, x, y, d
                    );
                }
            }
        }
    }
}

#[test]
fn duplicate_digit_in_a_row_kills_the_cell_that_needed_it() {
    let mut b = Sudoku::new();
    // leave (0,0) with digit 0 as its only candidate
    for y in 1..9u8 {
        b.collapse_cell(0, y as usize, y);
    }
    assert_eq!(cand_count(&b, 0, 0), 1);
    assert!(cand(&b, 0, 0, 0));
    assert!(b.check_if_solvable());
    // force two cells of row 0 to the same digit; the second overwrite is
    // infeasible and nothing rejects it
    b.collapse_cell(3, 0, 0);
    b.collapse_cell(6, 0, 0);
    assert!(!cand(&b, 0, 0, 0));
    assert_eq!(cand_count(&b, 0, 0), 0);
    assert!(!b.check_if_solvable());
}
