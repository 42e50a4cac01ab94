use sudoku::solver::Sudoku;
use sudoku::util::{char_to_radix, vectorify, Space};

fn grid(rows: &[&str]) -> Vec<Vec<char>> {
    rows.iter().map(|r| r.chars().collect()).collect()
}

fn assert_valid(g: &Vec<Vec<char>>) {
    let len = g.len();
    let n = (1..=len).find(|k| k * k == len).unwrap();
    for i in 0..len {
        for j in 0..len {
            let v = g[i][j];
            assert_ne!(v, '.');
            for c in 0..len {
                if c != j {
                    assert_ne!(g[i][c], v);
                }
            }
            for r in 0..len {
                if r != i {
                    assert_ne!(g[r][j], v);
                }
            }
            for r in 0..len {
                for c in 0..len {
                    if (r, c) != (i, j) && r / n == i / n && c / n == j / n {
                        assert_ne!(g[r][c], v);
                    }
                }
            }
        }
    }
}

fn assert_keeps(s: &Vec<Vec<char>>, g: &Vec<Vec<char>>) {
    for i in 0..g.len() {
        for j in 0..g.len() {
            if g[i][j] != '.' {
                assert_eq!(s[i][j], g[i][j]);
            }
        }
    }
}

fn classic() -> Vec<Vec<char>> {
    grid(&[
        "8........",
        "..36.....",
        ".7..9.2..",
        ".5...7...",
        "....457..",
        "...1...3.",
        "..1....68",
        "..85...1.",
        ".9....4..",
    ])
}

#[test]
fn classic_puzzle_has_its_unique_solution() {
    let expected = grid(&[
        "812753649",
        "943682175",
        "675491283",
        "154237896",
        "369845721",
        "287169534",
        "521974368",
        "438526917",
        "796318452",
    ]);
    let sols = Sudoku::solve(classic()).unwrap();
    assert_eq!(sols.len(), 1);
    assert_eq!(sols[0], expected);
    assert_valid(&sols[0]);
    assert_keeps(&sols[0], &classic());
}

#[test]
fn filled_valid_grid_is_its_own_solution() {
    let g = grid(&["1234", "3412", "2143", "4321"]);
    let sols = Sudoku::solve(g.clone()).unwrap();
    assert_eq!(sols, vec![g]);
}

#[test]
fn two_cells_forced_to_one_symbol_have_no_solution() {
    let g = grid(&["1..4", "....", ".2..", "..2."]);
    assert_eq!(Sudoku::solve(g), None);
}

#[test]
fn duplicate_in_row_has_no_solution() {
    assert_eq!(Sudoku::solve(grid(&["1..1", "....", "....", "...."])), None);
}

#[test]
fn duplicate_in_box_has_no_solution() {
    assert_eq!(Sudoku::solve(grid(&["1...", ".1..", "....", "...."])), None);
}

#[test]
fn filled_grid_with_clash_has_no_solution() {
    assert_eq!(Sudoku::solve(grid(&["1234", "3412", "2143", "4312"])), None);
}

#[test]
fn empty_four_by_four_has_all_288_grids() {
    let g = grid(&["....", "....", "....", "...."]);
    let sols = Sudoku::solve(g.clone()).unwrap();
    assert_eq!(sols.len(), 288);
    for s in &sols {
        assert_valid(s);
    }
    for a in 0..sols.len() {
        for b in a + 1..sols.len() {
            assert_ne!(sols[a], sols[b]);
        }
    }
}

#[test]
fn hand_counted_puzzles_give_every_solution() {
    let four = grid(&["1234", "3412", "....", "...."]);
    let sols = Sudoku::solve(four.clone()).unwrap();
    assert_eq!(sols.len(), 4);
    for s in &sols {
        assert_valid(s);
        assert_keeps(s, &four);
    }
    let g = grid(&["12..", "34..", "....", "...."]);
    let sols = Sudoku::solve(g.clone()).unwrap();
    assert_eq!(sols.len(), 12);
    for s in &sols {
        assert_valid(s);
        assert_keeps(s, &g);
    }
    let mut seen = sols.clone();
    seen.dedup();
    assert_eq!(seen.len(), sols.len());
    let h = grid(&["1234", "3412", "2143", "4321"]);
    let single = Sudoku::solve(grid(&["1234", "3412", "2...", "...."])).unwrap();
    assert!(single.contains(&h));
    assert!(sols.contains(&h));
}

#[test]
fn lower_case_symbols_are_read_and_kept() {
    let sym = |v: usize| char_to_radix(v as u8, 17);
    let full: Vec<Vec<char>> = (0..16)
        .map(|i| (0..16).map(|j| sym(((i % 4) * 4 + i / 4 + j) % 16 + 1)).collect())
        .collect();
    assert_valid(&full);
    let mut g = full.clone();
    g[0][0] = '.';
    g[5][7] = '.';
    g[15][15] = '.';
    for i in 0..16 {
        for j in 0..16 {
            g[i][j] = g[i][j].to_ascii_lowercase();
        }
    }
    let sols = Sudoku::solve(g.clone()).unwrap();
    assert_eq!(sols.len(), 1);
    assert_keeps(&sols[0], &g);
    assert_eq!(sols[0][0][0], full[0][0]);
    assert_eq!(sols[0][5][7], full[5][7]);
    assert_eq!(sols[0][15][15], full[15][15]);
}

#[test]
fn solving_twice_gives_the_same_list() {
    let g = grid(&["1...", "..3.", "....", "...."]);
    let a = Sudoku::solve(g.clone());
    let b = Sudoku::solve(g);
    assert_eq!(a, b);
    assert!(a.unwrap().len() > 1);
}

#[test]
fn propagation_reaches_a_fixpoint() {
    let mut g = classic();
    let first = Sudoku::reasoning(&mut g).unwrap();
    let mut again = first.clone();
    let second = Sudoku::reasoning(&mut again).unwrap();
    assert_eq!(first, second);
    assert_eq!(again, first);
    assert_eq!(g, first);
    assert_eq!(first, classic());
    let mut h = grid(&["1...", "..3.", "....", "...."]);
    let once = Sudoku::reasoning(&mut h).unwrap();
    let twice = Sudoku::reasoning(&mut h).unwrap();
    assert_eq!(once, twice);
}

#[test]
fn propagation_fills_naked_singles() {
    let mut g = grid(&["123.", "....", "....", "...."]);
    let r = Sudoku::reasoning(&mut g).unwrap();
    assert_eq!(r[0], vec!['1', '2', '3', '4']);
}

#[test]
fn propagation_reports_a_dead_cell() {
    let mut g = grid(&["1..4", "....", ".2..", "..2."]);
    assert_eq!(Sudoku::reasoning(&mut g), None);
}

#[test]
fn projections_of_a_grid() {
    let g = grid(&["1.3.", "....", "..4.", "2..."]);
    assert_eq!(Sudoku::row_matrix(&g)[0], vec![1, 0, 3, 0]);
    assert_eq!(Sudoku::col_matrix(&g)[0], vec![1, 0, 0, 2]);
    assert_eq!(Sudoku::col_matrix(&g)[2], vec![3, 0, 4, 0]);
    assert_eq!(Sudoku::box_matrix(&g)[0], vec![1, 0, 0, 0]);
    assert_eq!(Sudoku::box_matrix(&g)[1], vec![3, 0, 0, 0]);
    assert_eq!(Sudoku::box_matrix(&g)[2], vec![0, 2, 0, 0]);
    assert_eq!(Sudoku::box_matrix(&g)[3], vec![4, 0, 0, 0]);
    assert_eq!(Sudoku::transpose(&g)[3], vec!['.', '.', '.', '.']);
    assert_eq!(Sudoku::transpose(&g)[0], vec!['1', '.', '.', '2']);
}

#[test]
fn completed_and_conflict_free() {
    assert!(Sudoku::completed(&grid(&["1234", "3412", "2143", "4321"])));
    assert!(!Sudoku::completed(&grid(&["1234", "3412", "2143", "432."])));
    assert!(Sudoku::conflict_free(&grid(&["1...", "..1.", "....", "...."])));
    assert!(!Sudoku::conflict_free(&grid(&["1...", "....", "....", "1..."])));
}

#[test]
fn radix_symbols() {
    assert_eq!(char_to_radix(7, 10), '7');
    assert_eq!(char_to_radix(10, 17), 'A');
    assert_eq!(char_to_radix(16, 17), 'G');
    assert_eq!(char_to_radix(35, 36), 'Z');
}

#[test]
fn vectorify_copies_rows() {
    let a: &[char] = &['1', '.'];
    let b: &[char] = &['.', '2'];
    assert_eq!(vectorify(&[a, b]), vec![vec!['1', '.'], vec!['.', '2']]);
}

#[test]
fn puzzle_shape_is_checked() {
    assert!(Sudoku::is_puzzle(&classic()));
    assert!(Sudoku::is_puzzle(&grid(&["1"])));
    assert!(Sudoku::is_puzzle(&grid(&["."])));
    assert!(!Sudoku::is_puzzle(&grid(&["12.", "...", "..."])));
    assert!(!Sudoku::is_puzzle(&grid(&["1234", "....", "....", "..."])));
    assert!(!Sudoku::is_puzzle(&grid(&["1235", "....", "....", "...."])));
    assert!(!Sudoku::is_puzzle(&grid(&["0...", "....", "....", "...."])));
    assert!(!Sudoku::is_puzzle(&Vec::new()));
}

#[test]
fn branching_picks_the_first_fewest_options() {
    let sp = |i: usize, opts: Vec<u8>| Space { pos: (0, i), opts };
    let spaces = vec![sp(0, vec![1, 2, 3]), sp(1, vec![2, 4]), sp(2, vec![1, 3]), sp(3, vec![1, 2, 3, 4])];
    assert_eq!(Sudoku::fewest_options(&spaces), 1);
    assert_eq!(Sudoku::fewest_options(&vec![sp(0, vec![5])]), 0);
}
