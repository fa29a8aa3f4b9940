use solver::board::{Board, SolveError};
use solver::masks::Masks;
use solver::minigrid::{permutations_of, Minigrid};
use solver::node::PermutationNode;
use solver::pruner::{prune, required_degree};
use solver::solver::{SudokuSolver, Verdict};

fn rows(flat: &[u8], n: usize) -> Vec<Vec<u8>> {
    flat.chunks(n).map(|r| r.to_vec()).collect()
}

fn scenario() -> Vec<Vec<u8>> {
    rows(
        &[
            7, 4, 5, 0, 9, 0, 0, 0, 0, //
            0, 3, 2, 1, 5, 0, 0, 4, 6, //
            0, 0, 0, 2, 8, 0, 5, 0, 3, //
            2, 0, 0, 0, 0, 0, 0, 6, 0, //
            9, 8, 0, 6, 0, 0, 3, 5, 1, //
            0, 0, 0, 5, 4, 0, 2, 0, 7, //
            3, 0, 8, 0, 0, 0, 0, 0, 2, //
            0, 2, 0, 7, 6, 0, 0, 1, 0, //
            0, 6, 0, 9, 0, 8, 0, 3, 4, //
        ],
        9,
    )
}

fn is_complete_and_valid(grid: &Vec<Vec<u8>>) -> bool {
    let b = Board::new(grid.clone()).expect("shape");
    b.is_valid() && grid.iter().all(|r| r.iter().all(|&v| v != 0))
}

#[test]
fn scenario_has_exactly_one_valid_solution() {
    let given = scenario();
    let solver = SudokuSolver::new(Board::new(given.clone()).unwrap());
    let sols = solver.solve(2).unwrap();
    assert_eq!(sols.len(), 1);
    assert_eq!(Verdict::of_count(sols.len()), Verdict::Unique);
    assert!(is_complete_and_valid(&sols[0]));
    for r in 0..9 {
        for c in 0..9 {
            if given[r][c] != 0 {
                assert_eq!(sols[0][r][c], given[r][c]);
            }
        }
    }
}

#[test]
fn two_sevens_in_a_row_fail_validation() {
    let mut g = scenario();
    g[0][3] = 7;
    let board = Board::new(g).unwrap();
    assert!(!board.is_valid());
    assert_eq!(Masks::generate(&board).err(), Some(SolveError::DuplicateDigit));
    let solver = SudokuSolver::new(board);
    assert_eq!(solver.solve(2).err(), Some(SolveError::DuplicateDigit));
}

#[test]
fn duplicate_in_a_column_or_block_fails_validation() {
    let mut g = vec![vec![0u8; 4]; 4];
    g[0][0] = 3;
    g[3][0] = 3;
    assert!(!Board::new(g).unwrap().is_valid());
    let mut g = vec![vec![0u8; 4]; 4];
    g[0][0] = 2;
    g[1][1] = 2;
    assert!(!Board::new(g).unwrap().is_valid());
}

#[test]
fn block_without_permutations_is_unsolvable() {
    // A full valid grid: row 0 reads 1..9, row 3 reads 2..9 then 1.
    let mut g: Vec<Vec<u8>> = (0..9)
        .map(|r| (0..9).map(|c| (((r % 3) * 3 + r / 3 + c) % 9 + 1) as u8).collect())
        .collect();
    // Row 0 keeps 1..8; its last cell's only digit, 9, moves down column 8.
    g[0][8] = 0;
    g[3][7] = 0;
    g[3][8] = 9;
    let board = Board::new(g).unwrap();
    assert!(board.is_valid());
    let masks = Masks::generate(&board).unwrap();
    assert!(permutations_of(&board, &masks, 2).is_empty());
    let sols = SudokuSolver::new(board).solve(2).unwrap();
    assert!(sols.is_empty());
    assert_eq!(Verdict::of_count(sols.len()), Verdict::Unsolvable);
}

#[test]
fn full_valid_grid_is_its_own_unique_solution() {
    let given = scenario();
    let full = SudokuSolver::new(Board::new(given).unwrap()).solve(1).unwrap().remove(0);
    let sols = SudokuSolver::new(Board::new(full.clone()).unwrap()).solve(5).unwrap();
    assert_eq!(sols, vec![full]);
}

#[test]
fn solving_twice_gives_the_same_answer() {
    let a = SudokuSolver::new(Board::new(scenario()).unwrap()).solve(3).unwrap();
    let b = SudokuSolver::new(Board::new(scenario()).unwrap()).solve(3).unwrap();
    assert_eq!(a, b);
}

#[test]
fn empty_4x4_board_has_288_solutions() {
    let sols = SudokuSolver::new(Board::new(vec![vec![0u8; 4]; 4]).unwrap()).solve(1000).unwrap();
    assert_eq!(sols.len(), 288);
    assert_eq!(Verdict::of_count(sols.len()), Verdict::Ambiguous);
    for s in &sols {
        assert!(is_complete_and_valid(s));
    }
}

#[test]
fn cap_bounds_the_number_of_solutions() {
    let sols = SudokuSolver::new(Board::new(vec![vec![0u8; 4]; 4]).unwrap()).solve(3).unwrap();
    assert_eq!(sols.len(), 3);
}

#[test]
fn capped_solves_return_the_first_solutions_in_order() {
    let all = SudokuSolver::new(Board::new(vec![vec![0u8; 4]; 4]).unwrap()).solve(1000).unwrap();
    for cap in [1usize, 2, 5, 40] {
        let some = SudokuSolver::new(Board::new(vec![vec![0u8; 4]; 4]).unwrap()).solve(cap).unwrap();
        assert_eq!(&some[..], &all[..cap]);
    }
}

#[test]
fn single_cell_board_is_solved() {
    // The one block has no neighbouring blocks, so it needs no compatible neighbours.
    let sols = SudokuSolver::new(Board::new(vec![vec![0u8]]).unwrap()).solve(2).unwrap();
    assert_eq!(sols, vec![vec![vec![1u8]]]);
    let sols = SudokuSolver::new(Board::new(vec![vec![1u8]]).unwrap()).solve(2).unwrap();
    assert_eq!(sols, vec![vec![vec![1u8]]]);
}

#[test]
fn board_shape_errors() {
    assert_eq!(Board::new(vec![vec![0u8; 36]; 36]).err(), Some(SolveError::TooLarge));
    assert_eq!(Board::new(vec![vec![0u8; 2]; 2]).err(), Some(SolveError::NotPerfectSquare));
    assert_eq!(Board::new(Vec::new()).err(), Some(SolveError::NotPerfectSquare));
    let mut g = vec![vec![0u8; 4]; 4];
    g[2].push(0);
    assert_eq!(Board::new(g).err(), Some(SolveError::RaggedRow));
    let mut g = vec![vec![0u8; 4]; 4];
    g[1][1] = 5;
    assert_eq!(Board::new(g).err(), Some(SolveError::DigitOutOfRange));
}

#[test]
fn board_accessors() {
    let b = Board::new(scenario()).unwrap();
    assert_eq!(b.size(), 9);
    assert_eq!(b.n(), 3);
    assert_eq!(b.get_cell(0), 7);
    assert_eq!(b.get_cell(10), 3);
    assert_eq!(b.get_cell(80), 4);
    assert_eq!(b.box_idx(0, 0), 0);
    assert_eq!(b.box_idx(4, 7), 5);
    assert_eq!(b.box_idx(8, 8), 8);
}

#[test]
fn masks_of_the_scenario() {
    let b = Board::new(scenario()).unwrap();
    let m = Masks::generate(&b).unwrap();
    // Row 0 holds 7, 4, 5, 9.
    assert_eq!(*m.rows[0].get(), (1 << 6) | (1 << 3) | (1 << 4) | (1 << 8));
    // Column 0 holds 7, 2, 9, 3.
    assert_eq!(*m.cols[0].get(), (1 << 6) | (1 << 1) | (1 << 8) | (1 << 2));
    // Block 0 holds 7, 4, 5, 3, 2.
    assert_eq!(*m.boxs[0].get(), (1 << 6) | (1 << 3) | (1 << 4) | (1 << 2) | (1 << 1));
    // A given cell takes nothing; an empty one is barred its row, column and block.
    assert!(m.conflict[0][0].is_all_set(9));
    let expected = *m.rows[1].get() | *m.cols[0].get() | *m.boxs[0].get();
    assert_eq!(*m.conflict[1][0].get(), expected);
}

#[test]
fn minigrid_of_the_scenario() {
    let b = Board::new(scenario()).unwrap();
    let mg = Minigrid::new(4, &b);
    assert_eq!(mg.cells, vec![0, 0, 0, 6, 0, 0, 5, 4, 0]);
    assert_eq!(*mg.empty.get(), 0b1_0011_0111);
}

#[test]
fn permutations_keep_givens_and_use_each_digit_once() {
    let b = Board::new(scenario()).unwrap();
    let m = Masks::generate(&b).unwrap();
    let perms = permutations_of(&b, &m, 0);
    assert!(!perms.is_empty());
    for p in &perms {
        let mut seen = [false; 10];
        for &d in p.cells() {
            assert!(!seen[d as usize]);
            seen[d as usize] = true;
        }
        assert_eq!(p.cells()[0], 7);
        assert_eq!(p.cells()[4], 3);
    }
}

#[test]
fn node_compatibility_checks() {
    let a = PermutationNode::from_minigrid(2, vec![1, 2, 3, 4]);
    let b = PermutationNode::from_minigrid(2, vec![3, 4, 1, 2]);
    let c = PermutationNode::from_minigrid(2, vec![2, 1, 4, 3]);
    assert!(a.check_row_compatible(&b));
    assert!(!a.check_row_compatible(&c));
    assert!(a.check_col_compatible(&c));
    assert!(!a.check_col_compatible(&b));
    assert_eq!(*a.row_masks[0].get(), 0b0011);
    assert_eq!(*a.col_masks[1].get(), 0b1010);
}

#[test]
fn required_degree_by_block_position() {
    assert_eq!(required_degree(3, 0), 2);
    assert_eq!(required_degree(3, 1), 3);
    assert_eq!(required_degree(3, 4), 4);
    assert_eq!(required_degree(3, 8), 2);
    assert_eq!(required_degree(2, 3), 2);
    assert_eq!(required_degree(1, 0), 0);
}

#[test]
fn pruning_only_removes_and_keeps_the_solution() {
    let given = scenario();
    let board = Board::new(given.clone()).unwrap();
    let solution = SudokuSolver::new(board.clone()).solve(1).unwrap().remove(0);
    let masks = Masks::generate(&board).unwrap();
    let solver = SudokuSolver::new(board);
    let mut graph = solver.build_compatibility_graph(&masks);
    let mut active: Vec<Vec<bool>> = graph.minigrids.iter().map(|l| vec![true; l.len()]).collect();
    prune(&graph, &mut active);
    for b in 0..9 {
        let before = graph.minigrids[b].len();
        let after = active[b].iter().filter(|&&x| x).count();
        assert!(after <= before);
        let (br, bc) = ((b / 3) * 3, (b % 3) * 3);
        let cells: Vec<u8> = (0..9).map(|i| solution[br + i / 3][bc + i % 3]).collect();
        let idx = graph.minigrids[b].iter().position(|p| p.cells() == &cells).unwrap();
        assert!(active[b][idx]);
    }
    // Building edges again appends a second copy after the first.
    let before: Vec<Vec<Vec<(usize, usize)>>> = graph
        .minigrids
        .iter()
        .map(|l| l.iter().map(|n| n.compatible.clone()).collect())
        .collect();
    graph.create_edges();
    for b in 0..9 {
        for (p, node) in graph.minigrids[b].iter().enumerate() {
            let old = &before[b][p];
            assert_eq!(node.compatible.len(), 2 * old.len());
            assert_eq!(&node.compatible[..old.len()], &old[..]);
        }
    }
}

#[test]
fn verdict_of_counts() {
    assert_eq!(Verdict::of_count(0), Verdict::Unsolvable);
    assert_eq!(Verdict::of_count(1), Verdict::Unique);
    assert_eq!(Verdict::of_count(7), Verdict::Ambiguous);
}

#[test]
fn near_complete_4x4_board_with_two_solutions_is_ambiguous() {
    // Swapping 1 and 2 in the two top-left rows keeps every line valid.
    let cells = vec![
        vec![0, 0, 3, 4],
        vec![3, 4, 0, 0],
        vec![0, 0, 4, 3],
        vec![4, 3, 0, 0],
    ];
    let sols = SudokuSolver::new(Board::new(cells).unwrap()).solve(10).unwrap();
    assert!(sols.len() > 1);
    assert_eq!(Verdict::of_count(sols.len()), Verdict::Ambiguous);
    for s in &sols {
        assert!(is_complete_and_valid(s));
    }
    for i in 0..sols.len() {
        for j in 0..i {
            assert_ne!(sols[i], sols[j]);
        }
    }
}

/// The full valid grid of side `k * k` in which row `r` is shifted by
/// `(r % k) * k + r / k`.
fn pattern(k: usize) -> Vec<Vec<u8>> {
    let n = k * k;
    (0..n)
        .map(|r| (0..n).map(|c| (((r % k) * k + r / k + c) % n + 1) as u8).collect())
        .collect()
}

#[test]
fn largest_full_grid_is_its_own_unique_solution() {
    let full = pattern(5);
    let board = Board::new(full.clone()).unwrap();
    assert!(board.is_valid());
    let sols = SudokuSolver::new(board).solve(2).unwrap();
    assert_eq!(sols, vec![full]);
}

#[test]
fn grid_of_side_16_with_blanks_is_restored() {
    let full = pattern(4);
    let mut g = full.clone();
    g[0][0] = 0;
    g[5][9] = 0;
    g[10][3] = 0;
    g[15][15] = 0;
    let sols = SudokuSolver::new(Board::new(g).unwrap()).solve(2).unwrap();
    assert_eq!(sols, vec![full]);
}

/// A board read block by block, each block row by row.
fn block_key(grid: &Vec<Vec<u8>>, k: usize) -> Vec<u8> {
    let n = k * k;
    let mut key = Vec::new();
    for b in 0..n {
        for i in 0..n {
            key.push(grid[(b / k) * k + i / k][(b % k) * k + i % k]);
        }
    }
    key
}

#[test]
fn solutions_come_in_increasing_block_order() {
    let sols = SudokuSolver::new(Board::new(vec![vec![0u8; 4]; 4]).unwrap()).solve(1000).unwrap();
    for w in sols.windows(2) {
        assert!(block_key(&w[0], 2) < block_key(&w[1], 2));
    }
    // The first solution fills the first block with 1 2 / 3 4.
    assert_eq!(block_key(&sols[0], 2)[..4], [1, 2, 3, 4]);
}
