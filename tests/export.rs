use solver::board::Board;
use solver::graph::Graph;
use solver::masks::Masks;
use solver::solver::SudokuSolver;
use solver::visualize::{decimal_string, label};

#[test]
fn decimal_text_of_numbers() {
    assert_eq!(decimal_string(0), "0");
    assert_eq!(decimal_string(7), "7");
    assert_eq!(decimal_string(10), "10");
    assert_eq!(decimal_string(4096), "4096");
}

#[test]
fn vertex_labels() {
    assert_eq!(label(3, 12), "mg3_p12");
    assert_eq!(label(0, 0), "mg0_p0");
}

#[test]
fn block_positions() {
    assert_eq!(Graph::minigrid_position(3, 0), "top-left");
    assert_eq!(Graph::minigrid_position(3, 4), "middle-center");
    assert_eq!(Graph::minigrid_position(3, 5), "middle-right");
    assert_eq!(Graph::minigrid_position(3, 7), "bottom-center");
    assert_eq!(Graph::minigrid_position(2, 2), "bottom-left");
}

#[test]
fn snapshot_lists_every_vertex_and_each_edge_once() {
    // A 4x4 board with one empty cell per block.
    let cells = vec![
        vec![1, 2, 3, 0],
        vec![3, 4, 1, 2],
        vec![2, 1, 4, 3],
        vec![4, 0, 2, 1],
    ];
    let board = Board::new(cells).unwrap();
    let masks = Masks::generate(&board).unwrap();
    let solver = SudokuSolver::new(board);
    let graph = solver.build_compatibility_graph(&masks);
    let data = graph.snapshot();
    let vertices: usize = graph.minigrids.iter().map(|l| l.len()).sum();
    assert_eq!(vertices, 4);
    assert_eq!(data.nodes.len(), 4);
    // Blocks 0-1 and 2-3 share rows, 0-2 and 1-3 share columns.
    assert_eq!(data.edges.len(), 4);
    assert_eq!(data.nodes[0].id, "mg0_p0");
    assert_eq!(data.nodes[0].cells, vec![1, 2, 3, 4]);
    assert_eq!(data.nodes[1].board_position, "top-right");
    assert_eq!(data.nodes[3].cells, vec![4, 3, 2, 1]);
    for e in &data.edges {
        assert!(e.source < e.target);
    }
}
