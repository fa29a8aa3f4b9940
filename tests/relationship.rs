use solver::graph::{Graph, Relation};
use solver::node::PermutationNode;

fn make_graph(k: usize) -> Graph {
    let mut minigrids: Vec<Vec<PermutationNode>> = Vec::new();
    for _ in 0..k * k {
        minigrids.push(Vec::new());
    }
    Graph::new(k, minigrids)
}

#[test]
fn test_examples_9x9() {
    const K: usize = 3;
    let g = make_graph(K);

    // row-compatible examples
    assert_eq!(g.relationship(0, 1), Relation::Row);
    assert_eq!(g.relationship(1, 2), Relation::Row);
    assert_eq!(g.relationship(3, 5), Relation::Row);

    // col-compatible examples
    assert_eq!(g.relationship(0, 3), Relation::Col);
    assert_eq!(g.relationship(3, 6), Relation::Col);
    assert_eq!(g.relationship(2, 8), Relation::Col);

    // not-compatible examples (including same-index)
    assert_eq!(g.relationship(0, 4), Relation::Not);
    assert_eq!(g.relationship(2, 6), Relation::Not);
    assert_eq!(g.relationship(5, 5), Relation::Not);
}

#[test]
fn relation_from_mask_bits() {
    assert_eq!(Relation::from_mask(0), Relation::Not);
    assert_eq!(Relation::from_mask(1), Relation::Row);
    assert_eq!(Relation::from_mask(2), Relation::Col);
    assert_eq!(Relation::from_mask(3), Relation::Not);
    assert_eq!(Relation::from_mask(5), Relation::Row);
}

#[test]
fn relation_on_a_4x4_board() {
    let g = make_graph(2);
    assert_eq!(g.relationship(0, 1), Relation::Row);
    assert_eq!(g.relationship(0, 2), Relation::Col);
    assert_eq!(g.relationship(0, 3), Relation::Not);
}
