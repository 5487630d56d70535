use matrix_graph::matrix_graph::MatrixGraph;
use matrix_graph::node_storage::NodeStorage;
use matrix_graph::types::MatrixGraphNode;

/// A node whose hash is its value modulo 3, so that many values share one.
#[derive(Debug, PartialEq, Eq, Clone, Copy)]
struct Crowded(u32);

impl MatrixGraphNode for Crowded {
    fn hash_spec(&self) -> u64 {
        (self.0 % 3) as u64
    }

    fn hash_code(&self) -> u64 {
        (self.0 % 3) as u64
    }

    fn same_as(&self, other: &Self) -> bool {
        self.0 == other.0
    }
}

#[test]
fn values_that_share_a_hash_are_stored_side_by_side() {
    let mut ns = NodeStorage::<Crowded>::default();
    for value in 0..30 {
        assert!(!ns.contains(&Crowded(value)));
        assert_eq!(ns.add(Crowded(value)), value as usize);
    }
    for value in 0..30 {
        assert_eq!(ns.get_index_of(&Crowded(value)), Some(value as usize));
    }
    assert_eq!(ns.get_index_of(&Crowded(30)), None);
    assert_eq!(ns.len(), 30);
}

#[test]
fn removing_one_of_the_values_that_share_a_hash_leaves_the_others() {
    let mut ns = NodeStorage::<Crowded>::default();
    for value in 0..12 {
        ns.add(Crowded(value));
    }
    // 0, 3, 6, 9 share a hash: take out the first, one in the middle, the last
    assert_eq!(ns.remove(0), Some(Crowded(0)));
    assert_eq!(ns.remove(6), Some(Crowded(6)));
    assert_eq!(ns.remove(9), Some(Crowded(9)));
    assert_eq!(ns.get_index_of(&Crowded(3)), Some(3));
    assert_eq!(ns.get_index_of(&Crowded(0)), None);
    assert_eq!(ns.get_index_of(&Crowded(6)), None);
    assert_eq!(ns.get_index_of(&Crowded(9)), None);
    assert_eq!(ns.remove(3), Some(Crowded(3)));
    assert!(!ns.contains(&Crowded(3)));
    // the freed indices come back, the last freed first
    assert_eq!(ns.add(Crowded(12)), 3);
    assert_eq!(ns.add(Crowded(15)), 9);
    assert_eq!(ns.add(Crowded(0)), 6);
    assert_eq!(ns.add(Crowded(18)), 0);
    assert_eq!(ns.get_index_of(&Crowded(0)), Some(6));
    assert_eq!(ns.get_index_of(&Crowded(12)), Some(3));
    assert_eq!(ns.get_index_of(&Crowded(18)), Some(0));
    assert_eq!(ns.len(), 12);
}

#[test]
fn a_graph_tells_nodes_with_one_hash_apart() {
    let g = MatrixGraph::<Crowded, u8>::from_edges(vec![
        (Crowded(3), Crowded(6), 1),
        (Crowded(6), Crowded(9), 2),
        (Crowded(9), Crowded(3), 3),
    ]);
    assert_eq!(g.node_count(), 3);
    assert_eq!(g.edge_count(), 3);
    assert_eq!(g.get_index_of(&Crowded(9)), Some(2));
    assert_eq!(g.get_edge_by_index(2, 0), Some(&3));
    assert!(!g.contains_node(&Crowded(0)));
}
