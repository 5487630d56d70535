use matrix_graph::matrix_graph::{required_capacity, GraphFault, MatrixGraph};

fn create_graph() -> MatrixGraph<u32, ()> {
    MatrixGraph::<u32, ()>::default()
}

#[test]
fn test_creates_default_empty() {
    let g = create_graph();
    assert_eq!(g.node_count(), 0);
    assert_eq!(g.edge_count(), 0);
}

#[test]
fn test_creates_from_edges() {
    let edges = [
        (1, 2, 3),
        (3, 4, 7),
        (1, 3, 4),
        (3, 2, 5),
        (5, 2, 7),
        (1, 4, 5),
        (1, 5, 6),
        (3, 1, 4),
    ];

    let g = MatrixGraph::<u32, u8>::from_edges(edges.to_vec());
    assert_eq!(g.node_count(), 5, "Nodes: {}", g.node_count());
    assert_eq!(g.edge_count(), edges.len(), "Nodes: {}", g.edge_count());

    for (from, to, weight) in edges {
        let from_idx = g.get_index_of(&from).unwrap();
        let to_idx = g.get_index_of(&to).unwrap();
        assert_eq!(g.get_edge_by_index(from_idx, to_idx).unwrap(), &weight);
    }
}

#[test]
fn test_adds_new_node() {
    let mut g = create_graph();
    let node_idx = g.add_node(34);
    assert_eq!(g.node_count(), 1);
    assert_eq!(g.edge_count(), 0);
    assert_eq!(node_idx, 0);
}

#[test]
fn test_returns_none_on_removing_not_existing_node() {
    let mut g = create_graph();
    let node = g.remove_node(0);
    assert!(node.is_none());
}

#[test]
fn test_removes_existing_node() {
    let mut g = create_graph();
    let i = g.add_node(32);
    let node = g.remove_node(i).unwrap();
    assert_eq!(node, 32);
    assert_eq!(g.node_count(), 0);
}

#[test]
fn test_saves_correct_edges_after_node_remove() {
    let mut g = MatrixGraph::<u32, u32>::default();
    let a_idx = g.add_node(1);
    let b_idx = g.add_node(2);
    let c_idx = g.add_node(3);

    g.add_edge(b_idx, c_idx, 1);

    g.remove_node(a_idx);

    let weight = g.get_edge_by_index(b_idx, c_idx);

    assert!(weight.is_some());
}

#[test]
fn test_adds_edge() {
    let mut g = create_graph();
    let first = g.add_node(34);
    let second = g.add_node(52);
    g.add_edge(first, second, ());
    assert_eq!(g.edge_count(), 1);
}

#[test]
fn test_removes_existing_edge() {
    let mut g = create_graph();
    let a = g.add_node(12);
    let b = g.add_node(54);
    g.add_edge(a, b, ());
    g.remove_edge(a, b);
    assert_eq!(g.edge_count(), 0);
}

#[test]
fn test_indexes_not_shifted_after_removing_middle_node() {
    let mut g = create_graph();
    let a_idx = g.add_node(13);
    let b_idx = g.add_node(43);
    let c_idx = g.add_node(89);
    g.remove_node(b_idx);
    assert_eq!(g.get_index_of(&13).unwrap(), a_idx);
    assert_eq!(g.get_index_of(&89).unwrap(), c_idx);
}

#[test]
fn test_returns_false_on_removing_not_existing_edge() {
    let mut g = create_graph();
    let is_removed = g.remove_edge(0, 1);
    let expected = None;
    assert_eq!(expected, is_removed);
}

#[test]
fn test_not_removes_flipped_edge() {
    let mut g = create_graph();
    let a = g.add_node(12);
    let b = g.add_node(54);
    g.add_edge(a, b, ());
    let actual = g.remove_edge(b, a);
    let expected = None;
    assert_eq!(expected, actual);
    assert_eq!(g.edge_count(), 1);
}

#[test]
fn test_return_node_by_index() {
    let mut g = create_graph();
    g.add_node(12);
    g.add_node(54);
    assert_eq!(g.get_node_by_index(0).unwrap(), &12);
    assert_eq!(g.get_node_by_index(1).unwrap(), &54);
}

#[test]
fn test_returns_valid_nodes_iter() {
    let mut g = create_graph();
    let expected: Vec<u32> = vec![12, 34, 56, 89];
    for node in expected.iter() {
        g.add_node(*node);
    }
    let mut actual: Vec<u32> = Vec::new();
    let mut cursor = g.node_iter();
    while let Some(node) = cursor.next() {
        actual.push(*node);
    }
    assert_eq!(expected, actual);
}

#[test]
fn test_adds_incoming_and_outgoing_edges() {
    let mut g = create_graph();
    let a_idx = g.add_node(5);
    let b_idx = g.add_node(7);
    g.add_edge(a_idx, b_idx, ());
    g.add_edge(b_idx, a_idx, ());
    assert_eq!(g.edge_count(), 2);
}

#[test]
fn test_contains_edge_returns_true() {
    let mut g = create_graph();
    let a_idx = g.add_node(1);
    let b_idx = g.add_node(3);
    g.add_edge(a_idx, b_idx, ());
    assert!(g.contains_edge(a_idx, b_idx));
}

#[test]
fn test_contains_edge_returns_false() {
    let mut g = create_graph();
    let a_idx = g.add_node(1);
    assert!(!g.contains_edge(a_idx, 5));
}

#[test]
fn test_get_edge_by_index_return_none_if_not_foun() {
    let g = create_graph();
    let weight = g.get_edge_by_index(0, 2);
    assert!(weight.is_none());
}

fn create_closure() -> fn(u32) {
    |x| println!("This is x: {}", x)
}

#[test]
fn test_can_hold_fn_as_edge_weight() {
    let edges = vec![
        (1, 2, create_closure()),
        (2, 3, create_closure()),
        (3, 4, create_closure()),
    ];
    MatrixGraph::<u32, fn(u32)>::from_edges(edges);
}

#[test]
fn capacity_grows_to_powers_of_two_and_never_shrinks() {
    let mut g = MatrixGraph::<u32, u8>::default();
    assert_eq!(g.capacity(), 1);
    g.add_node(0);
    assert_eq!(g.capacity(), 1);
    g.add_node(1);
    assert_eq!(g.capacity(), 4);
    g.add_node(2);
    g.add_node(3);
    assert_eq!(g.capacity(), 4);
    g.add_node(4);
    assert_eq!(g.capacity(), 8);
    for value in 5..10 {
        g.add_node(value);
        assert!(g.capacity() >= g.slot_count());
    }
    assert_eq!(g.capacity(), 16);
    g.add_edge(0, 0, 1);
    g.add_edge(0, 1, 2);
    g.add_edge(3, 2, 3);
    g.add_edge(4, 0, 4);
    g.add_edge(9, 9, 5);
    assert_eq!(g.capacity(), 16);
    assert_eq!(g.edge_count(), 5);
    assert_eq!(g.get_edge_by_index(0, 0), Some(&1));
    assert_eq!(g.get_edge_by_index(0, 1), Some(&2));
    assert_eq!(g.get_edge_by_index(3, 2), Some(&3));
    assert_eq!(g.get_edge_by_index(4, 0), Some(&4));
    assert_eq!(g.get_edge_by_index(9, 9), Some(&5));
    assert_eq!(g.get_edge_by_index(1, 0), None);
    assert_eq!(g.get_edge_by_index(16, 0), None);
    assert_eq!(g.get_edge_by_index(0, 1000), None);
    assert!(!g.contains_edge(1000, 1000));
    assert_eq!(g.capacity(), 16);
    for i in 0..10 {
        g.remove_node(i);
    }
    assert_eq!(g.capacity(), 16);
    assert_eq!(g.edge_count(), 0);
    assert_eq!(g.node_count(), 0);
    assert_eq!(g.slot_count(), 10);
    for value in 0..10 {
        g.add_node(value);
    }
    assert_eq!(g.capacity(), 16);
    assert_eq!(g.slot_count(), 10);
}

#[test]
fn required_capacity_is_the_next_power_of_two_from_four() {
    assert_eq!(required_capacity(0), 4);
    assert_eq!(required_capacity(3), 4);
    assert_eq!(required_capacity(4), 8);
    assert_eq!(required_capacity(7), 8);
    assert_eq!(required_capacity(8), 16);
    assert_eq!(required_capacity(1000), 1024);
    assert_eq!(required_capacity(1023), 1024);
    assert_eq!(required_capacity(1024), 2048);
    assert_eq!(required_capacity(usize::MAX), usize::MAX);
    assert_eq!(required_capacity(usize::MAX / 2), usize::MAX / 2 + 1);
    assert_eq!(required_capacity(usize::MAX / 2 + 1), usize::MAX);
}

#[test]
fn remove_node_clears_its_row_and_its_column_only() {
    let mut g = MatrixGraph::<u32, u32>::default();
    for value in 0..4 {
        g.add_node(value);
    }
    g.add_edge(0, 1, 10);
    g.add_edge(1, 0, 11);
    g.add_edge(1, 1, 12);
    g.add_edge(1, 2, 13);
    g.add_edge(3, 1, 14);
    g.add_edge(2, 3, 15);
    g.add_edge(0, 3, 16);
    assert_eq!(g.edge_count(), 7);
    assert_eq!(g.remove_node(1), Some(1));
    assert_eq!(g.edge_count(), 2);
    assert_eq!(g.node_count(), 3);
    for i in 0..4 {
        assert_eq!(g.get_edge_by_index(i, 1), None);
        assert_eq!(g.get_edge_by_index(1, i), None);
    }
    assert_eq!(g.get_edge_by_index(2, 3), Some(&15));
    assert_eq!(g.get_edge_by_index(0, 3), Some(&16));
    assert_eq!(g.remove_node(1), None);
    assert_eq!(g.remove_node(40), None);
    assert_eq!(g.edge_count(), 2);
    assert!(!g.contains_node(&1));
    assert!(g.contains_node(&2));
}

#[test]
fn remove_edge_returns_the_weight_once() {
    let mut g = MatrixGraph::<u32, u32>::default();
    let a = g.add_node(1);
    let b = g.add_node(2);
    g.add_edge(a, b, 77);
    assert!(g.contains_edge(a, b));
    assert!(!g.contains_edge(b, a));
    assert_eq!(g.remove_edge(a, b), Some(77));
    assert_eq!(g.remove_edge(a, b), None);
    assert_eq!(g.remove_edge(100, 0), None);
    assert_eq!(g.remove_edge(0, 100), None);
    assert_eq!(g.edge_count(), 0);
    assert!(!g.contains_edge(a, b));
}

#[test]
fn from_edges_stores_each_endpoint_once_in_order_of_first_use() {
    let g = MatrixGraph::<u32, u32>::from_edges(vec![(7, 7, 1), (7, 8, 2), (9, 7, 3)]);
    assert_eq!(g.node_count(), 3);
    assert_eq!(g.edge_count(), 3);
    assert_eq!(g.get_index_of(&7), Some(0));
    assert_eq!(g.get_index_of(&8), Some(1));
    assert_eq!(g.get_index_of(&9), Some(2));
    assert_eq!(g.get_edge_by_index(0, 0), Some(&1));
    assert_eq!(g.get_edge_by_index(0, 1), Some(&2));
    assert_eq!(g.get_edge_by_index(2, 0), Some(&3));
    assert_eq!(g.get_edge_by_index(1, 0), None);
    let empty = MatrixGraph::<u32, u32>::from_edges(Vec::new());
    assert_eq!(empty.node_count(), 0);
    assert_eq!(empty.edge_count(), 0);
}

#[test]
fn neighbors_come_in_ascending_order_of_their_indices() {
    let mut g = MatrixGraph::<u32, ()>::default();
    for value in [10, 11, 12, 13, 14] {
        g.add_node(value);
    }
    g.add_edge(2, 4, ());
    g.add_edge(2, 0, ());
    g.add_edge(2, 2, ());
    g.add_edge(0, 2, ());
    let mut cursor = g.neighbors(2);
    assert_eq!(cursor.next(), Some((0, &10)));
    assert_eq!(cursor.next(), Some((2, &12)));
    assert_eq!(cursor.next(), Some((4, &14)));
    assert_eq!(cursor.next(), None);
    assert_eq!(cursor.next(), None);
    let mut none = g.neighbors(3);
    assert_eq!(none.next(), None);
    let mut fresh = g.neighbors(0);
    assert_eq!(fresh.next(), Some((2, &12)));
    assert_eq!(fresh.next(), None);
}

#[test]
fn neighbors_of_a_removed_node_are_none() {
    let mut g = MatrixGraph::<u32, ()>::default();
    g.add_node(1);
    g.add_node(2);
    g.add_edge(1, 0, ());
    g.add_edge(0, 1, ());
    g.remove_node(1);
    let mut cursor = g.neighbors(1);
    assert_eq!(cursor.next(), None);
    let mut other = g.neighbors(0);
    assert_eq!(other.next(), None);
}

#[test]
#[should_panic(expected = "Nodes should be unique.")]
fn matrix_graph_test_panics_on_adding_existing_node() {
    let mut g = create_graph();
    g.try_add_node(34).unwrap();
    if let Err(fault) = g.try_add_node(34) {
        panic!("{}", fault.message());
    }
}

#[test]
#[should_panic(expected = "Edge from 0 to 1 already exists")]
fn test_panics_on_creating_existing_edge() {
    let mut g = create_graph();
    let first = g.add_node(34);
    let second = g.add_node(52);
    g.try_add_edge(first, second, ()).unwrap();
    if let Err(fault) = g.try_add_edge(first, second, ()) {
        panic!("{}", fault.message());
    }
}

#[test]
#[should_panic(expected = "Can't add edge for not existing node with index 1")]
fn test_panics_on_create_edge_for_not_existing_node() {
    let mut g = create_graph();
    if let Err(fault) = g.try_add_edge(0, 1, ()) {
        panic!("{}", fault.message());
    }
}

#[test]
fn try_add_edge_names_what_is_wrong() {
    let mut g = MatrixGraph::<u32, u8>::default();
    for value in [1, 2, 3] {
        g.add_node(value);
    }
    assert_eq!(g.try_add_edge(0, 3, 9), Err(GraphFault::MissingNode(3)));
    assert_eq!(g.try_add_edge(7, 1, 9), Err(GraphFault::MissingNode(7)));
    assert_eq!(g.try_add_edge(8, 9, 9), Err(GraphFault::MissingNode(9)));
    assert_eq!(g.try_add_edge(2, 1, 9), Ok(()));
    assert_eq!(g.try_add_edge(2, 1, 8), Err(GraphFault::EdgeExists(2, 1)));
    assert_eq!(g.get_edge_by_index(2, 1), Some(&9));
    assert_eq!(g.try_add_edge(1, 2, 7), Ok(()));
    g.remove_node(1);
    assert_eq!(g.try_add_edge(1, 2, 7), Err(GraphFault::MissingNode(1)));
    assert_eq!(g.try_add_edge(0, 1, 7), Err(GraphFault::MissingNode(1)));
    assert_eq!(g.edge_count(), 0);
    assert_eq!(g.try_add_node(3), Err(GraphFault::DuplicateNode));
    assert_eq!(g.try_add_node(2), Ok(1));
    assert_eq!(
        GraphFault::MissingNode(120).message(),
        "Can't add edge for not existing node with index 120"
    );
    assert_eq!(GraphFault::EdgeExists(10, 0).message(), "Edge from 10 to 0 already exists");
    assert_eq!(GraphFault::DuplicateNode.message(), "Nodes should be unique.");
}

#[test]
fn try_from_edges_stops_at_the_first_pair_that_comes_again() {
    let twice = vec![(5u32, 6u32, 1u8), (6, 7, 2), (7, 5, 3), (6, 7, 4), (5, 6, 5)];
    let fault = MatrixGraph::<u32, u8>::try_from_edges(twice).err();
    assert_eq!(fault, Some(GraphFault::EdgeExists(1, 2)));
    let looped = vec![(5u32, 5u32, 1u8), (5, 5, 2)];
    let fault = MatrixGraph::<u32, u8>::try_from_edges(looped).err();
    assert_eq!(fault, Some(GraphFault::EdgeExists(0, 0)));
    let both_ways = vec![(5u32, 6u32, 1u8), (6, 5, 2)];
    let g = MatrixGraph::<u32, u8>::try_from_edges(both_ways).unwrap();
    assert_eq!(g.edge_count(), 2);
    assert_eq!(g.node_count(), 2);
    assert_eq!(g.get_edge_by_index(0, 1), Some(&1));
    assert_eq!(g.get_edge_by_index(1, 0), Some(&2));
}
