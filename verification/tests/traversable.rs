use matrix_graph::listing::listing;
use matrix_graph::matrix_graph::MatrixGraph;
use matrix_graph::traversable::{BfsIterable, BreadthFirstTraverseIterator};
use matrix_graph::types::GraphEntry;

fn create_graph() -> MatrixGraph<u8, ()> {
    MatrixGraph::<u8, ()>::default()
}

#[test]
fn collects_all_graph() {
    let mut g = create_graph();

    let expected = vec![(1, vec![4, 2, 3]), (4, vec![1]), (2, vec![3]), (3, vec![])];

    for (info, edges) in expected.iter() {
        let info = *info;
        let from_idx = match g.contains_node(&info) {
            true => g.get_index_of(&info).unwrap(),
            false => g.add_node(info),
        };
        for edge in edges {
            let to_idx = match g.contains_node(edge) {
                true => g.get_index_of(edge).unwrap(),
                false => g.add_node(*edge),
            };
            g.add_edge(from_idx, to_idx, ());
        }
    }

    let mut iter = BreadthFirstTraverseIterator::new(&g, 0);
    let mut actual: Vec<GraphEntry<u8>> = Vec::new();
    while let Some(entry) = iter.next() {
        actual.push(entry);
    }
    let expected = expected
        .iter()
        .map(|info| GraphEntry {
            node: &info.0,
            edges: info.1.iter().collect(),
        })
        .collect::<Vec<GraphEntry<u8>>>();

    assert_eq!(expected, actual);
}

#[test]
fn traversal_leaves_out_what_cannot_be_reached() {
    let mut g = MatrixGraph::<u8, ()>::default();
    for value in [b'a', b'b', b'c', b'd', b'e'] {
        g.add_node(value);
    }
    g.add_edge(0, 1, ());
    g.add_edge(1, 0, ());
    g.add_edge(1, 2, ());
    g.add_edge(3, 0, ());
    g.add_edge(4, 4, ());
    let mut order = Vec::new();
    let mut iter = g.bfs_iter(0);
    while let Some(entry) = iter.next() {
        order.push(*entry.node);
    }
    assert_eq!(order, vec![b'a', b'b', b'c']);
    assert!(iter.next().is_none());
}

#[test]
fn traversal_of_a_node_with_a_loop_yields_it_once() {
    let mut g = MatrixGraph::<u8, ()>::default();
    g.add_node(9);
    g.add_edge(0, 0, ());
    let mut iter = g.bfs_iter(0);
    let first = iter.next().unwrap();
    assert_eq!(first.node, &9);
    assert_eq!(first.edges, vec![&9]);
    assert!(iter.next().is_none());
}

#[test]
fn traversal_goes_layer_by_layer() {
    // 0 -> 3, 0 -> 1; 1 -> 2; 3 -> 4; 2 -> 4
    let mut g = MatrixGraph::<u8, ()>::default();
    for value in 0..5u8 {
        g.add_node(value * 10);
    }
    g.add_edge(0, 3, ());
    g.add_edge(0, 1, ());
    g.add_edge(1, 2, ());
    g.add_edge(3, 4, ());
    g.add_edge(2, 4, ());
    let mut order = Vec::new();
    let mut iter = BreadthFirstTraverseIterator::new(&g, 0);
    while let Some(entry) = iter.next() {
        order.push((*entry.node, entry.edges.iter().map(|n| **n).collect::<Vec<u8>>()));
    }
    assert_eq!(
        order,
        vec![
            (0, vec![10, 30]),
            (10, vec![20]),
            (30, vec![40]),
            (20, vec![40]),
            (40, vec![]),
        ]
    );
}

#[test]
fn collect_runs_the_traversal_to_its_end() {
    let mut g = MatrixGraph::<u8, ()>::default();
    for value in [1u8, 2, 3, 4, 5, 6] {
        g.add_node(value);
    }
    // a ring 0 -> 1 -> 2 -> 0, a tail 2 -> 3, and 4 -> 5 apart from them
    g.add_edge(0, 1, ());
    g.add_edge(1, 2, ());
    g.add_edge(2, 0, ());
    g.add_edge(2, 3, ());
    g.add_edge(4, 5, ());
    let entries = g.bfs_iter(1).collect();
    let nodes: Vec<u8> = entries.iter().map(|e| *e.node).collect();
    assert_eq!(nodes, vec![2, 3, 1, 4]);
    assert_eq!(entries[1].edges, vec![&1, &4]);
    let apart = g.bfs_iter(4).collect();
    assert_eq!(apart.len(), 2);
    assert_eq!(apart[0].node, &5);
    assert_eq!(apart[1].node, &6);
    assert!(apart[1].edges.is_empty());
    let mut half = g.bfs_iter(0);
    assert_eq!(half.next().unwrap().node, &1);
    let rest = half.collect();
    assert_eq!(rest.iter().map(|e| *e.node).collect::<Vec<u8>>(), vec![2, 3, 4]);
}

#[test]
fn traversal_of_a_dense_graph_yields_each_node_once() {
    let mut g = MatrixGraph::<u32, ()>::default();
    for value in 0..20u32 {
        g.add_node(value);
    }
    for from in 0..20 {
        for to in 0..20 {
            g.add_edge(from, to, ());
        }
    }
    let entries = g.bfs_iter(7).collect();
    let mut nodes: Vec<u32> = entries.iter().map(|e| *e.node).collect();
    assert_eq!(nodes[0], 7);
    assert_eq!(nodes.len(), 20);
    nodes.sort();
    assert_eq!(nodes, (0..20).collect::<Vec<u32>>());
    for entry in entries.iter() {
        assert_eq!(entry.edges.len(), 20);
    }
}

#[test]
fn listing_has_a_line_for_each_node_that_is_reached() {
    let mut g = MatrixGraph::<u8, ()>::default();
    for value in [1u8, 4, 2, 3, 9] {
        g.add_node(value);
    }
    g.add_edge(0, 1, ());
    g.add_edge(0, 2, ());
    g.add_edge(0, 3, ());
    g.add_edge(1, 0, ());
    g.add_edge(2, 3, ());
    assert_eq!(
        listing(&g, 0),
        "Id: 1, neighbors: [ 2 3 4 ], Value: 1\n\
         Id: 2, neighbors: [ 1 ], Value: 4\n\
         Id: 3, neighbors: [ 4 ], Value: 2\n\
         Id: 4, neighbors: [ ], Value: 3\n"
    );
    assert_eq!(listing(&g, 4), "Id: 5, neighbors: [ ], Value: 9\n");
    assert_eq!(
        listing(&g, 2),
        "Id: 3, neighbors: [ 4 ], Value: 2\nId: 4, neighbors: [ ], Value: 3\n"
    );
}
