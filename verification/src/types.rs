//! The node contract and the capabilities that a traversal needs of a graph.
use crate::node_storage::NodeStorage;
use vstd::prelude::*;

verus! {

/// What a value must offer to be stored as a graph node: an equality test
/// that agrees with `==` in specifications, and a hash that depends on the
/// value alone, so that equal values always hash alike.
pub trait MatrixGraphNode: Sized {
    /// The hash of this value.
    spec fn hash_spec(&self) -> u64;

    /// Computes the hash of this value.
    fn hash_code(&self) -> (h: u64)
        ensures
            h == self.hash_spec(),
    ;

    /// Tells whether two values are the same node.
    fn same_as(&self, other: &Self) -> (b: bool)
        ensures
            b == (*self == *other),
    ;
}

impl MatrixGraphNode for u8 {
    open spec fn hash_spec(&self) -> u64 {
        *self as u64
    }

    fn hash_code(&self) -> (h: u64) {
        *self as u64
    }

    fn same_as(&self, other: &Self) -> (b: bool) {
        *self == *other
    }
}

impl MatrixGraphNode for u16 {
    open spec fn hash_spec(&self) -> u64 {
        *self as u64
    }

    fn hash_code(&self) -> (h: u64) {
        *self as u64
    }

    fn same_as(&self, other: &Self) -> (b: bool) {
        *self == *other
    }
}

impl MatrixGraphNode for u32 {
    open spec fn hash_spec(&self) -> u64 {
        *self as u64
    }

    fn hash_code(&self) -> (h: u64) {
        *self as u64
    }

    fn same_as(&self, other: &Self) -> (b: bool) {
        *self == *other
    }
}

impl MatrixGraphNode for u64 {
    open spec fn hash_spec(&self) -> u64 {
        *self
    }

    fn hash_code(&self) -> (h: u64) {
        *self
    }

    fn same_as(&self, other: &Self) -> (b: bool) {
        *self == *other
    }
}

impl MatrixGraphNode for usize {
    open spec fn hash_spec(&self) -> u64 {
        *self as u64
    }

    fn hash_code(&self) -> (h: u64) {
        *self as u64
    }

    fn same_as(&self, other: &Self) -> (b: bool) {
        *self == *other
    }
}

impl MatrixGraphNode for char {
    open spec fn hash_spec(&self) -> u64 {
        *self as u64
    }

    fn hash_code(&self) -> (h: u64) {
        *self as u64
    }

    fn same_as(&self, other: &Self) -> (b: bool) {
        *self == *other
    }
}

impl MatrixGraphNode for i8 {
    open spec fn hash_spec(&self) -> u64 {
        *self as u64
    }

    fn hash_code(&self) -> (h: u64) {
        #[verifier::truncate]
        (*self as u64)
    }

    fn same_as(&self, other: &Self) -> (b: bool) {
        *self == *other
    }
}

impl MatrixGraphNode for i16 {
    open spec fn hash_spec(&self) -> u64 {
        *self as u64
    }

    fn hash_code(&self) -> (h: u64) {
        #[verifier::truncate]
        (*self as u64)
    }

    fn same_as(&self, other: &Self) -> (b: bool) {
        *self == *other
    }
}

impl MatrixGraphNode for i32 {
    open spec fn hash_spec(&self) -> u64 {
        *self as u64
    }

    fn hash_code(&self) -> (h: u64) {
        #[verifier::truncate]
        (*self as u64)
    }

    fn same_as(&self, other: &Self) -> (b: bool) {
        *self == *other
    }
}

impl MatrixGraphNode for i64 {
    open spec fn hash_spec(&self) -> u64 {
        *self as u64
    }

    fn hash_code(&self) -> (h: u64) {
        #[verifier::truncate]
        (*self as u64)
    }

    fn same_as(&self, other: &Self) -> (b: bool) {
        *self == *other
    }
}

impl MatrixGraphNode for isize {
    open spec fn hash_spec(&self) -> u64 {
        *self as u64
    }

    fn hash_code(&self) -> (h: u64) {
        #[verifier::truncate]
        (*self as u64)
    }

    fn same_as(&self, other: &Self) -> (b: bool) {
        *self == *other
    }
}

impl MatrixGraphNode for bool {
    open spec fn hash_spec(&self) -> u64 {
        if *self {
            1
        } else {
            0
        }
    }

    fn hash_code(&self) -> (h: u64) {
        if *self {
            1
        } else {
            0
        }
    }

    fn same_as(&self, other: &Self) -> (b: bool) {
        *self == *other
    }
}

/// What a traversal yields for one node: the node, and the nodes that its
/// edges lead to, in the order in which the graph lists them.
#[derive(Debug, PartialEq, Eq)]
pub struct GraphEntry<'a, N> {
    pub node: &'a N,
    pub edges: Vec<&'a N>,
}

/// Boundary for getting nodes and edges by index.
pub trait Gettable<N, T> {
    /// The structure is in a state in which it may be asked.
    spec fn is_valid(&self) -> bool;

    /// The node with index `idx`, if there is one.
    spec fn node_at(&self, idx: int) -> Option<N>;

    /// The weight of the edge from `from` to `to`, if there is one.
    spec fn edge_at(&self, from: int, to: int) -> Option<T>;

    /// The node with index `node_idx`, if there is one.
    fn get_node_by_index(&self, node_idx: usize) -> (node: Option<&N>)
        requires
            self.is_valid(),
        ensures
            match node {
                Some(held) => self.node_at(node_idx as int) == Some(*held),
                None => self.node_at(node_idx as int) is None,
            },
    ;

    /// The weight of the edge from `from` to `to`, if there is one.
    fn get_edge_by_index(&self, from: usize, to: usize) -> (weight: Option<&T>)
        requires
            self.is_valid(),
        ensures
            match weight {
                Some(w) => self.edge_at(from as int, to as int) == Some(*w),
                None => self.edge_at(from as int, to as int) is None,
            },
    ;
}

/// Boundary for getting neighbors by graph node index.
pub trait Neighbors<N, T>: Gettable<N, T> {
    /// Index `node` may be asked for its neighbors.
    spec fn in_range(&self, node: int) -> bool;

    /// The indices that the edges leaving `node` lead to, in the order in
    /// which the structure lists them.
    spec fn neighbor_indices(&self, node: int) -> Seq<int>;

    /// Every node may be asked for its neighbors, and its index is one that
    /// the machine can hold.
    proof fn lemma_nodes_in_range(&self, node: int)
        requires
            self.is_valid(),
            self.node_at(node) is Some,
        ensures
            self.in_range(node),
            0 <= node <= usize::MAX,
    ;

    /// Every edge leads to a node.
    proof fn lemma_neighbors_are_nodes(&self, node: int, k: int)
        requires
            self.is_valid(),
            self.in_range(node),
            0 <= k < self.neighbor_indices(node).len(),
        ensures
            self.node_at(self.neighbor_indices(node)[k]) is Some,
    ;

    /// The neighbors of a node are the indices that it has an edge to.
    proof fn lemma_neighbors_are_edges(&self, node: int, to: int)
        requires
            self.is_valid(),
            self.in_range(node),
        ensures
            self.neighbor_indices(node).contains(to) <==> self.edge_at(node, to) is Some,
    ;

    /// The neighbors of `node`: for each edge that leaves it, the index of
    /// its target and the node stored there.
    fn neighbors<'a>(&'a self, node: usize) -> (found: Vec<(usize, &'a N)>)
        requires
            self.is_valid(),
            self.in_range(node as int),
        ensures
            found@.len() == self.neighbor_indices(node as int).len(),
            forall|k: int|
                0 <= k < found@.len() ==> (#[trigger] found@[k]).0 == self.neighbor_indices(
                    node as int,
                )[k] && self.node_at(found@[k].0 as int) == Some(*found@[k].1),
    ;
}

/// Structure for representing graph as adjacency matrix: the arena of its
/// nodes, and for each index the row of the edges that leave it.
pub struct AdjacencyMatrix<'a, N: MatrixGraphNode, T> {
    pub nodes: &'a NodeStorage<N>,
    pub edges: &'a Vec<Vec<Option<T>>>,
}

/// Boundary for representing graph as adjacency matrix.
pub trait Adjacency<N: MatrixGraphNode, T>: Gettable<N, T> {
    /// The nodes and the rows of this graph: a node at each index where the
    /// graph has one, and a cell wherever it has an edge.
    fn get_adjacency_matrix(&self) -> (matrix: AdjacencyMatrix<'_, N, T>)
        requires
            self.is_valid(),
        ensures
            matrix.nodes.wf(),
            forall|i: int| matrix.nodes@.get(i) == self.node_at(i),
            forall|from: int, to: int|
                crate::matrix_graph::cell_of(matrix.edges@, from, to) == self.edge_at(from, to),
    ;
}

} // verus!
