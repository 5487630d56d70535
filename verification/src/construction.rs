//! Building a graph from a list of edges between node values.
use crate::matrix_graph::{GraphFault, GraphModel, MatrixGraph};
use crate::types::MatrixGraphNode;
use vstd::prelude::*;

verus! {

/// No two of `edges` join the same node values in the same direction.
pub open spec fn no_duplicate_pairs<N, T>(edges: Seq<(N, N, T)>) -> bool {
    forall|j: int, k: int|
        0 <= j < k < edges.len() ==> !(edges[j].0 == edges[k].0 && edges[j].1 == edges[k].1)
}

/// The node values that `edges` start from or lead to.
pub open spec fn endpoints<N, T>(edges: Seq<(N, N, T)>) -> Set<N> {
    Set::new(|x: N| exists|j: int| 0 <= j < edges.len() && (edges[j].0 == x || edges[j].1 == x))
}

/// Edge `k` of `edges` is the first to join a pair of node values that an
/// earlier one joins in the same direction.
pub open spec fn first_repeat<N, T>(edges: Seq<(N, N, T)>, k: int) -> bool {
    &&& 0 <= k < edges.len()
    &&& no_duplicate_pairs(edges.take(k))
    &&& exists|j: int|
        0 <= j < k && (#[trigger] edges[j]).0 == edges[k].0 && edges[j].1 == edges[k].1
}

impl<N, T> GraphModel<N, T> {
    /// The graph with `x` among its nodes: stored now, unless it was there.
    pub open spec fn with_node(self, x: N) -> Self {
        if self.nodes.contains(x) {
            self
        } else {
            self.add_node(x)
        }
    }

    /// The graph with an edge of `weight` from the node `from` to the node
    /// `to`, each stored first where the graph did not hold it.
    pub open spec fn with_edge_between(self, from: N, to: N, weight: T) -> Self {
        let graph = self.with_node(from).with_node(to);
        graph.add_edge(graph.nodes.index_of(from)->0, graph.nodes.index_of(to)->0, weight)
    }

    /// The graph that holds `edges`, entered one after another into the
    /// empty graph.
    pub open spec fn from_edges(edges: Seq<(N, N, T)>) -> Self
        decreases edges.len(),
    {
        if edges.len() == 0 {
            Self::empty()
        } else {
            Self::from_edges(edges.drop_last()).with_edge_between(
                edges.last().0,
                edges.last().1,
                edges.last().2,
            )
        }
    }

    /// What holds of a graph that `edges` were entered into, one after
    /// another: its nodes are the endpoints, without gaps between their
    /// indices, and its cells are the edges.
    pub open spec fn holds_exactly(self, edges: Seq<(N, N, T)>) -> bool {
        &&& self.nodes.wf()
        &&& self.nodes.free.len() == 0
        &&& self.cells.dom().finite()
        &&& endpoints(edges).finite()
        &&& self.nodes.slots.len() == endpoints(edges).len()
        &&& self.cells.dom().len() == edges.len()
        &&& forall|x: N| self.nodes.contains(x) <==> endpoints(edges).contains(x)
        &&& forall|a: int, b: int| #[trigger]
            self.cells.contains_key((a, b)) ==> self.nodes.is_live(a) && self.nodes.is_live(b)
                && exists|j: int|
                0 <= j < edges.len() && self.nodes.slots[a] == Some((#[trigger] edges[j]).0)
                    && self.nodes.slots[b] == Some(edges[j].1)
        &&& forall|j: int|
            0 <= j < edges.len() ==> self.cell_between((#[trigger] edges[j]).0, edges[j].1)
                == Some(edges[j].2)
    }

    /// The weight of the edge from the node `from` to the node `to`:
    /// nothing when the graph lacks one of them, or the edge.
    pub open spec fn cell_between(self, from: N, to: N) -> Option<T> {
        if self.nodes.contains(from) && self.nodes.contains(to) {
            self.edge(self.nodes.index_of(from)->0, self.nodes.index_of(to)->0)
        } else {
            None
        }
    }
}

/// The endpoints of a list with one more edge are those of the list and the
/// two of that edge.
pub proof fn lemma_endpoints_push<N, T>(edges: Seq<(N, N, T)>, edge: (N, N, T))
    ensures
        endpoints(edges.push(edge)) == endpoints(edges).insert(edge.0).insert(edge.1),
{
    let longer = edges.push(edge);
    assert forall|x: N| endpoints(longer).contains(x) implies endpoints(edges).insert(
        edge.0,
    ).insert(edge.1).contains(x) by {
        let j = choose|j: int| 0 <= j < longer.len() && (longer[j].0 == x || longer[j].1 == x);
        if j < edges.len() {
            assert(edges[j] == longer[j]);
        }
    }
    assert forall|x: N|
        endpoints(edges).insert(edge.0).insert(edge.1).contains(x) implies endpoints(
        longer,
    ).contains(x) by {
        if endpoints(edges).contains(x) {
            let j = choose|j: int| 0 <= j < edges.len() && (edges[j].0 == x || edges[j].1 == x);
            assert(longer[j] == edges[j]);
        } else {
            assert(longer[edges.len() as int] == edge);
        }
    }
    assert(endpoints(longer) =~= endpoints(edges).insert(edge.0).insert(edge.1));
}

/// Making sure that a graph without gaps holds `x` leaves every other node
/// at its index and adds at most one slot.
pub proof fn lemma_with_node<N, T>(graph: GraphModel<N, T>, x: N)
    requires
        graph.nodes.wf(),
        graph.nodes.free.len() == 0,
    ensures
        ({
            let with = graph.with_node(x);
            &&& with.nodes.wf()
            &&& with.nodes.free.len() == 0
            &&& with.cells == graph.cells
            &&& with.nodes.contains(x)
            &&& forall|y: N| with.nodes.contains(y) <==> graph.nodes.contains(y) || y == x
            &&& forall|y: N|
                graph.nodes.contains(y) ==> with.nodes.index_of(y) == graph.nodes.index_of(y)
            &&& forall|i: int|
                graph.nodes.is_live(i) ==> with.nodes.is_live(i) && with.nodes.slots[i]
                    == graph.nodes.slots[i]
            &&& with.nodes.slots.len() == graph.nodes.slots.len() + (if graph.nodes.contains(x) {
                0int
            } else {
                1int
            })
        }),
{
    if !graph.nodes.contains(x) {
        graph.nodes.lemma_add_keeps_indices(x);
    }
}

/// Entering one more edge, between a pair of node values that no earlier
/// edge joins, keeps the graph in step with the list of its edges.
pub proof fn lemma_with_edge_between<N, T>(
    graph: GraphModel<N, T>,
    edges: Seq<(N, N, T)>,
    edge: (N, N, T),
)
    requires
        graph.holds_exactly(edges),
        forall|j: int| 0 <= j < edges.len() ==> !(edges[j].0 == edge.0 && edges[j].1 == edge.1),
    ensures
        graph.with_edge_between(edge.0, edge.1, edge.2).holds_exactly(edges.push(edge)),
        graph.with_node(edge.0).with_node(edge.1).edge(
            graph.with_node(edge.0).with_node(edge.1).nodes.index_of(edge.0)->0,
            graph.with_node(edge.0).with_node(edge.1).nodes.index_of(edge.1)->0,
        ) is None,
{
    let first = graph.with_node(edge.0);
    let both = first.with_node(edge.1);
    let after = graph.with_edge_between(edge.0, edge.1, edge.2);
    let longer = edges.push(edge);
    lemma_with_node(graph, edge.0);
    lemma_with_node(first, edge.1);
    lemma_endpoints_push(edges, edge);
    let fi = both.nodes.index_of(edge.0)->0;
    let ti = both.nodes.index_of(edge.1)->0;
    assert(both.nodes.contains(edge.0) && both.nodes.contains(edge.1));
    assert(both.nodes.is_live(fi) && both.nodes.slots[fi] == Some(edge.0));
    assert(both.nodes.is_live(ti) && both.nodes.slots[ti] == Some(edge.1));
    // the new cell was empty
    assert(!graph.cells.contains_key((fi, ti))) by {
        if graph.cells.contains_key((fi, ti)) {
            let j = choose|j: int|
                0 <= j < edges.len() && graph.nodes.slots[fi] == Some((#[trigger] edges[j]).0)
                    && graph.nodes.slots[ti] == Some(edges[j].1);
            assert(both.nodes.slots[fi] == graph.nodes.slots[fi]);
            assert(both.nodes.slots[ti] == graph.nodes.slots[ti]);
        }
    }
    assert(after.nodes == both.nodes);
    assert(after.cells == graph.cells.insert((fi, ti), edge.2));
    assert(after.cells.dom() =~= graph.cells.dom().insert((fi, ti)));
    // the nodes are the endpoints
    assert forall|x: N| after.nodes.contains(x) <==> endpoints(longer).contains(x) by {
        assert(after.nodes.contains(x) <==> graph.nodes.contains(x) || x == edge.0 || x == edge.1);
    }
    assert(endpoints(longer).finite());
    assert(after.nodes.slots.len() == endpoints(longer).len()) by {
        assert(graph.nodes.contains(edge.0) <==> endpoints(edges).contains(edge.0));
        assert(first.nodes.contains(edge.1) <==> endpoints(edges).insert(edge.0).contains(edge.1));
    }
    // the cells are the edges
    assert forall|a: int, b: int| #[trigger]
        after.cells.contains_key((a, b)) implies after.nodes.is_live(a) && after.nodes.is_live(b)
        && exists|j: int|
        0 <= j < longer.len() && after.nodes.slots[a] == Some((#[trigger] longer[j]).0)
            && after.nodes.slots[b] == Some(longer[j].1) by {
        if (a, b) == (fi, ti) {
            assert(longer[edges.len() as int] == edge);
        } else {
            assert(graph.cells.contains_key((a, b)));
            let j = choose|j: int|
                0 <= j < edges.len() && graph.nodes.slots[a] == Some((#[trigger] edges[j]).0)
                    && graph.nodes.slots[b] == Some(edges[j].1);
            assert(longer[j] == edges[j]);
            assert(first.nodes.is_live(a) && first.nodes.is_live(b));
        }
    }
    assert forall|j: int| 0 <= j < longer.len() implies after.cell_between(
        (#[trigger] longer[j]).0,
        longer[j].1,
    ) == Some(longer[j].2) by {
        if j < edges.len() {
            assert(longer[j] == edges[j]);
            let from = edges[j].0;
            let to = edges[j].1;
            assert(graph.cell_between(from, to) == Some(edges[j].2));
            assert(graph.nodes.contains(from) && graph.nodes.contains(to));
            assert(first.nodes.contains(from) && first.nodes.contains(to));
            let a = graph.nodes.index_of(from)->0;
            let b = graph.nodes.index_of(to)->0;
            assert(after.nodes.index_of(from) == Some(a));
            assert(after.nodes.index_of(to) == Some(b));
            assert(graph.nodes.is_live(a) && graph.nodes.slots[a] == Some(from));
            assert(graph.nodes.is_live(b) && graph.nodes.slots[b] == Some(to));
            assert(first.nodes.slots[a] == Some(from) && both.nodes.slots[a] == Some(from));
            assert(first.nodes.slots[b] == Some(to) && both.nodes.slots[b] == Some(to));
            assert((a, b) != (fi, ti));
        } else {
            assert(longer[j] == edge);
        }
    }
}

/// A graph that holds `edges` has an edge between two node values exactly
/// where one of `edges` joins them; making sure that it holds the two
/// values changes none of that.
pub proof fn lemma_pair_was_entered<N, T>(
    graph: GraphModel<N, T>,
    edges: Seq<(N, N, T)>,
    from: N,
    to: N,
)
    requires
        graph.holds_exactly(edges),
    ensures
        graph.with_node(from).with_node(to).cell_between(from, to) is Some <==> exists|j: int|
            0 <= j < edges.len() && (#[trigger] edges[j]).0 == from && edges[j].1 == to,
        graph.with_node(from).with_node(to).cell_between(from, to) is Some
            ==> graph.nodes.contains(from) && graph.nodes.contains(to) && graph.with_node(
            from,
        ).with_node(to).nodes.index_of(from) == graph.nodes.index_of(from) && graph.with_node(
            from,
        ).with_node(to).nodes.index_of(to) == graph.nodes.index_of(to),
{
    let first = graph.with_node(from);
    let both = first.with_node(to);
    lemma_with_node(graph, from);
    lemma_with_node(first, to);
    let fi = both.nodes.index_of(from)->0;
    let ti = both.nodes.index_of(to)->0;
    assert(both.nodes.contains(from) && both.nodes.contains(to));
    assert(both.nodes.is_live(fi) && both.nodes.slots[fi] == Some(from));
    assert(both.nodes.is_live(ti) && both.nodes.slots[ti] == Some(to));
    if both.cell_between(from, to) is Some {
        assert(graph.cells.contains_key((fi, ti)));
        let j = choose|j: int|
            0 <= j < edges.len() && graph.nodes.slots[fi] == Some((#[trigger] edges[j]).0)
                && graph.nodes.slots[ti] == Some(edges[j].1);
        assert(both.nodes.slots[fi] == graph.nodes.slots[fi]);
        assert(both.nodes.slots[ti] == graph.nodes.slots[ti]);
        assert(edges[j].0 == from && edges[j].1 == to);
        graph.nodes.lemma_index_of(from, fi);
        graph.nodes.lemma_index_of(to, ti);
    }
    if exists|j: int| 0 <= j < edges.len() && (#[trigger] edges[j]).0 == from && edges[j].1 == to {
        let j = choose|j: int|
            0 <= j < edges.len() && (#[trigger] edges[j]).0 == from && edges[j].1 == to;
        assert(graph.cell_between(edges[j].0, edges[j].1) == Some(edges[j].2));
        assert(graph.nodes.contains(from) && graph.nodes.contains(to));
        assert(both.nodes.index_of(from) == graph.nodes.index_of(from));
        assert(both.nodes.index_of(to) == graph.nodes.index_of(to));
    }
}

/// A graph made from edges between pairwise different pairs of node values
/// has the endpoints as its nodes, one edge for each in the list, and for
/// each the weight that the list gives it.
pub proof fn lemma_from_edges<N, T>(edges: Seq<(N, N, T)>)
    requires
        no_duplicate_pairs(edges),
    ensures
        GraphModel::from_edges(edges).holds_exactly(edges),
        GraphModel::from_edges(edges).node_count() == endpoints(edges).len(),
        GraphModel::from_edges(edges).edge_count() == edges.len(),
        forall|j: int|
            0 <= j < edges.len() ==> GraphModel::from_edges(edges).cell_between(
                (#[trigger] edges[j]).0,
                edges[j].1,
            ) == Some(edges[j].2),
    decreases edges.len(),
{
    let graph = GraphModel::from_edges(edges);
    if edges.len() == 0 {
        assert(endpoints(edges) =~= Set::<N>::empty());
        assert(graph.cells.dom() =~= Set::<(int, int)>::empty());
    } else {
        let shorter = edges.drop_last();
        let edge = edges.last();
        assert(no_duplicate_pairs(shorter)) by {
            assert forall|j: int, k: int| 0 <= j < k < shorter.len() implies !(shorter[j].0
                == shorter[k].0 && shorter[j].1 == shorter[k].1) by {
                assert(shorter[j] == edges[j] && shorter[k] == edges[k]);
            }
        }
        lemma_from_edges(shorter);
        assert forall|j: int| 0 <= j < shorter.len() implies !(shorter[j].0 == edge.0
            && shorter[j].1 == edge.1) by {
            assert(shorter[j] == edges[j]);
        }
        lemma_with_edge_between(GraphModel::from_edges(shorter), shorter, edge);
        assert(shorter.push(edge) =~= edges);
    }
    graph.nodes.lemma_live_count();
}

impl<N: MatrixGraphNode, T> MatrixGraph<N, T> {
    /// Creates a graph from a list of triples, each an edge between two
    /// node values with its weight. A node is stored when it first occurs.
    /// No two triples may join the same pair of values in the same direction.
    pub fn from_edges(edges: Vec<(N, N, T)>) -> (graph: Self)
        requires
            no_duplicate_pairs(edges@),
        ensures
            graph.wf(),
            graph@ == GraphModel::from_edges(edges@),
            graph@.holds_exactly(edges@),
            graph@.node_count() == endpoints(edges@).len(),
            graph@.edge_count() == edges@.len(),
    {
        Self::try_from_edges(edges).unwrap()
    }

    /// Creates a graph from a list of triples as `from_edges` does, unless
    /// two of them join the same pair of values in the same direction: the
    /// fault then names the edge that the first such triple would have
    /// added again, by the indices that its nodes had got.
    pub fn try_from_edges(edges: Vec<(N, N, T)>) -> (result: Result<Self, GraphFault>)
        ensures
            match result {
                Ok(graph) => {
                    &&& no_duplicate_pairs(edges@)
                    &&& graph.wf()
                    &&& graph@ == GraphModel::from_edges(edges@)
                    &&& graph@.holds_exactly(edges@)
                    &&& graph@.node_count() == endpoints(edges@).len()
                    &&& graph@.edge_count() == edges@.len()
                },
                Err(fault) => exists|k: int|
                    {
                        let before = GraphModel::from_edges(edges@.take(k));
                        &&& #[trigger] first_repeat(edges@, k)
                        &&& before.nodes.contains(edges@[k].0)
                        &&& before.nodes.contains(edges@[k].1)
                        &&& fault == GraphFault::EdgeExists(
                            before.nodes.index_of(edges@[k].0)->0 as usize,
                            before.nodes.index_of(edges@[k].1)->0 as usize,
                        )
                    },
            },
    {
        let mut graph = Self::new();
        let ghost all = edges@;
        proof {
            assert(edges.len() == all.len());
            lemma_from_edges(all.take(0));
            assert(all.take(0) =~= Seq::<(N, N, T)>::empty());
        }
        for edge in it: edges.into_iter()
            invariant
                it.seq() == all,
                all.len() <= usize::MAX,
                no_duplicate_pairs(all.take(it.index() as int)),
                graph.wf(),
                graph@ == GraphModel::from_edges(all.take(it.index() as int)),
                graph@.holds_exactly(all.take(it.index() as int)),
        {
            let ghost k = it.index() as int;
            let ghost done = all.take(k);
            let ghost before = graph@;
            let (from, to, weight) = edge;
            proof {
                assert(all[k] == (from, to, weight));
                lemma_pair_was_entered(before, done, from, to);
                lemma_with_node(before, from);
                lemma_with_node(before.with_node(from), to);
                assert(all.take(k + 1) =~= done.push((from, to, weight)));
                assert(all.take(k + 1).drop_last() =~= done);
            }
            let from_idx = match graph.get_index_of(&from) {
                Some(i) => i,
                None => graph.add_node(from),
            };
            assert(graph@ == before.with_node(from));
            let to_idx = match graph.get_index_of(&to) {
                Some(i) => i,
                None => graph.add_node(to),
            };
            assert(graph@ == before.with_node(from).with_node(to));
            proof {
                graph@.nodes.lemma_index_of(from, from_idx as int);
                graph@.nodes.lemma_index_of(to, to_idx as int);
            }
            match graph.try_add_edge(from_idx, to_idx, weight) {
                Ok(()) => {
                    proof {
                        assert forall|j: int| 0 <= j < done.len() implies !(done[j].0 == from
                            && done[j].1 == to) by {}
                        lemma_with_edge_between(before, done, (from, to, weight));
                        let longer = all.take(k + 1);
                        assert forall|i: int, j: int| 0 <= i < j < longer.len() implies !((
                        #[trigger] longer[i]).0 == (#[trigger] longer[j]).0 && longer[i].1
                            == longer[j].1) by {
                            assert(done[i] == longer[i]);
                            if j < k {
                                assert(done[j] == longer[j]);
                            }
                        }
                    }
                },
                Err(fault) => {
                    proof {
                        let j = choose|j: int|
                            0 <= j < done.len() && (#[trigger] done[j]).0 == from && done[j].1
                                == to;
                        assert(all[j] == done[j]);
                        assert(first_repeat(all, k));
                    }
                    return Err(fault);
                },
            }
        }
        proof {
            assert(all.take(all.len() as int) =~= all);
            lemma_from_edges(all);
        }
        Ok(graph)
    }
}

} // verus!
