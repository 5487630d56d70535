//! A graph as a list of its nodes for a reader, in the order of a
//! breadth-first traversal.
use crate::matrix_graph::MatrixGraph;
use crate::text::{decimal, push_decimal, push_text, string_from_chars};
use crate::traversable::{BfsIterable, BfsModel};
use crate::types::{GraphEntry, MatrixGraphNode, Neighbors};
use std::fmt::Display;
use vstd::prelude::*;
use vstd::string::to_string_from_display_ensures;

verus! {

/// The numbers of the first `upto` of `targets`, counted from 1, each with
/// a space after it.
pub open spec fn numbers_spaced(targets: Seq<int>, upto: nat) -> Seq<char>
    decreases upto,
{
    if upto == 0 {
        Seq::empty()
    } else {
        numbers_spaced(targets, (upto - 1) as nat) + decimal((targets[upto - 1] + 1) as nat)
            + " "@
    }
}

/// The line of one node: its number, counted from 1, the numbers of the
/// nodes that its edges lead to, and its value.
pub open spec fn entry_line(index: int, targets: Seq<int>, value: Seq<char>) -> Seq<char> {
    "Id: "@ + decimal((index + 1) as nat) + ", neighbors: [ "@ + numbers_spaced(
        targets,
        targets.len(),
    ) + "], Value: "@ + value + "\n"@
}

/// The lines of the first `upto` of `indices`, with `values` as the texts
/// of their nodes.
pub open spec fn entry_lines(
    neighbors: spec_fn(int) -> Seq<int>,
    indices: Seq<int>,
    values: Seq<String>,
    upto: nat,
) -> Seq<char>
    decreases upto,
{
    if upto == 0 {
        Seq::empty()
    } else {
        entry_lines(neighbors, indices, values, (upto - 1) as nat) + entry_line(
            indices[upto - 1],
            neighbors(indices[upto - 1]),
            values[upto - 1]@,
        )
    }
}

/// `values` are texts that `Display` gives for the nodes of `graph` with
/// `indices`.
pub open spec fn show_nodes<N: MatrixGraphNode + Display, T>(
    graph: &MatrixGraph<N, T>,
    indices: Seq<int>,
    values: Seq<String>,
) -> bool {
    &&& values.len() == indices.len()
    &&& forall|k: int| 0 <= k < indices.len() ==> graph@.nodes.is_live(#[trigger] indices[k])
    &&& forall|k: int|
        0 <= k < indices.len() ==> to_string_from_display_ensures::<N>(
            &graph@.nodes.slots[indices[k]]->0,
            #[trigger] values[k],
        )
}

/// The neighbors of each index in `graph`.
pub open spec fn neighbor_map<N: MatrixGraphNode, T>(graph: &MatrixGraph<N, T>) -> spec_fn(
    int,
) -> Seq<int> {
    |i: int| graph@.neighbors(i)
}

/// `text` lists what a traversal of `graph` from `from` yields in `steps`
/// steps, with `values` as the texts of the nodes.
pub open spec fn lists<N: MatrixGraphNode + Display, T>(
    graph: &MatrixGraph<N, T>,
    from: int,
    steps: nat,
    values: Seq<String>,
    text: Seq<char>,
) -> bool {
    let start = BfsModel::start(from);
    let indices = start.order(neighbor_map(graph), steps);
    &&& start.run(neighbor_map(graph), steps).queue.len() == 0
    &&& show_nodes(graph, indices, values)
    &&& text == entry_lines(neighbor_map(graph), indices, values, values.len())
}

/// Lists the nodes that can be reached from the node with index `from`, a
/// line for each, in the order of a breadth-first traversal: the number of
/// the node, the numbers of the nodes that its edges lead to, and its value
/// as `Display` gives it. The numbers are the indices, counted from 1.
pub fn listing<N: MatrixGraphNode + Display, T>(graph: &MatrixGraph<N, T>, from: usize) -> (out:
    String)
    requires
        graph.wf(),
        graph@.nodes.is_live(from as int),
    ensures
        exists|steps: nat, values: Seq<String>|
            #[trigger] lists(graph, from as int, steps, values, out@),
{
    let traversal = graph.bfs_iter(from);
    let ghost neighbors = traversal.neighbor_map();
    assert(neighbors =~= neighbor_map(graph));
    let ghost start = BfsModel::start(from as int);
    let entries = traversal.collect();
    let ghost steps = choose|steps: nat|
        start.run(neighbors, steps).queue.len() == 0 && traversal.are_entries_of(
            entries@,
            #[trigger] start.order(neighbors, steps),
        );
    let ghost indices = start.order(neighbors, steps);
    let ghost mut values: Seq<String> = Seq::empty();
    let mut chars: Vec<char> = Vec::new();
    let mut k: usize = 0;
    while k < entries.len()
        invariant
            graph.wf(),
            traversal.graph() == graph,
            neighbors == traversal.neighbor_map(),
            traversal.are_entries_of(entries@, indices),
            k <= entries@.len(),
            values.len() == k,
            show_nodes(graph, indices.take(k as int), values),
            chars@ == entry_lines(neighbors, indices, values, k as nat),
        decreases entries@.len() - k,
    {
        let entry: &GraphEntry<'_, N> = &entries[k];
        let ghost index = indices[k as int];
        let ghost targets = graph@.neighbors(index);
        let ghost before = chars@;
        let ghost shown = values;
        assert(traversal.is_entry_of(entries@[k as int], index));
        assert(neighbors(index) == targets);
        proof {
            graph@.nodes.lemma_index_of(*entry.node, index);
        }
        let id = graph.get_index_of(entry.node).unwrap();
        push_text(&mut chars, "Id: ");
        push_decimal(&mut chars, id as u128 + 1);
        push_text(&mut chars, ", neighbors: [ ");
        let ghost head = chars@;
        let mut j: usize = 0;
        while j < entry.edges.len()
            invariant
                graph.wf(),
                j <= entry.edges@.len(),
                entry.edges@.len() == targets.len(),
                forall|i: int|
                    0 <= i < targets.len() ==> graph@.nodes.get(targets[i]) == Some(
                        *#[trigger] entry.edges@[i],
                    ),
                chars@ == head + numbers_spaced(targets, j as nat),
            decreases entry.edges@.len() - j,
        {
            let ghost so_far = chars@;
            proof {
                graph@.nodes.lemma_index_of(*entry.edges@[j as int], targets[j as int]);
            }
            let target = graph.get_index_of(entry.edges[j]).unwrap();
            push_decimal(&mut chars, target as u128 + 1);
            push_text(&mut chars, " ");
            assert(chars@ =~= head + numbers_spaced(targets, (j + 1) as nat));
            j += 1;
        }
        let value = entry.node.to_string();
        push_text(&mut chars, "], Value: ");
        push_text(&mut chars, value.as_str());
        push_text(&mut chars, "\n");
        proof {
            values = values.push(value);
            assert(chars@ =~= before + entry_line(index, targets, value@));
            assert(indices.take(k + 1) =~= indices.take(k as int).push(index));
            let longer = indices.take(k + 1);
            assert(graph@.nodes.get(index) == Some(*entry.node));
            assert forall|i: int| 0 <= i < longer.len() implies graph@.nodes.is_live(
                #[trigger] longer[i],
            ) by {
                if i < k {
                    assert(longer[i] == indices.take(k as int)[i]);
                }
            }
            assert forall|i: int|
                0 <= i < longer.len() implies to_string_from_display_ensures::<N>(
                &graph@.nodes.slots[longer[i]]->0,
                #[trigger] values[i],
            ) by {
                if i < k {
                    assert(values[i] == shown[i]);
                    assert(longer[i] == indices.take(k as int)[i]);
                }
            }
            lemma_entry_lines_keep(neighbors, indices, shown, values, k as nat);
        }
        k += 1;
    }
    let out = string_from_chars(chars.as_slice());
    proof {
        assert(indices.take(k as int) =~= indices);
        assert(lists(graph, from as int, steps, values, out@));
    }
    out
}

/// The lines of some entries do not change when more values follow those
/// that they show.
proof fn lemma_entry_lines_keep(
    neighbors: spec_fn(int) -> Seq<int>,
    indices: Seq<int>,
    values: Seq<String>,
    longer: Seq<String>,
    upto: nat,
)
    requires
        upto <= values.len() <= longer.len(),
        forall|i: int| 0 <= i < values.len() ==> values[i] == longer[i],
    ensures
        entry_lines(neighbors, indices, values, upto) == entry_lines(
            neighbors,
            indices,
            longer,
            upto,
        ),
    decreases upto,
{
    if upto > 0 {
        lemma_entry_lines_keep(neighbors, indices, values, longer, (upto - 1) as nat);
    }
}

} // verus!
