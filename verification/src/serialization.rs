//! Graphs as text and back.
use crate::matrix_graph::{cell_of, GraphModel, MatrixGraph};
use crate::node_storage::{lemma_live_values_push, live_values};
use crate::text::chars_of;
use crate::tgf_text::{
    delimiter, edge_parts, first_index, is_delimiter, lemma_first_index, lemma_first_index_is,
    lemma_round_trip, line_at, line_bounds, node_text, parse_tgf, read_edge_line,
    read_node_line, split_lines, write_tgf, TgfDocument, TgfText,
};
use crate::types::{AdjacencyMatrix, MatrixGraphNode};
use std::fmt::Display;
use std::marker::PhantomData;
use std::str::FromStr;
use vstd::prelude::*;
use vstd::string::to_string_from_display_ensures;

verus! {

/// Why a text is no graph.
#[derive(Debug, PartialEq, Eq, Clone, Copy, Structural)]
pub enum TgfParseError {
    WrongFileFormat,
    WrongNodeValue,
    WrongEdgeValue,
}

impl TgfParseError {
    /// What the error says to a reader.
    pub fn message(&self) -> (text: String)
        ensures
            text@ == (match self {
                TgfParseError::WrongNodeValue => "Wrong node value."@,
                TgfParseError::WrongEdgeValue => "Wrong edge value."@,
                TgfParseError::WrongFileFormat => "Wrong file format."@,
            }),
    {
        match self {
            TgfParseError::WrongNodeValue => "Wrong node value.".to_owned(),
            TgfParseError::WrongEdgeValue => "Wrong edge value.".to_owned(),
            TgfParseError::WrongFileFormat => "Wrong file format.".to_owned(),
        }
    }
}

/// Reads a value from its text: `str::parse`, which hands the text to the
/// type's own `FromStr`; nothing is known of what that makes of it.
#[verifier::external_body]
fn parse_value<V: FromStr>(text: &str) -> (value: Option<V>) {
    text.parse::<V>().ok()
}

/// Stores the node that a line gave, where its value could be read and the
/// graph does not hold it yet.
pub fn place_node<N: MatrixGraphNode, T>(
    graph: &mut MatrixGraph<N, T>,
    value: Option<N>,
) -> (result: Result<usize, TgfParseError>)
    requires
        old(graph).wf(),
    ensures
        final(graph).wf(),
        match value {
            Some(node) if !old(graph)@.nodes.contains(node) => {
                &&& result == Ok::<usize, TgfParseError>(old(graph)@.nodes.next_index() as usize)
                &&& final(graph)@ == old(graph)@.add_node(node)
            },
            _ => {
                &&& result == Err::<usize, TgfParseError>(TgfParseError::WrongNodeValue)
                &&& final(graph)@ == old(graph)@
            },
        },
{
    match value {
        None => Err(TgfParseError::WrongNodeValue),
        Some(node) => {
            if graph.contains_node(&node) {
                Err(TgfParseError::WrongNodeValue)
            } else {
                Ok(graph.add_node(node))
            }
        },
    }
}

/// Enters the edge that a line gave, where its weight could be read, both
/// of its ends are nodes and no edge joins them yet in this direction.
pub fn place_edge<N: MatrixGraphNode, T>(
    graph: &mut MatrixGraph<N, T>,
    from: usize,
    to: usize,
    weight: Option<T>,
) -> (result: Result<(), TgfParseError>)
    requires
        old(graph).wf(),
    ensures
        final(graph).wf(),
        match weight {
            Some(w) if old(graph)@.nodes.is_live(from as int) && old(graph)@.nodes.is_live(
                to as int,
            ) && old(graph)@.edge(from as int, to as int) is None && old(graph)@.edge_count()
                < usize::MAX => {
                &&& result == Ok::<(), TgfParseError>(())
                &&& final(graph)@ == old(graph)@.add_edge(from as int, to as int, w)
            },
            _ => {
                &&& result == Err::<(), TgfParseError>(TgfParseError::WrongEdgeValue)
                &&& final(graph)@ == old(graph)@
            },
        },
{
    let weight = match weight {
        Some(weight) => weight,
        None => {
            return Err(TgfParseError::WrongEdgeValue);
        },
    };
    if graph.get_node_by_index(from).is_none() || graph.get_node_by_index(to).is_none()
        || graph.contains_edge(from, to) || graph.edge_count() == usize::MAX {
        return Err(TgfParseError::WrongEdgeValue);
    }
    graph.add_edge(from, to, weight);
    Ok(())
}

/// The number that a node has in a text: how many live slots stand before
/// slot `i`.
pub open spec fn rank<N>(slots: Seq<Option<N>>, i: int) -> nat {
    live_values(slots.take(i)).len()
}

/// Slot `i` of `slots` holds a value.
pub open spec fn holds_value<N>(slots: Seq<Option<N>>, i: int) -> bool {
    0 <= i < slots.len() && slots[i] is Some
}

/// The cells of `row` that hold an edge to a live node before column
/// `upto`, as (`from`, column), in ascending order of the columns.
pub open spec fn row_cells<N, T>(
    row: Seq<Option<T>>,
    slots: Seq<Option<N>>,
    from: int,
    upto: int,
) -> Seq<(int, int)>
    decreases upto,
{
    if upto <= 0 {
        Seq::empty()
    } else if upto - 1 < row.len() && row[upto - 1] is Some && holds_value(slots, upto - 1) {
        row_cells(row, slots, from, upto - 1).push((from, upto - 1))
    } else {
        row_cells(row, slots, from, upto - 1)
    }
}

/// The cells that hold an edge between two live nodes in the rows before
/// `upto`, row by row.
pub open spec fn matrix_cells<N, T>(
    matrix: Seq<Vec<Option<T>>>,
    slots: Seq<Option<N>>,
    upto: int,
) -> Seq<(int, int)>
    decreases upto,
{
    if upto <= 0 {
        Seq::empty()
    } else if upto - 1 < matrix.len() && holds_value(slots, upto - 1) {
        matrix_cells(matrix, slots, upto - 1) + row_cells(
            matrix[upto - 1]@,
            slots,
            upto - 1,
            slots.len() as int,
        )
    } else {
        matrix_cells(matrix, slots, upto - 1)
    }
}

/// The lines in `edges` are those of `cells`, in their order: each gives
/// the numbers of its two nodes and a text for the weight of the cell.
pub open spec fn edges_describe<N, T: Display>(
    edges: Seq<(usize, usize, String)>,
    cells: Seq<(int, int)>,
    matrix: Seq<Vec<Option<T>>>,
    slots: Seq<Option<N>>,
) -> bool {
    &&& edges.len() == cells.len()
    &&& forall|k: int|
        0 <= k < cells.len() ==> (#[trigger] edges[k]).0 == rank(slots, cells[k].0) && edges[k].1
            == rank(slots, cells[k].1) && to_string_from_display_ensures::<T>(
            &cell_of(matrix, cells[k].0, cells[k].1)->0,
            edges[k].2,
        )
}

/// The lines in `nodes` are those of `values`, in their order: each gives a
/// text for its value.
pub open spec fn nodes_describe<N: Display>(nodes: Seq<String>, values: Seq<N>) -> bool {
    &&& nodes.len() == values.len()
    &&& forall|k: int|
        0 <= k < values.len() ==> to_string_from_display_ensures::<N>(
            &values[k],
            #[trigger] nodes[k],
        )
}

/// The cells of `input` that hold an edge between two live nodes, row by
/// row.
pub open spec fn listed_cells<N: MatrixGraphNode, T>(input: AdjacencyMatrix<N, T>) -> Seq<
    (int, int),
> {
    matrix_cells(input.edges@, input.nodes@.slots, input.nodes@.slots.len() as int)
}

/// `text` says what `input` holds: a line for each live node, in ascending
/// order of the indices, and a line for each edge between two live nodes,
/// row by row. The nodes are numbered in the order of their lines.
pub open spec fn describes<N: MatrixGraphNode + Display, T: Display>(
    input: AdjacencyMatrix<N, T>,
    text: TgfText,
) -> bool {
    let slots = input.nodes@.slots;
    &&& nodes_describe(text.nodes@, live_values(slots))
    &&& edges_describe(
        text.edges@,
        matrix_cells(input.edges@, slots, slots.len() as int),
        input.edges@,
        slots,
    )
}

/// Puts what a graph holds into lines: the text of each value and weight
/// is what its `Display` gives.
pub fn render_tgf<N: MatrixGraphNode + Display, T: Display>(input: &AdjacencyMatrix<N, T>) -> (text:
    TgfText)
    ensures
        describes(*input, text),
{
    let ghost slots = input.nodes@.slots;
    let ghost matrix = input.edges@;
    let count = input.nodes.slot_count();
    let mut ranks: Vec<usize> = Vec::new();
    let mut nodes: Vec<String> = Vec::new();
    let mut i: usize = 0;
    assert(slots.take(0) =~= Seq::<Option<N>>::empty());
    while i < count
        invariant
            slots == input.nodes@.slots,
            count == slots.len(),
            i <= count,
            ranks@.len() == i,
            forall|j: int| 0 <= j < i ==> (#[trigger] ranks@[j]) == rank(slots, j),
            nodes@.len() == rank(slots, i as int),
            nodes_describe(nodes@, live_values(slots.take(i as int))),
        decreases count - i,
    {
        proof {
            assert(slots.take(i + 1) =~= slots.take(i as int).push(slots[i as int]));
            lemma_live_values_push(slots.take(i as int), slots[i as int]);
        }
        ranks.push(nodes.len());
        match input.nodes.get_checked(i) {
            Some(node) => {
                let shown = node.to_string();
                nodes.push(shown);
            },
            None => {},
        }
        i += 1;
    }
    assert(slots.take(count as int) =~= slots);
    let mut edges: Vec<(usize, usize, String)> = Vec::new();
    let mut i: usize = 0;
    while i < count
        invariant
            slots == input.nodes@.slots,
            matrix == input.edges@,
            count == slots.len(),
            i <= count,
            ranks@.len() == count,
            forall|j: int| 0 <= j < count ==> (#[trigger] ranks@[j]) == rank(slots, j),
            edges_describe(edges@, matrix_cells(matrix, slots, i as int), matrix, slots),
        decreases count - i,
    {
        if i < input.edges.len() && input.nodes.get_checked(i).is_some() {
            let row = &input.edges[i];
            let ghost before = matrix_cells(matrix, slots, i as int);
            let mut j: usize = 0;
            assert(before + row_cells(row@, slots, i as int, 0) =~= before);
            while j < count
                invariant
                    slots == input.nodes@.slots,
                    matrix == input.edges@,
                    count == slots.len(),
                    i < count,
                    i < matrix.len(),
                    row@ == matrix[i as int]@,
                    j <= count,
                    ranks@.len() == count,
                    forall|j: int| 0 <= j < count ==> (#[trigger] ranks@[j]) == rank(slots, j),
                    edges_describe(
                        edges@,
                        before + row_cells(row@, slots, i as int, j as int),
                        matrix,
                        slots,
                    ),
                decreases count - j,
            {
                let ghost listed = before + row_cells(row@, slots, i as int, j as int);
                if j < row.len() && input.nodes.get_checked(j).is_some() {
                    match &row[j] {
                        Some(weight) => {
                            let shown = weight.to_string();
                            edges.push((ranks[i], ranks[j], shown));
                            proof {
                                assert(before + row_cells(row@, slots, i as int, j + 1)
                                    =~= listed.push((i as int, j as int)));
                                assert(cell_of(matrix, i as int, j as int) == Some(*weight));
                            }
                        },
                        None => {},
                    }
                }
                j += 1;
            }
        }
        i += 1;
    }
    TgfText { nodes, edges }
}

/// Writes a graph as text: a line for each node with its number, counted
/// from 1, and its value; a line with `#`; and a line for each edge with the
/// numbers of its two nodes and its weight.
pub fn ser_tgf<N: MatrixGraphNode + Display, T: Display>(input: &AdjacencyMatrix<N, T>) -> (out:
    String)
    ensures
        exists|text: TgfText| describes(*input, text) && out@ == text@.format(),
{
    let text = render_tgf(input);
    write_tgf(&text)
}

/// The graph `graph` is what the document `doc` says, as far as the text
/// goes: a node for each node line, at the index of its place among them,
/// and an edge for each edge line, between the nodes that the line names.
pub open spec fn reads_as<N, T>(graph: GraphModel<N, T>, doc: TgfDocument) -> bool {
    &&& graph.nodes.free.len() == 0
    &&& graph.nodes.slots.len() == doc.nodes.len()
    &&& graph.cells.dom().len() == doc.edges.len()
    &&& forall|from: int, to: int|
        graph.cells.contains_key((from, to)) <==> exists|k: int|
            0 <= k < doc.edges.len() && (#[trigger] doc.edges[k]).0 == from && doc.edges[k].1
                == to
}

/// The number of a slot grows by one with each live slot before it.
pub proof fn lemma_rank_next<N>(slots: Seq<Option<N>>, i: int)
    requires
        0 <= i < slots.len(),
    ensures
        rank(slots, i + 1) == rank(slots, i) + (if slots[i] is Some {
            1nat
        } else {
            0nat
        }),
{
    assert(slots.take(i + 1) =~= slots.take(i).push(slots[i]));
    lemma_live_values_push(slots.take(i), slots[i]);
}

/// A live slot has a smaller number than every slot after it.
pub proof fn lemma_rank_grows<N>(slots: Seq<Option<N>>, a: int, b: int)
    requires
        holds_value(slots, a),
        a < b <= slots.len(),
    ensures
        rank(slots, a) < rank(slots, b),
    decreases b - a,
{
    lemma_rank_next(slots, b - 1);
    if a < b - 1 {
        lemma_rank_grows(slots, a, b - 1);
    }
}

/// Two live slots with the same number are one slot.
pub proof fn lemma_rank_tells_apart<N>(slots: Seq<Option<N>>, a: int, b: int)
    requires
        holds_value(slots, a),
        holds_value(slots, b),
        rank(slots, a) == rank(slots, b),
    ensures
        a == b,
{
    if a < b {
        lemma_rank_grows(slots, a, b);
    } else if b < a {
        lemma_rank_grows(slots, b, a);
    }
}

/// What a row lists: its cells that hold an edge to a live node.
pub proof fn lemma_row_cells<N, T>(
    row: Seq<Option<T>>,
    slots: Seq<Option<N>>,
    from: int,
    upto: int,
)
    ensures
        forall|cell: (int, int)| #[trigger]
            row_cells(row, slots, from, upto).contains(cell) <==> cell.0 == from && 0 <= cell.1
                < upto && cell.1 < row.len() && row[cell.1] is Some && holds_value(slots, cell.1),
    decreases upto,
{
    if upto > 0 {
        lemma_row_cells(row, slots, from, upto - 1);
        let before = row_cells(row, slots, from, upto - 1);
        let all = row_cells(row, slots, from, upto);
        if upto - 1 < row.len() && row[upto - 1] is Some && holds_value(slots, upto - 1) {
            assert(all == before.push((from, upto - 1)));
            assert forall|cell: (int, int)| #[trigger]
                all.contains(cell) <==> before.contains(cell) || cell == (from, upto - 1) by {
                if all.contains(cell) {
                    let k = choose|k: int| 0 <= k < all.len() && all[k] == cell;
                    if k < before.len() {
                        assert(before[k] == cell);
                    }
                }
                if before.contains(cell) {
                    let k = choose|k: int| 0 <= k < before.len() && before[k] == cell;
                    assert(all[k] == cell);
                }
                assert(all[before.len() as int] == (from, upto - 1));
            }
        }
    } else {
        assert forall|cell: (int, int)| !row_cells(row, slots, from, upto).contains(cell) by {}
    }
}

/// What a matrix lists: its cells that hold an edge between two live
/// nodes.
pub proof fn lemma_matrix_cells<N, T>(
    matrix: Seq<Vec<Option<T>>>,
    slots: Seq<Option<N>>,
    upto: int,
)
    ensures
        forall|cell: (int, int)| #[trigger]
            matrix_cells(matrix, slots, upto).contains(cell) <==> 0 <= cell.0 < upto
                && holds_value(slots, cell.0) && holds_value(slots, cell.1) && cell_of(
                matrix,
                cell.0,
                cell.1,
            ) is Some,
    decreases upto,
{
    if upto > 0 {
        lemma_matrix_cells(matrix, slots, upto - 1);
        let before = matrix_cells(matrix, slots, upto - 1);
        let all = matrix_cells(matrix, slots, upto);
        if upto - 1 < matrix.len() && holds_value(slots, upto - 1) {
            let row = row_cells(matrix[upto - 1]@, slots, upto - 1, slots.len() as int);
            lemma_row_cells(matrix[upto - 1]@, slots, upto - 1, slots.len() as int);
            assert(all == before + row);
            assert forall|cell: (int, int)| #[trigger]
                all.contains(cell) <==> before.contains(cell) || row.contains(cell) by {
                if all.contains(cell) {
                    let k = choose|k: int| 0 <= k < all.len() && all[k] == cell;
                    if k < before.len() {
                        assert(before[k] == cell);
                    } else {
                        assert(row[k - before.len()] == cell);
                    }
                }
                if before.contains(cell) {
                    let k = choose|k: int| 0 <= k < before.len() && before[k] == cell;
                    assert(all[k] == cell);
                }
                if row.contains(cell) {
                    let k = choose|k: int| 0 <= k < row.len() && row[k] == cell;
                    assert(all[before.len() + k] == cell);
                }
            }
        }
    } else {
        assert forall|cell: (int, int)| !matrix_cells(matrix, slots, upto).contains(cell) by {}
    }
}

/// A graph that is written, where its values and weights come out as texts
/// that can stand in a line, is read back with its structure: the text is a
/// document, and a graph that is what this document says has a node for each
/// live node of the first graph, and an edge between two of its nodes
/// exactly where the first graph has one between the nodes with these
/// numbers.
pub proof fn lemma_written_graph_is_read_back<N: MatrixGraphNode + Display, T: Display>(
    input: AdjacencyMatrix<N, T>,
    text: TgfText,
    back: GraphModel<N, T>,
)
    requires
        describes(input, text),
        text@.is_clean(),
        parse_tgf(text@.format()) is Ok ==> reads_as(back, parse_tgf(text@.format())->Ok_0),
    ensures
        parse_tgf(text@.format()) == Ok::<TgfDocument, TgfParseError>(text@),
        back.nodes.slots.len() == live_values(input.nodes@.slots).len(),
        forall|a: int, b: int|
            holds_value(input.nodes@.slots, a) && holds_value(input.nodes@.slots, b) ==> (cell_of(
                input.edges@,
                a,
                b,
            ) is Some <==> #[trigger] back.cells.contains_key(
                (rank(input.nodes@.slots, a) as int, rank(input.nodes@.slots, b) as int),
            )),
{
    let slots = input.nodes@.slots;
    let matrix = input.edges@;
    let doc = text@;
    let listed = matrix_cells(matrix, slots, slots.len() as int);
    lemma_round_trip(doc);
    lemma_matrix_cells(matrix, slots, slots.len() as int);
    assert forall|a: int, b: int| holds_value(slots, a) && holds_value(slots, b) implies (cell_of(
        matrix,
        a,
        b,
    ) is Some <==> #[trigger] back.cells.contains_key(
        (rank(slots, a) as int, rank(slots, b) as int),
    )) by {
        let ra = rank(slots, a) as int;
        let rb = rank(slots, b) as int;
        if cell_of(matrix, a, b) is Some {
            assert(listed.contains((a, b)));
            let k = choose|k: int| 0 <= k < listed.len() && listed[k] == (a, b);
            let line = text.edges@[k];
            assert(doc.edges[k].0 == ra && doc.edges[k].1 == rb);
        }
        if back.cells.contains_key((ra, rb)) {
            let k = choose|k: int|
                0 <= k < doc.edges.len() && (#[trigger] doc.edges[k]).0 == ra && doc.edges[k].1
                    == rb;
            let line = text.edges@[k];
            let cell = listed[k];
            assert(listed.contains(cell));
            assert(rank(slots, cell.0) == rank(slots, a));
            assert(rank(slots, cell.1) == rank(slots, b));
            lemma_rank_tells_apart(slots, cell.0, a);
            lemma_rank_tells_apart(slots, cell.1, b);
        }
    }
}

/// `line` is an edge line that names the two indices of `edge`.
pub open spec fn names<T>(line: Seq<char>, edge: (usize, usize, Option<T>)) -> bool {
    match edge_parts(line) {
        Some(parts) => parts.0 == edge.0 && parts.1 == edge.1,
        None => false,
    }
}

/// The graph with the nodes that the first `upto` of `values` are, each
/// stored in its turn: nothing where one of them could not be read, or is
/// one that came before.
pub open spec fn placed_nodes<N, T>(values: Seq<Option<N>>, upto: nat) -> Option<GraphModel<N, T>>
    decreases upto,
{
    if upto == 0 {
        Some(GraphModel::empty())
    } else {
        match placed_nodes::<N, T>(values, (upto - 1) as nat) {
            Some(graph) => match values[upto - 1] {
                Some(node) => if graph.nodes.contains(node) {
                    None
                } else {
                    Some(graph.add_node(node))
                },
                None => None,
            },
            None => None,
        }
    }
}

/// `edge` can be entered into `graph`: its weight could be read, both of
/// its ends are nodes, and no edge joins them yet in this direction.
pub open spec fn can_enter<N, T>(graph: GraphModel<N, T>, edge: (usize, usize, Option<T>)) -> bool {
    &&& edge.2 is Some
    &&& graph.nodes.is_live(edge.0 as int)
    &&& graph.nodes.is_live(edge.1 as int)
    &&& graph.edge(edge.0 as int, edge.1 as int) is None
    &&& graph.edge_count() < usize::MAX
}

/// `graph` with the first `upto` of `edges`, each entered in its turn:
/// nothing where one of them cannot be entered.
pub open spec fn placed_edges<N, T>(
    graph: GraphModel<N, T>,
    edges: Seq<(usize, usize, Option<T>)>,
    upto: nat,
) -> Option<GraphModel<N, T>>
    decreases upto,
{
    if upto == 0 {
        Some(graph)
    } else {
        match placed_edges(graph, edges, (upto - 1) as nat) {
            Some(before) => if can_enter(before, edges[upto - 1]) {
                Some(
                    before.add_edge(
                        edges[upto - 1].0 as int,
                        edges[upto - 1].1 as int,
                        edges[upto - 1].2->0,
                    ),
                )
            } else {
                None
            },
            None => None,
        }
    }
}

/// Where some of the values cannot be stored, more of them cannot either.
pub proof fn lemma_placed_nodes_fail<N, T>(values: Seq<Option<N>>, upto: nat, more: nat)
    requires
        upto <= more,
        placed_nodes::<N, T>(values, upto) is None,
    ensures
        placed_nodes::<N, T>(values, more) is None,
    decreases more,
{
    if upto < more {
        lemma_placed_nodes_fail::<N, T>(values, upto, (more - 1) as nat);
    }
}

/// Where some of the edges cannot be entered, more of them cannot either.
pub proof fn lemma_placed_edges_fail<N, T>(
    graph: GraphModel<N, T>,
    edges: Seq<(usize, usize, Option<T>)>,
    upto: nat,
    more: nat,
)
    requires
        upto <= more,
        placed_edges(graph, edges, upto) is None,
    ensures
        placed_edges(graph, edges, more) is None,
    decreases more,
{
    if upto < more {
        lemma_placed_edges_fail(graph, edges, upto, (more - 1) as nat);
    }
}

/// Nodes that were stored one after another stand in that order, without
/// gaps, in a graph without edges.
pub proof fn lemma_placed_nodes<N, T>(values: Seq<Option<N>>, upto: nat)
    requires
        placed_nodes::<N, T>(values, upto) is Some,
        upto <= values.len(),
    ensures
        placed_nodes::<N, T>(values, upto)->0.nodes.free.len() == 0,
        placed_nodes::<N, T>(values, upto)->0.nodes.slots == values.take(upto as int),
        placed_nodes::<N, T>(values, upto)->0.cells == Map::<(int, int), T>::empty(),
    decreases upto,
{
    if upto > 0 {
        lemma_placed_nodes::<N, T>(values, (upto - 1) as nat);
        let before = placed_nodes::<N, T>(values, (upto - 1) as nat)->0;
        let after = placed_nodes::<N, T>(values, upto)->0;
        assert(after.nodes.slots =~= values.take(upto as int));
    } else {
        assert(GraphModel::<N, T>::empty().nodes.slots =~= values.take(0));
    }
}

/// Edges that were entered one after another are the edges that the graph
/// has more than before, each between the nodes that it names.
pub proof fn lemma_placed_edges<N, T>(
    graph: GraphModel<N, T>,
    edges: Seq<(usize, usize, Option<T>)>,
    upto: nat,
)
    requires
        placed_edges(graph, edges, upto) is Some,
        graph.cells.dom().finite(),
        upto <= edges.len(),
    ensures
        placed_edges(graph, edges, upto)->0.nodes == graph.nodes,
        placed_edges(graph, edges, upto)->0.cells.dom().finite(),
        placed_edges(graph, edges, upto)->0.cells.dom().len() == graph.cells.dom().len() + upto,
        forall|from: int, to: int| #[trigger]
            placed_edges(graph, edges, upto)->0.cells.contains_key((from, to))
                <==> graph.cells.contains_key((from, to)) || exists|k: int|
                0 <= k < upto && (#[trigger] edges[k]).0 == from && edges[k].1 == to,
        forall|k: int|
            0 <= k < upto ==> placed_edges(graph, edges, upto)->0.edge(
                (#[trigger] edges[k]).0 as int,
                edges[k].1 as int,
            ) == edges[k].2,
    decreases upto,
{
    if upto > 0 {
        lemma_placed_edges(graph, edges, (upto - 1) as nat);
        let before = placed_edges(graph, edges, (upto - 1) as nat)->0;
        let after = placed_edges(graph, edges, upto)->0;
        let last = edges[upto - 1];
        assert(after.cells.dom() =~= before.cells.dom().insert((last.0 as int, last.1 as int)));
        assert forall|from: int, to: int| #[trigger]
            after.cells.contains_key((from, to)) <==> graph.cells.contains_key((from, to))
                || exists|k: int|
                0 <= k < upto && (#[trigger] edges[k]).0 == from && edges[k].1 == to by {
            assert(before.cells.contains_key((from, to)) <==> graph.cells.contains_key((from, to))
                || exists|k: int|
                0 <= k < upto - 1 && (#[trigger] edges[k]).0 == from && edges[k].1 == to);
            if after.cells.contains_key((from, to)) && !graph.cells.contains_key((from, to)) {
                if (from, to) == (last.0 as int, last.1 as int) {
                    assert(edges[upto - 1].0 == from);
                } else {
                    assert(before.cells.contains_key((from, to)));
                    let k = choose|k: int|
                        0 <= k < upto - 1 && (#[trigger] edges[k]).0 == from && edges[k].1 == to;
                    assert(0 <= k < upto);
                }
            }
            if exists|k: int|
                0 <= k < upto && (#[trigger] edges[k]).0 == from && edges[k].1 == to {
                let k = choose|k: int|
                    0 <= k < upto && (#[trigger] edges[k]).0 == from && edges[k].1 == to;
                if k < upto - 1 {
                    assert(before.cells.contains_key((from, to)));
                }
            }
        }
        assert forall|k: int| 0 <= k < upto implies after.edge(
            (#[trigger] edges[k]).0 as int,
            edges[k].1 as int,
        ) == edges[k].2 by {
            if k < upto - 1 {
                assert(before.edge(edges[k].0 as int, edges[k].1 as int) == edges[k].2);
                assert(before.cells.contains_key((edges[k].0 as int, edges[k].1 as int)));
            }
        }
    }
}

/// Stores the nodes that the lines of a text gave, each as it was read, in
/// their order.
pub fn place_nodes<N: MatrixGraphNode, T>(values: Vec<Option<N>>) -> (result: Result<
    MatrixGraph<N, T>,
    TgfParseError,
>)
    ensures
        match result {
            Ok(graph) => graph.wf() && placed_nodes::<N, T>(values@, values@.len()) == Some(
                graph@,
            ),
            Err(e) => e == TgfParseError::WrongNodeValue && placed_nodes::<N, T>(
                values@,
                values@.len(),
            ) is None,
        },
{
    let mut graph: MatrixGraph<N, T> = MatrixGraph::new();
    let ghost all = values@;
    for value in it: values.into_iter()
        invariant
            it.seq() == all,
            graph.wf(),
            placed_nodes::<N, T>(all, it.index() as nat) == Some(graph@),
    {
        let ghost k = it.index() as nat;
        assert(all[k as int] == value);
        match place_node(&mut graph, value) {
            Ok(_) => {},
            Err(e) => {
                proof {
                    assert(placed_nodes::<N, T>(all, k + 1) is None);
                    lemma_placed_nodes_fail::<N, T>(all, k + 1, all.len());
                }
                return Err(e);
            },
        }
    }
    Ok(graph)
}

/// Enters the edges that the lines of a text gave into `graph`, each with
/// its weight as it was read, in their order.
pub fn place_edges<N: MatrixGraphNode, T>(
    graph: MatrixGraph<N, T>,
    edges: Vec<(usize, usize, Option<T>)>,
) -> (result: Result<MatrixGraph<N, T>, TgfParseError>)
    requires
        graph.wf(),
    ensures
        match result {
            Ok(after) => after.wf() && placed_edges(graph@, edges@, edges@.len()) == Some(
                after@,
            ),
            Err(e) => e == TgfParseError::WrongEdgeValue && placed_edges(
                graph@,
                edges@,
                edges@.len(),
            ) is None,
        },
{
    let mut after = graph;
    let ghost all = edges@;
    for edge in it: edges.into_iter()
        invariant
            it.seq() == all,
            after.wf(),
            placed_edges(graph@, all, it.index() as nat) == Some(after@),
    {
        let ghost k = it.index() as nat;
        assert(all[k as int] == edge);
        let (from, to, weight) = edge;
        match place_edge(&mut after, from, to, weight) {
            Ok(()) => {},
            Err(e) => {
                proof {
                    assert(placed_edges(graph@, all, k + 1) is None);
                    lemma_placed_edges_fail(graph@, all, k + 1, all.len());
                }
                return Err(e);
            },
        }
    }
    Ok(after)
}

/// The edges of a document, each with the weight that was read for it.
pub open spec fn weighted<T>(edges: Seq<(nat, nat, Seq<char>)>, weights: Seq<Option<T>>) -> Seq<
    (usize, usize, Option<T>),
> {
    Seq::new(edges.len(), |k: int| (edges[k].0 as usize, edges[k].1 as usize, weights[k]))
}

/// `values` and `weights` are as many as the node lines and the edge lines
/// of `text` that are read for their values.
pub open spec fn read_for<N, T>(
    text: Seq<char>,
    values: Seq<Option<N>>,
    weights: Seq<Option<T>>,
) -> bool {
    &&& parse_tgf(text) != Err::<TgfDocument, TgfParseError>(TgfParseError::WrongNodeValue)
        ==> values.len() == first_index(split_lines(text), delimiter())
    &&& parse_tgf(text) is Ok ==> weights.len() == parse_tgf(text)->Ok_0.edges.len()
}

/// What a text is read as, where `values` are what the values of its node
/// lines were read as, and `weights` what the weights of its edge lines
/// were read as. It is no graph where a node line is wrong, a value could
/// not be read or came before: a wrong node value. After that it is none
/// where an edge line is wrong, or an edge cannot be entered: a wrong edge
/// value.
pub open spec fn reading<N, T>(
    text: Seq<char>,
    values: Seq<Option<N>>,
    weights: Seq<Option<T>>,
) -> Result<GraphModel<N, T>, TgfParseError> {
    if parse_tgf(text) == Err::<TgfDocument, TgfParseError>(TgfParseError::WrongNodeValue) {
        Err(TgfParseError::WrongNodeValue)
    } else {
        match placed_nodes::<N, T>(values, values.len()) {
            None => Err(TgfParseError::WrongNodeValue),
            Some(graph) => match parse_tgf(text) {
                Err(_) => Err(TgfParseError::WrongEdgeValue),
                Ok(doc) => match placed_edges(
                    graph,
                    weighted(doc.edges, weights),
                    doc.edges.len(),
                ) {
                    None => Err(TgfParseError::WrongEdgeValue),
                    Some(after) => Ok(after),
                },
            },
        }
    }
}

/// The graph that was read, or the error, is what `text` is read as with
/// `values` and `weights`.
pub open spec fn is_reading<N: MatrixGraphNode, T>(
    result: Result<MatrixGraph<N, T>, TgfParseError>,
    text: Seq<char>,
    values: Seq<Option<N>>,
    weights: Seq<Option<T>>,
) -> bool {
    &&& read_for(text, values, weights)
    &&& match result {
        Ok(graph) => graph.wf() && reading(text, values, weights) == Ok::<
            GraphModel<N, T>,
            TgfParseError,
        >(graph@),
        Err(e) => reading(text, values, weights) == Err::<GraphModel<N, T>, TgfParseError>(e),
    }
}

/// The indices of the edges of a document are numbers that the machine can
/// hold.
pub proof fn lemma_document_indices(text: Seq<char>, k: int)
    requires
        parse_tgf(text) is Ok,
        0 <= k < parse_tgf(text)->Ok_0.edges.len(),
    ensures
        parse_tgf(text)->Ok_0.edges[k].0 < usize::MAX,
        parse_tgf(text)->Ok_0.edges[k].1 < usize::MAX,
{
    let lines = split_lines(text);
    let mark = first_index(lines, delimiter());
    assert(parse_tgf(text)->Ok_0.edges[k] == edge_parts(lines[mark + 1 + k])->0);
}

/// A text that is read as a graph is a document, and the graph is what the
/// document says.
pub proof fn lemma_reading_ok<N, T>(
    text: Seq<char>,
    values: Seq<Option<N>>,
    weights: Seq<Option<T>>,
)
    requires
        read_for(text, values, weights),
        reading(text, values, weights) is Ok,
    ensures
        parse_tgf(text) is Ok,
        reads_as(reading(text, values, weights)->Ok_0, parse_tgf(text)->Ok_0),
{
    let lines = split_lines(text);
    let mark = first_index(lines, delimiter());
    let doc = parse_tgf(text)->Ok_0;
    let graph = placed_nodes::<N, T>(values, values.len())->0;
    let edges = weighted(doc.edges, weights);
    let n = doc.edges.len();
    let after = placed_edges(graph, edges, n)->0;
    lemma_placed_nodes::<N, T>(values, values.len());
    assert(values.take(values.len() as int) =~= values);
    assert(graph.cells.dom() =~= Set::<(int, int)>::empty());
    lemma_placed_edges(graph, edges, n);
    assert forall|from: int, to: int|
        after.cells.contains_key((from, to)) <==> exists|k: int|
            0 <= k < doc.edges.len() && (#[trigger] doc.edges[k]).0 == from && doc.edges[k].1
                == to by {
        if after.cells.contains_key((from, to)) {
            let k = choose|k: int|
                0 <= k < n && (#[trigger] edges[k]).0 == from && edges[k].1 == to;
            lemma_document_indices(text, k);
            assert(doc.edges[k].0 == from && doc.edges[k].1 == to);
        }
        if exists|k: int|
            0 <= k < doc.edges.len() && (#[trigger] doc.edges[k]).0 == from && doc.edges[k].1
                == to {
            let k = choose|k: int|
                0 <= k < doc.edges.len() && (#[trigger] doc.edges[k]).0 == from
                    && doc.edges[k].1 == to;
            lemma_document_indices(text, k);
            assert(edges[k].0 == from && edges[k].1 == to);
        }
    }
}

/// When a text is read as a graph and when it is not, whatever the values
/// and weights were read as: a wrong node section is a wrong node value; a
/// text without node lines is the empty graph where it has no edge line,
/// and a wrong edge value where it has one; and a wrong edge value comes
/// only of a text with an edge line.
pub proof fn lemma_reading<N, T>(text: Seq<char>, values: Seq<Option<N>>, weights: Seq<Option<T>>)
    requires
        read_for(text, values, weights),
    ensures
        reading(text, values, weights) is Err ==> reading(text, values, weights)->Err_0
            != TgfParseError::WrongFileFormat,
        parse_tgf(text) is Err ==> reading(text, values, weights) is Err,
        parse_tgf(text) == Err::<TgfDocument, TgfParseError>(TgfParseError::WrongNodeValue)
            ==> reading(text, values, weights) == Err::<GraphModel<N, T>, TgfParseError>(
            TgfParseError::WrongNodeValue,
        ),
        reading(text, values, weights) == Err::<GraphModel<N, T>, TgfParseError>(
            TgfParseError::WrongEdgeValue,
        ) ==> parse_tgf(text) != Err::<TgfDocument, TgfParseError>(TgfParseError::WrongNodeValue),
        parse_tgf(text) is Ok && parse_tgf(text)->Ok_0.nodes.len() == 0 && parse_tgf(
            text,
        )->Ok_0.edges.len() == 0 ==> reading(text, values, weights) is Ok,
        first_index(split_lines(text), delimiter()) == 0 && split_lines(text).len() > 1
            ==> reading(text, values, weights) == Err::<GraphModel<N, T>, TgfParseError>(
            TgfParseError::WrongEdgeValue,
        ),
        reading(text, values, weights) == Err::<GraphModel<N, T>, TgfParseError>(
            TgfParseError::WrongEdgeValue,
        ) ==> split_lines(text).len() > first_index(split_lines(text), delimiter()) + 1,
{
    let lines = split_lines(text);
    let mark = first_index(lines, delimiter());
    let read = parse_tgf(text);
    let wrong_node = Err::<TgfDocument, TgfParseError>(TgfParseError::WrongNodeValue);
    lemma_first_index(lines, delimiter());
    if read != wrong_node {
        assert(0 <= mark < lines.len());
        if mark == 0 {
            assert(placed_nodes::<N, T>(values, 0) == Some(GraphModel::<N, T>::empty()));
        }
        if placed_nodes::<N, T>(values, values.len()) is Some {
            let graph = placed_nodes::<N, T>(values, values.len())->0;
            if read is Ok {
                let doc = read->Ok_0;
                let edges = weighted(doc.edges, weights);
                let n = doc.edges.len();
                assert(n == lines.len() - mark - 1);
                assert(placed_edges(graph, edges, 0) == Some(graph));
                if mark == 0 && n > 0 {
                    assert(!graph.nodes.is_live(edges[0].0 as int));
                    assert(!can_enter(graph, edges[0]));
                    assert(placed_edges(graph, edges, 1) is None);
                    lemma_placed_edges_fail(graph, edges, 1, n);
                }
            } else {
                let k = choose|k: int| mark < k < lines.len() && edge_parts(lines[k]) is None;
            }
        }
    }
}

/// The value of a live slot stands among the values at the number of the
/// slot.
pub proof fn lemma_rank_value<N>(slots: Seq<Option<N>>, i: int)
    requires
        holds_value(slots, i),
    ensures
        rank(slots, i) < live_values(slots).len(),
        live_values(slots)[rank(slots, i) as int] == slots[i]->0,
    decreases slots.len(),
{
    let shorter = slots.drop_last();
    lemma_live_values_push(shorter, slots.last());
    assert(shorter.push(slots.last()) =~= slots);
    if i == slots.len() - 1 {
        assert(slots.take(i) =~= shorter);
    } else {
        lemma_rank_value(shorter, i);
        assert(shorter.take(i) =~= slots.take(i));
    }
}

/// Each of the values is the value of a live slot with that number.
pub proof fn lemma_rank_onto<N>(slots: Seq<Option<N>>, k: int) -> (i: int)
    requires
        0 <= k < live_values(slots).len(),
    ensures
        holds_value(slots, i),
        rank(slots, i) == k,
    decreases slots.len(),
{
    let shorter = slots.drop_last();
    lemma_live_values_push(shorter, slots.last());
    assert(shorter.push(slots.last()) =~= slots);
    if k < live_values(shorter).len() {
        let i = lemma_rank_onto(shorter, k);
        assert(shorter.take(i) =~= slots.take(i));
        i
    } else {
        let i = slots.len() - 1;
        assert(slots.take(i) =~= shorter);
        i
    }
}

/// A row lists none of its cells twice.
pub proof fn lemma_row_cells_once<N, T>(
    row: Seq<Option<T>>,
    slots: Seq<Option<N>>,
    from: int,
    upto: int,
)
    ensures
        row_cells(row, slots, from, upto).no_duplicates(),
    decreases upto,
{
    if upto > 0 {
        lemma_row_cells_once(row, slots, from, upto - 1);
        lemma_row_cells(row, slots, from, upto - 1);
        let before = row_cells(row, slots, from, upto - 1);
        assert(!before.contains((from, upto - 1)));
        assert forall|i: int| 0 <= i < before.len() implies before[i] != (from, upto - 1) by {
            assert(before.contains(before[i]));
        }
    }
}

/// A matrix lists none of its cells twice.
pub proof fn lemma_matrix_cells_once<N, T>(
    matrix: Seq<Vec<Option<T>>>,
    slots: Seq<Option<N>>,
    upto: int,
)
    ensures
        matrix_cells(matrix, slots, upto).no_duplicates(),
    decreases upto,
{
    if upto > 0 {
        lemma_matrix_cells_once(matrix, slots, upto - 1);
        if upto - 1 < matrix.len() && holds_value(slots, upto - 1) {
            let before = matrix_cells(matrix, slots, upto - 1);
            let row = row_cells(matrix[upto - 1]@, slots, upto - 1, slots.len() as int);
            lemma_matrix_cells(matrix, slots, upto - 1);
            lemma_row_cells(matrix[upto - 1]@, slots, upto - 1, slots.len() as int);
            lemma_row_cells_once(matrix[upto - 1]@, slots, upto - 1, slots.len() as int);
            assert forall|i: int, j: int|
                0 <= i < before.len() && 0 <= j < row.len() implies before[i] != row[j] by {
                assert(before.contains(before[i]));
                assert(row.contains(row[j]));
            }
            vstd::seq_lib::lemma_no_dup_in_concat(before, row);
        }
    }
}

/// Values that could all be read and differ from one another can all be
/// stored.
pub proof fn lemma_nodes_can_be_placed<N, T>(values: Seq<Option<N>>, upto: nat)
    requires
        upto <= values.len(),
        forall|k: int| 0 <= k < values.len() ==> (#[trigger] values[k]) is Some,
        forall|j: int, k: int|
            0 <= j < k < values.len() ==> #[trigger] values[j] != #[trigger] values[k],
    ensures
        placed_nodes::<N, T>(values, upto) is Some,
    decreases upto,
{
    if upto > 0 {
        lemma_nodes_can_be_placed::<N, T>(values, (upto - 1) as nat);
        lemma_placed_nodes::<N, T>(values, (upto - 1) as nat);
        let graph = placed_nodes::<N, T>(values, (upto - 1) as nat)->0;
        let node = values[upto - 1]->0;
        if graph.nodes.contains(node) {
            let i = choose|i: int|
                graph.nodes.is_live(i) && #[trigger] graph.nodes.slots[i] == Some(node);
            assert(values.take(upto - 1)[i] == values[i]);
            assert(values[i] == values[upto - 1]);
        }
    }
}

/// Edges whose weights could all be read, between nodes of a graph, no two
/// of them between the same nodes in the same direction, can all be entered
/// into a graph without edges.
pub proof fn lemma_edges_can_be_placed<N, T>(
    graph: GraphModel<N, T>,
    edges: Seq<(usize, usize, Option<T>)>,
    upto: nat,
)
    requires
        upto <= edges.len() <= usize::MAX,
        graph.cells == Map::<(int, int), T>::empty(),
        forall|k: int|
            0 <= k < edges.len() ==> (#[trigger] edges[k]).2 is Some && graph.nodes.is_live(
                edges[k].0 as int,
            ) && graph.nodes.is_live(edges[k].1 as int),
        forall|j: int, k: int|
            0 <= j < k < edges.len() ==> !((#[trigger] edges[j]).0 == (#[trigger] edges[k]).0
                && edges[j].1 == edges[k].1),
    ensures
        placed_edges(graph, edges, upto) is Some,
    decreases upto,
{
    if upto > 0 {
        lemma_edges_can_be_placed(graph, edges, (upto - 1) as nat);
        assert(graph.cells.dom() =~= Set::<(int, int)>::empty());
        lemma_placed_edges(graph, edges, (upto - 1) as nat);
        let before = placed_edges(graph, edges, (upto - 1) as nat)->0;
        let last = edges[upto - 1];
        if before.cells.contains_key((last.0 as int, last.1 as int)) {
            let k = choose|k: int|
                0 <= k < upto - 1 && (#[trigger] edges[k]).0 == last.0 as int && edges[k].1
                    == last.1 as int;
            assert(edges[k].0 == edges[upto - 1].0);
        }
        assert(can_enter(before, last));
    }
}

/// A graph that is written and read back is the same graph, but for the
/// indices of its nodes, where its values and weights come out as texts
/// that can stand in a line and are read back as they were. With `values`
/// as the values of the graph, in the order of their indices, and `weights`
/// as the weights of its edges, row by row, the text is read as a graph
/// that has these values as its nodes, in this order and without gaps, and
/// between two of them the edge that the first graph has between the nodes
/// with these numbers.
pub proof fn lemma_written_graph_is_rebuilt<N: MatrixGraphNode + Display, T: Display>(
    input: AdjacencyMatrix<N, T>,
    text: TgfText,
    values: Seq<Option<N>>,
    weights: Seq<Option<T>>,
)
    requires
        input.nodes@.wf(),
        describes(input, text),
        text@.is_clean(),
        values.len() == live_values(input.nodes@.slots).len(),
        forall|k: int|
            0 <= k < values.len() ==> #[trigger] values[k] == Some(
                live_values(input.nodes@.slots)[k],
            ),
        weights.len() == listed_cells(input).len(),
        forall|k: int|
            0 <= k < weights.len() ==> #[trigger] weights[k] == cell_of(
                input.edges@,
                listed_cells(input)[k].0,
                listed_cells(input)[k].1,
            ),
    ensures
        read_for(text@.format(), values, weights),
        reading(text@.format(), values, weights) is Ok,
        reading(text@.format(), values, weights)->Ok_0.nodes.slots == values,
        reading(text@.format(), values, weights)->Ok_0.nodes.free.len() == 0,
        forall|a: int, b: int|
            holds_value(input.nodes@.slots, a) && holds_value(input.nodes@.slots, b)
                ==> #[trigger] reading(text@.format(), values, weights)->Ok_0.edge(
                rank(input.nodes@.slots, a) as int,
                rank(input.nodes@.slots, b) as int,
            ) == cell_of(input.edges@, a, b),
{
    let slots = input.nodes@.slots;
    let matrix = input.edges@;
    let live = live_values(slots);
    let cells = matrix_cells(matrix, slots, slots.len() as int);
    let doc = text@;
    let written = doc.format();
    lemma_round_trip(doc);
    assert(parse_tgf(written)->Ok_0.nodes.len() == first_index(
        split_lines(written),
        delimiter(),
    ));
    // the values differ from one another
    assert forall|j: int, k: int| 0 <= j < k < values.len() implies #[trigger] values[j]
        != #[trigger] values[k] by {
        let a = lemma_rank_onto(slots, j);
        let b = lemma_rank_onto(slots, k);
        lemma_rank_value(slots, a);
        lemma_rank_value(slots, b);
        if values[j] == values[k] {
            assert(slots[a] == slots[b]);
            assert(input.nodes@.is_live(a) && input.nodes@.is_live(b));
        }
    }
    lemma_nodes_can_be_placed::<N, T>(values, values.len());
    lemma_placed_nodes::<N, T>(values, values.len());
    assert(values.take(values.len() as int) =~= values);
    let graph = placed_nodes::<N, T>(values, values.len())->0;
    let edges = weighted(doc.edges, weights);
    let n = doc.edges.len();
    lemma_matrix_cells(matrix, slots, slots.len() as int);
    lemma_matrix_cells_once(matrix, slots, slots.len() as int);
    assert(text.edges.len() == text.edges@.len());
    assert forall|k: int| 0 <= k < n implies (#[trigger] edges[k]).0 == rank(slots, cells[k].0)
        && edges[k].1 == rank(slots, cells[k].1) && edges[k].2 == cell_of(
        matrix,
        cells[k].0,
        cells[k].1,
    ) && edges[k].2 is Some && graph.nodes.is_live(edges[k].0 as int) && graph.nodes.is_live(
        edges[k].1 as int,
    ) by {
        let line = text.edges@[k];
        assert(cells.contains(cells[k]));
        lemma_rank_value(slots, cells[k].0);
        lemma_rank_value(slots, cells[k].1);
    }
    assert forall|j: int, k: int| 0 <= j < k < n implies !((#[trigger] edges[j]).0 == (
    #[trigger] edges[k]).0 && edges[j].1 == edges[k].1) by {
        assert(cells.contains(cells[j]) && cells.contains(cells[k]));
        if edges[j].0 == edges[k].0 && edges[j].1 == edges[k].1 {
            lemma_rank_tells_apart(slots, cells[j].0, cells[k].0);
            lemma_rank_tells_apart(slots, cells[j].1, cells[k].1);
        }
    }
    lemma_edges_can_be_placed(graph, edges, n);
    assert(graph.cells.dom() =~= Set::<(int, int)>::empty());
    lemma_placed_edges(graph, edges, n);
    let after = placed_edges(graph, edges, n)->0;
    assert forall|a: int, b: int| holds_value(slots, a) && holds_value(slots, b) implies after.edge(
        rank(slots, a) as int,
        rank(slots, b) as int,
    ) == cell_of(matrix, a, b) by {
        let ra = rank(slots, a) as int;
        let rb = rank(slots, b) as int;
        if cell_of(matrix, a, b) is Some {
            assert(cells.contains((a, b)));
            let k = choose|k: int| 0 <= k < cells.len() && cells[k] == (a, b);
            assert(edges[k].0 == ra && edges[k].1 == rb);
            assert(after.edge(edges[k].0 as int, edges[k].1 as int) == edges[k].2);
        } else if after.cells.contains_key((ra, rb)) {
            let k = choose|k: int|
                0 <= k < n && (#[trigger] edges[k]).0 == ra && edges[k].1 == rb;
            assert(cells.contains(cells[k]));
            lemma_rank_tells_apart(slots, cells[k].0, a);
            lemma_rank_tells_apart(slots, cells[k].1, b);
        }
    }
}

/// A reader of one text, which makes a graph of it.
pub struct TgfParser<N: MatrixGraphNode, T> {
    input: Vec<char>,
    lines: Vec<(usize, usize)>,
    phantom1: PhantomData<N>,
    phantom2: PhantomData<T>,
}

impl<N: MatrixGraphNode, T> TgfParser<N, T> {
    /// The text that is read.
    pub closed spec fn text(&self) -> Seq<char> {
        self.input@
    }

    /// The reader is ready to read: it has the lines of its text.
    pub closed spec fn wf(&self) -> bool {
        &&& self.lines@.len() == split_lines(self.input@).len()
        &&& forall|k: int|
            0 <= k < self.lines@.len() ==> (#[trigger] self.lines@[k]).0 <= self.lines@[k].1
                <= self.input@.len() && self.input@.subrange(
                self.lines@[k].0 as int,
                self.lines@[k].1 as int,
            ) == split_lines(self.input@)[k]
    }

    /// A reader of `input`.
    pub fn new(input: &str) -> (parser: Self)
        ensures
            parser.wf(),
            parser.text() == input@,
    {
        let chars = chars_of(input);
        let lines = line_bounds(chars.as_slice());
        Self { input: chars, lines, phantom1: PhantomData, phantom2: PhantomData }
    }
}

impl<N: MatrixGraphNode + FromStr, T: FromStr> TgfParser<N, T> {
    /// Reads the text. It is no graph where a node line holds no space, or
    /// a value that cannot be read or that an earlier line gave, and where
    /// no line is the delimiter: a wrong node value. After that it is none
    /// where an edge line does not name two nodes by their numbers, holds a
    /// weight that cannot be read, or names a pair that an earlier line
    /// joined: a wrong edge value. What comes out is `reading` of the text
    /// with what the values and the weights were read as.
    pub fn parse(self) -> (result: Result<MatrixGraph<N, T>, TgfParseError>)
        requires
            self.wf(),
        ensures
            exists|values: Seq<Option<N>>, weights: Seq<Option<T>>| #[trigger]
                is_reading(result, self.text(), values, weights),
            match result {
                Ok(graph) => graph.wf() && parse_tgf(self.text()) is Ok && reads_as(
                    graph@,
                    parse_tgf(self.text())->Ok_0,
                ),
                Err(e) => e != TgfParseError::WrongFileFormat,
            },
            parse_tgf(self.text()) is Err ==> result is Err,
            parse_tgf(self.text()) == Err::<TgfDocument, TgfParseError>(
                TgfParseError::WrongNodeValue,
            ) ==> result == Err::<MatrixGraph<N, T>, TgfParseError>(TgfParseError::WrongNodeValue),
            result == Err::<MatrixGraph<N, T>, TgfParseError>(TgfParseError::WrongEdgeValue)
                ==> parse_tgf(self.text()) != Err::<TgfDocument, TgfParseError>(
                TgfParseError::WrongNodeValue,
            ),
            parse_tgf(self.text()) is Ok && parse_tgf(self.text())->Ok_0.nodes.len() == 0
                && parse_tgf(self.text())->Ok_0.edges.len() == 0 ==> result is Ok,
            first_index(split_lines(self.text()), delimiter()) == 0 && split_lines(
                self.text(),
            ).len() > 1 ==> result == Err::<MatrixGraph<N, T>, TgfParseError>(
                TgfParseError::WrongEdgeValue,
            ),
            result == Err::<MatrixGraph<N, T>, TgfParseError>(TgfParseError::WrongEdgeValue)
                ==> split_lines(self.text()).len() > first_index(
                split_lines(self.text()),
                delimiter(),
            ) + 1,
    {
        let ghost text = self.text();
        let ghost lines = split_lines(text);
        let ghost no_weights = Seq::<Option<T>>::empty();
        let (mark, values) = match self.parse_nodes() {
            Some(found) => found,
            None => {
                let result = Err(TgfParseError::WrongNodeValue);
                proof {
                    let no_values = Seq::<Option<N>>::empty();
                    lemma_reading(text, no_values, no_weights);
                    assert(is_reading(result, text, no_values, no_weights));
                }
                return result;
            },
        };
        let ghost values_read = values@;
        match self.parse_delimiter() {
            Ok(()) => {},
            Err(e) => {
                return Err(e);
            },
        }
        let graph = match place_nodes(values) {
            Ok(graph) => graph,
            Err(e) => {
                let result = Err(e);
                proof {
                    let weights = match parse_tgf(text) {
                        Ok(doc) => Seq::new(doc.edges.len(), |k: int| None::<T>),
                        Err(_) => no_weights,
                    };
                    lemma_reading(text, values_read, weights);
                    assert(is_reading(result, text, values_read, weights));
                }
                return result;
            },
        };
        let edges = match self.parse_edges(mark) {
            Some(edges) => edges,
            None => {
                let result = Err(TgfParseError::WrongEdgeValue);
                proof {
                    assert(parse_tgf(text) is Err);
                    lemma_reading(text, values_read, no_weights);
                    assert(is_reading(result, text, values_read, no_weights));
                }
                return result;
            },
        };
        let ghost edges_read = edges@;
        let ghost weights = Seq::new(edges_read.len(), |k: int| edges_read[k].2);
        proof {
            assert(!(exists|k: int| 0 <= k < mark && node_text(lines[k]) is None));
            assert(!(exists|k: int| mark < k < lines.len() && edge_parts(lines[k]) is None));
            let doc = parse_tgf(text)->Ok_0;
            assert(weighted(doc.edges, weights) =~= edges_read) by {
                assert forall|k: int| 0 <= k < edges_read.len() implies weighted(
                    doc.edges,
                    weights,
                )[k] == edges_read[k] by {
                    assert(doc.edges[k] == edge_parts(lines[mark + 1 + k])->0);
                }
            }
            lemma_reading(text, values_read, weights);
        }
        let result = place_edges(graph, edges);
        proof {
            assert(is_reading(result, text, values_read, weights));
            if result is Ok {
                lemma_reading_ok(text, values_read, weights);
            }
        }
        result
    }

    /// Reads the node lines up to the delimiter line and returns the
    /// number of that line, counted from 0, with what `FromStr` made of the
    /// value of each node line: nothing where a node line holds no space or
    /// no line is the delimiter.
    fn parse_nodes(&self) -> (result: Option<(usize, Vec<Option<N>>)>)
        requires
            self.wf(),
        ensures
            match result {
                Some((mark, values)) => {
                    let lines = split_lines(self.text());
                    &&& mark == first_index(lines, delimiter())
                    &&& mark < lines.len()
                    &&& forall|k: int| 0 <= k < mark ==> node_text(#[trigger] lines[k]) is Some
                    &&& values@.len() == mark
                },
                None => parse_tgf(self.text()) == Err::<TgfDocument, TgfParseError>(
                    TgfParseError::WrongNodeValue,
                ),
            },
    {
        let ghost lines = split_lines(self.input@);
        let mut values: Vec<Option<N>> = Vec::new();
        let mut k: usize = 0;
        while k < self.lines.len()
            invariant
                self.wf(),
                lines == split_lines(self.input@),
                k <= self.lines@.len(),
                forall|j: int| 0 <= j < k ==> lines[j] != delimiter(),
                forall|j: int| 0 <= j < k ==> node_text(#[trigger] lines[j]) is Some,
                values@.len() == k,
            decreases self.lines@.len() - k,
        {
            let line = line_at(self.input.as_slice(), self.lines[k]);
            if is_delimiter(line) {
                proof {
                    lemma_first_index_is(lines, delimiter(), k as int);
                }
                return Some((k, values));
            }
            match Self::parse_node(line) {
                Ok(value) => {
                    values.push(value);
                },
                Err(_) => {
                    proof {
                        lemma_first_index(lines, delimiter());
                        let mark = first_index(lines, delimiter());
                        if mark < k {
                            assert(lines[mark] == delimiter());
                        }
                        if mark < lines.len() {
                            assert(node_text(lines[k as int]) is None);
                        }
                    }
                    return None;
                },
            }
            k += 1;
        }
        proof {
            lemma_first_index_is(lines, delimiter(), k as int);
        }
        None
    }

    /// The delimiter line was found with the nodes: nothing is left to read
    /// of it.
    fn parse_delimiter(&self) -> (result: Result<(), TgfParseError>)
        ensures
            result is Ok,
    {
        Ok(())
    }

    /// Reads the lines after line `mark` as edges and returns their indices,
    /// counted from 0, with what `FromStr` made of the weight of each:
    /// nothing where one of the lines is no edge line.
    fn parse_edges(&self, mark: usize) -> (result: Option<Vec<(usize, usize, Option<T>)>>)
        requires
            self.wf(),
            mark < split_lines(self.text()).len(),
        ensures
            match result {
                Some(edges) => {
                    let lines = split_lines(self.text());
                    &&& edges@.len() == lines.len() - mark - 1
                    &&& forall|k: int|
                        mark < k < lines.len() ==> edge_parts(#[trigger] lines[k]) is Some
                    &&& forall|j: int|
                        0 <= j < edges@.len() ==> names(
                            lines[mark + 1 + j],
                            #[trigger] edges@[j],
                        )
                },
                None => exists|k: int|
                    mark < k < split_lines(self.text()).len() && edge_parts(
                        #[trigger] split_lines(self.text())[k],
                    ) is None,
            },
    {
        let ghost lines = split_lines(self.input@);
        assert(self.lines.len() == lines.len());
        let mut edges: Vec<(usize, usize, Option<T>)> = Vec::new();
        let mut k: usize = mark + 1;
        while k < self.lines.len()
            invariant
                self.wf(),
                lines == split_lines(self.input@),
                mark < k <= self.lines@.len(),
                edges@.len() == k - mark - 1,
                forall|j: int| mark < j < k ==> edge_parts(#[trigger] lines[j]) is Some,
                forall|j: int|
                    0 <= j < edges@.len() ==> names(lines[mark + 1 + j], #[trigger] edges@[j]),
            decreases self.lines@.len() - k,
        {
            let line = line_at(self.input.as_slice(), self.lines[k]);
            match Self::parse_edge(line) {
                Ok(edge) => {
                    edges.push(edge);
                },
                Err(_) => {
                    assert(edge_parts(lines[k as int]) is None);
                    return None;
                },
            }
            k += 1;
        }
        Some(edges)
    }

    /// Reads the value of a node line: what `FromStr` makes of it, or
    /// a wrong node value where the line holds no space.
    fn parse_node(line: &[char]) -> (result: Result<Option<N>, TgfParseError>)
        ensures
            match result {
                Ok(_) => node_text(line@) is Some,
                Err(e) => e == TgfParseError::WrongNodeValue && node_text(line@) is None,
            },
    {
        match read_node_line(line) {
            Some(text) => Ok(parse_value::<N>(text.as_str())),
            None => Err(TgfParseError::WrongNodeValue),
        }
    }

    /// Reads the two indices of an edge line, counted from 0, and its
    /// weight, as `FromStr` makes it: a wrong edge value where the line is
    /// no edge line.
    fn parse_edge(line: &[char]) -> (result: Result<(usize, usize, Option<T>), TgfParseError>)
        ensures
            match result {
                Ok(edge) => names(line@, edge),
                Err(e) => e == TgfParseError::WrongEdgeValue && edge_parts(line@) is None,
            },
    {
        match read_edge_line(line) {
            Some((from, to, text)) => Ok((from, to, parse_value::<T>(text.as_str()))),
            None => Err(TgfParseError::WrongEdgeValue),
        }
    }
}

/// Reads a graph from text: what comes out is `reading` of the text with
/// what the values and the weights were read as.
pub fn de_tgf<N: MatrixGraphNode + FromStr, T: FromStr>(input: &str) -> (result: Result<
    MatrixGraph<N, T>,
    TgfParseError,
>)
    ensures
        exists|values: Seq<Option<N>>, weights: Seq<Option<T>>| #[trigger]
            is_reading(result, input@, values, weights),
        match result {
            Ok(graph) => graph.wf() && parse_tgf(input@) is Ok && reads_as(
                graph@,
                parse_tgf(input@)->Ok_0,
            ),
            Err(e) => e != TgfParseError::WrongFileFormat,
        },
        parse_tgf(input@) is Err ==> result is Err,
        parse_tgf(input@) == Err::<TgfDocument, TgfParseError>(TgfParseError::WrongNodeValue)
            ==> result == Err::<MatrixGraph<N, T>, TgfParseError>(TgfParseError::WrongNodeValue),
        result == Err::<MatrixGraph<N, T>, TgfParseError>(TgfParseError::WrongEdgeValue)
            ==> parse_tgf(input@) != Err::<TgfDocument, TgfParseError>(
            TgfParseError::WrongNodeValue,
        ),
        parse_tgf(input@) is Ok && parse_tgf(input@)->Ok_0.nodes.len() == 0 && parse_tgf(
            input@,
        )->Ok_0.edges.len() == 0 ==> result is Ok,
        first_index(split_lines(input@), delimiter()) == 0 && split_lines(input@).len() > 1
            ==> result == Err::<MatrixGraph<N, T>, TgfParseError>(
            TgfParseError::WrongEdgeValue,
        ),
        result == Err::<MatrixGraph<N, T>, TgfParseError>(TgfParseError::WrongEdgeValue)
            ==> split_lines(input@).len() > first_index(split_lines(input@), delimiter()) + 1,
{
    TgfParser::new(input).parse()
}

} // verus!
