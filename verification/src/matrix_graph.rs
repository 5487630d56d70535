//! The graph container: a node arena with an adjacency matrix over its
//! indices.
use crate::node_storage::{ArenaModel, NodeStorage};
use crate::text::{decimal, push_decimal, push_text, string_from_chars};
use crate::traversable::BfsIterable;
use crate::types::{Adjacency, AdjacencyMatrix, Gettable, MatrixGraphNode, Neighbors};
use vstd::prelude::*;

verus! {

/// How far `c` is below `need`.
pub open spec fn shortfall(c: nat, need: nat) -> nat {
    if c < need {
        (need - c) as nat
    } else {
        0
    }
}

/// `c` doubled until it reaches `need`.
pub open spec fn doubled_until(c: nat, need: nat) -> nat
    decreases shortfall(c, need),
{
    if c == 0 || c >= need {
        c
    } else {
        doubled_until(c + c, need)
    }
}

/// The smallest power of two that is at least `n`.
pub open spec fn next_power_of_two(n: nat) -> nat {
    doubled_until(1, n)
}

/// `n` is 1 doubled some number of times.
pub open spec fn is_power_of_two(n: nat) -> bool
    decreases n,
{
    n == 1 || (n >= 2 && n % 2 == 0 && is_power_of_two(n / 2))
}

/// The side length that the matrix is grown to when it must hold index `p`:
/// the smallest power of two that is at least 4 and above `p`, or the largest
/// `usize` where that power does not fit.
pub open spec fn grown_capacity(p: nat) -> nat {
    let side = next_power_of_two(
        if p + 1 > 4 {
            p + 1
        } else {
            4
        },
    );
    if side <= usize::MAX {
        side
    } else {
        usize::MAX as nat
    }
}

/// Doubling a power of two up to `need` ends at a power of two that is at
/// least `need` and less than twice `need`.
pub proof fn lemma_doubled_until(c: nat, need: nat)
    requires
        is_power_of_two(c),
    ensures
        is_power_of_two(doubled_until(c, need)),
        doubled_until(c, need) >= c,
        doubled_until(c, need) >= need,
        c < need ==> doubled_until(c, need) < 2 * need,
    decreases shortfall(c, need),
{
    if c >= need {
    } else {
        assert(is_power_of_two(c + c)) by {
            assert((c + c) / 2 == c);
        }
        lemma_doubled_until(c + c, need);
    }
}

/// `next_power_of_two(n)` is the one power of two in `[n, 2n)`, for `n > 0`.
pub proof fn lemma_next_power_of_two(n: nat)
    ensures
        is_power_of_two(next_power_of_two(n)),
        next_power_of_two(n) >= n,
        n >= 1 ==> next_power_of_two(n) < 2 * n,
{
    lemma_doubled_until(1, n);
}

/// A grown matrix holds the index that it was grown for.
pub proof fn lemma_grown_capacity(p: nat)
    requires
        p < usize::MAX,
    ensures
        p < grown_capacity(p) <= usize::MAX,
        grown_capacity(p) >= 4,
{
    let need: nat = if p + 1 > 4 {
        p + 1
    } else {
        4
    };
    lemma_next_power_of_two(need);
}

/// The side length for a matrix that must hold index `p`.
pub fn required_capacity(p: usize) -> (side: usize)
    ensures
        side == grown_capacity(p as nat),
        side > p || side == usize::MAX,
{
    if p == usize::MAX {
        proof {
            lemma_next_power_of_two((p + 1) as nat);
        }
        return usize::MAX;
    }
    let need: usize = if p + 1 > 4 {
        p + 1
    } else {
        4
    };
    let mut side: usize = 1;
    while side < need
        invariant
            is_power_of_two(side as nat),
            side >= 1,
            need as nat == (if p + 1 > 4 {
                (p + 1) as nat
            } else {
                4
            }),
            doubled_until(side as nat, need as nat) == next_power_of_two(need as nat),
        decreases shortfall(side as nat, need as nat),
    {
        if side > usize::MAX / 2 {
            proof {
                assert(is_power_of_two((2 * side) as nat)) by {
                    assert((2 * side) / 2 == side);
                }
                lemma_doubled_until((2 * side) as nat, need as nat);
                assert(doubled_until(side as nat, need as nat) == doubled_until(
                    (2 * side) as nat,
                    need as nat,
                ));
                assert(usize::MAX == 0xffff_ffff || usize::MAX == 0xffff_ffff_ffff_ffff);
                assert(2 * side > usize::MAX);
            }
            return usize::MAX;
        }
        proof {
            assert(is_power_of_two((2 * side) as nat)) by {
                assert((2 * side) / 2 == side);
            }
        }
        side = 2 * side;
    }
    side
}

/// The mathematical content of a graph: its nodes, the weights of its
/// edges by (from, to), and the side length of its matrix.
pub struct GraphModel<N, T> {
    pub nodes: ArenaModel<N>,
    pub cells: Map<(int, int), T>,
    pub capacity: nat,
}

impl<N, T> GraphModel<N, T> {
    /// The graph without nodes, with a matrix of one cell.
    pub open spec fn empty() -> Self {
        GraphModel { nodes: ArenaModel::empty(), cells: Map::empty(), capacity: 1 }
    }

    /// The nodes are valid, the edges are finitely many, and each joins two
    /// live nodes whose indices the matrix holds.
    pub open spec fn links_wf(self) -> bool {
        &&& self.nodes.wf()
        &&& self.nodes.slots.len() <= usize::MAX
        &&& self.cells.dom().finite()
        &&& forall|from: int, to: int| #[trigger]
            self.cells.contains_key((from, to)) ==> self.nodes.is_live(from) && self.nodes.is_live(
                to,
            ) && from < self.capacity && to < self.capacity
    }

    /// The graph is valid: its nodes and edges are, and the matrix has a
    /// row and a column for every slot of the arena.
    pub open spec fn wf(self) -> bool {
        &&& self.links_wf()
        &&& self.capacity >= self.nodes.slots.len()
    }

    /// The weight of the edge from `from` to `to`, if there is one.
    pub open spec fn edge(self, from: int, to: int) -> Option<T> {
        if self.cells.contains_key((from, to)) {
            Some(self.cells[(from, to)])
        } else {
            None
        }
    }

    /// The number of nodes.
    pub open spec fn node_count(self) -> nat {
        self.nodes.len()
    }

    /// The number of edges.
    pub open spec fn edge_count(self) -> nat {
        self.cells.dom().len()
    }

    /// The graph after `x` was stored as a node: the matrix is grown where
    /// it does not hold the index of the node.
    pub open spec fn add_node(self, x: N) -> Self {
        GraphModel {
            nodes: self.nodes.add(x),
            cells: self.cells,
            capacity: self.capacity_for(self.nodes.next_index(), self.nodes.next_index()),
        }
    }

    /// The cells in row `i` or in column `i`.
    pub open spec fn touching(self, i: int) -> Set<(int, int)> {
        self.cells.dom().filter(|cell: (int, int)| cell.0 == i || cell.1 == i)
    }

    /// The cells in row `i` or in column `i` whose other index is below
    /// `bound`.
    pub open spec fn touching_below(self, i: int, bound: int) -> Set<(int, int)> {
        self.cells.dom().filter(
            |cell: (int, int)| (cell.0 == i && cell.1 < bound) || (cell.1 == i && cell.0 < bound),
        )
    }

    /// The graph after node `i` left it, with every edge from it or to it.
    pub open spec fn remove_node(self, i: int) -> Self {
        GraphModel {
            nodes: self.nodes.remove(i),
            cells: self.cells.remove_keys(self.touching(i)),
            capacity: self.capacity,
        }
    }

    /// The side length after the matrix was made to hold `from` and `to`.
    pub open spec fn capacity_for(self, from: int, to: int) -> nat {
        let p = if from >= to {
            from
        } else {
            to
        };
        if p < self.capacity {
            self.capacity
        } else {
            grown_capacity(p as nat)
        }
    }

    /// The graph after an edge from `from` to `to` was set to `weight`.
    pub open spec fn add_edge(self, from: int, to: int, weight: T) -> Self {
        GraphModel {
            nodes: self.nodes,
            cells: self.cells.insert((from, to), weight),
            capacity: self.capacity_for(from, to),
        }
    }

    /// The graph after the edge from `from` to `to` was cleared.
    pub open spec fn remove_edge(self, from: int, to: int) -> Self {
        GraphModel { cells: self.cells.remove((from, to)), ..self }
    }

    /// The targets of the edges that leave `from`, from index `start` on,
    /// in ascending order.
    pub open spec fn targets_from(self, from: int, start: int) -> Seq<int>
        decreases self.capacity - start,
    {
        if start >= self.capacity {
            Seq::empty()
        } else if self.cells.contains_key((from, start)) {
            seq![start] + self.targets_from(from, start + 1)
        } else {
            self.targets_from(from, start + 1)
        }
    }

    /// The targets of the edges that leave `from`, in ascending order.
    pub open spec fn neighbors(self, from: int) -> Seq<int> {
        self.targets_from(from, 0)
    }

    /// The list `targets_from(from, start)` holds, in strictly ascending
    /// order, the indices from `start` on that `from` has an edge to.
    pub proof fn lemma_targets_from(self, from: int, start: int)
        requires
            0 <= start,
        ensures
            forall|k: int|
                0 <= k < self.targets_from(from, start).len() ==> start
                    <= #[trigger] self.targets_from(from, start)[k] < self.capacity
                    && self.cells.contains_key((from, self.targets_from(from, start)[k])),
            forall|j: int, k: int|
                0 <= j < k < self.targets_from(from, start).len() ==> self.targets_from(
                    from,
                    start,
                )[j] < self.targets_from(from, start)[k],
            forall|to: int|
                start <= to < self.capacity && self.cells.contains_key((from, to))
                    ==> self.targets_from(from, start).contains(to),
        decreases self.capacity - start,
    {
        if start < self.capacity {
            self.lemma_targets_from(from, start + 1);
            let rest = self.targets_from(from, start + 1);
            let all = self.targets_from(from, start);
            if self.cells.contains_key((from, start)) {
                assert(all[0] == start);
                assert forall|k: int| 1 <= k < all.len() implies all[k] == rest[k - 1] by {}
                assert forall|to: int|
                    start <= to < self.capacity && self.cells.contains_key(
                        (from, to),
                    ) implies all.contains(to) by {
                    if to > start {
                        assert(rest.contains(to));
                        let k = choose|k: int| 0 <= k < rest.len() && rest[k] == to;
                        assert(all[k + 1] == to);
                    }
                }
            }
        }
    }
}

/// The matrix only grows: making it hold two indices leaves it at least as
/// large as it was, and large enough for both.
pub proof fn lemma_capacity_only_grows<N, T>(graph: GraphModel<N, T>, from: int, to: int)
    requires
        0 <= from < usize::MAX,
        0 <= to < usize::MAX,
    ensures
        graph.capacity_for(from, to) >= graph.capacity,
        graph.capacity_for(from, to) > from,
        graph.capacity_for(from, to) > to,
{
    lemma_grown_capacity(from as nat);
    lemma_grown_capacity(to as nat);
}

/// Removing a node clears every cell in its row and in its column and
/// leaves every other cell as it was; the number of edges goes down by the
/// number of cells that were cleared.
pub proof fn lemma_remove_node<N, T>(graph: GraphModel<N, T>, i: int)
    requires
        graph.wf(),
    ensures
        graph.remove_node(i).wf(),
        forall|from: int, to: int|
            from == i || to == i ==> graph.remove_node(i).edge(from, to) is None,
        forall|from: int, to: int|
            from != i && to != i ==> graph.remove_node(i).edge(from, to) == graph.edge(from, to),
        graph.touching(i).finite(),
        graph.remove_node(i).edge_count() == graph.edge_count() - graph.touching(i).len(),
        !graph.nodes.is_live(i) ==> graph.remove_node(i) == graph,
{
    let after = graph.remove_node(i);
    let gone = graph.touching(i);
    graph.nodes.lemma_remove_wf(i);
    assert(after.cells.dom() =~= graph.cells.dom().difference(gone));
    assert(graph.cells.dom().intersect(gone) =~= gone);
    vstd::set_lib::lemma_set_difference_len(graph.cells.dom(), gone);
    assert forall|from: int, to: int| #[trigger]
        after.cells.contains_key((from, to)) implies after.nodes.is_live(from)
        && after.nodes.is_live(to) by {
        assert(graph.cells.contains_key((from, to)));
        assert(!gone.contains((from, to)));
        assert(after.nodes.get(from) == graph.nodes.get(from));
        assert(after.nodes.get(to) == graph.nodes.get(to));
    }
    if !graph.nodes.is_live(i) {
        assert(gone =~= Set::<(int, int)>::empty()) by {
            assert forall|cell: (int, int)| !gone.contains(cell) by {
                if gone.contains(cell) {
                    assert(graph.cells.contains_key((cell.0, cell.1)));
                }
            }
        }
        assert(after.cells =~= graph.cells);
    }
}

/// The content of cell (`row`, `col`) of `matrix`: nothing outside it.
pub open spec fn cell_of<T>(matrix: Seq<Vec<Option<T>>>, row: int, col: int) -> Option<T> {
    if 0 <= row < matrix.len() && 0 <= col < matrix[row]@.len() {
        matrix[row]@[col]
    } else {
        None
    }
}

/// Every row of `matrix` is as long as the matrix has rows.
pub open spec fn is_square<T>(matrix: Seq<Vec<Option<T>>>) -> bool {
    forall|row: int| 0 <= row < matrix.len() ==> (#[trigger] matrix[row])@.len() == matrix.len()
}

/// A row of `side` empty cells.
fn empty_row<T>(side: usize) -> (row: Vec<Option<T>>)
    ensures
        row@.len() == side,
        forall|col: int| 0 <= col < side ==> (#[trigger] row@[col]) is None,
{
    let mut row: Vec<Option<T>> = Vec::new();
    while row.len() < side
        invariant
            row@.len() <= side,
            forall|col: int| 0 <= col < row@.len() ==> (#[trigger] row@[col]) is None,
        decreases side - row@.len(),
    {
        row.push(None);
    }
    row
}

/// Lengthens `row` to `side` cells; the new ones are empty.
fn widen_row<T>(row: &mut Vec<Option<T>>, side: usize)
    requires
        old(row)@.len() <= side,
    ensures
        final(row)@.len() == side,
        forall|col: int| 0 <= col < old(row)@.len() ==> final(row)@[col] == old(row)@[col],
        forall|col: int| old(row)@.len() <= col < side ==> (#[trigger] final(row)@[col]) is None,
{
    while row.len() < side
        invariant
            old(row)@.len() <= row@.len() <= side,
            forall|col: int| 0 <= col < old(row)@.len() ==> row@[col] == old(row)@[col],
            forall|col: int| old(row)@.len() <= col < row@.len() ==> (#[trigger] row@[col]) is None,
        decreases side - row@.len(),
    {
        row.push(None);
    }
}

/// Grows a square matrix to `side` rows of `side` cells; what it held stays
/// where it was, and the new cells are empty.
fn grow_matrix<T>(matrix: &mut Vec<Vec<Option<T>>>, side: usize)
    requires
        is_square(old(matrix)@),
        old(matrix)@.len() <= side,
    ensures
        is_square(final(matrix)@),
        final(matrix)@.len() == side,
        forall|row: int, col: int|
            cell_of(final(matrix)@, row, col) == cell_of(old(matrix)@, row, col),
{
    let before = matrix.len();
    let mut r: usize = 0;
    while r < before
        invariant
            r <= before,
            before == old(matrix)@.len(),
            before <= side,
            matrix@.len() == before,
            forall|row: int| 0 <= row < r ==> (#[trigger] matrix@[row])@.len() == side,
            forall|row: int| r <= row < before ==> matrix@[row] == old(matrix)@[row],
            is_square(old(matrix)@),
            forall|row: int, col: int|
                cell_of(matrix@, row, col) == cell_of(old(matrix)@, row, col),
        decreases before - r,
    {
        let ghost prev = matrix@;
        widen_row(&mut matrix[r], side);
        proof {
            assert forall|row: int, col: int| cell_of(matrix@, row, col) == cell_of(
                old(matrix)@,
                row,
                col,
            ) by {
                assert(cell_of(prev, row, col) == cell_of(old(matrix)@, row, col));
                if row == r {
                } else if 0 <= row < before {
                    assert(matrix@[row] == prev[row]);
                }
            }
        }
        r += 1;
    }
    while matrix.len() < side
        invariant
            before <= matrix@.len() <= side,
            before == old(matrix)@.len(),
            forall|row: int| 0 <= row < matrix@.len() ==> (#[trigger] matrix@[row])@.len() == side,
            forall|row: int, col: int|
                cell_of(matrix@, row, col) == cell_of(old(matrix)@, row, col),
        decreases side - matrix@.len(),
    {
        let ghost prev = matrix@;
        let row = empty_row(side);
        matrix.push(row);
        proof {
            assert forall|row: int, col: int| cell_of(matrix@, row, col) == cell_of(
                old(matrix)@,
                row,
                col,
            ) by {
                assert(cell_of(prev, row, col) == cell_of(old(matrix)@, row, col));
                if 0 <= row < prev.len() {
                    assert(matrix@[row] == prev[row]);
                }
            }
        }
    }
}

/// Puts `value` in cell (`row`, `col`) and returns what the cell held.
fn replace_cell<T>(
    matrix: &mut Vec<Vec<Option<T>>>,
    row: usize,
    col: usize,
    value: Option<T>,
) -> (previous: Option<T>)
    requires
        is_square(old(matrix)@),
        row < old(matrix)@.len(),
        col < old(matrix)@.len(),
    ensures
        is_square(final(matrix)@),
        final(matrix)@.len() == old(matrix)@.len(),
        previous == cell_of(old(matrix)@, row as int, col as int),
        cell_of(final(matrix)@, row as int, col as int) == value,
        forall|r: int, c: int|
            (r, c) != (row as int, col as int) ==> cell_of(final(matrix)@, r, c) == cell_of(
                old(matrix)@,
                r,
                c,
            ),
{
    let mut held = value;
    std::mem::swap(&mut matrix[row][col], &mut held);
    proof {
        assert forall|r: int| 0 <= r < matrix@.len() implies (#[trigger] matrix@[r])@.len()
            == matrix@.len() by {
            assert(old(matrix)@[r]@.len() == old(matrix)@.len());
        }
    }
    held
}

/// The columns from `start` on at which `row` holds something, in ascending
/// order.
pub open spec fn occupied_from<T>(row: Seq<Option<T>>, start: int) -> Seq<int>
    decreases row.len() - start,
{
    if start >= row.len() {
        Seq::empty()
    } else if row[start] is Some {
        seq![start] + occupied_from(row, start + 1)
    } else {
        occupied_from(row, start + 1)
    }
}

/// Why a graph refuses a node or an edge.
#[derive(Debug, PartialEq, Eq, Clone, Copy, Structural)]
pub enum GraphFault {
    /// The graph holds an equal node already.
    DuplicateNode,
    /// An edge names an index at which the graph has no node.
    MissingNode(usize),
    /// The graph has an edge from the first index to the second already.
    EdgeExists(usize, usize),
}

impl GraphFault {
    /// What the fault says to a reader.
    pub open spec fn text(self) -> Seq<char> {
        match self {
            GraphFault::DuplicateNode => "Nodes should be unique."@,
            GraphFault::MissingNode(index) => "Can't add edge for not existing node with index "@
                + decimal(index as nat),
            GraphFault::EdgeExists(from, to) => "Edge from "@ + decimal(from as nat) + " to "@
                + decimal(to as nat) + " already exists"@,
        }
    }

    /// What the fault says to a reader.
    pub fn message(&self) -> (text: String)
        ensures
            text@ == self.text(),
    {
        let mut chars: Vec<char> = Vec::new();
        match self {
            GraphFault::DuplicateNode => {
                push_text(&mut chars, "Nodes should be unique.");
            },
            GraphFault::MissingNode(index) => {
                push_text(&mut chars, "Can't add edge for not existing node with index ");
                push_decimal(&mut chars, *index as u128);
            },
            GraphFault::EdgeExists(from, to) => {
                push_text(&mut chars, "Edge from ");
                push_decimal(&mut chars, *from as u128);
                push_text(&mut chars, " to ");
                push_decimal(&mut chars, *to as u128);
                push_text(&mut chars, " already exists");
            },
        }
        assert(chars@ =~= self.text());
        string_from_chars(chars.as_slice())
    }
}

impl<N, T> GraphModel<N, T> {
    /// Why an edge from `from` to `to` cannot be added: the larger index
    /// where it is no node, else the smaller one where that is none, else
    /// the edge itself where the graph has it.
    pub open spec fn edge_fault(self, from: usize, to: usize) -> Option<GraphFault> {
        let (high, low) = if from >= to {
            (from, to)
        } else {
            (to, from)
        };
        if !self.nodes.is_live(high as int) {
            Some(GraphFault::MissingNode(high))
        } else if !self.nodes.is_live(low as int) {
            Some(GraphFault::MissingNode(low))
        } else if self.edge(from as int, to as int) is Some {
            Some(GraphFault::EdgeExists(from, to))
        } else {
            None
        }
    }
}

/// An edge is refused exactly where the graph has it or one of its ends is
/// no node. Where the graph has the edge, the fault names it; where the
/// larger of the two indices is no node, the fault names that index, and
/// what it says ends in the decimal digits of the index.
pub proof fn lemma_add_edge_faults<N, T>(graph: GraphModel<N, T>, from: usize, to: usize)
    ensures
        graph.edge_fault(from, to) is None <==> graph.nodes.is_live(from as int)
            && graph.nodes.is_live(to as int) && graph.edge(from as int, to as int) is None,
        graph.nodes.is_live(from as int) && graph.nodes.is_live(to as int) && graph.edge(
            from as int,
            to as int,
        ) is Some ==> graph.edge_fault(from, to) == Some(GraphFault::EdgeExists(from, to)),
        GraphFault::EdgeExists(from, to).text() == "Edge from "@ + decimal(from as nat) + " to "@
            + decimal(to as nat) + " already exists"@,
        ({
            let high = if from >= to {
                from
            } else {
                to
            };
            !graph.nodes.is_live(high as int) ==> graph.edge_fault(from, to) == Some(
                GraphFault::MissingNode(high),
            ) && GraphFault::MissingNode(high).text()
                == "Can't add edge for not existing node with index "@ + decimal(high as nat)
        }),
{
}

/// Graph representation with adjacency matrix.
///
/// Note: it is meant for dense graphs.
pub struct MatrixGraph<N: MatrixGraphNode, T> {
    nodes: NodeStorage<N>,
    adjacency: Vec<Vec<Option<T>>>,
    edge_count: usize,
}

impl<N: MatrixGraphNode, T> View for MatrixGraph<N, T> {
    type V = GraphModel<N, T>;

    closed spec fn view(&self) -> GraphModel<N, T> {
        GraphModel {
            nodes: self.nodes@,
            cells: Map::new(
                |cell: (int, int)| cell_of(self.adjacency@, cell.0, cell.1) is Some,
                |cell: (int, int)| cell_of(self.adjacency@, cell.0, cell.1)->0,
            ),
            capacity: self.adjacency@.len(),
        }
    }
}

impl<N: MatrixGraphNode, T> MatrixGraph<N, T> {
    /// The matrix is square, and the edge counter is the number of edges.
    pub closed spec fn matrix_wf(&self) -> bool {
        &&& self.nodes.index_wf()
        &&& self.adjacency@.len() >= 1
        &&& is_square(self.adjacency@)
        &&& self.edge_count == self@.cells.dom().len()
    }

    /// The graph is valid: its content is, and its matrix agrees with it.
    pub open spec fn wf(&self) -> bool {
        &&& self@.wf()
        &&& self.matrix_wf()
    }

    /// The graph is valid but for the side length of its matrix, which may
    /// be behind the number of slots.
    pub open spec fn wf_before_growth(&self) -> bool {
        &&& self@.links_wf()
        &&& self.matrix_wf()
    }

    /// A graph without nodes.
    pub fn new() -> (graph: Self)
        ensures
            graph.wf(),
            graph@ == GraphModel::<N, T>::empty(),
    {
        let mut row: Vec<Option<T>> = Vec::new();
        row.push(None);
        let mut adjacency: Vec<Vec<Option<T>>> = Vec::new();
        adjacency.push(row);
        let graph = MatrixGraph { nodes: NodeStorage::new(), adjacency, edge_count: 0 };
        assert(graph@.cells =~= Map::<(int, int), T>::empty());
        graph
    }

    /// Returns count of nodes.
    pub fn node_count(&self) -> (count: usize)
        requires
            self.wf(),
        ensures
            count == self@.node_count(),
    {
        self.nodes.len()
    }

    /// Returns count of edges.
    pub fn edge_count(&self) -> (count: usize)
        requires
            self.wf(),
        ensures
            count == self@.edge_count(),
    {
        self.edge_count
    }

    /// The number of slots for nodes, live or empty: every index of a node
    /// is below it.
    pub fn slot_count(&self) -> (count: usize)
        ensures
            count == self@.nodes.slots.len(),
    {
        self.nodes.slot_count()
    }

    /// The side length of the matrix: it never shrinks.
    pub fn capacity(&self) -> (side: usize)
        ensures
            side == self@.capacity,
    {
        self.adjacency.len()
    }

    /// Checks if node exists in graph.
    pub fn contains_node(&self, node: &N) -> (held: bool)
        requires
            self.wf(),
        ensures
            held == self@.nodes.contains(*node),
    {
        self.nodes.contains(node)
    }

    /// Returns index of node or None if not found.
    pub fn get_index_of(&self, node: &N) -> (found: Option<usize>)
        requires
            self.wf(),
        ensures
            match found {
                Some(i) => self@.nodes.index_of(*node) == Some(i as int),
                None => self@.nodes.index_of(*node) is None,
            },
            found is Some ==> self@.nodes.is_live(found->0 as int)
                && self@.nodes.slots[found->0 as int] == Some(*node),
    {
        self.nodes.get_index_of(node)
    }

    /// Checks if edge between two nodes exists.
    pub fn contains_edge(&self, from: usize, to: usize) -> (held: bool)
        requires
            self.wf(),
        ensures
            held == self@.edge(from as int, to as int).is_some(),
    {
        if from >= self.adjacency.len() || to >= self.adjacency.len() {
            return false;
        }
        self.adjacency[from][to].is_some()
    }

    /// The node with index `node_idx`, if there is one.
    pub fn get_node_by_index(&self, node_idx: usize) -> (node: Option<&N>)
        ensures
            match node {
                Some(held) => self@.nodes.get(node_idx as int) == Some(*held),
                None => self@.nodes.get(node_idx as int) is None,
            },
    {
        self.nodes.get_checked(node_idx)
    }

    /// The weight of the edge from `from` to `to`, if there is one.
    pub fn get_edge_by_index(&self, from: usize, to: usize) -> (weight: Option<&T>)
        requires
            self.wf(),
        ensures
            match weight {
                Some(w) => self@.edge(from as int, to as int) == Some(*w),
                None => self@.edge(from as int, to as int) is None,
            },
    {
        if from >= self.adjacency.len() || to >= self.adjacency.len() {
            return None;
        }
        self.adjacency[from][to].as_ref()
    }

    /// Adds new node in graph and returns its index. The graph must not
    /// hold an equal node already.
    pub fn add_node(&mut self, node: N) -> (idx: usize)
        requires
            old(self).wf(),
            !old(self)@.nodes.contains(node),
        ensures
            final(self).wf(),
            final(self)@ == old(self)@.add_node(node),
            idx == old(self)@.nodes.next_index(),
            final(self)@.capacity >= old(self)@.capacity,
    {
        proof {
            self@.nodes.lemma_add_wf(node);
        }
        let idx = self.nodes.add(node);
        proof {
            self.nodes.lemma_slots_fit();
            assert(self@.cells =~= old(self)@.cells);
            assert forall|from: int, to: int| #[trigger]
                self@.cells.contains_key((from, to)) implies self@.nodes.is_live(from)
                && self@.nodes.is_live(to) by {
                assert(old(self)@.cells.contains_key((from, to)));
                assert(old(self)@.nodes.get(from) is Some);
                assert(old(self)@.nodes.get(to) is Some);
                assert(self@.nodes.get(from) == old(self)@.nodes.get(from));
                assert(self@.nodes.get(to) == old(self)@.nodes.get(to));
            }
            lemma_grown_capacity(idx as nat);
        }
        self.extend_capacity_if_needed(idx, idx);
        idx
    }

    /// Grows the matrix, where it does not hold `from` and `to`, to the
    /// side length that the larger of them asks for.
    fn extend_capacity_if_needed(&mut self, from: usize, to: usize)
        requires
            old(self).wf_before_growth(),
        ensures
            final(self).wf_before_growth(),
            final(self)@.capacity >= old(self)@.capacity,
            final(self)@.nodes == old(self)@.nodes,
            final(self)@.cells == old(self)@.cells,
            final(self)@.capacity == old(self)@.capacity_for(from as int, to as int),
    {
        let p = if from >= to {
            from
        } else {
            to
        };
        if p < self.adjacency.len() {
            return ;
        }
        let side = required_capacity(p);
        grow_matrix(&mut self.adjacency, side);
        assert(self@.cells =~= old(self)@.cells);
    }

    /// Sets the edge from `from` to `to` and returns the weight that it had.
    fn update_edge(&mut self, from: usize, to: usize, weight: T) -> (previous: Option<T>)
        requires
            old(self).wf(),
            old(self)@.nodes.is_live(from as int),
            old(self)@.nodes.is_live(to as int),
            old(self)@.edge(from as int, to as int) is Some || old(self)@.edge_count()
                < usize::MAX,
        ensures
            final(self).wf(),
            final(self)@ == old(self)@.add_edge(from as int, to as int, weight),
            previous == old(self)@.edge(from as int, to as int),
    {
        proof {
            lemma_grown_capacity(from as nat);
            lemma_grown_capacity(to as nat);
        }
        self.extend_capacity_if_needed(from, to);
        let ghost grown = self@;
        let previous = replace_cell(&mut self.adjacency, from, to, Some(weight));
        proof {
            assert(self@.cells =~= grown.cells.insert((from as int, to as int), weight));
            assert(self@.cells.dom() =~= grown.cells.dom().insert((from as int, to as int)));
        }
        if previous.is_none() {
            self.edge_count += 1;
        }
        previous
    }

    /// Adds edge between two nodes, which must both be in the graph and not
    /// yet have an edge in this direction.
    pub fn add_edge(&mut self, from: usize, to: usize, weight: T)
        requires
            old(self).wf(),
            old(self)@.nodes.is_live(from as int),
            old(self)@.nodes.is_live(to as int),
            old(self)@.edge(from as int, to as int) is None,
            old(self)@.edge_count() < usize::MAX,
        ensures
            final(self).wf(),
            final(self)@ == old(self)@.add_edge(from as int, to as int, weight),
            final(self)@.capacity == old(self)@.capacity,
            final(self)@.edge_count() == old(self)@.edge_count() + 1,
    {
        let _ = self.update_edge(from, to, weight);
    }

    /// Adds a node unless the graph holds an equal one.
    pub fn try_add_node(&mut self, node: N) -> (result: Result<usize, GraphFault>)
        requires
            old(self).wf(),
        ensures
            final(self).wf(),
            match result {
                Ok(idx) => !old(self)@.nodes.contains(node) && idx == old(
                    self,
                )@.nodes.next_index() && final(self)@ == old(self)@.add_node(node),
                Err(fault) => old(self)@.nodes.contains(node) && fault == GraphFault::DuplicateNode
                    && final(self)@ == old(self)@,
            },
    {
        if self.contains_node(&node) {
            Err(GraphFault::DuplicateNode)
        } else {
            Ok(self.add_node(node))
        }
    }

    /// Adds an edge unless one of its ends is no node or the graph has the
    /// edge already; the fault names the index, or the edge.
    pub fn try_add_edge(&mut self, from: usize, to: usize, weight: T) -> (result: Result<
        (),
        GraphFault,
    >)
        requires
            old(self).wf(),
            old(self)@.edge_count() < usize::MAX,
        ensures
            final(self).wf(),
            match result {
                Ok(()) => old(self)@.edge_fault(from, to) is None && final(self)@ == old(
                    self,
                )@.add_edge(from as int, to as int, weight),
                Err(fault) => old(self)@.edge_fault(from, to) == Some(fault) && final(self)@
                    == old(self)@,
            },
            result is Err ==> final(self)@.edge_count() == old(self)@.edge_count(),
            result is Err ==> final(self)@.capacity == old(self)@.capacity,
    {
        let (high, low) = if from >= to {
            (from, to)
        } else {
            (to, from)
        };
        if self.get_node_by_index(high).is_none() {
            return Err(GraphFault::MissingNode(high));
        }
        if self.get_node_by_index(low).is_none() {
            return Err(GraphFault::MissingNode(low));
        }
        if self.contains_edge(from, to) {
            return Err(GraphFault::EdgeExists(from, to));
        }
        self.add_edge(from, to, weight);
        Ok(())
    }

    /// Removes edge between two nodes and returns its weight; nothing
    /// happens when there is no such edge.
    pub fn remove_edge(&mut self, from_node: usize, to_node: usize) -> (weight: Option<T>)
        requires
            old(self).wf(),
        ensures
            final(self).wf(),
            final(self)@ == old(self)@.remove_edge(from_node as int, to_node as int),
            weight == old(self)@.edge(from_node as int, to_node as int),
    {
        if from_node >= self.adjacency.len() || to_node >= self.adjacency.len() {
            assert(self@.cells =~= old(self)@.cells.remove((from_node as int, to_node as int)));
            return None;
        }
        let previous = replace_cell(&mut self.adjacency, from_node, to_node, None);
        proof {
            assert(self@.cells =~= old(self)@.cells.remove((from_node as int, to_node as int)));
            assert(self@.cells.dom() =~= old(self)@.cells.dom().remove(
                (from_node as int, to_node as int),
            ));
        }
        if previous.is_some() {
            self.edge_count -= 1;
        }
        previous
    }

    /// Removes node and all edges for it.
    ///
    /// Returns removed node or None, if node not found.
    pub fn remove_node(&mut self, node_index: usize) -> (node: Option<N>)
        requires
            old(self).wf(),
        ensures
            final(self).wf(),
            final(self)@ == old(self)@.remove_node(node_index as int),
            node == old(self)@.nodes.get(node_index as int),
    {
        proof {
            lemma_remove_node(self@, node_index as int);
        }
        if self.nodes.get_checked(node_index).is_none() {
            return None;
        }
        let side = self.adjacency.len();
        let mut i: usize = 0;
        while i < side
            invariant
                i <= side,
                side == self@.capacity,
                old(self).wf(),
                self.wf(),
                self@.nodes == old(self)@.nodes,
                self@.capacity == old(self)@.capacity,
                self@.cells == old(self)@.cells.remove_keys(
                    old(self)@.touching_below(node_index as int, i as int),
                ),
            decreases side - i,
        {
            let ghost prev = self@;
            let _ = self.remove_edge(i, node_index);
            let _ = self.remove_edge(node_index, i);
            proof {
                assert(self@.cells =~= old(self)@.cells.remove_keys(
                    old(self)@.touching_below(node_index as int, i + 1),
                ));
            }
            i += 1;
        }
        proof {
            assert(old(self)@.touching_below(node_index as int, side as int) =~= old(
                self,
            )@.touching(node_index as int)) by {
                assert forall|cell: (int, int)|
                    old(self)@.touching(node_index as int).contains(cell) implies old(
                    self,
                )@.touching_below(node_index as int, side as int).contains(cell) by {
                    assert(old(self)@.cells.contains_key((cell.0, cell.1)));
                }
            }
        }
        let node = self.nodes.remove(node_index);
        proof {
            assert(self@.cells =~= old(self)@.remove_node(node_index as int).cells);
        }
        node
    }

    /// The occupied columns of a row of the matrix are the targets of the
    /// edges that leave its node.
    proof fn lemma_row_targets(&self, from: int, start: int)
        requires
            self.matrix_wf(),
            0 <= from < self.adjacency@.len(),
            0 <= start,
        ensures
            occupied_from(self.adjacency@[from]@, start) == self@.targets_from(from, start),
        decreases self.adjacency@.len() - start,
    {
        if start < self.adjacency@.len() {
            self.lemma_row_targets(from, start + 1);
            assert(cell_of(self.adjacency@, from, start) == self.adjacency@[from]@[start]);
        }
    }

    /// Returns iterator over nodes.
    pub fn node_iter(&self) -> (cursor: NodeIterator<'_, N>)
        ensures
            cursor.remaining() == self@.nodes.values(),
    {
        NodeIterator::new(&self.nodes)
    }

    /// A cursor over the edges that leave `node`, in ascending order of
    /// their targets. The index must be below the number of slots.
    pub fn neighbors(&self, node: usize) -> (cursor: MatrixGraphNeighborsIterator<'_, N, T>)
        requires
            self.wf(),
            node < self@.nodes.slots.len(),
        ensures
            cursor.wf(),
            cursor.remaining() == self@.neighbors(node as int),
            cursor.arena() == self@.nodes,
    {
        proof {
            self.lemma_row_targets(node as int, 0);
            assert forall|col: int|
                0 <= col < self.adjacency@[node as int]@.len() && (
                #[trigger] self.adjacency@[node as int]@[col]) is Some implies self@.nodes.is_live(
                col,
            ) by {
                assert(cell_of(self.adjacency@, node as int, col) is Some);
                assert(self@.cells.contains_key((node as int, col)));
            }
        }
        MatrixGraphNeighborsIterator {
            column: 0,
            nodes: &self.nodes,
            adjacency: &self.adjacency[node],
        }
    }
}

impl<N: MatrixGraphNode, T> Default for MatrixGraph<N, T> {
    fn default() -> (graph: Self)
        ensures
            graph.wf(),
            graph@ == GraphModel::<N, T>::empty(),
    {
        Self::new()
    }
}

/// A cursor over the live nodes of an arena, in ascending order of their
/// indices.
pub struct NodeIterator<'a, N: MatrixGraphNode> {
    nodes: &'a NodeStorage<N>,
    index: usize,
}

impl<'a, N: MatrixGraphNode> NodeIterator<'a, N> {
    /// The values that the cursor has yet to yield, in order.
    pub closed spec fn remaining(&self) -> Seq<N> {
        if self.index <= self.nodes@.slots.len() {
            crate::node_storage::live_values(self.nodes@.slots.skip(self.index as int))
        } else {
            Seq::empty()
        }
    }

    /// A cursor in front of the first slot of `nodes`.
    pub fn new(nodes: &'a NodeStorage<N>) -> (cursor: Self)
        ensures
            cursor.remaining() == nodes@.values(),
    {
        assert(nodes@.slots.skip(0) =~= nodes@.slots);
        Self { nodes, index: 0 }
    }

    /// Yields the next live node, or nothing when none is left.
    pub fn next(&mut self) -> (node: Option<&'a N>)
        ensures
            match node {
                Some(held) => old(self).remaining().len() > 0 && *held == old(self).remaining()[0]
                    && final(self).remaining() == old(self).remaining().drop_first(),
                None => old(self).remaining().len() == 0 && final(self).remaining().len() == 0,
            },
    {
        let nodes = self.nodes;
        while self.index < nodes.slot_count()
            invariant
                self.nodes == nodes,
                self.remaining() == old(self).remaining(),
            decreases nodes@.slots.len() - self.index,
        {
            let ghost rest = nodes@.slots.skip(self.index as int);
            assert(rest.drop_first() =~= nodes@.slots.skip(self.index + 1));
            assert(rest[0] == nodes@.slots[self.index as int]);
            self.index += 1;
            let node = nodes.get_checked(self.index - 1);
            if node.is_some() {
                assert(old(self).remaining().drop_first() =~= self.remaining());
                return node;
            }
        }
        None
    }
}

/// A cursor over the edges that leave one node: it yields the index of each
/// target with the node stored there, in ascending order of the indices.
pub struct MatrixGraphNeighborsIterator<'a, N: MatrixGraphNode, T> {
    column: usize,
    nodes: &'a NodeStorage<N>,
    adjacency: &'a Vec<Option<T>>,
}

impl<'a, N: MatrixGraphNode, T> MatrixGraphNeighborsIterator<'a, N, T> {
    /// The row that the cursor walks.
    pub closed spec fn row(&self) -> Seq<Option<T>> {
        self.adjacency@
    }

    /// The targets that the cursor has yet to yield, in order.
    pub closed spec fn remaining(&self) -> Seq<int> {
        occupied_from(self.row(), self.column as int)
    }

    /// The arena in which the cursor looks the targets up.
    pub closed spec fn arena(&self) -> ArenaModel<N> {
        self.nodes@
    }

    /// Every target in the row is a live node.
    pub closed spec fn wf(&self) -> bool {
        forall|col: int|
            0 <= col < self.row().len() && (#[trigger] self.row()[col]) is Some
                ==> self.nodes@.is_live(col)
    }

    /// Yields the next target with its node, or nothing when none is left.
    pub fn next(&mut self) -> (found: Option<(usize, &'a N)>)
        requires
            old(self).wf(),
        ensures
            final(self).wf(),
            final(self).arena() == old(self).arena(),
            match found {
                Some((col, node)) => old(self).remaining().len() > 0 && col == old(
                    self,
                ).remaining()[0] && old(self).arena().get(col as int) == Some(*node)
                    && final(self).remaining() == old(self).remaining().drop_first(),
                None => old(self).remaining().len() == 0 && final(self).remaining().len() == 0,
            },
    {
        let nodes = self.nodes;
        let row = self.adjacency;
        while self.column < row.len()
            invariant
                self.nodes == nodes,
                self.nodes == old(self).nodes,
                self.adjacency == row,
                self.wf(),
                self.remaining() == old(self).remaining(),
            decreases row@.len() - self.column,
        {
            let col = self.column;
            assert(self.row()[col as int] == row@[col as int]);
            self.column += 1;
            if row[col].is_some() {
                match nodes.get_checked(col) {
                    Some(node) => {
                        assert(old(self).remaining().drop_first() =~= self.remaining());
                        return Some((col, node));
                    },
                    None => {
                        assert(self.nodes@.is_live(col as int));
                    },
                }
            }
        }
        None
    }
}

impl<N: MatrixGraphNode, T> Gettable<N, T> for MatrixGraph<N, T> {
    open spec fn is_valid(&self) -> bool {
        self.wf()
    }

    open spec fn node_at(&self, idx: int) -> Option<N> {
        self@.nodes.get(idx)
    }

    open spec fn edge_at(&self, from: int, to: int) -> Option<T> {
        self@.edge(from, to)
    }

    fn get_node_by_index(&self, node_idx: usize) -> (node: Option<&N>) {
        MatrixGraph::get_node_by_index(self, node_idx)
    }

    fn get_edge_by_index(&self, from: usize, to: usize) -> (weight: Option<&T>) {
        MatrixGraph::get_edge_by_index(self, from, to)
    }
}

impl<N: MatrixGraphNode, T> Neighbors<N, T> for MatrixGraph<N, T> {
    open spec fn in_range(&self, node: int) -> bool {
        0 <= node < self@.nodes.slots.len()
    }

    open spec fn neighbor_indices(&self, node: int) -> Seq<int> {
        self@.neighbors(node)
    }

    proof fn lemma_nodes_in_range(&self, node: int) {
    }

    proof fn lemma_neighbors_are_nodes(&self, node: int, k: int) {
        self@.lemma_targets_from(node, 0);
        let to = self@.neighbors(node)[k];
        assert(self@.cells.contains_key((node, to)));
    }

    proof fn lemma_neighbors_are_edges(&self, node: int, to: int) {
        self@.lemma_targets_from(node, 0);
        if self@.neighbors(node).contains(to) {
            let k = choose|k: int|
                0 <= k < self@.neighbors(node).len() && self@.neighbors(node)[k] == to;
            assert(self@.cells.contains_key((node, self@.neighbors(node)[k])));
        }
        if self@.edge(node, to) is Some {
            assert(self@.cells.contains_key((node, to)));
        }
    }

    fn neighbors<'a>(&'a self, node: usize) -> (found: Vec<(usize, &'a N)>) {
        let mut cursor = MatrixGraph::neighbors(self, node);
        let ghost all = cursor.remaining();
        let mut found: Vec<(usize, &'a N)> = Vec::new();
        loop
            invariant
                cursor.wf(),
                cursor.arena() == self@.nodes,
                all == self@.neighbors(node as int),
                found@.len() + cursor.remaining().len() == all.len(),
                cursor.remaining() == all.skip(found@.len() as int),
                forall|k: int|
                    0 <= k < found@.len() ==> (#[trigger] found@[k]).0 == all[k]
                        && self@.nodes.get(found@[k].0 as int) == Some(*found@[k].1),
            ensures
                found@.len() == all.len(),
                forall|k: int|
                    0 <= k < found@.len() ==> (#[trigger] found@[k]).0 == all[k]
                        && self@.nodes.get(found@[k].0 as int) == Some(*found@[k].1),
            decreases cursor.remaining().len(),
        {
            match cursor.next() {
                Some(pair) => {
                    assert(all.skip(found@.len() as int).drop_first() =~= all.skip(
                        found@.len() as int + 1,
                    ));
                    found.push(pair);
                },
                None => {
                    break ;
                },
            }
        }
        found
    }
}

impl<N: MatrixGraphNode, T> BfsIterable<N, T, MatrixGraph<N, T>> for MatrixGraph<N, T> {
    open spec fn traversed(&self) -> &MatrixGraph<N, T> {
        self
    }

    fn get_graph(&self) -> (graph: &MatrixGraph<N, T>) {
        self
    }
}

impl<N: MatrixGraphNode, T> Adjacency<N, T> for MatrixGraph<N, T> {
    fn get_adjacency_matrix(&self) -> (matrix: AdjacencyMatrix<'_, N, T>) {
        AdjacencyMatrix { nodes: &self.nodes, edges: &self.adjacency }
    }
}

} // verus!
