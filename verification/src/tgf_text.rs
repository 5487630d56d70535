//! The text form of a graph, line by line: numbered node lines, a delimiter
//! line, and edge lines, with the rules for reading it back.
use crate::serialization::TgfParseError;
use crate::text::{
    chars_of, decimal, is_digit, lemma_decimal, machine_number, push_decimal, push_text,
    read_number, string_from_chars,
};
use vstd::prelude::*;

verus! {

/// The place of the first `c` in `text`: the length of `text` when it
/// holds none.
pub open spec fn first_index<A>(text: Seq<A>, c: A) -> int
    decreases text.len(),
{
    if text.len() == 0 {
        0
    } else if text[0] == c {
        0
    } else {
        1 + first_index(text.drop_first(), c)
    }
}

/// `first_index` is the one place before which there is no `c` and at which
/// there is one, or the text ends.
pub proof fn lemma_first_index<A>(text: Seq<A>, c: A)
    ensures
        0 <= first_index(text, c) <= text.len(),
        forall|i: int| 0 <= i < first_index(text, c) ==> text[i] != c,
        first_index(text, c) < text.len() ==> text[first_index(text, c)] == c,
    decreases text.len(),
{
    if text.len() > 0 && text[0] != c {
        lemma_first_index(text.drop_first(), c);
        assert forall|i: int| 0 <= i < first_index(text, c) implies text[i] != c by {
            if i > 0 {
                assert(text.drop_first()[i - 1] == text[i]);
            }
        }
    }
}

/// A place before which there is no `c` and at which there is one, or the
/// text ends, is `first_index`.
pub proof fn lemma_first_index_is<A>(text: Seq<A>, c: A, p: int)
    requires
        0 <= p <= text.len(),
        forall|i: int| 0 <= i < p ==> text[i] != c,
        p < text.len() ==> text[p] == c,
    ensures
        first_index(text, c) == p,
{
    lemma_first_index(text, c);
}

/// A line without the carriage return that may end it.
pub open spec fn strip_cr(line: Seq<char>) -> Seq<char> {
    if line.len() > 0 && line.last() == '\r' {
        line.drop_last()
    } else {
        line
    }
}

/// The lines of a text. A line ends at a line feed, and a carriage return
/// just before that line feed is no part of the line. What follows the last
/// line feed is a line too, unless nothing follows.
pub open spec fn split_lines(text: Seq<char>) -> Seq<Seq<char>>
    decreases text.len(),
{
    let end = first_index(text, '\n');
    if text.len() == 0 {
        Seq::empty()
    } else if 0 <= end < text.len() {
        seq![strip_cr(text.take(end))] + split_lines(text.skip(end + 1))
    } else {
        seq![text]
    }
}

/// The lines of a text that begins with a line, a line feed after it.
pub proof fn lemma_split_first_line(line: Seq<char>, rest: Seq<char>)
    requires
        forall|i: int| 0 <= i < line.len() ==> line[i] != '\n',
    ensures
        split_lines(line + seq!['\n'] + rest) == seq![strip_cr(line)] + split_lines(rest),
{
    let text = line + seq!['\n'] + rest;
    lemma_first_index_is(text, '\n', line.len() as int);
    assert(text.take(line.len() as int) =~= line);
    assert(text.skip(line.len() as int + 1) =~= rest);
}

/// Where each line of `text` begins and ends, its terminator left out.
pub fn line_bounds(text: &[char]) -> (bounds: Vec<(usize, usize)>)
    ensures
        bounds@.len() == split_lines(text@).len(),
        forall|k: int|
            0 <= k < bounds@.len() ==> (#[trigger] bounds@[k]).0 <= bounds@[k].1 <= text@.len()
                && text@.subrange(bounds@[k].0 as int, bounds@[k].1 as int) == split_lines(
                text@,
            )[k],
{
    let mut bounds: Vec<(usize, usize)> = Vec::new();
    let mut start: usize = 0;
    proof {
        assert(text@.skip(0) =~= text@);
        assert(Seq::new(
            bounds@.len(),
            |k: int| text@.subrange(bounds@[k].0 as int, bounds@[k].1 as int),
        ) + split_lines(text@) =~= split_lines(text@));
    }
    while start < text.len()
        invariant
            start <= text@.len(),
            split_lines(text@) == Seq::new(
                bounds@.len(),
                |k: int| text@.subrange(bounds@[k].0 as int, bounds@[k].1 as int),
            ) + split_lines(text@.skip(start as int)),
            forall|k: int|
                0 <= k < bounds@.len() ==> (#[trigger] bounds@[k]).0 <= bounds@[k].1
                    <= text@.len(),
        decreases text@.len() - start,
    {
        let ghost rest = text@.skip(start as int);
        let ghost done = Seq::new(
            bounds@.len(),
            |k: int| text@.subrange(bounds@[k].0 as int, bounds@[k].1 as int),
        );
        let mut end: usize = start;
        while end < text.len() && text[end] != '\n'
            invariant
                start <= end <= text@.len(),
                forall|i: int| start <= i < end ==> text@[i] != '\n',
            decreases text@.len() - end,
        {
            end += 1;
        }
        proof {
            lemma_first_index_is(rest, '\n', end - start);
        }
        if end == text.len() {
            bounds.push((start, end));
            proof {
                assert(text@.subrange(start as int, end as int) =~= rest);
                assert(split_lines(rest) =~= seq![rest]);
                assert(split_lines(text@.skip(end as int)) =~= Seq::<Seq<char>>::empty());
                assert(Seq::new(
                    bounds@.len(),
                    |k: int| text@.subrange(bounds@[k].0 as int, bounds@[k].1 as int),
                ) =~= done.push(rest));
                assert(split_lines(text@) =~= done.push(rest) + Seq::<Seq<char>>::empty());
            }
            start = end;
        } else {
            let stop = if end > start && text[end - 1] == '\r' {
                end - 1
            } else {
                end
            };
            bounds.push((start, stop));
            proof {
                let line = rest.take(end - start);
                assert(line =~= text@.subrange(start as int, end as int));
                assert(strip_cr(line) =~= text@.subrange(start as int, stop as int));
                assert(rest.skip(end - start + 1) =~= text@.skip(end + 1));
                assert(Seq::new(
                    bounds@.len(),
                    |k: int| text@.subrange(bounds@[k].0 as int, bounds@[k].1 as int),
                ) =~= done.push(strip_cr(line)));
                assert(split_lines(text@) =~= done.push(strip_cr(line)) + split_lines(
                    text@.skip(end + 1),
                ));
            }
            start = end + 1;
        }
    }
    proof {
        assert(split_lines(text@.skip(start as int)) =~= Seq::<Seq<char>>::empty());
        assert(split_lines(text@) =~= Seq::new(
            bounds@.len(),
            |k: int| text@.subrange(bounds@[k].0 as int, bounds@[k].1 as int),
        ));
    }
    bounds
}

/// What stands before and after the first `c` in `line`: nothing when the
/// line holds no `c`.
pub open spec fn split_once(line: Seq<char>, c: char) -> Option<(Seq<char>, Seq<char>)> {
    let at = first_index(line, c);
    if 0 <= at < line.len() {
        Some((line.take(at), line.skip(at + 1)))
    } else {
        None
    }
}

/// The value that a node line gives: what follows its first space.
pub open spec fn node_text(line: Seq<char>) -> Option<Seq<char>> {
    match split_once(line, ' ') {
        Some((_, value)) => Some(value),
        None => None,
    }
}

/// The edge that an edge line gives: two indices, counted from 1 in the
/// line and from 0 here, and after them the weight. A space stands after
/// each index.
pub open spec fn edge_parts(line: Seq<char>) -> Option<(nat, nat, Seq<char>)> {
    match split_once(line, ' ') {
        None => None,
        Some((from, rest)) => match split_once(rest, ' ') {
            None => None,
            Some((to, weight)) => match (machine_number(from), machine_number(to)) {
                (Some(f), Some(t)) => if f >= 1 && t >= 1 {
                    Some(((f - 1) as nat, (t - 1) as nat, weight))
                } else {
                    None
                },
                _ => None,
            },
        },
    }
}

/// The line of the node that is number `k`, counted from 0, with `value`.
pub open spec fn node_line(k: nat, value: Seq<char>) -> Seq<char> {
    decimal(k + 1) + seq![' '] + value + seq!['\n']
}

/// The line of an edge.
pub open spec fn edge_line(edge: (nat, nat, Seq<char>)) -> Seq<char> {
    decimal(edge.0 + 1) + seq![' '] + decimal(edge.1 + 1) + seq![' '] + edge.2 + seq!['\n']
}

/// The line that parts the nodes from the edges.
pub open spec fn delimiter() -> Seq<char> {
    seq!['#']
}

/// What a text says: the values of the nodes in the order of their lines,
/// and the edges in the order of theirs, each from one node to another by
/// their places in that order, with a weight.
pub struct TgfDocument {
    pub nodes: Seq<Seq<char>>,
    pub edges: Seq<(nat, nat, Seq<char>)>,
}

impl TgfDocument {
    /// The lines of the first `upto` nodes.
    pub open spec fn node_section(self, upto: nat) -> Seq<char>
        decreases upto,
    {
        if upto == 0 {
            Seq::empty()
        } else {
            self.node_section((upto - 1) as nat) + node_line(
                (upto - 1) as nat,
                self.nodes[upto - 1],
            )
        }
    }

    /// The lines of the first `upto` edges.
    pub open spec fn edge_section(self, upto: nat) -> Seq<char>
        decreases upto,
    {
        if upto == 0 {
            Seq::empty()
        } else {
            self.edge_section((upto - 1) as nat) + edge_line(self.edges[upto - 1])
        }
    }

    /// The text of the document.
    pub open spec fn format(self) -> Seq<char> {
        self.node_section(self.nodes.len()) + delimiter() + seq!['\n'] + self.edge_section(
            self.edges.len(),
        )
    }
}

/// What a text says, or why it says nothing: a node line is wrong where it
/// holds no space, and so is a text without delimiter line; an edge line is
/// wrong where it does not hold two indices from 1 on, each with a space
/// after it. A wrong node line counts before a wrong edge line.
pub open spec fn parse_tgf(text: Seq<char>) -> Result<TgfDocument, TgfParseError> {
    let lines = split_lines(text);
    let mark = first_index(lines, delimiter());
    if !(0 <= mark < lines.len()) {
        Err(TgfParseError::WrongNodeValue)
    } else if exists|k: int| 0 <= k < mark && node_text(lines[k]) is None {
        Err(TgfParseError::WrongNodeValue)
    } else if exists|k: int| mark < k < lines.len() && edge_parts(lines[k]) is None {
        Err(TgfParseError::WrongEdgeValue)
    } else {
        Ok(
            TgfDocument {
                nodes: Seq::new(mark as nat, |k: int| node_text(lines[k])->0),
                edges: Seq::new(
                    (lines.len() - mark - 1) as nat,
                    |k: int| edge_parts(lines[mark + 1 + k])->0,
                ),
            },
        )
    }
}

/// A document as the program holds it.
pub struct TgfText {
    pub nodes: Vec<String>,
    pub edges: Vec<(usize, usize, String)>,
}

impl View for TgfText {
    type V = TgfDocument;

    open spec fn view(&self) -> TgfDocument {
        TgfDocument {
            nodes: Seq::new(self.nodes@.len(), |k: int| self.nodes@[k]@),
            edges: Seq::new(
                self.edges@.len(),
                |k: int| (self.edges@[k].0 as nat, self.edges@[k].1 as nat, self.edges@[k].2@),
            ),
        }
    }
}

/// Writes a document as text.
pub fn write_tgf(text: &TgfText) -> (out: String)
    ensures
        out@ == text@.format(),
{
    let mut chars: Vec<char> = Vec::new();
    let ghost doc = text@;
    let mut k: usize = 0;
    while k < text.nodes.len()
        invariant
            k <= text.nodes@.len(),
            doc == text@,
            chars@ == doc.node_section(k as nat),
        decreases text.nodes@.len() - k,
    {
        let ghost before = chars@;
        push_decimal(&mut chars, k as u128 + 1);
        chars.push(' ');
        push_text(&mut chars, text.nodes[k].as_str());
        chars.push('\n');
        proof {
            assert(doc.nodes[k as int] == text.nodes@[k as int]@);
            assert(chars@ =~= before + node_line(k as nat, doc.nodes[k as int]));
        }
        k += 1;
    }
    chars.push('#');
    chars.push('\n');
    let ghost head = doc.node_section(doc.nodes.len()) + delimiter() + seq!['\n'];
    assert(chars@ =~= head);
    let mut k: usize = 0;
    while k < text.edges.len()
        invariant
            k <= text.edges@.len(),
            doc == text@,
            chars@ == head + doc.edge_section(k as nat),
        decreases text.edges@.len() - k,
    {
        let ghost before = chars@;
        push_decimal(&mut chars, text.edges[k].0 as u128 + 1);
        chars.push(' ');
        push_decimal(&mut chars, text.edges[k].1 as u128 + 1);
        chars.push(' ');
        push_text(&mut chars, text.edges[k].2.as_str());
        chars.push('\n');
        proof {
            assert(doc.edges[k as int] == (
                text.edges@[k as int].0 as nat,
                text.edges@[k as int].1 as nat,
                text.edges@[k as int].2@,
            ));
            assert(chars@ =~= before + edge_line(doc.edges[k as int]));
            assert(chars@ =~= head + doc.edge_section((k + 1) as nat));
        }
        k += 1;
    }
    string_from_chars(chars.as_slice())
}

/// The place of the first `c` in `line`: its length when it holds none.
pub fn find_char(line: &[char], c: char) -> (at: usize)
    ensures
        at == first_index(line@, c),
{
    let mut at: usize = 0;
    while at < line.len() && line[at] != c
        invariant
            at <= line@.len(),
            forall|i: int| 0 <= i < at ==> line@[i] != c,
        decreases line@.len() - at,
    {
        at += 1;
    }
    proof {
        lemma_first_index_is(line@, c, at as int);
    }
    at
}

/// Whether `line` is the line that parts the nodes from the edges.
pub fn is_delimiter(line: &[char]) -> (yes: bool)
    ensures
        yes == (line@ == delimiter()),
{
    let yes = line.len() == 1 && line[0] == '#';
    proof {
        if yes {
            assert(line@ =~= delimiter());
        } else if line@.len() == 1 {
            assert(delimiter()[0] == '#');
        }
    }
    yes
}

/// Reads a node line: the value that it gives, as text.
pub fn read_node_line(line: &[char]) -> (value: Option<String>)
    ensures
        match value {
            Some(text) => node_text(line@) == Some(text@),
            None => node_text(line@) is None,
        },
{
    let at = find_char(line, ' ');
    if at >= line.len() {
        return None;
    }
    let rest = vstd::slice::slice_subrange(line, at + 1, line.len());
    assert(rest@ =~= line@.skip(at + 1));
    Some(string_from_chars(rest))
}

/// Reads an edge line: its two indices, counted from 0, and its weight as
/// text.
pub fn read_edge_line(line: &[char]) -> (edge: Option<(usize, usize, String)>)
    ensures
        match edge {
            Some((from, to, weight)) => edge_parts(line@) == Some(
                (from as nat, to as nat, weight@),
            ),
            None => edge_parts(line@) is None,
        },
{
    let at = find_char(line, ' ');
    if at >= line.len() {
        return None;
    }
    let head = vstd::slice::slice_subrange(line, 0, at);
    let rest = vstd::slice::slice_subrange(line, at + 1, line.len());
    assert(head@ =~= line@.take(at as int));
    assert(rest@ =~= line@.skip(at + 1));
    let second = find_char(rest, ' ');
    if second >= rest.len() {
        return None;
    }
    let middle = vstd::slice::slice_subrange(rest, 0, second);
    let tail = vstd::slice::slice_subrange(rest, second + 1, rest.len());
    assert(middle@ =~= rest@.take(second as int));
    assert(tail@ =~= rest@.skip(second + 1));
    let from = match read_number(head) {
        Some(from) => from,
        None => {
            return None;
        },
    };
    let to = match read_number(middle) {
        Some(to) => to,
        None => {
            return None;
        },
    };
    if from == 0 || to == 0 {
        return None;
    }
    Some((from - 1, to - 1, string_from_chars(tail)))
}

/// The line of `text` that `bound` marks.
pub fn line_at<'a>(text: &'a [char], bound: (usize, usize)) -> (line: &'a [char])
    requires
        bound.0 <= bound.1 <= text@.len(),
    ensures
        line@ == text@.subrange(bound.0 as int, bound.1 as int),
{
    vstd::slice::slice_subrange(text, bound.0, bound.1)
}

/// Reads a text as a document.
pub fn read_tgf(input: &str) -> (result: Result<TgfText, TgfParseError>)
    ensures
        match result {
            Ok(text) => parse_tgf(input@) == Ok::<TgfDocument, TgfParseError>(text@),
            Err(e) => parse_tgf(input@) == Err::<TgfDocument, TgfParseError>(e),
        },
{
    let chars = chars_of(input);
    let bounds = line_bounds(chars.as_slice());
    let ghost lines = split_lines(input@);
    let mut nodes: Vec<String> = Vec::new();
    let mut k: usize = 0;
    let mut found = false;
    while k < bounds.len()
        invariant_except_break
            !found,
        invariant
            chars@ == input@,
            lines == split_lines(input@),
            bounds@.len() == lines.len(),
            forall|j: int|
                0 <= j < bounds@.len() ==> (#[trigger] bounds@[j]).0 <= bounds@[j].1 <= chars@.len()
                    && chars@.subrange(bounds@[j].0 as int, bounds@[j].1 as int) == lines[j],
            k <= bounds@.len(),
            forall|j: int| 0 <= j < k ==> lines[j] != delimiter(),
            forall|j: int| 0 <= j < k ==> node_text(#[trigger] lines[j]) is Some,
            nodes@.len() == k,
            forall|j: int| 0 <= j < k ==> node_text(lines[j]) == Some((#[trigger] nodes@[j])@),
        ensures
            found ==> k < bounds@.len() && lines[k as int] == delimiter(),
            !found ==> k == bounds@.len(),
        decreases bounds@.len() - k,
    {
        let line = line_at(chars.as_slice(), bounds[k]);
        if is_delimiter(line) {
            found = true;
            break ;
        }
        match read_node_line(line) {
            Some(value) => {
                nodes.push(value);
            },
            None => {
                proof {
                    lemma_first_index(lines, delimiter());
                    let mark = first_index(lines, delimiter());
                    assert(mark >= k) by {
                        if mark < k {
                            assert(lines[mark] == delimiter());
                        }
                    }
                    if mark < lines.len() {
                        assert(node_text(lines[k as int]) is None);
                    }
                }
                return Err(TgfParseError::WrongNodeValue);
            },
        }
        k += 1;
    }
    proof {
        lemma_first_index_is(lines, delimiter(), k as int);
    }
    if !found {
        return Err(TgfParseError::WrongNodeValue);
    }
    let mark = k;
    let mut edges: Vec<(usize, usize, String)> = Vec::new();
    assert(mark < bounds.len());
    k = mark + 1;
    while k < bounds.len()
        invariant
            chars@ == input@,
            lines == split_lines(input@),
            bounds@.len() == lines.len(),
            forall|j: int|
                0 <= j < bounds@.len() ==> (#[trigger] bounds@[j]).0 <= bounds@[j].1 <= chars@.len()
                    && chars@.subrange(bounds@[j].0 as int, bounds@[j].1 as int) == lines[j],
            mark < k <= bounds@.len(),
            mark == first_index(lines, delimiter()),
            forall|j: int| 0 <= j < mark ==> node_text(#[trigger] lines[j]) is Some,
            edges@.len() == k - mark - 1,
            forall|j: int|
                0 <= j < edges@.len() ==> edge_parts(lines[mark + 1 + j]) == Some(
                    (
                        (#[trigger] edges@[j]).0 as nat,
                        edges@[j].1 as nat,
                        edges@[j].2@,
                    ),
                ),
        decreases bounds@.len() - k,
    {
        let line = line_at(chars.as_slice(), bounds[k]);
        match read_edge_line(line) {
            Some(edge) => {
                edges.push(edge);
            },
            None => {
                assert(edge_parts(lines[k as int]) is None);
                return Err(TgfParseError::WrongEdgeValue);
            },
        }
        k += 1;
    }
    let text = TgfText { nodes, edges };
    proof {
        let doc = parse_tgf(input@);
        assert(!(exists|j: int| 0 <= j < mark && node_text(lines[j]) is None));
        assert(!(exists|j: int| mark < j < lines.len() && edge_parts(lines[j]) is None)) by {
            assert forall|j: int| mark < j < lines.len() implies edge_parts(
                lines[j],
            ) is Some by {
                let edge = text.edges@[j - mark - 1];
                assert(edge_parts(lines[mark + 1 + (j - mark - 1)]) is Some);
            }
        }
        assert(doc is Ok);
        assert(doc->Ok_0.nodes =~= text@.nodes);
        assert(doc->Ok_0.edges =~= text@.edges);
    }
    Ok(text)
}

/// A value that can stand in a line and be read back: it holds no line
/// feed and does not end in a carriage return.
pub open spec fn is_clean(value: Seq<char>) -> bool {
    &&& forall|i: int| 0 <= i < value.len() ==> value[i] != '\n'
    &&& !(value.len() > 0 && value.last() == '\r')
}

/// What a node line holds before its line feed.
pub open spec fn node_content(k: nat, value: Seq<char>) -> Seq<char> {
    decimal(k + 1) + seq![' '] + value
}

/// What an edge line holds before its line feed.
pub open spec fn edge_content(edge: (nat, nat, Seq<char>)) -> Seq<char> {
    decimal(edge.0 + 1) + seq![' '] + decimal(edge.1 + 1) + seq![' '] + edge.2
}

impl TgfDocument {
    /// Every value and weight can stand in a line, and every index of an
    /// edge is one that the machine can hold when counted from 1.
    pub open spec fn is_clean(self) -> bool {
        &&& forall|k: int| 0 <= k < self.nodes.len() ==> is_clean(#[trigger] self.nodes[k])
        &&& forall|k: int|
            0 <= k < self.edges.len() ==> is_clean((#[trigger] self.edges[k]).2) && self.edges[k].0
                < usize::MAX && self.edges[k].1 < usize::MAX
    }

    /// The lines of the node section.
    pub open spec fn node_contents(self, upto: nat) -> Seq<Seq<char>> {
        Seq::new(upto, |k: int| node_content(k as nat, self.nodes[k]))
    }

    /// The lines of the edge section.
    pub open spec fn edge_contents(self, upto: nat) -> Seq<Seq<char>> {
        Seq::new(upto, |k: int| edge_content(self.edges[k]))
    }
}

/// A line made of digits, a space and a clean value is read as that value.
proof fn lemma_node_content(k: nat, value: Seq<char>)
    requires
        is_clean(value),
    ensures
        forall|i: int|
            0 <= i < node_content(k, value).len() ==> node_content(k, value)[i] != '\n',
        strip_cr(node_content(k, value)) == node_content(k, value),
        node_content(k, value) != delimiter(),
        node_text(node_content(k, value)) == Some(value),
{
    let digits = decimal(k + 1);
    let line = node_content(k, value);
    lemma_decimal(k + 1);
    assert forall|i: int| 0 <= i < line.len() implies line[i] != '\n' && (i < digits.len()
        ==> line[i] != ' ') by {
        if i < digits.len() {
            assert(line[i] == digits[i]);
            assert(is_digit(digits[i]));
        } else if i > digits.len() {
            assert(line[i] == value[i - digits.len() - 1]);
        }
    }
    assert(line.last() != '\r') by {
        if value.len() > 0 {
            assert(line.last() == value.last());
        } else {
            assert(line.last() == ' ');
        }
    }
    assert(line.len() >= 2);
    assert(delimiter().len() == 1);
    assert(line[digits.len() as int] == ' ');
    lemma_first_index_is(line, ' ', digits.len() as int);
    assert(line.skip(digits.len() as int + 1) =~= value);
}

/// A line made of two numbers from 1 on, each with a space after it, and a
/// clean weight is read as that edge.
proof fn lemma_edge_content(edge: (nat, nat, Seq<char>))
    requires
        is_clean(edge.2),
        edge.0 < usize::MAX,
        edge.1 < usize::MAX,
    ensures
        forall|i: int| 0 <= i < edge_content(edge).len() ==> edge_content(edge)[i] != '\n',
        strip_cr(edge_content(edge)) == edge_content(edge),
        edge_parts(edge_content(edge)) == Some(edge),
{
    let first = decimal(edge.0 + 1);
    let second = decimal(edge.1 + 1);
    let line = edge_content(edge);
    let rest = second + seq![' '] + edge.2;
    lemma_decimal(edge.0 + 1);
    lemma_decimal(edge.1 + 1);
    assert(line =~= first + seq![' '] + rest);
    assert forall|i: int| 0 <= i < rest.len() implies rest[i] != '\n' && (i < second.len()
        ==> rest[i] != ' ') by {
        if i < second.len() {
            assert(rest[i] == second[i]);
            assert(is_digit(second[i]));
        } else if i > second.len() {
            assert(rest[i] == edge.2[i - second.len() - 1]);
        }
    }
    assert forall|i: int| 0 <= i < line.len() implies line[i] != '\n' && (i < first.len()
        ==> line[i] != ' ') by {
        if i < first.len() {
            assert(line[i] == first[i]);
            assert(is_digit(first[i]));
        } else if i > first.len() {
            assert(line[i] == rest[i - first.len() - 1]);
        }
    }
    assert(line.last() != '\r') by {
        if edge.2.len() > 0 {
            assert(line.last() == edge.2.last());
        } else {
            assert(line.last() == ' ');
        }
    }
    assert(line[first.len() as int] == ' ');
    lemma_first_index_is(line, ' ', first.len() as int);
    assert(line.take(first.len() as int) =~= first);
    assert(line.skip(first.len() as int + 1) =~= rest);
    assert(rest[second.len() as int] == ' ');
    lemma_first_index_is(rest, ' ', second.len() as int);
    assert(rest.take(second.len() as int) =~= second);
    assert(rest.skip(second.len() as int + 1) =~= edge.2);
}

/// The lines of a text that begins with the lines of nodes.
proof fn lemma_lines_of_nodes(doc: TgfDocument, upto: nat, rest: Seq<char>)
    requires
        doc.is_clean(),
        upto <= doc.nodes.len(),
    ensures
        split_lines(doc.node_section(upto) + rest) == doc.node_contents(upto) + split_lines(rest),
    decreases upto,
{
    if upto == 0 {
        assert(doc.node_section(upto) + rest =~= rest);
        assert(doc.node_contents(upto) + split_lines(rest) =~= split_lines(rest));
    } else {
        let k = (upto - 1) as nat;
        let content = node_content(k, doc.nodes[k as int]);
        let tail = content + seq!['\n'] + rest;
        lemma_node_content(k, doc.nodes[k as int]);
        lemma_lines_of_nodes(doc, k, tail);
        lemma_split_first_line(content, rest);
        assert(doc.node_section(upto) + rest =~= doc.node_section(k) + tail);
        assert(doc.node_contents(upto) =~= doc.node_contents(k).push(content));
        assert(doc.node_contents(k) + (seq![content] + split_lines(rest)) =~= doc.node_contents(
            upto,
        ) + split_lines(rest));
    }
}

/// The lines of a text that begins with the lines of edges.
proof fn lemma_lines_of_edges(doc: TgfDocument, upto: nat, rest: Seq<char>)
    requires
        doc.is_clean(),
        upto <= doc.edges.len(),
    ensures
        split_lines(doc.edge_section(upto) + rest) == doc.edge_contents(upto) + split_lines(rest),
    decreases upto,
{
    if upto == 0 {
        assert(doc.edge_section(upto) + rest =~= rest);
        assert(doc.edge_contents(upto) + split_lines(rest) =~= split_lines(rest));
    } else {
        let k = (upto - 1) as nat;
        let content = edge_content(doc.edges[k as int]);
        let tail = content + seq!['\n'] + rest;
        lemma_edge_content(doc.edges[k as int]);
        lemma_lines_of_edges(doc, k, tail);
        lemma_split_first_line(content, rest);
        assert(doc.edge_section(upto) + rest =~= doc.edge_section(k) + tail);
        assert(doc.edge_contents(upto) =~= doc.edge_contents(k).push(content));
        assert(doc.edge_contents(k) + (seq![content] + split_lines(rest)) =~= doc.edge_contents(
            upto,
        ) + split_lines(rest));
    }
}

/// A document that is written and read back is the same document, where
/// its values and weights can stand in a line.
pub proof fn lemma_round_trip(doc: TgfDocument)
    requires
        doc.is_clean(),
    ensures
        parse_tgf(doc.format()) == Ok::<TgfDocument, TgfParseError>(doc),
{
    let n = doc.nodes.len();
    let m = doc.edges.len();
    let edge_text = doc.edge_section(m);
    let after_nodes = delimiter() + seq!['\n'] + edge_text;
    let text = doc.format();
    let empty = Seq::<char>::empty();
    assert(text =~= doc.node_section(n) + after_nodes);
    lemma_lines_of_nodes(doc, n, after_nodes);
    assert(delimiter()[0] == '#');
    assert forall|i: int| 0 <= i < delimiter().len() implies delimiter()[i] != '\n' by {}
    lemma_split_first_line(delimiter(), edge_text);
    assert(strip_cr(delimiter()) == delimiter());
    lemma_lines_of_edges(doc, m, empty);
    assert(edge_text + empty =~= edge_text);
    assert(split_lines(empty) =~= Seq::<Seq<char>>::empty());
    let lines = split_lines(text);
    assert(lines =~= doc.node_contents(n) + seq![delimiter()] + doc.edge_contents(m));
    assert forall|k: int| 0 <= k < n implies lines[k] != delimiter() && node_text(lines[k])
        == Some(doc.nodes[k]) by {
        lemma_node_content(k as nat, doc.nodes[k]);
        assert(lines[k] == node_content(k as nat, doc.nodes[k]));
    }
    assert(lines[n as int] == delimiter());
    lemma_first_index_is(lines, delimiter(), n as int);
    assert forall|k: int| n < k < lines.len() implies edge_parts(lines[k]) == Some(
        doc.edges[k - n - 1],
    ) by {
        lemma_edge_content(doc.edges[k - n - 1]);
        assert(lines[k] == edge_content(doc.edges[k - n - 1]));
    }
    let read = parse_tgf(text);
    assert(read is Ok);
    assert(read->Ok_0.nodes =~= doc.nodes);
    assert(read->Ok_0.edges =~= doc.edges) by {
        assert forall|k: int| 0 <= k < m implies read->Ok_0.edges[k] == doc.edges[k] by {
            assert(edge_parts(lines[n + 1 + k]) == Some(doc.edges[(n + 1 + k) - n - 1]));
        }
    }
}

} // verus!
