use matrix_graph::matrix_graph::MatrixGraph;
use matrix_graph::serialization::{
    de_tgf, place_edges, place_nodes, render_tgf, ser_tgf, TgfParseError, TgfParser,
};
use matrix_graph::text::read_number;
use matrix_graph::tgf_text::{read_tgf, write_tgf, TgfText};
use matrix_graph::types::Adjacency;

#[test]
fn test_ser_to_tgf() {
    let tgf = "1 1
2 2
3 3
4 4
5 5
#
1 2 3
1 3 4
1 4 5
1 5 6
3 1 4
3 2 5
3 4 7
5 2 7
";

    let edges = [
        (1, 2, 3),
        (3, 4, 7),
        (1, 3, 4),
        (3, 2, 5),
        (5, 2, 7),
        (1, 4, 5),
        (1, 5, 6),
        (3, 1, 4),
    ];

    let g = MatrixGraph::<u32, u8>::from_edges(edges.to_vec());
    let actual = ser_tgf(&g.get_adjacency_matrix());
    assert_eq!(tgf, actual);
}

#[test]
fn test_de_from_tgf() {
    let tgf = "1 54
2 2
3 3
4 4
5 5
#
1 2 3
1 3 4
1 4 5
1 5 6
3 1 4
3 2 5
3 4 7
5 2 7
";

    let edges = [
        (54, 2, 3),
        (3, 4, 7),
        (54, 3, 4),
        (3, 2, 5),
        (5, 2, 7),
        (54, 4, 5),
        (54, 5, 6),
        (3, 54, 4),
    ];

    let actual = de_tgf::<u32, u8>(tgf).unwrap();

    for (from, to, weight) in edges {
        let from = actual.get_index_of(&from).unwrap();
        let to = actual.get_index_of(&to).unwrap();
        let actual = actual.get_edge_by_index(from, to);
        assert!(actual.is_some());
        assert_eq!(actual.unwrap(), &weight);
    }
}

#[test]
fn test_de_tgf_returns_error_on_wrong_node_value() {
    let wrong_tgf = "1 Some bad value\r2 3\r#";
    let g = de_tgf::<u32, u32>(wrong_tgf);
    assert!(g.err().is_some());
}

#[test]
fn test_de_tgf_returns_error_on_wrong_edge_value() {
    let wrong_tgf = "1 2
2 3
#
Wrong value";
    let g = de_tgf::<u32, u32>(wrong_tgf);
    assert!(g.err().is_some());
}

#[test]
fn node_line_without_a_readable_value_is_a_wrong_node_value() {
    let g = de_tgf::<u32, u32>("1 ok\n2 3\n#");
    assert_eq!(g.err(), Some(TgfParseError::WrongNodeValue));
    let g = de_tgf::<u32, u32>("1 Some bad value\r2 3\r#");
    assert_eq!(g.err(), Some(TgfParseError::WrongNodeValue));
}

#[test]
fn edge_line_without_two_separators_is_a_wrong_edge_value() {
    let g = de_tgf::<u32, u32>("1 2\n2 3\n#\nWrong value");
    assert_eq!(g.err(), Some(TgfParseError::WrongEdgeValue));
    let g = de_tgf::<u32, u32>("1 2\n2 3\n#\n12");
    assert_eq!(g.err(), Some(TgfParseError::WrongEdgeValue));
}

#[test]
fn each_way_in_which_a_text_is_no_graph() {
    let node = Some(TgfParseError::WrongNodeValue);
    let edge = Some(TgfParseError::WrongEdgeValue);
    // no delimiter line
    assert_eq!(de_tgf::<u32, u32>("").err(), node);
    assert_eq!(de_tgf::<u32, u32>("1 5\n2 6\n").err(), node);
    // a node line without a space
    assert_eq!(de_tgf::<u32, u32>("15\n#\n").err(), node);
    // the same value twice
    assert_eq!(de_tgf::<u32, u32>("1 5\n2 5\n#\n").err(), node);
    // a wrong node line counts before a wrong edge line
    assert_eq!(de_tgf::<u32, u32>("1 x\n#\n1").err(), node);
    // an index that is no number, is 0, or names no node
    assert_eq!(de_tgf::<u32, u32>("1 5\n2 6\n#\na 2 7").err(), edge);
    assert_eq!(de_tgf::<u32, u32>("1 5\n2 6\n#\n1 b 7").err(), edge);
    assert_eq!(de_tgf::<u32, u32>("1 5\n2 6\n#\n0 1 7").err(), edge);
    assert_eq!(de_tgf::<u32, u32>("1 5\n2 6\n#\n1 3 7").err(), edge);
    assert_eq!(de_tgf::<u32, u32>("1 5\n2 6\n#\n1 -2 7").err(), edge);
    assert_eq!(
        de_tgf::<u32, u32>("1 5\n2 6\n#\n1 99999999999999999999999999 7").err(),
        edge
    );
    // a weight that cannot be read
    assert_eq!(de_tgf::<u32, u32>("1 5\n2 6\n#\n1 2 w").err(), edge);
    // the same pair twice
    assert_eq!(de_tgf::<u32, u32>("1 5\n2 6\n#\n1 2 7\n1 2 8").err(), edge);
    // an empty line among the edges
    assert_eq!(de_tgf::<u32, u32>("1 5\n2 6\n#\n1 2 7\n\n").err(), edge);
}

#[test]
fn reads_what_the_lines_say() {
    let g = de_tgf::<u32, u32>("7 50\r\nx 60\n3 70\n#\r\n+3 1 9\n2 2 8\n").unwrap();
    assert_eq!(g.node_count(), 3);
    assert_eq!(g.edge_count(), 2);
    assert_eq!(g.get_index_of(&50), Some(0));
    assert_eq!(g.get_index_of(&60), Some(1));
    assert_eq!(g.get_index_of(&70), Some(2));
    assert_eq!(g.get_edge_by_index(2, 0), Some(&9));
    assert_eq!(g.get_edge_by_index(1, 1), Some(&8));
    assert_eq!(g.get_edge_by_index(0, 2), None);
    let only_delimiter = de_tgf::<u32, u32>("#").unwrap();
    assert_eq!(only_delimiter.node_count(), 0);
    assert_eq!(only_delimiter.edge_count(), 0);
}

#[test]
fn parser_reads_as_de_tgf_does() {
    let g = TgfParser::<u32, u8>::new("1 4\n2 5\n#\n2 1 3\n").parse().unwrap();
    assert_eq!(g.node_count(), 2);
    assert_eq!(g.get_edge_by_index(1, 0), Some(&3));
    let bad = TgfParser::<u32, u8>::new("1 4\n2 5\n#\n2 1 300\n").parse();
    assert_eq!(bad.err(), Some(TgfParseError::WrongEdgeValue));
}

#[test]
fn written_graph_is_read_back() {
    let edges = vec![(10u32, 20u32, 1u8), (20, 30, 2), (30, 10, 3), (10, 10, 4)];
    let g = MatrixGraph::<u32, u8>::from_edges(edges.clone());
    let text = ser_tgf(&g.get_adjacency_matrix());
    assert_eq!(text, "1 10\n2 20\n3 30\n#\n1 1 4\n1 2 1\n2 3 2\n3 1 3\n");
    let back = de_tgf::<u32, u8>(&text).unwrap();
    assert_eq!(back.node_count(), 3);
    assert_eq!(back.edge_count(), 4);
    for (from, to, weight) in edges {
        let from = back.get_index_of(&from).unwrap();
        let to = back.get_index_of(&to).unwrap();
        assert_eq!(back.get_edge_by_index(from, to), Some(&weight));
    }
}

#[test]
fn written_graph_with_removed_nodes_is_renumbered_and_read_back() {
    let mut g = MatrixGraph::<u32, u8>::default();
    for value in [10, 20, 30, 40] {
        g.add_node(value);
    }
    g.add_edge(0, 1, 1);
    g.add_edge(1, 3, 2);
    g.add_edge(3, 2, 3);
    g.add_edge(2, 3, 4);
    g.add_edge(3, 3, 5);
    g.remove_node(1);
    let text = ser_tgf(&g.get_adjacency_matrix());
    assert_eq!(text, "1 10\n2 30\n3 40\n#\n2 3 4\n3 2 3\n3 3 5\n");
    let back = de_tgf::<u32, u8>(&text).unwrap();
    assert_eq!(back.node_count(), 3);
    assert_eq!(back.edge_count(), 3);
    let at = |value: u32| back.get_index_of(&value).unwrap();
    assert_eq!(back.get_edge_by_index(at(30), at(40)), Some(&4));
    assert_eq!(back.get_edge_by_index(at(40), at(30)), Some(&3));
    assert_eq!(back.get_edge_by_index(at(40), at(40)), Some(&5));
    assert_eq!(back.get_edge_by_index(at(10), at(30)), None);
}

#[test]
fn graph_without_edges_is_written_and_read_back() {
    let mut g = MatrixGraph::<u32, u8>::default();
    g.add_node(5);
    g.add_node(6);
    let text = ser_tgf(&g.get_adjacency_matrix());
    assert_eq!(text, "1 5\n2 6\n#\n");
    let empty = MatrixGraph::<u32, u8>::default();
    assert_eq!(ser_tgf(&empty.get_adjacency_matrix()), "#\n");
    let back = de_tgf::<u32, u8>(&text).unwrap();
    assert_eq!(back.node_count(), 2);
    assert_eq!(back.edge_count(), 0);
}

#[test]
fn rendered_lines_carry_the_ranks_of_the_nodes() {
    let mut g = MatrixGraph::<u32, u8>::default();
    for value in [1, 2, 3] {
        g.add_node(value);
    }
    g.add_edge(2, 0, 9);
    g.remove_node(1);
    let lines = render_tgf(&g.get_adjacency_matrix());
    assert_eq!(lines.nodes, vec!["1".to_string(), "3".to_string()]);
    assert_eq!(lines.edges, vec![(1, 0, "9".to_string())]);
}

#[test]
fn document_is_written_and_read_back() {
    let doc = TgfText {
        nodes: vec!["alpha beta".to_string(), "".to_string(), "#".to_string()],
        edges: vec![(0, 2, "w 1".to_string()), (11, 0, "".to_string())],
    };
    let text = write_tgf(&doc);
    assert_eq!(text, "1 alpha beta\n2 \n3 #\n#\n1 3 w 1\n12 1 \n");
    let back = read_tgf(&text).unwrap();
    assert_eq!(back.nodes, doc.nodes);
    assert_eq!(back.edges, doc.edges);
}

#[test]
fn lines_end_at_line_feeds_and_lose_the_carriage_return_before_one() {
    let back = read_tgf("1 a\r\n2 b\r\r\n#\n1 2 w\r").unwrap();
    assert_eq!(back.nodes, vec!["a".to_string(), "b\r".to_string()]);
    assert_eq!(back.edges, vec![(0, 1, "w\r".to_string())]);
    assert_eq!(read_tgf("1 a\n#\r").err(), Some(TgfParseError::WrongNodeValue));
    assert_eq!(read_tgf("1 a\n#\n\n").err(), Some(TgfParseError::WrongEdgeValue));
    assert_eq!(read_tgf("1a\n#\n").err(), Some(TgfParseError::WrongNodeValue));
}

#[test]
fn numbers_are_digits_after_an_optional_plus() {
    let chars = |s: &str| s.chars().collect::<Vec<char>>();
    assert_eq!(read_number(&chars("0")), Some(0));
    assert_eq!(read_number(&chars("007")), Some(7));
    assert_eq!(read_number(&chars("+12")), Some(12));
    assert_eq!(read_number(&chars("1234567890")), Some(1234567890));
    assert_eq!(read_number(&chars(&usize::MAX.to_string())), Some(usize::MAX));
    assert_eq!(read_number(&chars("18446744073709551616")), None);
    assert_eq!(read_number(&chars("99999999999999999999")), None);
    assert_eq!(read_number(&chars("")), None);
    assert_eq!(read_number(&chars("+")), None);
    assert_eq!(read_number(&chars("-1")), None);
    assert_eq!(read_number(&chars("++1")), None);
    assert_eq!(read_number(&chars("1 ")), None);
    assert_eq!(read_number(&chars("1a")), None);
    assert_eq!(read_number(&chars("٣")), None);
}

#[test]
fn error_messages() {
    assert_eq!(TgfParseError::WrongNodeValue.message(), "Wrong node value.");
    assert_eq!(TgfParseError::WrongEdgeValue.message(), "Wrong edge value.");
    assert_eq!(TgfParseError::WrongFileFormat.message(), "Wrong file format.");
}

#[test]
fn text_of_the_delimiter_alone_is_the_empty_graph() {
    for text in ["#", "#\n", "#\r\n"] {
        let g = de_tgf::<u32, u32>(text).unwrap();
        assert_eq!(g.node_count(), 0);
        assert_eq!(g.edge_count(), 0);
        let g = TgfParser::<u32, u32>::new(text).parse().unwrap();
        assert_eq!(g.node_count(), 0);
    }
}

#[test]
fn edge_line_in_a_text_without_nodes_is_a_wrong_edge_value() {
    let edge = Some(TgfParseError::WrongEdgeValue);
    assert_eq!(de_tgf::<u32, u32>("#\n1 1 5").err(), edge);
    assert_eq!(de_tgf::<u32, u32>("#\n1 2 5\n").err(), edge);
    assert_eq!(de_tgf::<u32, u32>("#\nx").err(), edge);
    assert_eq!(de_tgf::<u32, u32>("#\n\n").err(), edge);
    assert_eq!(de_tgf::<u32, u32>("#\n#").err(), edge);
}

#[test]
fn text_without_edge_lines_never_has_a_wrong_edge_value() {
    let node = Some(TgfParseError::WrongNodeValue);
    assert_eq!(de_tgf::<u32, u32>("1 ok\n2 3\n#").err(), node);
    assert_eq!(de_tgf::<u32, u32>("1 7\n2 7\n#\n").err(), node);
    assert!(de_tgf::<u32, u32>("1 7\n2 8\n#\n").is_ok());
}

#[test]
fn nodes_are_placed_in_their_order_unless_one_is_missing_or_comes_again() {
    let g = place_nodes::<u32, u8>(vec![Some(7), Some(5), Some(9)]).unwrap();
    assert_eq!(g.node_count(), 3);
    assert_eq!(g.get_index_of(&7), Some(0));
    assert_eq!(g.get_index_of(&5), Some(1));
    assert_eq!(g.get_index_of(&9), Some(2));
    assert_eq!(g.edge_count(), 0);
    let none = place_nodes::<u32, u8>(Vec::new()).unwrap();
    assert_eq!(none.node_count(), 0);
    let node = Some(TgfParseError::WrongNodeValue);
    assert_eq!(place_nodes::<u32, u8>(vec![Some(7), None, Some(9)]).err(), node);
    assert_eq!(place_nodes::<u32, u8>(vec![None]).err(), node);
    assert_eq!(place_nodes::<u32, u8>(vec![Some(7), Some(5), Some(7)]).err(), node);
}

#[test]
fn edges_are_placed_in_their_order_unless_one_cannot_be_entered() {
    let nodes = || place_nodes::<u32, u8>(vec![Some(7), Some(5), Some(9)]).unwrap();
    let g = place_edges(nodes(), vec![(0, 1, Some(3)), (2, 2, Some(4)), (1, 0, Some(5))]).unwrap();
    assert_eq!(g.edge_count(), 3);
    assert_eq!(g.get_edge_by_index(0, 1), Some(&3));
    assert_eq!(g.get_edge_by_index(2, 2), Some(&4));
    assert_eq!(g.get_edge_by_index(1, 0), Some(&5));
    assert_eq!(place_edges(nodes(), Vec::new()).unwrap().edge_count(), 0);
    let edge = Some(TgfParseError::WrongEdgeValue);
    assert_eq!(place_edges(nodes(), vec![(0, 1, None)]).err(), edge);
    assert_eq!(place_edges(nodes(), vec![(0, 3, Some(1))]).err(), edge);
    assert_eq!(place_edges(nodes(), vec![(3, 0, Some(1))]).err(), edge);
    assert_eq!(place_edges(nodes(), vec![(0, 1, Some(1)), (0, 1, Some(2))]).err(), edge);
}
