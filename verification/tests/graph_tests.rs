use tsqc::{Graph, ParseError};

#[test]
fn tiny_triangle() {
    let g = Graph::from_edge_list(3, &[(0, 1), (0, 2), (1, 2)]);
    assert_eq!(g.n(), 3);
    assert_eq!(g.m(), 3);
    assert_eq!(g.edge_list().len(), 3);
}

#[test]
fn with_vertices_has_no_edges() {
    let g = Graph::with_vertices(5);
    assert_eq!(g.n(), 5);
    assert_eq!(g.m(), 0);
    assert!(g.edge_list().is_empty());
    for v in 0..5 {
        assert_eq!(g.degree(v), 0);
        assert_eq!(g.neigh_row(v).len(), 5);
        assert_eq!(g.neigh_row(v).count_ones(), 0);
    }
}

#[test]
fn zero_vertices() {
    let g = Graph::with_vertices(0);
    assert_eq!(g.n(), 0);
    assert_eq!(g.m(), 0);
}

#[test]
fn add_edge_is_symmetric() {
    let mut g = Graph::with_vertices(4);
    g.add_edge(1, 3);
    assert!(g.neigh_row(1).get(3));
    assert!(g.neigh_row(3).get(1));
    assert!(!g.neigh_row(1).get(1));
    assert!(!g.neigh_row(0).get(3));
    assert_eq!(g.degree(1), 1);
    assert_eq!(g.degree(3), 1);
    assert_eq!(g.degree(0), 0);
    assert_eq!(g.m(), 1);
}

#[test]
fn duplicate_edges_collapse() {
    let g = Graph::from_edge_list(3, &[(0, 1), (1, 0), (0, 1)]);
    assert_eq!(g.m(), 1);
    assert_eq!(g.edge_list(), vec![(0, 1)]);
}

#[test]
fn edge_list_is_ordered() {
    let g = Graph::from_edge_list(4, &[(2, 3), (3, 0), (1, 0), (2, 1)]);
    assert_eq!(g.edge_list(), vec![(0, 1), (0, 3), (1, 2), (2, 3)]);
    assert_eq!(g.degree(0), 2);
    assert_eq!(g.degree(2), 2);
}

#[test]
fn parse_triangle() {
    let g = Graph::parse_dimacs(b"p edge 3 3\ne 1 2\ne 1 3\ne 2 3\n").unwrap();
    assert_eq!(g.n(), 3);
    assert_eq!(g.m(), 3);
    assert_eq!(g.edge_list(), vec![(0, 1), (0, 2), (1, 2)]);
}

#[test]
fn parse_skips_comments_and_blank_lines() {
    let text = b"c a comment\n\n   \np edge 4 2\nc another\ne 1 2\n\r\ne 3 4\r\nx ignored\n";
    let g = Graph::parse_dimacs(text).unwrap();
    assert_eq!(g.n(), 4);
    assert_eq!(g.edge_list(), vec![(0, 1), (2, 3)]);
}

#[test]
fn parse_without_final_newline() {
    let g = Graph::parse_dimacs(b"p edge 2 1\ne 2 1").unwrap();
    assert_eq!(g.n(), 2);
    assert_eq!(g.edge_list(), vec![(0, 1)]);
}

#[test]
fn parse_empty_input() {
    let g = Graph::parse_dimacs(b"").unwrap();
    assert_eq!(g.n(), 0);
}

#[test]
fn parse_edge_count_is_advisory() {
    let g = Graph::parse_dimacs(b"p edge 3 99\ne 1 2\n").unwrap();
    assert_eq!(g.m(), 1);
    let h = Graph::parse_dimacs(b"p edge 3\n").unwrap();
    assert_eq!(h.n(), 3);
}

#[test]
fn parse_last_header_counts() {
    let g = Graph::parse_dimacs(b"p edge 2 0\np edge 5 0\n").unwrap();
    assert_eq!(g.n(), 5);
}

#[test]
fn parse_leading_space_and_tabs() {
    let g = Graph::parse_dimacs(b"  p\tedge\t3 1\n\te  +1   3  \n").unwrap();
    assert_eq!(g.n(), 3);
    assert_eq!(g.edge_list(), vec![(0, 2)]);
}

#[test]
fn parse_malformed_header() {
    assert_eq!(Graph::parse_dimacs(b"p edge\n").err(), Some(ParseError::MalformedHeader));
    assert_eq!(Graph::parse_dimacs(b"p edge x 3\n").err(), Some(ParseError::MalformedHeader));
    assert_eq!(Graph::parse_dimacs(b"p edge -3 3\n").err(), Some(ParseError::MalformedHeader));
    assert_eq!(
        Graph::parse_dimacs(b"p edge 99999999999999999999999999 3\n").err(),
        Some(ParseError::MalformedHeader)
    );
}

#[test]
fn parse_malformed_edge() {
    assert_eq!(Graph::parse_dimacs(b"p edge 3 1\ne 1\n").err(), Some(ParseError::MalformedEdge));
    assert_eq!(Graph::parse_dimacs(b"p edge 3 1\ne 1 b\n").err(), Some(ParseError::MalformedEdge));
    assert_eq!(Graph::parse_dimacs(b"p edge 3 1\ne\n").err(), Some(ParseError::MalformedEdge));
    assert_eq!(Graph::parse_dimacs(b"p edge 3 1\ne 1 2x\n").err(), Some(ParseError::MalformedEdge));
}

#[test]
fn parse_invalid_edge() {
    assert_eq!(Graph::parse_dimacs(b"p edge 3 1\ne 0 1\n").err(), Some(ParseError::InvalidEdge));
    assert_eq!(Graph::parse_dimacs(b"p edge 3 1\ne 1 4\n").err(), Some(ParseError::InvalidEdge));
    assert_eq!(Graph::parse_dimacs(b"p edge 3 1\ne 2 2\n").err(), Some(ParseError::InvalidEdge));
    assert_eq!(Graph::parse_dimacs(b"e 1 2\n").err(), Some(ParseError::InvalidEdge));
}

#[test]
fn parse_too_many_vertices() {
    assert_eq!(
        Graph::parse_dimacs(b"p edge 18446744073709551615 0\n").err(),
        Some(ParseError::TooManyVertices)
    );
}

#[test]
fn parse_first_refused_line_is_reported() {
    assert_eq!(
        Graph::parse_dimacs(b"p edge 3 1\ne 1\np edge\n").err(),
        Some(ParseError::MalformedEdge)
    );
}
