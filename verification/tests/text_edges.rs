use graphflow::graph::{Edge, Graph, Vertex};
use graphflow::graph_errors::{GraphError, GraphInterfaceError};
use graphflow::weight::Weight;

#[test]
fn crlf_input_parses() {
    let g = Graph::from_text("directed weighted int\r\nvertices\r\n1\r\n2\r\nedges\r\n1 2 3\r\n")
        .unwrap();
    assert_eq!(g.get_vertices().len(), 2);
    assert_eq!(g.get_edge(1, 2).unwrap().weight, Some(Weight::new(3)));
}

#[test]
fn extreme_values_round_trip() {
    let mut g = Graph::new(true, true, false);
    g.add_vertex(Vertex { id: i32::MAX, label: None }).unwrap();
    g.add_vertex(Vertex { id: i32::MIN, label: None }).unwrap();
    g.add_edge(i32::MIN, Edge::new(i32::MAX, Some(Weight::new(i32::MIN)))).unwrap();
    let h = Graph::from_text(&g.to_text()).unwrap();
    assert_eq!(h.get_edge(i32::MIN, i32::MAX).unwrap().weight, Some(Weight::new(i32::MIN)));
}

#[test]
fn plus_sign_and_extra_spaces_are_accepted() {
    let g = Graph::from_text("directed  weighted\tint\nvertices\n 1 \n+2\nedges\n1 +2 +9\n")
        .unwrap();
    assert_eq!(g.get_edge(1, 2).unwrap().weight, Some(Weight::new(9)));
}

#[test]
fn out_of_range_id_is_rejected() {
    assert!(matches!(
        Graph::from_text("directed weighted int\nvertices\n2147483648\nedges\n"),
        Err(GraphError::InterfaceError(GraphInterfaceError::IncorrectArgument { i: 1 }))
    ));
}

#[test]
fn fractional_weight_text_is_rejected() {
    assert!(matches!(
        Graph::from_text("directed weighted float\nvertices\n1\n2\nedges\n1 2 1.5\n"),
        Err(GraphError::InterfaceError(GraphInterfaceError::IncorrectArgument { i: 3 }))
    ));
}

#[test]
fn blank_line_in_edge_section_is_rejected() {
    assert!(matches!(
        Graph::from_text("directed unweighted int\nvertices\n1\nedges\n\n"),
        Err(GraphError::InterfaceError(GraphInterfaceError::IncorrectArgumentCount))
    ));
}

#[test]
fn punctuated_label_round_trips() {
    let mut g = Graph::new(false, false, false);
    g.add_vertex(Vertex { id: 7, label: Some("a-b_c.d".to_string()) }).unwrap();
    let h = Graph::from_text(&g.to_text()).unwrap();
    assert_eq!(h.get_vertex(7).unwrap().label.as_deref(), Some("a-b_c.d"));
}

#[test]
fn marker_lines_are_required() {
    assert!(matches!(
        Graph::from_text("undirected unweighted int\n"),
        Err(GraphError::InterfaceError(GraphInterfaceError::WrongParsingVerticesStart))
    ));
    assert!(matches!(
        Graph::from_text("undirected unweighted int\nvertices\n1\n"),
        Err(GraphError::InterfaceError(GraphInterfaceError::WrongParsingVerticesStart))
    ));
    let g = Graph::from_text("undirected unweighted int\nvertices\nedges\n").unwrap();
    assert_eq!(g.get_vertices().len(), 0);
    assert!(!g.get_is_directed());
}
