use graphflow::graph::{Edge, Graph, Vertex};
use graphflow::graph_errors::{GraphError, GraphInterfaceError, GraphOperationError};
use graphflow::graph_parser::{add_edge, add_vertex, new_graph, remove_edge, remove_vertex};
use graphflow::weight::Weight;

fn plain(id: i32) -> Vertex {
    Vertex { id, label: None }
}

#[test]
fn add_and_get_vertex() {
    let mut g = Graph::new(true, false, false);
    g.add_vertex(Vertex { id: 5, label: Some("five".to_string()) }).unwrap();
    g.add_vertex(plain(3)).unwrap();
    let v = g.get_vertex(5).unwrap();
    assert_eq!(v.id, 5);
    assert_eq!(v.label.as_deref(), Some("five"));
    assert_eq!(g.get_vertex(3).unwrap().label, None);
    assert!(matches!(g.get_vertex(4), Err(GraphOperationError::VertexNotFound)));
    assert!(matches!(g.add_vertex(plain(5)), Err(GraphOperationError::VertexExists)));
    let ids: Vec<i32> = g.get_vertices().iter().map(|v| v.id).collect();
    assert_eq!(ids, vec![3, 5]);
}

#[test]
fn directed_edges() {
    let mut g = Graph::new(true, true, false);
    g.add_vertex(plain(1)).unwrap();
    g.add_vertex(plain(2)).unwrap();
    g.add_edge(1, Edge::new(2, Some(Weight::new(7)))).unwrap();
    let e = g.get_edge(1, 2).unwrap();
    assert_eq!(e.to, 2);
    assert_eq!(e.weight, Some(Weight::new(7)));
    assert!(matches!(g.get_edge(2, 1), Err(GraphOperationError::EdgeNotFound)));
    assert!(matches!(
        g.add_edge(1, Edge::new(2, Some(Weight::new(9)))),
        Err(GraphOperationError::EdgeExists)
    ));
    g.add_edge(2, Edge::new(1, Some(Weight::new(9)))).unwrap();
    assert_eq!(g.get_edge(2, 1).unwrap().weight, Some(Weight::new(9)));
}

#[test]
fn undirected_symmetry() {
    let mut g = Graph::new(false, true, false);
    g.add_vertex(plain(1)).unwrap();
    g.add_vertex(plain(2)).unwrap();
    assert!(g.get_edge(1, 2).is_err());
    assert!(g.get_edge(2, 1).is_err());
    g.add_edge(1, Edge::new(2, Some(Weight::new(4)))).unwrap();
    assert_eq!(g.get_edge(1, 2).unwrap().weight, Some(Weight::new(4)));
    assert_eq!(g.get_edge(2, 1).unwrap().weight, Some(Weight::new(4)));
    assert!(matches!(
        g.add_edge(2, Edge::new(1, Some(Weight::new(4)))),
        Err(GraphOperationError::EdgeExists)
    ));
}

#[test]
fn edge_lists_are_sorted_by_target() {
    let mut g = Graph::new(true, false, false);
    for id in [4, 1, 3, 2] {
        g.add_vertex(plain(id)).unwrap();
    }
    g.add_edge(1, Edge::new(4, None)).unwrap();
    g.add_edge(1, Edge::new(2, None)).unwrap();
    g.add_edge(1, Edge::new(3, None)).unwrap();
    let targets: Vec<i32> = g.get_edge_list(1).unwrap().iter().map(|e| e.to).collect();
    assert_eq!(targets, vec![2, 3, 4]);
}

#[test]
fn undirected_self_loop() {
    let mut g = Graph::new(false, false, false);
    g.add_vertex(plain(1)).unwrap();
    g.add_edge(1, Edge::new(1, None)).unwrap();
    assert_eq!(g.get_edge(1, 1).unwrap().to, 1);
    assert_eq!(g.get_edge_list(1).unwrap().len(), 1);
    g.remove_edge(1, 1).unwrap();
    assert!(matches!(g.get_edge(1, 1), Err(GraphOperationError::EdgeNotFound)));
}

#[test]
fn weight_flag_consistency() {
    let mut g = Graph::new(true, false, false);
    g.add_vertex(plain(1)).unwrap();
    g.add_vertex(plain(2)).unwrap();
    assert!(matches!(
        g.add_edge(1, Edge::new(2, Some(Weight::new(1)))),
        Err(GraphOperationError::WeightedEdgeInUnweightedGraph)
    ));
    let mut h = Graph::new(true, true, false);
    h.add_vertex(plain(1)).unwrap();
    h.add_vertex(plain(2)).unwrap();
    assert!(matches!(
        h.add_edge(1, Edge::new(2, None)),
        Err(GraphOperationError::UnweightedEdgeInWeightedGraph)
    ));
}

#[test]
fn missing_endpoints() {
    let mut g = Graph::new(true, false, false);
    g.add_vertex(plain(1)).unwrap();
    assert!(matches!(
        g.add_edge(1, Edge::new(2, None)),
        Err(GraphOperationError::SomeVerticesNotFound)
    ));
    assert!(matches!(g.remove_edge(1, 2), Err(GraphOperationError::SomeVerticesNotFound)));
}

#[test]
fn cascade_delete() {
    let mut g = Graph::new(true, false, false);
    for id in [1, 2, 3] {
        g.add_vertex(plain(id)).unwrap();
    }
    g.add_edge(1, Edge::new(2, None)).unwrap();
    g.add_edge(2, Edge::new(3, None)).unwrap();
    g.add_edge(3, Edge::new(2, None)).unwrap();
    g.remove_vertex(2).unwrap();
    assert!(matches!(g.get_vertex(2), Err(GraphOperationError::VertexNotFound)));
    // both directions report the missing vertex, never a missing edge
    assert!(matches!(g.get_edge(2, 3), Err(GraphOperationError::VertexNotFound)));
    assert!(matches!(g.get_edge(1, 2), Err(GraphOperationError::VertexNotFound)));
    assert!(matches!(g.get_edge(3, 2), Err(GraphOperationError::VertexNotFound)));
    assert!(matches!(g.get_edge(1, 3), Err(GraphOperationError::EdgeNotFound)));
    assert_eq!(g.get_edge_list(1).unwrap().len(), 0);
    assert_eq!(g.get_edge_list(3).unwrap().len(), 0);
    assert!(matches!(g.remove_vertex(2), Err(GraphOperationError::VertexNotFound)));
}

#[test]
fn undirected_remove_edge_removes_mirror() {
    let mut g = Graph::new(false, false, false);
    g.add_vertex(plain(1)).unwrap();
    g.add_vertex(plain(2)).unwrap();
    g.add_edge(1, Edge::new(2, None)).unwrap();
    g.remove_edge(2, 1).unwrap();
    assert!(matches!(g.get_edge(1, 2), Err(GraphOperationError::EdgeNotFound)));
    assert!(matches!(g.get_edge(2, 1), Err(GraphOperationError::EdgeNotFound)));
}

#[test]
fn weight_arithmetic_saturates() {
    assert_eq!(Weight::new(i32::MAX).add(Weight::new(1)).v, i32::MAX);
    assert_eq!(Weight::new(i32::MIN).sub(Weight::new(1)).v, i32::MIN);
    assert_eq!(Weight::new(3).add(Weight::new(4)).v, 7);
    assert_eq!(Weight::new(3).sub(Weight::new(4)).v, -1);
    assert_eq!(Weight::zero().v, 0);
    assert_eq!(Weight::inf().v, i32::MAX);
    assert_eq!(Weight::new(2).min_with(Weight::new(5)).v, 2);
    assert_eq!(Weight::new(5).min_with(Weight::new(2)).v, 2);
    assert!(Weight::zero().is_zero());
    assert!(Weight::new(1).le(Weight::new(1)));
    assert!(!Weight::new(2).le(Weight::new(1)));
}

#[test]
fn to_text_exact_directed() {
    let mut g = Graph::new(true, true, false);
    g.add_vertex(Vertex { id: 1, label: Some("a".to_string()) }).unwrap();
    g.add_vertex(plain(2)).unwrap();
    g.add_edge(1, Edge::new(2, Some(Weight::new(7)))).unwrap();
    g.add_edge(2, Edge::new(1, Some(Weight::new(-3)))).unwrap();
    assert_eq!(g.to_text(), "directed weighted int\nvertices\n1 a\n2\nedges\n1 2 7\n2 1 -3\n");
}

#[test]
fn to_text_exact_undirected_writes_each_edge_once() {
    let mut g = Graph::new(false, false, false);
    g.add_vertex(plain(2)).unwrap();
    g.add_vertex(plain(1)).unwrap();
    g.add_edge(2, Edge::new(1, None)).unwrap();
    assert_eq!(g.to_text(), "undirected unweighted int\nvertices\n1\n2\nedges\n1 2\n");
}

#[test]
fn from_text_directed_weighted() {
    let g = Graph::from_text("directed weighted int\nvertices\n1 a\n2\nedges\n1 2 7\n").unwrap();
    assert!(g.get_is_directed());
    assert!(g.get_is_weighted());
    assert!(!g.get_is_float_weights());
    assert_eq!(g.get_vertices().len(), 2);
    assert_eq!(g.get_vertex(1).unwrap().label.as_deref(), Some("a"));
    assert_eq!(g.get_edge(1, 2).unwrap().weight, Some(Weight::new(7)));
}

#[test]
fn from_text_undirected_inserts_mirror() {
    let g = Graph::from_text("undirected weighted int\nvertices\n1\n2\nedges\n1 2 5\n").unwrap();
    assert_eq!(g.get_edge(2, 1).unwrap().weight, Some(Weight::new(5)));
}

#[test]
fn from_text_errors() {
    assert!(matches!(
        Graph::from_text(""),
        Err(GraphError::InterfaceError(GraphInterfaceError::EmptyFile))
    ));
    assert!(matches!(
        Graph::from_text("directed weighted int\nnope\n"),
        Err(GraphError::InterfaceError(GraphInterfaceError::WrongParsingVerticesStart))
    ));
    assert!(matches!(
        Graph::from_text("directed weighted\nvertices\nedges\n"),
        Err(GraphError::InterfaceError(GraphInterfaceError::IncorrectArgumentCount))
    ));
    assert!(matches!(
        Graph::from_text("sideways weighted int\nvertices\nedges\n"),
        Err(GraphError::InterfaceError(GraphInterfaceError::IncorrectArgument { i: 1 }))
    ));
    assert!(matches!(
        Graph::from_text("directed weighted int\nvertices\nbad id\nedges\n"),
        Err(GraphError::InterfaceError(GraphInterfaceError::IncorrectArgument { i: 1 }))
    ));
    assert!(matches!(
        Graph::from_text("directed weighted int\nvertices\n1\n1\nedges\n"),
        Err(GraphError::OperationError(GraphOperationError::VertexExists))
    ));
    assert!(matches!(
        Graph::from_text("directed weighted int\nvertices\n1\n2\nedges\n1 2\n"),
        Err(GraphError::OperationError(GraphOperationError::UnweightedEdgeInWeightedGraph))
    ));
    assert!(matches!(
        Graph::from_text("directed weighted int\nvertices\n1\nedges\n1 2 3\n"),
        Err(GraphError::OperationError(GraphOperationError::SomeVerticesNotFound))
    ));
}

#[test]
fn round_trip_directed() {
    let mut g = Graph::new(true, true, false);
    g.add_vertex(Vertex { id: -4, label: Some("minus".to_string()) }).unwrap();
    g.add_vertex(plain(0)).unwrap();
    g.add_vertex(plain(9)).unwrap();
    g.add_edge(-4, Edge::new(9, Some(Weight::new(12)))).unwrap();
    g.add_edge(9, Edge::new(-4, Some(Weight::new(-2)))).unwrap();
    g.add_edge(0, Edge::new(0, Some(Weight::new(1)))).unwrap();
    let h = Graph::from_text(&g.to_text()).unwrap();
    assert_eq!(h.get_vertices().len(), 3);
    assert_eq!(h.get_vertex(-4).unwrap().label.as_deref(), Some("minus"));
    assert_eq!(h.get_vertex(0).unwrap().label, None);
    assert_eq!(h.get_edge(-4, 9).unwrap().weight, Some(Weight::new(12)));
    assert_eq!(h.get_edge(9, -4).unwrap().weight, Some(Weight::new(-2)));
    assert_eq!(h.get_edge(0, 0).unwrap().weight, Some(Weight::new(1)));
    assert!(h.get_edge(9, 0).is_err());
}

#[test]
fn round_trip_undirected_unweighted() {
    let mut g = Graph::new(false, false, true);
    for id in [3, 1, 2] {
        g.add_vertex(plain(id)).unwrap();
    }
    g.add_edge(3, Edge::new(1, None)).unwrap();
    g.add_edge(2, Edge::new(2, None)).unwrap();
    let text = g.to_text();
    let h = Graph::from_text(&text).unwrap();
    assert!(!h.get_is_directed());
    assert!(!h.get_is_weighted());
    assert!(h.get_is_float_weights());
    assert_eq!(h.get_vertices().len(), 3);
    assert_eq!(h.get_edge(1, 3).unwrap().to, 3);
    assert_eq!(h.get_edge(3, 1).unwrap().to, 1);
    assert_eq!(h.get_edge(2, 2).unwrap().to, 2);
    assert_eq!(h.to_text(), text);
}

#[test]
fn command_new_graph() {
    let mut og: Option<Graph> = None;
    let args: Vec<String> =
        vec!["undirected".to_string(), "weighted".to_string(), "float".to_string()];
    new_graph(&args, &mut og).unwrap();
    let g = og.as_ref().unwrap();
    assert!(!g.get_is_directed());
    assert!(g.get_is_weighted());
    assert!(g.get_is_float_weights());
    let bad: Vec<String> = vec!["directed".to_string()];
    assert!(matches!(
        new_graph(&bad, &mut og),
        Err(GraphInterfaceError::IncorrectArgumentCount)
    ));
    let bad2: Vec<String> =
        vec!["directed".to_string(), "heavy".to_string(), "int".to_string()];
    assert!(matches!(
        new_graph(&bad2, &mut og),
        Err(GraphInterfaceError::IncorrectArgument { i: 2 })
    ));
}

#[test]
fn command_mutations() {
    let mut og: Option<Graph> = None;
    assert!(matches!(
        add_vertex(&vec!["1".to_string()], &mut og),
        Err(GraphError::InterfaceError(GraphInterfaceError::GraphNotExist))
    ));
    let args: Vec<String> =
        vec!["directed".to_string(), "weighted".to_string(), "int".to_string()];
    new_graph(&args, &mut og).unwrap();
    add_vertex(&vec!["1".to_string(), "one".to_string()], &mut og).unwrap();
    add_vertex(&vec!["2".to_string()], &mut og).unwrap();
    add_edge(&vec!["1".to_string(), "2".to_string(), "10".to_string()], &mut og).unwrap();
    assert!(matches!(
        add_edge(&vec!["1".to_string(), "2".to_string(), "x".to_string()], &mut og),
        Err(GraphError::InterfaceError(GraphInterfaceError::IncorrectArgument { i: 3 }))
    ));
    {
        let g = og.as_ref().unwrap();
        assert_eq!(g.get_vertex(1).unwrap().label.as_deref(), Some("one"));
        assert_eq!(g.get_edge(1, 2).unwrap().weight, Some(Weight::new(10)));
    }
    remove_edge("1", "2", &mut og).unwrap();
    assert!(matches!(
        remove_edge("1", "2", &mut og),
        Err(GraphError::OperationError(GraphOperationError::EdgeNotFound))
    ));
    remove_vertex("2", &mut og).unwrap();
    assert!(matches!(
        remove_vertex("2", &mut og),
        Err(GraphError::OperationError(GraphOperationError::VertexNotFound))
    ));
    assert!(matches!(
        remove_vertex("zzz", &mut og),
        Err(GraphError::InterfaceError(GraphInterfaceError::IncorrectArgument { i: 1 }))
    ));
}

#[test]
fn failed_mutation_leaves_graph_unchanged() {
    let mut g = Graph::new(true, true, false);
    g.add_vertex(plain(1)).unwrap();
    g.add_vertex(plain(2)).unwrap();
    g.add_edge(1, Edge::new(2, Some(Weight::new(3)))).unwrap();
    let before = g.to_text();
    let _ = g.add_edge(1, Edge::new(2, Some(Weight::new(8))));
    let _ = g.add_vertex(plain(2));
    let _ = g.remove_vertex(7);
    let _ = g.remove_edge(2, 1);
    assert_eq!(g.to_text(), before);
}
