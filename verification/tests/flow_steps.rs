use graphflow::graph::{Edge, Graph, Vertex};
use graphflow::graph_errors::{GraphAlgorithmError, GraphError, GraphInterfaceError};
use graphflow::graph_flows::{algorithm_step, AlgorithmState};
use graphflow::weight::Weight;

fn plain(id: i32) -> Vertex {
    Vertex { id, label: None }
}

fn network() -> Graph {
    // s = 0, a = 1, b = 2, t = 3
    let mut g = Graph::new(true, true, false);
    for id in [0, 1, 2, 3] {
        g.add_vertex(plain(id)).unwrap();
    }
    g.add_edge(0, Edge::new(1, Some(Weight::new(3)))).unwrap();
    g.add_edge(0, Edge::new(2, Some(Weight::new(2)))).unwrap();
    g.add_edge(1, Edge::new(2, Some(Weight::new(1)))).unwrap();
    g.add_edge(1, Edge::new(3, Some(Weight::new(2)))).unwrap();
    g.add_edge(2, Edge::new(3, Some(Weight::new(3)))).unwrap();
    g
}

#[test]
fn max_flow_reaches_value() {
    let og = Some(network());
    let mut state = AlgorithmState::NotStarted;
    let mut sum: i64 = 0;
    let mut rounds = 0;
    loop {
        state = algorithm_step(state, &og, "0", "3").unwrap();
        match &state {
            AlgorithmState::Step(d) => {
                sum += d.get_last_flow().v as i64;
            },
            AlgorithmState::Finished(d) => {
                // two units via a, two via b, and one more along a -> b
                assert_eq!(d.get_total_flow().v, 5);
                assert_eq!(sum, 5);
                assert!(d.get_curr_path().is_none());
                break;
            },
            AlgorithmState::NotStarted => panic!("reset before finishing"),
        }
        rounds += 1;
        assert!(rounds < 100);
    }
}

#[test]
fn step_preconditions() {
    assert!(matches!(
        algorithm_step(AlgorithmState::NotStarted, &None, "0", "3"),
        Err(GraphError::InterfaceError(GraphInterfaceError::GraphNotExist))
    ));
    let undirected = Some(Graph::new(false, true, false));
    assert!(matches!(
        algorithm_step(AlgorithmState::NotStarted, &undirected, "0", "3"),
        Err(GraphError::AlgorithmError(GraphAlgorithmError::GraphNotDirected))
    ));
    let unweighted = Some(Graph::new(true, false, false));
    assert!(matches!(
        algorithm_step(AlgorithmState::NotStarted, &unweighted, "0", "3"),
        Err(GraphError::AlgorithmError(GraphAlgorithmError::GraphNotWeighted))
    ));
    let og = Some(network());
    assert!(matches!(
        algorithm_step(AlgorithmState::NotStarted, &og, "zero", "3"),
        Err(GraphError::InterfaceError(GraphInterfaceError::IncorrectArgument { i: 1 }))
    ));
    assert!(matches!(
        algorithm_step(AlgorithmState::NotStarted, &og, "0", "17"),
        Err(GraphError::InterfaceError(GraphInterfaceError::IncorrectArgument { i: 2 }))
    ));
}

#[test]
fn no_path_finishes_immediately() {
    let mut g = Graph::new(true, true, false);
    g.add_vertex(plain(0)).unwrap();
    g.add_vertex(plain(1)).unwrap();
    let og = Some(g);
    let st1 = algorithm_step(AlgorithmState::NotStarted, &og, "0", "1").unwrap();
    assert!(matches!(st1, AlgorithmState::Step(_)));
    let st2 = algorithm_step(st1, &og, "0", "1").unwrap();
    match &st2 {
        AlgorithmState::Finished(d) => {
            assert_eq!(d.get_total_flow().v, 0);
            assert_eq!(d.get_last_flow().v, 0);
            assert!(d.get_curr_path().is_none());
        },
        _ => panic!("expected the computation to finish at once"),
    }
}

#[test]
fn finished_resets_and_revalidates() {
    let og = Some(network());
    let mut state = AlgorithmState::NotStarted;
    let mut rounds = 0;
    loop {
        state = algorithm_step(state, &og, "0", "3").unwrap();
        if matches!(state, AlgorithmState::Finished(_)) {
            break;
        }
        rounds += 1;
        assert!(rounds < 100);
    }
    let reset = algorithm_step(state, &og, "0", "3").unwrap();
    assert!(matches!(reset, AlgorithmState::NotStarted));
    // after the reset the graph is read anew, not from a stale snapshot
    assert!(matches!(
        algorithm_step(reset, &None, "0", "3"),
        Err(GraphError::InterfaceError(GraphInterfaceError::GraphNotExist))
    ));
}

#[test]
fn step_records_path_deltas() {
    let og = Some(network());
    let st1 = algorithm_step(AlgorithmState::NotStarted, &og, "0", "3").unwrap();
    match &st1 {
        AlgorithmState::Step(d) => {
            assert_eq!(d.get_last_flow().v, 0);
            assert_eq!(d.get_total_flow().v, 0);
            assert!(d.get_curr_path().is_none());
        },
        _ => panic!("expected the computation to start"),
    }
    let st2 = algorithm_step(st1, &og, "0", "3").unwrap();
    match &st2 {
        AlgorithmState::Step(d) => {
            // the first search follows ascending target order: 0 -> 1 -> 2 -> 3
            assert_eq!(d.get_last_flow().v, 1);
            let path = d.get_curr_path().as_ref().unwrap();
            assert_eq!(path.len(), 6);
            let fwd: Vec<(i32, i32, i32)> = path
                .iter()
                .filter(|p| p.flow.v > 0)
                .map(|p| (p.from, p.to, p.flow.v))
                .collect();
            assert!(fwd.contains(&(0, 1, 1)));
            assert!(fwd.contains(&(1, 2, 1)));
            assert!(fwd.contains(&(2, 3, 1)));
            // the flow graph carries the pushed flow forward and its negation back
            let gf = d.get_gf();
            assert_eq!(gf.get_edge(0, 1).unwrap().weight, Some(Weight::new(1)));
            assert_eq!(gf.get_edge(1, 0).unwrap().weight, Some(Weight::new(-1)));
        },
        _ => panic!("expected a second augmenting step"),
    }
}

#[test]
fn source_equal_to_sink_short_circuits() {
    let og = Some(network());
    let st1 = algorithm_step(AlgorithmState::NotStarted, &og, "2", "2").unwrap();
    let st2 = algorithm_step(st1, &og, "2", "2").unwrap();
    match &st2 {
        AlgorithmState::Step(d) => {
            assert_eq!(d.get_last_flow().v, i32::MAX);
            assert_eq!(d.get_total_flow().v, i32::MAX);
        },
        _ => panic!("a self-loop search yields the flow cap"),
    }
}

#[test]
fn flow_cancels_through_reverse_arc() {
    // s = 0, a = 1, b = 2, t = 3; the first search sends its unit through
    // the middle arc, the second pushes it back through the reverse arc
    let mut g = Graph::new(true, true, false);
    for id in [0, 1, 2, 3] {
        g.add_vertex(plain(id)).unwrap();
    }
    g.add_edge(0, Edge::new(1, Some(Weight::new(1)))).unwrap();
    g.add_edge(0, Edge::new(2, Some(Weight::new(1)))).unwrap();
    g.add_edge(1, Edge::new(2, Some(Weight::new(1)))).unwrap();
    g.add_edge(1, Edge::new(3, Some(Weight::new(1)))).unwrap();
    g.add_edge(2, Edge::new(3, Some(Weight::new(1)))).unwrap();
    let og = Some(g);
    let mut state = AlgorithmState::NotStarted;
    let mut rounds = 0;
    loop {
        state = algorithm_step(state, &og, "0", "3").unwrap();
        if let AlgorithmState::Finished(d) = &state {
            assert_eq!(d.get_total_flow().v, 2);
            // the cancelled middle arc carries no net flow
            assert_eq!(d.get_gf().get_edge(1, 2).unwrap().weight, Some(Weight::new(0)));
            break;
        }
        rounds += 1;
        assert!(rounds < 100);
    }
}
