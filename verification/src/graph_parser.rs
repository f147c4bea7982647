//! The command adapter: validates whitespace-separated textual arguments and
//! drives the graph mutation API, reporting the same errors as interactive
//! mutation.

use vstd::prelude::*;

use crate::graph::Edge;
use crate::graph::Graph;
use crate::graph::GraphModel;
use crate::graph::Vertex;
use crate::graph_errors::GraphError;
use crate::graph_errors::GraphInterfaceError;
use crate::graph_errors::GraphOperationError;
use crate::graph_text::parse_i32;
use crate::graph_text::spec_parse_int;
use crate::graph_text::str_eq;
use crate::weight::Weight;

verus! {

/// What creating a graph from header tokens yields: the three flags in
/// order, each from its fixed pair of words.
pub open spec fn spec_new_graph(args: Seq<Seq<char>>) -> Result<
    GraphModel,
    GraphInterfaceError,
> {
    if args.len() != 3 {
        Err(GraphInterfaceError::IncorrectArgumentCount)
    } else if args[0] != "directed"@ && args[0] != "undirected"@ {
        Err(GraphInterfaceError::IncorrectArgument { i: 1 })
    } else if args[1] != "weighted"@ && args[1] != "unweighted"@ {
        Err(GraphInterfaceError::IncorrectArgument { i: 2 })
    } else if args[2] != "float"@ && args[2] != "int"@ {
        Err(GraphInterfaceError::IncorrectArgument { i: 3 })
    } else {
        Ok(
            GraphModel::empty(
                args[0] == "directed"@,
                args[1] == "weighted"@,
                args[2] == "float"@,
            ),
        )
    }
}

/// What adding a vertex from tokens yields: an id, an optional one-token
/// label, and the graph's own rules.
pub open spec fn spec_add_vertex(args: Seq<Seq<char>>, og: Option<GraphModel>) -> Result<
    GraphModel,
    GraphError,
> {
    if args.len() == 0 || args.len() > 2 {
        Err(GraphError::InterfaceError(GraphInterfaceError::IncorrectArgumentCount))
    } else {
        match spec_parse_int(args[0]) {
            None => Err(
                GraphError::InterfaceError(GraphInterfaceError::IncorrectArgument { i: 1 }),
            ),
            Some(id) => {
                let label = if args.len() == 2 {
                    Some(args[1])
                } else {
                    None
                };
                match og {
                    None => Err(
                        GraphError::InterfaceError(GraphInterfaceError::GraphNotExist),
                    ),
                    Some(m) => if m.has_vertex(id) {
                        Err(GraphError::OperationError(GraphOperationError::VertexExists))
                    } else {
                        Ok(m.with_vertex(id, label))
                    },
                }
            },
        }
    }
}

/// What removing a vertex from its textual id yields.
pub open spec fn spec_remove_vertex(i_str: Seq<char>, og: Option<GraphModel>) -> Result<
    GraphModel,
    GraphError,
> {
    match spec_parse_int(i_str) {
        None => Err(GraphError::InterfaceError(GraphInterfaceError::IncorrectArgument { i: 1 })),
        Some(id) => match og {
            None => Err(GraphError::InterfaceError(GraphInterfaceError::GraphNotExist)),
            Some(m) => if m.has_vertex(id) {
                Ok(m.without_vertex(id))
            } else {
                Err(GraphError::OperationError(GraphOperationError::VertexNotFound))
            },
        },
    }
}

/// What adding an edge from tokens yields: two endpoint ids, an optional
/// weight, and the graph's own rules, in their order.
pub open spec fn spec_add_edge(args: Seq<Seq<char>>, og: Option<GraphModel>) -> Result<
    GraphModel,
    GraphError,
> {
    if args.len() < 2 || args.len() > 3 {
        Err(GraphError::InterfaceError(GraphInterfaceError::IncorrectArgumentCount))
    } else {
        match og {
            None => Err(GraphError::InterfaceError(GraphInterfaceError::GraphNotExist)),
            Some(m) => match spec_parse_int(args[0]) {
                None => Err(
                    GraphError::InterfaceError(GraphInterfaceError::IncorrectArgument { i: 1 }),
                ),
                Some(i) => match spec_parse_int(args[1]) {
                    None => Err(
                        GraphError::InterfaceError(
                            GraphInterfaceError::IncorrectArgument { i: 2 },
                        ),
                    ),
                    Some(j) => if args.len() == 3 && spec_parse_int(args[2]) is None {
                        Err(
                            GraphError::InterfaceError(
                                GraphInterfaceError::IncorrectArgument { i: 3 },
                            ),
                        )
                    } else {
                        let w = if args.len() == 3 {
                            Some(spec_parse_int(args[2])->0)
                        } else {
                            None
                        };
                        if (w is Some) != m.is_weighted {
                            if w is Some {
                                Err(
                                    GraphError::OperationError(
                                        GraphOperationError::WeightedEdgeInUnweightedGraph,
                                    ),
                                )
                            } else {
                                Err(
                                    GraphError::OperationError(
                                        GraphOperationError::UnweightedEdgeInWeightedGraph,
                                    ),
                                )
                            }
                        } else if !m.has_vertex(i) || !m.has_vertex(j) {
                            Err(
                                GraphError::OperationError(
                                    GraphOperationError::SomeVerticesNotFound,
                                ),
                            )
                        } else if m.has_arc(i, j) || (!m.is_directed && m.has_arc(j, i)) {
                            Err(GraphError::OperationError(GraphOperationError::EdgeExists))
                        } else {
                            Ok(m.with_edge(i, j, w))
                        }
                    },
                },
            },
        }
    }
}

/// What removing an edge from two textual ids yields.
pub open spec fn spec_remove_edge(
    i_str: Seq<char>,
    j_str: Seq<char>,
    og: Option<GraphModel>,
) -> Result<GraphModel, GraphError> {
    match spec_parse_int(i_str) {
        None => Err(GraphError::InterfaceError(GraphInterfaceError::IncorrectArgument { i: 1 })),
        Some(i) => match spec_parse_int(j_str) {
            None => Err(
                GraphError::InterfaceError(GraphInterfaceError::IncorrectArgument { i: 2 }),
            ),
            Some(j) => match og {
                None => Err(GraphError::InterfaceError(GraphInterfaceError::GraphNotExist)),
                Some(m) => if !m.has_vertex(i) || !m.has_vertex(j) {
                    Err(GraphError::OperationError(GraphOperationError::SomeVerticesNotFound))
                } else if !m.has_arc(i, j) {
                    Err(GraphError::OperationError(GraphOperationError::EdgeNotFound))
                } else {
                    Ok(m.without_edge(i, j))
                },
            },
        },
    }
}

/// The model of an optional graph.
pub open spec fn opt_model(g: Option<Graph>) -> Option<GraphModel> {
    match g {
        Some(gr) => Some(gr@),
        None => None,
    }
}

/// Whether an optional graph is well-formed.
pub open spec fn opt_wf(g: Option<Graph>) -> bool {
    match g {
        Some(gr) => gr.wf(),
        None => true,
    }
}

/// Creates an empty graph from the three header tokens, replacing whatever
/// graph was held before.
pub fn new_graph(args: &Vec<String>, g: &mut Option<Graph>) -> (r: Result<
    (),
    GraphInterfaceError,
>)
    requires
        opt_wf(*old(g)),
    ensures
        opt_wf(*final(g)),
        match r {
            Ok(()) => spec_new_graph(args.deep_view()) is Ok && (*final(g)) is Some && ((*final(g))->0)@ == spec_new_graph(args.deep_view())->Ok_0,
            Err(e) => spec_new_graph(args.deep_view()) == Err::<GraphModel, _>(e) && *final(g)
                == *old(g),
        },
{
    if args.len() != 3 {
        return Err(GraphInterfaceError::IncorrectArgumentCount);
    }
    let is_directed = if str_eq(args[0].as_str(), "directed") {
        true
    } else if str_eq(args[0].as_str(), "undirected") {
        false
    } else {
        return Err(GraphInterfaceError::IncorrectArgument { i: 1 });
    };
    let is_weighted = if str_eq(args[1].as_str(), "weighted") {
        true
    } else if str_eq(args[1].as_str(), "unweighted") {
        false
    } else {
        return Err(GraphInterfaceError::IncorrectArgument { i: 2 });
    };
    let is_float_weights = if str_eq(args[2].as_str(), "float") {
        true
    } else if str_eq(args[2].as_str(), "int") {
        false
    } else {
        return Err(GraphInterfaceError::IncorrectArgument { i: 3 });
    };
    *g = Some(Graph::new(is_directed, is_weighted, is_float_weights));
    Ok(())
}

/// Adds a vertex named by its textual id, with an optional one-token label.
pub fn add_vertex(args: &Vec<String>, g: &mut Option<Graph>) -> (r: Result<(), GraphError>)
    requires
        opt_wf(*old(g)),
    ensures
        opt_wf(*final(g)),
        match r {
            Ok(()) => spec_add_vertex(args.deep_view(), opt_model(*old(g))) is Ok && (*final(g)) is Some && ((*final(g))->0)@ == spec_add_vertex(
                args.deep_view(),
                opt_model(*old(g)),
            )->Ok_0,
            Err(e) => spec_add_vertex(args.deep_view(), opt_model(*old(g))) == Err::<
                GraphModel,
                _,
            >(e) && *final(g) == *old(g),
        },
{
    if args.len() == 0 || args.len() > 2 {
        return Err(GraphError::InterfaceError(GraphInterfaceError::IncorrectArgumentCount));
    }
    let id = match parse_i32(args[0].as_str()) {
        Some(v) => v,
        None => {
            return Err(
                GraphError::InterfaceError(GraphInterfaceError::IncorrectArgument { i: 1 }),
            );
        },
    };
    let label = if args.len() == 2 {
        Some(args[1].clone())
    } else {
        None
    };
    proof {
        match &label {
            Some(l) => assert(l.deep_view() == args.deep_view()[1]),
            None => {},
        }
    }
    let gr = match g {
        Some(gr) => gr,
        None => {
            return Err(GraphError::InterfaceError(GraphInterfaceError::GraphNotExist));
        },
    };
    match gr.add_vertex(Vertex { id, label }) {
        Ok(()) => Ok(()),
        Err(e) => Err(GraphError::OperationError(e)),
    }
}

/// Removes the vertex named by its textual id, and every edge incident to
/// it.
pub fn remove_vertex(i_str: &str, g: &mut Option<Graph>) -> (r: Result<(), GraphError>)
    requires
        opt_wf(*old(g)),
    ensures
        opt_wf(*final(g)),
        match r {
            Ok(()) => spec_remove_vertex(i_str@, opt_model(*old(g))) is Ok && (*final(g)) is Some
                && ((*final(g))->0)@ == spec_remove_vertex(i_str@, opt_model(*old(g)))->Ok_0,
            Err(e) => spec_remove_vertex(i_str@, opt_model(*old(g))) == Err::<GraphModel, _>(e)
                && *final(g) == *old(g),
        },
{
    let id = match parse_i32(i_str) {
        Some(v) => v,
        None => {
            return Err(
                GraphError::InterfaceError(GraphInterfaceError::IncorrectArgument { i: 1 }),
            );
        },
    };
    let gr = match g {
        Some(gr) => gr,
        None => {
            return Err(GraphError::InterfaceError(GraphInterfaceError::GraphNotExist));
        },
    };
    match gr.remove_vertex(id) {
        Ok(()) => Ok(()),
        Err(e) => Err(GraphError::OperationError(e)),
    }
}

/// Adds an edge named by two textual endpoint ids and an optional weight.
pub fn add_edge(args: &Vec<String>, g: &mut Option<Graph>) -> (r: Result<(), GraphError>)
    requires
        opt_wf(*old(g)),
    ensures
        opt_wf(*final(g)),
        match r {
            Ok(()) => spec_add_edge(args.deep_view(), opt_model(*old(g))) is Ok && (*final(g)) is Some && ((*final(g))->0)@ == spec_add_edge(
                args.deep_view(),
                opt_model(*old(g)),
            )->Ok_0,
            Err(e) => spec_add_edge(args.deep_view(), opt_model(*old(g))) == Err::<
                GraphModel,
                _,
            >(e) && *final(g) == *old(g),
        },
{
    if args.len() < 2 || args.len() > 3 {
        return Err(GraphError::InterfaceError(GraphInterfaceError::IncorrectArgumentCount));
    }
    let gr = match g {
        Some(gr) => gr,
        None => {
            return Err(GraphError::InterfaceError(GraphInterfaceError::GraphNotExist));
        },
    };
    let i = match parse_i32(args[0].as_str()) {
        Some(v) => v,
        None => {
            return Err(
                GraphError::InterfaceError(GraphInterfaceError::IncorrectArgument { i: 1 }),
            );
        },
    };
    let j = match parse_i32(args[1].as_str()) {
        Some(v) => v,
        None => {
            return Err(
                GraphError::InterfaceError(GraphInterfaceError::IncorrectArgument { i: 2 }),
            );
        },
    };
    let weight = if args.len() == 3 {
        match parse_i32(args[2].as_str()) {
            Some(v) => Some(Weight::new(v)),
            None => {
                return Err(
                    GraphError::InterfaceError(GraphInterfaceError::IncorrectArgument { i: 3 }),
                );
            },
        }
    } else {
        None
    };
    match gr.add_edge(i, Edge::new(j, weight)) {
        Ok(()) => Ok(()),
        Err(e) => Err(GraphError::OperationError(e)),
    }
}

/// Removes the edge named by two textual endpoint ids.
pub fn remove_edge(i_str: &str, j_str: &str, g: &mut Option<Graph>) -> (r: Result<
    (),
    GraphError,
>)
    requires
        opt_wf(*old(g)),
    ensures
        opt_wf(*final(g)),
        match r {
            Ok(()) => spec_remove_edge(i_str@, j_str@, opt_model(*old(g))) is Ok && (*final(g)) is Some && ((*final(g))->0)@ == spec_remove_edge(
                i_str@,
                j_str@,
                opt_model(*old(g)),
            )->Ok_0,
            Err(e) => spec_remove_edge(i_str@, j_str@, opt_model(*old(g))) == Err::<
                GraphModel,
                _,
            >(e) && *final(g) == *old(g),
        },
{
    let i = match parse_i32(i_str) {
        Some(v) => v,
        None => {
            return Err(
                GraphError::InterfaceError(GraphInterfaceError::IncorrectArgument { i: 1 }),
            );
        },
    };
    let j = match parse_i32(j_str) {
        Some(v) => v,
        None => {
            return Err(
                GraphError::InterfaceError(GraphInterfaceError::IncorrectArgument { i: 2 }),
            );
        },
    };
    let gr = match g {
        Some(gr) => gr,
        None => {
            return Err(GraphError::InterfaceError(GraphInterfaceError::GraphNotExist));
        },
    };
    match gr.remove_edge(i, j) {
        Ok(()) => Ok(()),
        Err(e) => Err(GraphError::OperationError(e)),
    }
}

} // verus!
