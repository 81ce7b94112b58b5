use vstd::prelude::*;

verus! {

/// Specifications for the type of `Graph` being created and how various
/// situations involving the addition of nodes and edges are handled.
///
/// A `GraphSpecs` value can be written as a struct literal with the
/// `..GraphSpecs::undirected()` update syntax, or taken from one of the
/// associated constructors.
#[derive(Clone, Copy, Debug, PartialEq, Eq, Structural)]
pub struct GraphSpecs {
    /// Determines if a graph is directed or undirected.
    pub directed: bool,
    /// Determines what happens if duplicate or redundant edges are added to a graph.
    pub edge_dedupe_strategy: EdgeDedupeStrategy,
    /// Determines what happens if an edge is added to a graph but a corresponding
    /// node doesn't exist.
    pub missing_node_strategy: MissingNodeStrategy,
    /// Determines if a graph supports multiple edges between nodes.
    pub multi_edges: bool,
    /// Determines if a graph allows an edge that starts and ends on the same node.
    pub self_loops: bool,
    /// Determines what happens if a self-loop is added to a graph that doesn't support them.
    pub self_loops_false_strategy: SelfLoopsFalseStrategy,
}

/// What happens when a duplicate edge is added to a graph.
///
/// `Error`: return an `Error`.
/// `KeepFirst`: keep the original edge and discard the one being added.
/// `KeepLast`: discard the original edge and keep the one being added.
#[derive(Clone, Copy, Debug, PartialEq, Eq, Structural)]
pub enum EdgeDedupeStrategy {
    Error,
    KeepFirst,
    KeepLast,
}

/// What happens when an edge is added to a graph but one of its nodes is not present.
///
/// `Create`: create any nodes that aren't present.
/// `Error`: return an `Error`.
#[derive(Clone, Copy, Debug, PartialEq, Eq, Structural)]
pub enum MissingNodeStrategy {
    Create,
    Error,
}

/// What happens when a self-loop is added to a graph that doesn't support them.
///
/// `Error`: return an `Error`.
/// `Drop`: drop the self-loop edge.
#[derive(Clone, Copy, Debug, PartialEq, Eq, Structural)]
pub enum SelfLoopsFalseStrategy {
    Error,
    Drop,
}

/// The defaults every constructor starts from: directed, no multi-edges,
/// no self-loops, and every strategy set to `Error`.
pub open spec fn default_graph_specs() -> GraphSpecs {
    GraphSpecs {
        directed: true,
        edge_dedupe_strategy: EdgeDedupeStrategy::Error,
        missing_node_strategy: MissingNodeStrategy::Error,
        multi_edges: false,
        self_loops: false,
        self_loops_false_strategy: SelfLoopsFalseStrategy::Error,
    }
}

fn default_specs() -> (s: GraphSpecs)
    ensures
        s == default_graph_specs(),
{
    GraphSpecs {
        directed: true,
        edge_dedupe_strategy: EdgeDedupeStrategy::Error,
        missing_node_strategy: MissingNodeStrategy::Error,
        multi_edges: false,
        self_loops: false,
        self_loops_false_strategy: SelfLoopsFalseStrategy::Error,
    }
}

impl GraphSpecs {
    /// The default specs for a directed graph: `directed` is true, `multi_edges`
    /// and `self_loops` are false, and all strategies are `Error`.
    pub fn directed() -> (s: GraphSpecs)
        ensures
            s == default_graph_specs(),
    {
        default_specs()
    }

    /// A directed graph where missing nodes are created automatically.
    pub fn directed_create_missing() -> (s: GraphSpecs)
        ensures
            s == (GraphSpecs {
                missing_node_strategy: MissingNodeStrategy::Create,
                ..default_graph_specs()
            }),
    {
        GraphSpecs { missing_node_strategy: MissingNodeStrategy::Create, ..default_specs() }
    }

    /// The default specs for an undirected graph.
    pub fn undirected() -> (s: GraphSpecs)
        ensures
            s == (GraphSpecs { directed: false, ..default_graph_specs() }),
    {
        GraphSpecs { directed: false, ..default_specs() }
    }

    /// An undirected graph where missing nodes are created automatically.
    pub fn undirected_create_missing() -> (s: GraphSpecs)
        ensures
            s == (GraphSpecs {
                directed: false,
                missing_node_strategy: MissingNodeStrategy::Create,
                ..default_graph_specs()
            }),
    {
        GraphSpecs {
            directed: false,
            missing_node_strategy: MissingNodeStrategy::Create,
            ..default_specs()
        }
    }

    /// A directed multi-graph: `multi_edges` and `self_loops` are true.
    pub fn multi_directed() -> (s: GraphSpecs)
        ensures
            s == (GraphSpecs { multi_edges: true, self_loops: true, ..default_graph_specs() }),
    {
        GraphSpecs { multi_edges: true, self_loops: true, ..default_specs() }
    }

    /// An undirected multi-graph: `multi_edges` and `self_loops` are true.
    pub fn multi_undirected() -> (s: GraphSpecs)
        ensures
            s == (GraphSpecs {
                directed: false,
                multi_edges: true,
                self_loops: true,
                ..default_graph_specs()
            }),
    {
        GraphSpecs { directed: false, multi_edges: true, self_loops: true, ..default_specs() }
    }
}

} // verus!
