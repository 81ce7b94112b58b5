use crate::{Edge, EdgeDedupeStrategy, ErrorKind, GraphSpecs, MissingNodeStrategy, Node, SelfLoopsFalseStrategy};
use std::collections::HashMap;
use std::sync::Arc;
use vstd::prelude::*;

mod creation;
mod query;
mod adjacency;
mod degree;
mod ensure;
mod convert;
mod subgraph;
pub use subgraph::{edge_within, ego_names, induced, node_named_in};
pub use convert::{
    keeps_pair, plain_edge, reversed_edges, reweighted_edges, undirected_edges, undirected_specs,
    ToUndirectedCollapseEdgeWeightsStrategy,
};
pub mod reach;
pub mod rebuild;
pub mod laws;
pub mod handshake;
pub(crate) use adjacency::marked_indexes;
pub use adjacency::names_where;
pub(crate) use query::slice_contains;

verus! {

broadcast use vstd::std_specs::hash::group_hash_axioms;

/// The mathematical model of a graph: its specs, its nodes in the order in
/// which they were added (a node's position is its index), its edges, keyed
/// by the pair of indexes of their end nodes, and the keys in the order in
/// which their first edge was added.
///
/// In an undirected graph the key of an edge has the smaller index first,
/// and the edge itself is stored with the smaller name as `u`.
pub struct GraphView<A> {
    pub specs: GraphSpecs,
    pub nodes: Seq<Node<A>>,
    pub edges: Map<(int, int), Seq<Edge<A>>>,
    pub keys: Seq<(int, int)>,
}

impl<A> GraphView<A> {
    pub open spec fn num_nodes(self) -> int {
        self.nodes.len() as int
    }

    pub open spec fn name(self, i: int) -> u64 {
        self.nodes[i].name
    }

    pub open spec fn names(self) -> Seq<u64> {
        self.nodes.map_values(|n: Node<A>| n.name)
    }

    pub open spec fn has_name(self, x: u64) -> bool {
        exists|i: int| 0 <= i < self.nodes.len() && #[trigger] self.nodes[i].name == x
    }

    /// The index of the node called `x`.
    pub open spec fn index_of(self, x: u64) -> int {
        choose|i: int| 0 <= i < self.nodes.len() && #[trigger] self.nodes[i].name == x
    }

    /// The key under which the edges between nodes `i` and `j` are kept.
    pub open spec fn key(self, i: int, j: int) -> (int, int) {
        if !self.specs.directed && i > j {
            (j, i)
        } else {
            (i, j)
        }
    }

    /// Whether there is an edge from `i` to `j` (directed), or between them (undirected).
    pub open spec fn connected(self, i: int, j: int) -> bool {
        self.edges.contains_key(self.key(i, j))
    }

    /// The edges from `i` to `j` (directed), or between them (undirected).
    pub open spec fn edges_between(self, i: int, j: int) -> Seq<Edge<A>> {
        if self.connected(i, j) {
            self.edges[self.key(i, j)]
        } else {
            Seq::empty()
        }
    }

    pub open spec fn valid_key(self, k: (int, int)) -> bool {
        &&& 0 <= k.0 < self.nodes.len()
        &&& 0 <= k.1 < self.nodes.len()
        &&& !self.specs.directed ==> k.0 <= k.1
        &&& !self.specs.self_loops ==> k.0 != k.1
    }

    /// Whether edge `e` belongs under key `k`: it joins the two nodes of the key,
    /// from the first to the second in a directed graph, and with the smaller
    /// name first in an undirected graph.
    pub open spec fn edge_fits(self, k: (int, int), e: Edge<A>) -> bool {
        if self.specs.directed {
            e.u == self.name(k.0) && e.v == self.name(k.1)
        } else {
            &&& e.u <= e.v
            &&& (e.u == self.name(k.0) && e.v == self.name(k.1)) || (e.u == self.name(k.1)
                && e.v == self.name(k.0))
        }
    }

    /// The invariant of every graph: node names are distinct, and every edge key
    /// is valid, holds at least one edge (exactly one unless multi-edges are
    /// allowed) and only edges that fit it.
    pub open spec fn well_formed(self) -> bool {
        &&& forall|i: int, j: int|
            0 <= i < self.nodes.len() && 0 <= j < self.nodes.len() && i != j ==> #[trigger] self.nodes[i].name
                != #[trigger] self.nodes[j].name
        &&& self.keys.no_duplicates()
        &&& forall|k: (int, int)| #[trigger] self.edges.contains_key(k) <==> self.keys.contains(k)
        &&& forall|k: (int, int)| #[trigger]
            self.edges.contains_key(k) ==> {
                &&& self.valid_key(k)
                &&& self.edges[k].len() > 0
                &&& !self.specs.multi_edges ==> self.edges[k].len() == 1
                &&& forall|m: int| 0 <= m < self.edges[k].len() ==> self.edge_fits(k, #[trigger] self.edges[k][m])
            }
    }

    /// The graph after `node` is added, or after the node with its name is replaced.
    pub open spec fn spec_add_node(self, node: Node<A>) -> GraphView<A> {
        if self.has_name(node.name) {
            GraphView { nodes: self.nodes.update(self.index_of(node.name), node), ..self }
        } else {
            GraphView { nodes: self.nodes.push(node), ..self }
        }
    }

    /// The edge as it is stored: unchanged in a directed graph, with the smaller
    /// name first in an undirected one.
    pub open spec fn stored_edge(self, e: Edge<A>) -> Edge<A> {
        if self.specs.directed {
            e
        } else {
            e.spec_ordered()
        }
    }

    /// What adding edge `e` does: the graph afterwards, and the kind of the
    /// error that is returned, if any.
    ///
    /// A self-loop in a graph without self-loops is refused or dropped; an edge
    /// with a missing node is refused unless missing nodes are created; a
    /// duplicate edge in a graph without multi-edges is refused, kept out or
    /// kept in place of the first, as the dedupe strategy says; otherwise the
    /// edge is added to those between its nodes.
    pub open spec fn add_edge_outcome(self, e: Edge<A>) -> (GraphView<A>, Option<ErrorKind>) {
        if !self.specs.self_loops && e.u == e.v {
            if self.specs.self_loops_false_strategy == SelfLoopsFalseStrategy::Error {
                (self, Some(ErrorKind::SelfLoopsFound))
            } else {
                (self, None)
            }
        } else if self.specs.missing_node_strategy == MissingNodeStrategy::Error && (!self.has_name(
            e.u,
        ) || !self.has_name(e.v)) {
            (self, Some(ErrorKind::NodeNotFound))
        } else {
            let g = self.with_node_named(e.u).with_node_named(e.v);
            let k = g.key(g.index_of(e.u), g.index_of(e.v));
            let present = g.edges.contains_key(k);
            let s = g.stored_edge(e);
            if self.specs.edge_dedupe_strategy == EdgeDedupeStrategy::Error
                && !self.specs.multi_edges && present {
                (g, Some(ErrorKind::DuplicateEdge))
            } else if self.specs.multi_edges && present {
                (GraphView { edges: g.edges.insert(k, g.edges[k].push(s)), ..g }, None)
            } else if !present {
                (GraphView { edges: g.edges.insert(k, seq![s]), keys: g.keys.push(k), ..g }, None)
            } else if self.specs.edge_dedupe_strategy == EdgeDedupeStrategy::KeepLast {
                (GraphView { edges: g.edges.insert(k, seq![s]), ..g }, None)
            } else {
                (g, None)
            }
        }
    }

    /// What adding the edges `es` one after the other does, stopping at the
    /// first error.
    pub open spec fn add_edges_outcome(self, es: Seq<Edge<A>>) -> (GraphView<A>, Option<ErrorKind>)
        decreases es.len(),
    {
        if es.len() == 0 {
            (self, None)
        } else {
            let (g, err) = self.add_edge_outcome(es[0]);
            if err is Some {
                (g, err)
            } else {
                g.add_edges_outcome(es.drop_first())
            }
        }
    }

    /// The graph after the nodes `ns` are added one after the other.
    pub open spec fn add_nodes_view(self, ns: Seq<Node<A>>) -> GraphView<A>
        decreases ns.len(),
    {
        if ns.len() == 0 {
            self
        } else {
            self.spec_add_node(ns[0]).add_nodes_view(ns.drop_first())
        }
    }

    /// The edges kept under the keys `ks`, key after key.
    pub open spec fn edges_of_keys(self, ks: Seq<(int, int)>) -> Seq<Edge<A>>
        decreases ks.len(),
    {
        if ks.len() == 0 {
            Seq::empty()
        } else {
            self.edges_of_keys(ks.drop_last()) + self.edges[ks.last()]
        }
    }

    /// All edges of the graph: those of each key, in the order of the keys.
    pub open spec fn all_edges(self) -> Seq<Edge<A>> {
        self.edges_of_keys(self.keys)
    }

    /// The edges into node `i`: those of the keys (_, i).
    pub open spec fn in_edges(self, i: int) -> Seq<Edge<A>> {
        self.edges_of_keys(self.keys.filter(key_into(i)))
    }

    /// The edges out of node `i`: those of the keys (i, _).
    pub open spec fn out_edges(self, i: int) -> Seq<Edge<A>> {
        self.edges_of_keys(self.keys.filter(key_out_of(i)))
    }

    /// The edges with node `i` at either end, each once.
    pub open spec fn touching_edges(self, i: int) -> Seq<Edge<A>> {
        self.edges_of_keys(self.keys.filter(key_touching(i)))
    }

    /// The edges out of node `i` to other nodes: those of the keys (i, j)
    /// with `j` not `i`.
    pub open spec fn out_edges_to_others(self, i: int) -> Seq<Edge<A>> {
        self.edges_of_keys(self.keys.filter(key_out_to_other(i)))
    }

    /// The edges of node `i` as a graph lists them, each edge once: in a
    /// directed graph its in-edges (self-loops among them) then its out-edges
    /// to other nodes, in an undirected graph every edge that touches it.
    pub open spec fn edges_for_node(self, i: int) -> Seq<Edge<A>> {
        if self.specs.directed {
            self.in_edges(i) + self.out_edges_to_others(i)
        } else {
            self.touching_edges(i)
        }
    }

    /// Whether `j` is a successor of `i`: an edge leads from `i` to `j`
    /// (in an undirected graph: joins them).
    pub open spec fn succ_test(self, i: int) -> spec_fn(int) -> bool {
        |j: int| self.connected(i, j)
    }

    /// Whether `j` is a predecessor of `i` in a directed graph: an edge leads
    /// from `j` to `i`. An undirected graph has no predecessors.
    pub open spec fn pred_test(self, i: int) -> spec_fn(int) -> bool {
        |j: int| self.specs.directed && self.edges.contains_key((j, i))
    }

    /// Whether `j` is a neighbor of `i`: a successor or a predecessor.
    pub open spec fn neighbor_test(self, i: int) -> spec_fn(int) -> bool {
        |j: int| self.connected(i, j) || (self.specs.directed && self.edges.contains_key((j, i)))
    }

    /// The indexes of the successors of `i`, in increasing order.
    pub open spec fn successor_indices(self, i: int) -> Seq<int> {
        indices_where(self.nodes.len() as int, self.succ_test(i))
    }

    /// The indexes of the predecessors of `i`, in increasing order.
    pub open spec fn predecessor_indices(self, i: int) -> Seq<int> {
        indices_where(self.nodes.len() as int, self.pred_test(i))
    }

    /// The indexes of the neighbors of `i`, in increasing order.
    pub open spec fn neighbor_indices(self, i: int) -> Seq<int> {
        indices_where(self.nodes.len() as int, self.neighbor_test(i))
    }

    /// The nodes at the indexes `ix`.
    pub open spec fn nodes_at(self, ix: Seq<int>) -> Seq<Node<A>> {
        ix.map_values(|j: int| self.nodes[j])
    }

    /// The names of the nodes at the indexes `ix`.
    pub open spec fn names_at(self, ix: Seq<int>) -> Seq<u64> {
        ix.map_values(|j: int| self.nodes[j].name)
    }

    /// The degree of node `i`: the number of edges that the graph lists for it,
    /// with each self-loop among them counted once more.
    pub open spec fn degree(self, i: int) -> int {
        (self.edges_for_node(i).len() + self.edges_for_node(i).filter(self_loop_at(self.name(i))).len()) as int
    }

    /// Whether the degree of every node fits in a `usize`.
    pub open spec fn degrees_fit(self) -> bool {
        forall|i: int| 0 <= i < self.nodes.len() ==> 2 * #[trigger] self.edges_for_node(i).len() <= usize::MAX
    }

    /// The graph with a node called `x`, added without attributes if missing.
    pub open spec fn with_node_named(self, x: u64) -> GraphView<A> {
        if self.has_name(x) {
            self
        } else {
            GraphView { nodes: self.nodes.push(Node { name: x, attributes: None }), ..self }
        }
    }
}

/// Which keys a scan of the edges keeps.
pub enum KeySelect {
    All,
    Into(usize),
    OutOf(usize),
    OutToOther(usize),
    Touching(usize),
}

pub open spec fn key_any() -> spec_fn((int, int)) -> bool {
    |k: (int, int)| true
}

pub open spec fn key_into(i: int) -> spec_fn((int, int)) -> bool {
    |k: (int, int)| k.1 == i
}

pub open spec fn key_out_of(i: int) -> spec_fn((int, int)) -> bool {
    |k: (int, int)| k.0 == i
}

pub open spec fn key_out_to_other(i: int) -> spec_fn((int, int)) -> bool {
    |k: (int, int)| k.0 == i && k.1 != i
}

pub open spec fn key_touching(i: int) -> spec_fn((int, int)) -> bool {
    |k: (int, int)| k.0 == i || k.1 == i
}

pub open spec fn selector(sel: KeySelect) -> spec_fn((int, int)) -> bool {
    match sel {
        KeySelect::All => key_any(),
        KeySelect::Into(i) => key_into(i as int),
        KeySelect::OutOf(i) => key_out_of(i as int),
        KeySelect::OutToOther(i) => key_out_to_other(i as int),
        KeySelect::Touching(i) => key_touching(i as int),
    }
}

/// The parallel edges that lead from one node to the node `target`.
pub struct EdgeBucket<A> {
    pub target: usize,
    pub edges: Vec<Arc<Edge<A>>>,
}

/// A graph of nodes and edges, directed or undirected, with or without multiple
/// edges between two nodes and self-loops, as its `specs` say.
///
/// Nodes are named by `u64` values; `A` is the type of the optional attributes
/// of nodes and edges.
pub struct Graph<A> {
    /// The specs of the graph.
    pub specs: GraphSpecs,
    pub(crate) nodes_vec: Vec<Arc<Node<A>>>,
    pub(crate) nodes_map: HashMap<u64, usize>,
    pub(crate) buckets: Vec<Vec<EdgeBucket<A>>>,
    pub(crate) successors_vec: Vec<Vec<usize>>,
    pub(crate) predecessors_vec: Vec<Vec<usize>>,
    pub(crate) edge_keys: Vec<(usize, usize)>,
    pub(crate) edge_map: Ghost<Map<(int, int), Seq<Edge<A>>>>,
}

pub open spec fn int_pairs(s: Seq<(usize, usize)>) -> Seq<(int, int)> {
    s.map_values(|k: (usize, usize)| (k.0 as int, k.1 as int))
}

/// Whether an edge is a self-loop at the node called `x`.
pub open spec fn self_loop_at<A>(x: u64) -> spec_fn(Edge<A>) -> bool {
    |e: Edge<A>| e.u == x && e.v == x
}

/// The indexes below `n` at which `p` holds, in increasing order.
pub open spec fn indices_where(n: int, p: spec_fn(int) -> bool) -> Seq<int>
    decreases n,
{
    if n <= 0 {
        Seq::empty()
    } else {
        let s = indices_where(n - 1, p);
        if p(n - 1) {
            s.push(n - 1)
        } else {
            s
        }
    }
}

pub open spec fn arc_values<T>(s: Seq<Arc<T>>) -> Seq<T> {
    s.map_values(|a: Arc<T>| *a)
}

impl<A> View for Graph<A> {
    type V = GraphView<A>;

    closed spec fn view(&self) -> GraphView<A> {
        GraphView {
            specs: self.specs,
            nodes: arc_values(self.nodes_vec@),
            edges: self.edge_map@,
            keys: int_pairs(self.edge_keys@),
        }
    }
}

impl<A> Graph<A> {
    /// The specs in the model of a graph are its `specs` field.
    pub(crate) proof fn lemma_view_specs(&self)
        ensures
            self@.specs == self.specs,
    {
    }

    /// Every graph that keeps its representation invariant is well formed:
    /// its node names are distinct and its edges sit under valid keys.
    pub proof fn lemma_well_formed(&self)
        requires
            self.wf(),
        ensures
            self@.well_formed(),
    {
    }

    /// The representation invariant of a graph.
    pub closed spec fn wf(&self) -> bool {
        &&& self@.well_formed()
        &&& self.buckets@.len() == self.nodes_vec@.len()
        &&& self.successors_vec@.len() == self.nodes_vec@.len()
        &&& self.predecessors_vec@.len() == self.nodes_vec@.len()
        &&& forall|x: u64| #[trigger] self.nodes_map@.contains_key(x) <==> self@.has_name(x)
        &&& forall|i: int|
            0 <= i < self.nodes_vec@.len() ==> self.nodes_map@[#[trigger] self.nodes_vec@[i].name]
                == i
        &&& forall|u: int, b: int|
            #![trigger self.buckets@[u]@[b]]
            0 <= u < self.buckets@.len() && 0 <= b < self.buckets@[u]@.len() ==> {
                &&& self.edge_map@.contains_key((u, self.buckets@[u]@[b].target as int))
                &&& self.edge_map@[(u, self.buckets@[u]@[b].target as int)] == arc_values(
                    self.buckets@[u]@[b].edges@,
                )
            }
        &&& forall|u: int, b1: int, b2: int|
            0 <= u < self.buckets@.len() && 0 <= b1 < self.buckets@[u]@.len() && 0 <= b2
                < self.buckets@[u]@.len() && b1 != b2 ==> #[trigger] self.buckets@[u]@[b1].target
                != #[trigger] self.buckets@[u]@[b2].target
        &&& forall|k: (int, int)| #[trigger]
            self.edge_map@.contains_key(k) ==> exists|b: int|
                0 <= b < self.buckets@[k.0]@.len() && #[trigger] self.buckets@[k.0]@[b].target == k.1
        &&& forall|u: int|
            0 <= u < self.successors_vec@.len() ==> (#[trigger] self.successors_vec@[u])@.no_duplicates()
        &&& forall|u: int, x: usize|
            0 <= u < self.successors_vec@.len() ==> (#[trigger] self.successors_vec@[u]@.contains(x)
                <==> (x < self.nodes_vec@.len() && self@.connected(u, x as int)))
        &&& forall|v: int|
            0 <= v < self.predecessors_vec@.len() ==> (#[trigger] self.predecessors_vec@[v])@.no_duplicates()
        &&& forall|v: int, x: usize|
            0 <= v < self.predecessors_vec@.len() ==> (#[trigger] self.predecessors_vec@[v]@.contains(x)
                <==> (self.specs.directed && x < self.nodes_vec@.len() && self@.edges.contains_key(
                (x as int, v))))
    }
}

} // verus!
