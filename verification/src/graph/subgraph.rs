use super::rebuild::{
    build_outcome, distinct_names, lemma_all_edges_addable, lemma_build_ok, lemma_filter_keeps_distinct,
    pair_clash, same_name, same_pair,
};
use super::{arc_values, Graph, GraphView};
use crate::shared::{arc_clone, lemma_indices_where_bounds};
use crate::{Edge, Error, ErrorKind, Node};
use std::sync::Arc;
use vstd::prelude::*;

verus! {

/// Whether a node is named in `names`.
pub open spec fn node_named_in<A>(names: Seq<u64>) -> spec_fn(Node<A>) -> bool {
    |n: Node<A>| names.contains(n.name)
}

/// Whether both ends of an edge are named in `names`.
pub open spec fn edge_within<A>(names: Seq<u64>) -> spec_fn(Edge<A>) -> bool {
    |e: Edge<A>| names.contains(e.u) && names.contains(e.v)
}

/// The graph induced by the nodes named in `names`: those nodes, in their
/// order, and the edges between them, in the order of the edges.
pub open spec fn induced<A>(g: GraphView<A>, names: Seq<u64>) -> GraphView<A> {
    build_outcome(g.specs, g.nodes.filter(node_named_in(names)), g.all_edges().filter(edge_within(names))).0
}

/// The names of the ego network of node `i`: its successors and predecessors
/// (directed) or its neighbors (undirected), and then its own name.
pub open spec fn ego_names<A>(g: GraphView<A>, i: int) -> Seq<u64> {
    if g.specs.directed {
        (g.names_at(g.successor_indices(i)) + g.names_at(g.predecessor_indices(i))).push(g.name(i))
    } else {
        g.names_at(g.neighbor_indices(i)).push(g.name(i))
    }
}

/// The edges between the named nodes of a well-formed graph can all be added
/// to those nodes, whose names are distinct.
pub proof fn lemma_induced_addable<A>(g: GraphView<A>, names: Seq<u64>)
    requires
        g.well_formed(),
    ensures
        distinct_names(g.nodes.filter(node_named_in(names))),
        (GraphView::<A> {
            specs: g.specs,
            nodes: g.nodes.filter(node_named_in(names)),
            edges: Map::empty(),
            keys: Seq::empty(),
        }).can_add_all(g.all_edges().filter(edge_within(names))),
{
    let nf = node_named_in::<A>(names);
    let ef = edge_within::<A>(names);
    let ns = g.nodes.filter(nf);
    let es = g.all_edges().filter(ef);
    let all = g.all_edges();
    lemma_filter_keeps_distinct(g.nodes, nf, same_name());
    assert(distinct_names(ns));
    lemma_all_edges_addable(g);
    let start = GraphView::<A> { specs: g.specs, nodes: ns, edges: Map::empty(), keys: Seq::empty() };
    assert forall|k: int| 0 <= k < es.len() implies start.has_name(#[trigger] es[k].u) && start.has_name(es[k].v)
        && (!g.specs.self_loops ==> es[k].u != es[k].v) by {
        let e = es[k];
        assert(es.contains(e));
        all.lemma_filter_contains_rev(ef, e);
        let m = choose|m: int| 0 <= m < all.len() && all[m] == e;
        assert(g.has_name(all[m].u));
        all.lemma_filter_pred(ef, k);
        let iu = choose|i: int| 0 <= i < g.nodes.len() && #[trigger] g.nodes[i].name == e.u;
        let iv = choose|i: int| 0 <= i < g.nodes.len() && #[trigger] g.nodes[i].name == e.v;
        g.nodes.lemma_filter_contains(nf, iu);
        g.nodes.lemma_filter_contains(nf, iv);
        let ju = choose|j: int| 0 <= j < ns.len() && ns[j] == g.nodes[iu];
        let jv = choose|j: int| 0 <= j < ns.len() && ns[j] == g.nodes[iv];
        assert(start.nodes[ju].name == e.u);
        assert(start.nodes[jv].name == e.v);
    }
    if !g.specs.multi_edges {
        lemma_filter_keeps_distinct(all, ef, pair_clash(g.specs.directed));
        assert forall|x: int, y: int| 0 <= x < es.len() && 0 <= y < es.len() && x != y implies !same_pair(
            g.specs.directed,
            #[trigger] es[x],
            #[trigger] es[y],
        ) by {
            assert(!pair_clash::<A>(g.specs.directed)(es[x], es[y]));
        }
    }
    assert(start.can_add_all(es));
}

impl<A: Copy> Graph<A> {
    /// The induced subgraph of the nodes named in `nodes`: those nodes and the
    /// edges between them.
    pub fn get_subgraph(&self, nodes: &[u64]) -> (r: Result<Graph<A>, Error>)
        requires
            self.wf(),
        ensures
            match r {
                Ok(g) => {
                    &&& forall|i: int| 0 <= i < nodes@.len() ==> self@.has_name(#[trigger] nodes@[i])
                    &&& g.wf()
                    &&& g@ == induced(self@, nodes@)
                },
                Err(e) => e.kind == ErrorKind::NodeNotFound && !(forall|i: int|
                    0 <= i < nodes@.len() ==> self@.has_name(#[trigger] nodes@[i])),
            },
    {
        if !self.has_nodes(nodes) {
            return Err(Error::new(ErrorKind::NodeNotFound, "The node was not found in graph"));
        }
        proof {
            self.lemma_view_specs();
            self.lemma_well_formed();
        }
        let ghost nf = node_named_in::<A>(nodes@);
        let ghost ef = edge_within::<A>(nodes@);
        let all_nodes = self.get_all_nodes();
        let mut new_nodes: Vec<Arc<Node<A>>> = Vec::new();
        let mut i: usize = 0;
        while i < all_nodes.len()
            invariant
                i <= all_nodes@.len(),
                nf == node_named_in::<A>(nodes@),
                arc_values(new_nodes@) == arc_values(all_nodes@).take(i as int).filter(nf),
            decreases all_nodes@.len() - i,
        {
            let n = arc_clone(&all_nodes[i]);
            proof {
                assert(arc_values(all_nodes@).take(i + 1) == arc_values(all_nodes@).take(i as int).push(*n));
                arc_values(all_nodes@).take(i as int).lemma_filter_push(*n, nf);
            }
            if crate::graph::slice_contains(nodes, n.name) {
                let ghost old_new = new_nodes@;
                new_nodes.push(n);
                proof {
                    assert(arc_values(new_nodes@) =~= arc_values(old_new).push(*n));
                }
            }
            i = i + 1;
        }
        let all_edges = self.get_all_edges();
        let mut new_edges: Vec<Arc<Edge<A>>> = Vec::new();
        let mut j: usize = 0;
        while j < all_edges.len()
            invariant
                j <= all_edges@.len(),
                ef == edge_within::<A>(nodes@),
                arc_values(new_edges@) == arc_values(all_edges@).take(j as int).filter(ef),
            decreases all_edges@.len() - j,
        {
            let e = arc_clone(&all_edges[j]);
            proof {
                assert(arc_values(all_edges@).take(j + 1) == arc_values(all_edges@).take(j as int).push(*e));
                arc_values(all_edges@).take(j as int).lemma_filter_push(*e, ef);
            }
            if crate::graph::slice_contains(nodes, e.u) && crate::graph::slice_contains(nodes, e.v) {
                let ghost old_new = new_edges@;
                new_edges.push(e);
                proof {
                    assert(arc_values(new_edges@) =~= arc_values(old_new).push(*e));
                }
            }
            j = j + 1;
        }
        proof {
            assert(arc_values(all_nodes@).take(i as int) == arc_values(all_nodes@));
            assert(arc_values(all_edges@).take(j as int) == arc_values(all_edges@));
            lemma_induced_addable(self@, nodes@);
            lemma_build_ok(
                self@.specs,
                self@.nodes.filter(node_named_in(nodes@)),
                self@.all_edges().filter(edge_within(nodes@)),
            );
        }
        Graph::new_from_nodes_and_edges(new_nodes, new_edges, self.specs)
    }

    /// The ego network of the node called `name`: the subgraph induced by the
    /// node and its successors and predecessors (or neighbors).
    pub fn get_ego_graph(&self, name: u64) -> (r: Result<Graph<A>, Error>)
        requires
            self.wf(),
        ensures
            match r {
                Ok(g) => {
                    &&& self@.has_name(name)
                    &&& g.wf()
                    &&& g@ == induced(self@, ego_names(self@, self@.index_of(name)))
                },
                Err(e) => e.kind == ErrorKind::NodeNotFound && !self@.has_name(name),
            },
    {
        let i = match self.node_index(name) {
            Some(i) => i,
            None => {
                return Err(Error::new(ErrorKind::NodeNotFound, "The node was not found in graph"));
            },
        };
        proof {
            self.lemma_view_specs();
            self.lemma_well_formed();
        }
        let ghost g = self@;
        let mut names: Vec<u64> = if self.specs.directed {
            let mut s = match self.get_successor_node_names(name) {
                Ok(s) => s,
                Err(_) => Vec::new(),
            };
            let mut p = match self.get_predecessor_node_names(name) {
                Ok(p) => p,
                Err(_) => Vec::new(),
            };
            s.append(&mut p);
            s
        } else {
            let ns = match self.get_neighbor_nodes(name) {
                Ok(ns) => ns,
                Err(_) => Vec::new(),
            };
            let mut v: Vec<u64> = Vec::new();
            let mut m: usize = 0;
            while m < ns.len()
                invariant
                    m <= ns@.len(),
                    v@ == arc_values(ns@).take(m as int).map_values(|n: Node<A>| n.name),
                decreases ns@.len() - m,
            {
                v.push(ns[m].name);
                proof {
                    assert(arc_values(ns@).take(m + 1) == arc_values(ns@).take(m as int).push(*ns@[m as int]));
                    assert(v@ =~= arc_values(ns@).take(m + 1).map_values(|n: Node<A>| n.name));
                }
                m = m + 1;
            }
            proof {
                assert(arc_values(ns@).take(m as int) == arc_values(ns@));
                assert(v@ =~= g.names_at(g.neighbor_indices(i as int)));
            }
            v
        };
        names.push(name);
        proof {
            assert(names@ == ego_names(g, i as int));
            lemma_indices_where_bounds(g.nodes.len() as int, g.succ_test(i as int));
            lemma_indices_where_bounds(g.nodes.len() as int, g.pred_test(i as int));
            lemma_indices_where_bounds(g.nodes.len() as int, g.neighbor_test(i as int));
            assert forall|k: int| 0 <= k < names@.len() implies g.has_name(#[trigger] names@[k]) by {
                if k == names@.len() - 1 {
                    assert(g.nodes[i as int].name == name);
                } else if g.specs.directed {
                    let a = g.names_at(g.successor_indices(i as int));
                    let b = g.names_at(g.predecessor_indices(i as int));
                    if k < a.len() {
                        let j = g.successor_indices(i as int)[k];
                        assert(g.nodes[j].name == names@[k]);
                    } else {
                        let j = g.predecessor_indices(i as int)[k - a.len()];
                        assert(g.nodes[j].name == names@[k]);
                    }
                } else {
                    let j = g.neighbor_indices(i as int)[k];
                    assert(g.nodes[j].name == names@[k]);
                }
            }
        }
        self.get_subgraph(names.as_slice())
    }
}

} // verus!
