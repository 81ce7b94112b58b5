use super::convert::{
    keeps_pair, lemma_reversed_addable, lemma_reweighted_addable, lemma_undirected_addable, plain_edge,
    reversed_edges, reweighted_edges, undirected_edges, undirected_specs,
};
use super::subgraph::lemma_induced_addable;
use super::rebuild::{
    build_outcome, distinct_names, lemma_add_edge_ok, lemma_edges_of_keys_fit, lemma_index_of,
    lemma_key_same_pair, same_pair,
};
use super::subgraph::{edge_within, induced, node_named_in};
use super::GraphView;
use crate::{Edge, EdgeDedupeStrategy, GraphSpecs, Node};
use vstd::prelude::*;

verus! {

impl<A> GraphView<A> {
    /// Whether an edge leads from the node named `a` to the node named `b`
    /// (joins them, in an undirected graph).
    pub open spec fn joins(self, a: u64, b: u64) -> bool {
        &&& self.has_name(a)
        &&& self.has_name(b)
        &&& self.connected(self.index_of(a), self.index_of(b))
    }
}

/// Whether edge `e` leads from `a` to `b` (joins them, when not `directed`).
pub open spec fn pair_matches<A>(directed: bool, e: Edge<A>, a: u64, b: u64) -> bool {
    if directed {
        e.u == a && e.v == b
    } else {
        (e.u == a && e.v == b) || (e.u == b && e.v == a)
    }
}

/// Whether one of the edges `es` leads from `a` to `b` (joins them, when not `directed`).
pub open spec fn some_edge_matches<A>(directed: bool, es: Seq<Edge<A>>, a: u64, b: u64) -> bool {
    exists|m: int| 0 <= m < es.len() && #[trigger] pair_matches(directed, es[m], a, b)
}

/// Every key of a well-formed graph has an edge among those listed for its keys.
proof fn lemma_key_has_edge<A>(g: GraphView<A>, ks: Seq<(int, int)>, p: int)
    requires
        g.well_formed(),
        forall|q: int| 0 <= q < ks.len() ==> g.edges.contains_key(#[trigger] ks[q]),
        0 <= p < ks.len(),
    ensures
        exists|m: int| 0 <= m < g.edges_of_keys(ks).len() && #[trigger] g.edge_fits(ks[p], g.edges_of_keys(ks)[m]),
    decreases ks.len(),
{
    let init = ks.drop_last();
    let prev = g.edges_of_keys(init);
    let all = g.edges_of_keys(ks);
    assert(all == prev + g.edges[ks.last()]);
    if p < ks.len() - 1 {
        assert forall|q: int| 0 <= q < init.len() implies g.edges.contains_key(#[trigger] init[q]) by {
            assert(init[q] == ks[q]);
        }
        lemma_key_has_edge(g, init, p);
        let m = choose|m: int| 0 <= m < prev.len() && #[trigger] g.edge_fits(init[p], prev[m]);
        assert(init[p] == ks[p]);
        assert(all[m] == prev[m]);
    } else {
        let k = ks.last();
        assert(g.edges.contains_key(ks[ks.len() - 1]));
        assert(g.edges[k].len() > 0);
        assert(g.edge_fits(k, g.edges[k][0]));
        assert(all[prev.len() as int] == g.edges[k][0]);
    }
}

/// In a well-formed graph an edge leads from `a` to `b` exactly when one of
/// its listed edges does.
pub proof fn lemma_joins_by_edges<A>(g: GraphView<A>, a: u64, b: u64)
    requires
        g.well_formed(),
    ensures
        g.joins(a, b) <==> some_edge_matches(g.specs.directed, g.all_edges(), a, b),
{
    let all = g.all_edges();
    assert forall|q: int| 0 <= q < g.keys.len() implies g.edges.contains_key(#[trigger] g.keys[q]) by {
        assert(g.keys.contains(g.keys[q]));
    }
    if g.joins(a, b) {
        lemma_index_of(g, a);
        lemma_index_of(g, b);
        let k = g.key(g.index_of(a), g.index_of(b));
        assert(g.edges.contains_key(k));
        assert(g.keys.contains(k));
        let p = choose|p: int| 0 <= p < g.keys.len() && g.keys[p] == k;
        lemma_key_has_edge(g, g.keys, p);
        let m = choose|m: int| 0 <= m < all.len() && #[trigger] g.edge_fits(g.keys[p], all[m]);
        assert(pair_matches(g.specs.directed, all[m], a, b));
    }
    if some_edge_matches(g.specs.directed, all, a, b) {
        let m = choose|m: int| 0 <= m < all.len() && #[trigger] pair_matches(g.specs.directed, all[m], a, b);
        lemma_edges_of_keys_fit(g, g.keys, m);
        let p = choose|p: int| 0 <= p < g.keys.len() && #[trigger] g.edge_fits(g.keys[p], all[m]);
        let k = g.keys[p];
        assert(g.edges.contains_key(k));
        assert(g.valid_key(k));
        assert(g.nodes[k.0].name == g.name(k.0));
        assert(g.nodes[k.1].name == g.name(k.1));
        lemma_index_of(g, a);
        lemma_index_of(g, b);
    }
}

/// The key under which edge `e` is kept in graph `g`.
pub open spec fn edge_key<A>(g: GraphView<A>, e: Edge<A>) -> (int, int) {
    g.key(g.index_of(e.u), g.index_of(e.v))
}

/// Adding edges that can all be added adds exactly their keys.
proof fn lemma_add_edges_dom<A>(g: GraphView<A>, es: Seq<Edge<A>>)
    requires
        distinct_names(g.nodes),
        g.can_add_all(es),
    ensures
        forall|kk: (int, int)|
            #[trigger] g.add_edges_outcome(es).0.edges.contains_key(kk) <==> g.edges.contains_key(kk) || exists|m: int|
                0 <= m < es.len() && #[trigger] edge_key(g, es[m]) == kk,
    decreases es.len(),
{
    super::rebuild::lemma_add_edges_ok(g, es);
    if es.len() > 0 {
        let e = es[0];
        assert(g.has_name(es[0].u));
        lemma_add_edge_ok(g, e);
        let g1 = g.add_edge_outcome(e).0;
        let rest = es.drop_first();
        assert(g.add_edges_outcome(es) == g1.add_edges_outcome(rest));
        super::rebuild::lemma_add_edges_ok(g1, rest);
        assert(g1.can_add_all(rest)) by {
            assert forall|k: int| 0 <= k < rest.len() implies g1.has_name(#[trigger] rest[k].u) && g1.has_name(rest[k].v) by {
                assert(rest[k] == es[k + 1]);
                assert(g.has_name(es[k + 1].u));
            }
            if !g.specs.self_loops {
                assert forall|k: int| 0 <= k < rest.len() implies (#[trigger] rest[k]).u != rest[k].v by {
                    assert(rest[k] == es[k + 1]);
                    assert(es[k + 1].u != es[k + 1].v);
                }
            }
            if !g.specs.multi_edges {
                assert forall|i: int, j: int|
                    0 <= i < rest.len() && 0 <= j < rest.len() && i != j implies !same_pair(
                    g.specs.directed,
                    #[trigger] rest[i],
                    #[trigger] rest[j],
                ) by {
                    assert(rest[i] == es[i + 1]);
                    assert(rest[j] == es[j + 1]);
                }
                assert forall|k: int| 0 <= k < rest.len() implies !g1.connected(
                    g1.index_of(#[trigger] rest[k].u),
                    g1.index_of(rest[k].v),
                ) by {
                    let f = rest[k];
                    assert(f == es[k + 1]);
                    assert(g.has_name(es[k + 1].u));
                    assert(!g.connected(g.index_of(es[k + 1].u), g.index_of(es[k + 1].v)));
                    assert(!same_pair(g.specs.directed, es[0], es[k + 1]));
                    if g.key(g.index_of(f.u), g.index_of(f.v)) == g.key(g.index_of(e.u), g.index_of(e.v)) {
                        lemma_key_same_pair(g, f, e);
                    }
                }
            }
        }
        lemma_add_edges_dom(g1, rest);
        let ke = edge_key(g, e);
        assert(g1.nodes == g.nodes && g1.specs == g.specs);
        assert forall|x: Edge<A>| #[trigger] edge_key(g1, x) == edge_key(g, x) by {}
        assert forall|kk: (int, int)|
            #[trigger] g.add_edges_outcome(es).0.edges.contains_key(kk) <==> g.edges.contains_key(kk) || exists|m: int|
                0 <= m < es.len() && #[trigger] edge_key(g, es[m]) == kk by {
            assert(g1.edges.contains_key(kk) <==> g1.edges.dom().contains(kk));
            assert(g.edges.contains_key(kk) <==> g.edges.dom().contains(kk));
            assert(g1.edges.contains_key(kk) <==> (g.edges.contains_key(kk) || kk == ke));
            if kk == ke {
                assert(edge_key(g, es[0]) == kk);
            }
            if exists|m: int| 0 <= m < rest.len() && #[trigger] edge_key(g1, rest[m]) == kk {
                let m = choose|m: int| 0 <= m < rest.len() && #[trigger] edge_key(g1, rest[m]) == kk;
                assert(rest[m] == es[m + 1]);
                assert(edge_key(g, es[m + 1]) == kk);
            }
            if exists|m: int| 0 <= m < es.len() && #[trigger] edge_key(g, es[m]) == kk {
                let m = choose|m: int| 0 <= m < es.len() && #[trigger] edge_key(g, es[m]) == kk;
                if m > 0 {
                    assert(rest[m - 1] == es[m]);
                    assert(edge_key(g1, rest[m - 1]) == kk);
                }
            }
        }
    }
}

/// A graph built from nodes with distinct names and edges that can all be
/// added leads from `a` to `b` exactly when both are its nodes and one of the
/// edges leads from `a` to `b`.
pub proof fn lemma_build_joins<A>(specs: GraphSpecs, ns: Seq<Node<A>>, es: Seq<Edge<A>>, a: u64, b: u64)
    requires
        distinct_names(ns),
        (GraphView::<A> { specs, nodes: ns, edges: Map::empty(), keys: Seq::empty() }).can_add_all(es),
    ensures
        build_outcome(specs, ns, es).0.joins(a, b) <==> {
            let start = GraphView::<A> { specs, nodes: ns, edges: Map::empty(), keys: Seq::empty() };
            &&& start.has_name(a)
            &&& start.has_name(b)
            &&& some_edge_matches(specs.directed, es, a, b)
        },
{
    let start = GraphView::<A> { specs, nodes: ns, edges: Map::empty(), keys: Seq::empty() };
    super::rebuild::lemma_build_ok(specs, ns, es);
    super::rebuild::lemma_nodes_into_empty::<A>(specs, ns);
    lemma_add_edges_dom(start, es);
    let b2 = build_outcome(specs, ns, es).0;
    assert(b2 == start.add_edges_outcome(es).0);
    if start.has_name(a) && start.has_name(b) {
        lemma_index_of(start, a);
        lemma_index_of(start, b);
        let ab = Edge::<A> { u: a, v: b, attributes: None, weight_bits: 0 };
        let kab = start.key(start.index_of(a), start.index_of(b));
        if b2.joins(a, b) {
            assert(b2.edges.contains_key(kab));
            let m = choose|m: int| 0 <= m < es.len() && #[trigger] edge_key(start, es[m]) == kab;
            assert(start.has_name(es[m].u) && start.has_name(es[m].v));
            lemma_key_same_pair(start, es[m], ab);
            assert(pair_matches(specs.directed, es[m], a, b));
        }
        if some_edge_matches(specs.directed, es, a, b) {
            let m = choose|m: int| 0 <= m < es.len() && #[trigger] pair_matches(specs.directed, es[m], a, b);
            assert(edge_key(start, es[m]) == kab);
            assert(b2.edges.contains_key(kab));
        }
    }
}

/// Reversing a directed graph keeps its nodes and turns every connection
/// around: the reverse leads from `a` to `b` exactly when the graph leads
/// from `b` to `a`.
pub proof fn law_reverse_joins<A>(g: GraphView<A>)
    requires
        g.well_formed(),
        g.specs.directed,
    ensures
        build_outcome(g.specs, g.nodes, reversed_edges(g.all_edges())).0.nodes == g.nodes,
        build_outcome(g.specs, g.nodes, reversed_edges(g.all_edges())).0.specs == g.specs,
        forall|a: u64, b: u64|
            #[trigger] build_outcome(g.specs, g.nodes, reversed_edges(g.all_edges())).0.joins(a, b) <==> g.joins(
                b,
                a,
            ),
{
    let res = reversed_edges(g.all_edges());
    lemma_reversed_addable(g);
    super::rebuild::lemma_build_ok(g.specs, g.nodes, res);
    assert forall|a: u64, b: u64|
        #[trigger] build_outcome(g.specs, g.nodes, res).0.joins(a, b) <==> g.joins(b, a) by {
        lemma_build_joins(g.specs, g.nodes, res, a, b);
        lemma_joins_by_edges(g, b, a);
        let all = g.all_edges();
        if some_edge_matches(true, res, a, b) {
            let m = choose|m: int| 0 <= m < res.len() && #[trigger] pair_matches(true, res[m], a, b);
            assert(pair_matches(true, all[m], b, a));
        }
        if some_edge_matches(true, all, b, a) {
            let m = choose|m: int| 0 <= m < all.len() && #[trigger] pair_matches(true, all[m], b, a);
            assert(pair_matches(true, res[m], a, b));
        }
    }
}

/// Reversing a directed graph twice gives back its nodes and its connections.
pub proof fn law_reverse_twice<A>(g: GraphView<A>, r: GraphView<A>)
    requires
        g.well_formed(),
        g.specs.directed,
        r == build_outcome(g.specs, g.nodes, reversed_edges(g.all_edges())).0,
        r.well_formed(),
    ensures
        build_outcome(r.specs, r.nodes, reversed_edges(r.all_edges())).0.nodes == g.nodes,
        forall|a: u64, b: u64|
            #[trigger] build_outcome(r.specs, r.nodes, reversed_edges(r.all_edges())).0.joins(a, b) <==> g.joins(a, b),
{
    law_reverse_joins(g);
    law_reverse_joins(r);
    assert forall|a: u64, b: u64|
        #[trigger] build_outcome(r.specs, r.nodes, reversed_edges(r.all_edges())).0.joins(a, b) <==> g.joins(a, b) by {
        assert(r.joins(b, a) <==> g.joins(a, b));
    }
}

/// The subgraph induced by some names has the nodes of the graph with those
/// names, and leads from `a` to `b` exactly when both are among the names and
/// the graph leads from `a` to `b`.
pub proof fn law_induced_joins<A>(g: GraphView<A>, names: Seq<u64>)
    requires
        g.well_formed(),
    ensures
        forall|x: u64| #[trigger] induced(g, names).has_name(x) <==> g.has_name(x) && names.contains(x),
        forall|a: u64, b: u64|
            #[trigger] induced(g, names).joins(a, b) <==> names.contains(a) && names.contains(b) && g.joins(a, b),
{
    let nf = node_named_in::<A>(names);
    let ef = edge_within::<A>(names);
    let ns = g.nodes.filter(nf);
    let es = g.all_edges().filter(ef);
    let all = g.all_edges();
    lemma_induced_addable(g, names);
    super::rebuild::lemma_build_ok(g.specs, ns, es);
    let start = GraphView::<A> { specs: g.specs, nodes: ns, edges: Map::empty(), keys: Seq::empty() };
    assert forall|x: u64| #[trigger] induced(g, names).has_name(x) <==> g.has_name(x) && names.contains(x) by {
        assert(induced(g, names).nodes == ns);
        if start.has_name(x) {
            let j = choose|j: int| 0 <= j < ns.len() && #[trigger] ns[j].name == x;
            assert(ns.contains(ns[j]));
            g.nodes.lemma_filter_contains_rev(nf, ns[j]);
            g.nodes.lemma_filter_pred(nf, j);
            let i = choose|i: int| 0 <= i < g.nodes.len() && g.nodes[i] == ns[j];
            assert(g.nodes[i].name == x);
        }
        if g.has_name(x) && names.contains(x) {
            let i = choose|i: int| 0 <= i < g.nodes.len() && #[trigger] g.nodes[i].name == x;
            g.nodes.lemma_filter_contains(nf, i);
            let j = choose|j: int| 0 <= j < ns.len() && ns[j] == g.nodes[i];
            assert(ns[j].name == x);
        }
    }
    assert forall|a: u64, b: u64|
        #[trigger] induced(g, names).joins(a, b) <==> names.contains(a) && names.contains(b) && g.joins(a, b) by {
        lemma_build_joins(g.specs, ns, es, a, b);
        lemma_joins_by_edges(g, a, b);
        assert(induced(g, names).has_name(a) <==> g.has_name(a) && names.contains(a));
        assert(induced(g, names).has_name(b) <==> g.has_name(b) && names.contains(b));
        if some_edge_matches(g.specs.directed, es, a, b) {
            let m = choose|m: int| 0 <= m < es.len() && #[trigger] pair_matches(g.specs.directed, es[m], a, b);
            assert(es.contains(es[m]));
            all.lemma_filter_contains_rev(ef, es[m]);
            all.lemma_filter_pred(ef, m);
            let q = choose|q: int| 0 <= q < all.len() && all[q] == es[m];
            assert(pair_matches(g.specs.directed, all[q], a, b));
        }
        if names.contains(a) && names.contains(b) && some_edge_matches(g.specs.directed, all, a, b) {
            let q = choose|q: int| 0 <= q < all.len() && #[trigger] pair_matches(g.specs.directed, all[q], a, b);
            all.lemma_filter_contains(ef, q);
            let m = choose|m: int| 0 <= m < es.len() && es[m] == all[q];
            assert(pair_matches(g.specs.directed, es[m], a, b));
        }
    }
}

/// The undirected version of a directed graph keeps its nodes and joins `a`
/// and `b` exactly when the graph leads from one of them to the other.
pub proof fn law_undirected_joins<A>(g: GraphView<A>)
    requires
        g.well_formed(),
        g.specs.directed,
    ensures
        build_outcome(undirected_specs(g.specs), g.nodes, undirected_edges(g)).0.nodes == g.nodes,
        !build_outcome(undirected_specs(g.specs), g.nodes, undirected_edges(g)).0.specs.directed,
        forall|a: u64, b: u64|
            #[trigger] build_outcome(undirected_specs(g.specs), g.nodes, undirected_edges(g)).0.joins(a, b) <==> (
            g.joins(a, b) || g.joins(b, a)),
{
    let us = undirected_specs(g.specs);
    let res = undirected_edges(g);
    let kp = keeps_pair(g);
    let ks = g.keys.filter(kp);
    lemma_undirected_addable(g);
    super::rebuild::lemma_build_ok(us, g.nodes, res);
    assert forall|a: u64, b: u64|
        #[trigger] build_outcome(us, g.nodes, res).0.joins(a, b) <==> (g.joins(a, b) || g.joins(b, a)) by {
        lemma_build_joins(us, g.nodes, res, a, b);
        if some_edge_matches(false, res, a, b) {
            let m = choose|m: int| 0 <= m < res.len() && #[trigger] pair_matches(false, res[m], a, b);
            let k = ks[m];
            assert(ks.contains(k));
            g.keys.lemma_filter_contains_rev(kp, k);
            assert(g.edges.contains_key(k));
            assert(g.valid_key(k));
            assert(g.nodes[k.0].name == g.name(k.0));
            assert(g.nodes[k.1].name == g.name(k.1));
            lemma_index_of(g, g.name(k.0));
            lemma_index_of(g, g.name(k.1));
            if g.name(k.0) == a {
                assert(g.joins(a, b));
            } else {
                assert(g.joins(b, a));
            }
        }
        if g.joins(a, b) || g.joins(b, a) {
            let (x, y) = if g.joins(a, b) { (a, b) } else { (b, a) };
            lemma_index_of(g, x);
            lemma_index_of(g, y);
            let k0 = (g.index_of(x), g.index_of(y));
            assert(g.edges.contains_key(k0));
            let k = if kp(k0) { k0 } else { (k0.1, k0.0) };
            assert(g.edges.contains_key(k) && kp(k));
            assert(g.keys.contains(k));
            let p = choose|p: int| 0 <= p < g.keys.len() && g.keys[p] == k;
            g.keys.lemma_filter_contains(kp, p);
            let m = choose|m: int| 0 <= m < ks.len() && ks[m] == k;
            assert(res[m] == plain_edge(g, k));
            assert(pair_matches(false, res[m], a, b));
        }
    }
}

/// Setting every edge weight keeps the nodes and the connections of a graph.
pub proof fn law_reweight_joins<A>(g: GraphView<A>, w: u64)
    requires
        g.well_formed(),
    ensures
        build_outcome(g.specs, g.nodes, reweighted_edges(g.all_edges(), w)).0.nodes == g.nodes,
        forall|a: u64, b: u64|
            #[trigger] build_outcome(g.specs, g.nodes, reweighted_edges(g.all_edges(), w)).0.joins(a, b) <==> g.joins(
                a,
                b,
            ),
{
    let res = reweighted_edges(g.all_edges(), w);
    lemma_reweighted_addable(g, w);
    super::rebuild::lemma_build_ok(g.specs, g.nodes, res);
    assert forall|a: u64, b: u64| #[trigger] build_outcome(g.specs, g.nodes, res).0.joins(a, b) <==> g.joins(a, b) by {
        lemma_build_joins(g.specs, g.nodes, res, a, b);
        lemma_joins_by_edges(g, a, b);
        let all = g.all_edges();
        if some_edge_matches(g.specs.directed, res, a, b) {
            let m = choose|m: int| 0 <= m < res.len() && #[trigger] pair_matches(g.specs.directed, res[m], a, b);
            assert(pair_matches(g.specs.directed, all[m], a, b));
        }
        if some_edge_matches(g.specs.directed, all, b, a) || some_edge_matches(g.specs.directed, all, a, b) {
        }
        if some_edge_matches(g.specs.directed, all, a, b) {
            let m = choose|m: int| 0 <= m < all.len() && #[trigger] pair_matches(g.specs.directed, all[m], a, b);
            assert(pair_matches(g.specs.directed, res[m], a, b));
        }
    }
}

/// An edge that is added without error, and is no self-loop dropped by a
/// graph without self-loops, leads from its first node to its second.
pub proof fn law_add_edge_joins<A>(g: GraphView<A>, e: Edge<A>)
    requires
        g.well_formed(),
        g.add_edge_outcome(e).1.is_none(),
        g.specs.self_loops || e.u != e.v,
    ensures
        g.add_edge_outcome(e).0.joins(e.u, e.v),
{
    let g2 = g.with_node_named(e.u).with_node_named(e.v);
    let out = g.add_edge_outcome(e).0;
    assert(g2.has_name(e.u)) by {
        if !g.has_name(e.u) {
            assert(g.with_node_named(e.u).nodes[g.nodes.len() as int].name == e.u);
        }
        let h = g.with_node_named(e.u);
        let i = choose|i: int| 0 <= i < h.nodes.len() && #[trigger] h.nodes[i].name == e.u;
        if !h.has_name(e.v) {
            assert(g2.nodes[i].name == e.u);
        }
    }
    assert(g2.has_name(e.v)) by {
        let h = g.with_node_named(e.u);
        if !h.has_name(e.v) {
            assert(g2.nodes[h.nodes.len() as int].name == e.v);
        }
    }
    assert(out.nodes == g2.nodes);
    assert(out.specs == g2.specs);
}

/// In a directed graph the successors and the predecessors mirror each
/// other: `y` is a successor of `x` exactly when `x` is a predecessor of `y`.
pub proof fn law_successors_mirror_predecessors<A>(g: GraphView<A>, x: u64, y: u64)
    requires
        g.well_formed(),
        g.specs.directed,
        g.has_name(x),
        g.has_name(y),
    ensures
        crate::names_where(g, g.succ_test(g.index_of(x)), g.nodes.len() as int).contains(y)
            <==> crate::names_where(g, g.pred_test(g.index_of(y)), g.nodes.len() as int).contains(x),
{
    lemma_index_of(g, x);
    lemma_index_of(g, y);
    let i = g.index_of(x);
    let j = g.index_of(y);
    let n = g.nodes.len() as int;
    if crate::names_where(g, g.succ_test(i), n).contains(y) {
        let k = choose|k: int| 0 <= k < n && k < g.nodes.len() && g.succ_test(i)(k) && #[trigger] g.nodes[k].name == y;
        assert(k == j);
        assert(g.pred_test(j)(i));
        assert(g.nodes[i].name == x);
    }
    if crate::names_where(g, g.pred_test(j), n).contains(x) {
        let k = choose|k: int| 0 <= k < n && k < g.nodes.len() && g.pred_test(j)(k) && #[trigger] g.nodes[k].name == x;
        assert(k == i);
        assert(g.succ_test(i)(j));
        assert(g.nodes[j].name == y);
    }
}

/// In an undirected graph adjacency is symmetric: `y` is a neighbor of `x`
/// exactly when `x` is a neighbor of `y`.
pub proof fn law_neighbors_symmetric<A>(g: GraphView<A>, x: u64, y: u64)
    requires
        g.well_formed(),
        !g.specs.directed,
        g.has_name(x),
        g.has_name(y),
    ensures
        crate::names_where(g, g.succ_test(g.index_of(x)), g.nodes.len() as int).contains(y)
            <==> crate::names_where(g, g.succ_test(g.index_of(y)), g.nodes.len() as int).contains(x),
{
    lemma_index_of(g, x);
    lemma_index_of(g, y);
    let i = g.index_of(x);
    let j = g.index_of(y);
    let n = g.nodes.len() as int;
    if crate::names_where(g, g.succ_test(i), n).contains(y) {
        let k = choose|k: int| 0 <= k < n && k < g.nodes.len() && g.succ_test(i)(k) && #[trigger] g.nodes[k].name == y;
        assert(k == j);
        assert(g.key(i, j) == g.key(j, i));
        assert(g.succ_test(j)(i));
        assert(g.nodes[i].name == x);
    }
    if crate::names_where(g, g.succ_test(j), n).contains(x) {
        let k = choose|k: int| 0 <= k < n && k < g.nodes.len() && g.succ_test(j)(k) && #[trigger] g.nodes[k].name == x;
        assert(k == i);
        assert(g.key(i, j) == g.key(j, i));
        assert(g.succ_test(i)(j));
        assert(g.nodes[j].name == y);
    }
}

/// In a graph without multi-edges whose dedupe strategy is `KeepLast`,
/// adding an edge between two nodes that an edge already joins discards the
/// edge there and keeps the new one: the edges between the two nodes become
/// exactly the new edge, as the graph stores it, and nothing else changes.
pub proof fn law_keep_last_replaces<A>(g: GraphView<A>, e: Edge<A>)
    requires
        g.well_formed(),
        !g.specs.multi_edges,
        g.specs.edge_dedupe_strategy == EdgeDedupeStrategy::KeepLast,
        g.specs.self_loops || e.u != e.v,
        g.has_name(e.u),
        g.has_name(e.v),
        g.edges.contains_key(g.key(g.index_of(e.u), g.index_of(e.v))),
    ensures
        ({
            let (h, err) = g.add_edge_outcome(e);
            let k = g.key(g.index_of(e.u), g.index_of(e.v));
            &&& err.is_none()
            &&& h.nodes == g.nodes
            &&& h.keys == g.keys
            &&& h.edges.dom() == g.edges.dom()
            &&& h.edges[k] == seq![g.stored_edge(e)]
            &&& forall|k2: (int, int)| k2 != k && #[trigger] g.edges.contains_key(k2) ==> h.edges[k2] == g.edges[k2]
        }),
{
    let h = g.add_edge_outcome(e).0;
    let k = g.key(g.index_of(e.u), g.index_of(e.v));
    assert(h.edges == g.edges.insert(k, seq![g.stored_edge(e)]));
    assert(h.edges.dom() =~= g.edges.dom());
}

/// In a graph without multi-edges whose dedupe strategy is `KeepFirst`,
/// adding an edge between two nodes that an edge already joins leaves the
/// graph as it was: the edge there stays and the new one is dropped.
pub proof fn law_keep_first_keeps<A>(g: GraphView<A>, e: Edge<A>)
    requires
        g.well_formed(),
        !g.specs.multi_edges,
        g.specs.edge_dedupe_strategy == EdgeDedupeStrategy::KeepFirst,
        g.specs.self_loops || e.u != e.v,
        g.has_name(e.u),
        g.has_name(e.v),
        g.edges.contains_key(g.key(g.index_of(e.u), g.index_of(e.v))),
    ensures
        g.add_edge_outcome(e) == (g, Option::<crate::ErrorKind>::None),
{
}

/// Adding a node whose name the graph already has puts the new node, with
/// its attributes, at that name's index, and adds no node.
pub proof fn law_add_existing_node_updates<A>(g: GraphView<A>, n: Node<A>)
    requires
        g.well_formed(),
        g.has_name(n.name),
    ensures
        g.spec_add_node(n).nodes.len() == g.nodes.len(),
        g.spec_add_node(n).nodes[g.index_of(n.name)] == n,
        forall|j: int| 0 <= j < g.nodes.len() && j != g.index_of(n.name) ==> #[trigger] g.spec_add_node(n).nodes[j]
            == g.nodes[j],
        g.spec_add_node(n).edges == g.edges,
{
}

/// Adding a node whose name the graph lacks appends it after the nodes that
/// were there.
pub proof fn law_add_new_node_appends<A>(g: GraphView<A>, n: Node<A>)
    requires
        g.well_formed(),
        !g.has_name(n.name),
    ensures
        g.spec_add_node(n).nodes == g.nodes.push(n),
        g.spec_add_node(n).edges == g.edges,
{
}

} // verus!
