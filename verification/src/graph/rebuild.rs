use super::GraphView;
use crate::{Edge, Node};
use vstd::prelude::*;

verus! {

/// Whether edges `a` and `b` join the same two nodes: in the same direction
/// in a directed graph, in either direction in an undirected one.
pub open spec fn same_pair<A>(directed: bool, a: Edge<A>, b: Edge<A>) -> bool {
    if directed {
        a.u == b.u && a.v == b.v
    } else {
        (a.u == b.u && a.v == b.v) || (a.u == b.v && a.v == b.u)
    }
}

/// Whether the nodes `ns` have distinct names.
pub open spec fn distinct_names<A>(ns: Seq<Node<A>>) -> bool {
    forall|i: int, j: int|
        0 <= i < ns.len() && 0 <= j < ns.len() && i != j ==> #[trigger] ns[i].name != #[trigger] ns[j].name
}

/// Whether no two of the edges `es` join the same two nodes.
pub open spec fn distinct_pairs<A>(directed: bool, es: Seq<Edge<A>>) -> bool {
    forall|i: int, j: int|
        0 <= i < es.len() && 0 <= j < es.len() && i != j ==> !same_pair(directed, #[trigger] es[i], #[trigger] es[j])
}

impl<A> GraphView<A> {
    /// Whether each of the edges `es`, added after those before it, is added
    /// without error: its nodes are there, it is no refused self-loop, and no
    /// edge between its nodes is there already unless multi-edges are allowed.
    pub open spec fn can_add_all(self, es: Seq<Edge<A>>) -> bool {
        &&& forall|k: int| 0 <= k < es.len() ==> self.has_name(#[trigger] es[k].u) && self.has_name(es[k].v)
        &&& !self.specs.self_loops ==> forall|k: int| 0 <= k < es.len() ==> (#[trigger] es[k]).u != es[k].v
        &&& !self.specs.multi_edges ==> distinct_pairs(self.specs.directed, es)
        &&& !self.specs.multi_edges ==> forall|k: int|
            0 <= k < es.len() ==> !self.connected(self.index_of(#[trigger] es[k].u), self.index_of(es[k].v))
    }
}

/// The index of a name is the one position that holds it.
pub proof fn lemma_index_of<A>(g: GraphView<A>, x: u64)
    requires
        distinct_names(g.nodes),
        g.has_name(x),
    ensures
        0 <= g.index_of(x) < g.nodes.len(),
        g.nodes[g.index_of(x)].name == x,
        forall|i: int| 0 <= i < g.nodes.len() && #[trigger] g.nodes[i].name == x ==> i == g.index_of(x),
{
}

/// Two edges whose nodes are in the graph have the same key only if they join
/// the same two nodes.
pub proof fn lemma_key_same_pair<A>(g: GraphView<A>, a: Edge<A>, b: Edge<A>)
    requires
        distinct_names(g.nodes),
        g.has_name(a.u),
        g.has_name(a.v),
        g.has_name(b.u),
        g.has_name(b.v),
        g.key(g.index_of(a.u), g.index_of(a.v)) == g.key(g.index_of(b.u), g.index_of(b.v)),
    ensures
        same_pair(g.specs.directed, a, b),
{
    lemma_index_of(g, a.u);
    lemma_index_of(g, a.v);
    lemma_index_of(g, b.u);
    lemma_index_of(g, b.v);
}

/// Adding one edge that can be added succeeds, keeps the nodes and specs, and
/// adds the edge's key to the keys in use.
pub proof fn lemma_add_edge_ok<A>(g: GraphView<A>, e: Edge<A>)
    requires
        distinct_names(g.nodes),
        g.has_name(e.u),
        g.has_name(e.v),
        !g.specs.self_loops ==> e.u != e.v,
        !g.specs.multi_edges ==> !g.connected(g.index_of(e.u), g.index_of(e.v)),
    ensures
        g.add_edge_outcome(e).1.is_none(),
        g.add_edge_outcome(e).0.nodes == g.nodes,
        g.add_edge_outcome(e).0.specs == g.specs,
        g.add_edge_outcome(e).0.edges.dom() == g.edges.dom().insert(g.key(g.index_of(e.u), g.index_of(e.v))),
{
    let k = g.key(g.index_of(e.u), g.index_of(e.v));
    assert(g.with_node_named(e.u) == g);
    assert(g.with_node_named(e.u).with_node_named(e.v) == g);
    let out = g.add_edge_outcome(e).0;
    if g.edges.contains_key(k) {
        assert(out.edges.dom() =~= g.edges.dom().insert(k));
    } else {
        assert(out.edges.dom() =~= g.edges.dom().insert(k));
    }
}

/// Adding edges that can all be added succeeds and keeps the nodes and specs.
pub proof fn lemma_add_edges_ok<A>(g: GraphView<A>, es: Seq<Edge<A>>)
    requires
        distinct_names(g.nodes),
        g.can_add_all(es),
    ensures
        g.add_edges_outcome(es).1.is_none(),
        g.add_edges_outcome(es).0.nodes == g.nodes,
        g.add_edges_outcome(es).0.specs == g.specs,
    decreases es.len(),
{
    if es.len() > 0 {
        let e = es[0];
        assert(g.has_name(es[0].u));
        lemma_add_edge_ok(g, e);
        let g1 = g.add_edge_outcome(e).0;
        let rest = es.drop_first();
        assert forall|k: int| 0 <= k < rest.len() implies g1.has_name(#[trigger] rest[k].u) && g1.has_name(rest[k].v) by {
            assert(rest[k] == es[k + 1]);
            assert(g.has_name(es[k + 1].u));
        }
        if !g.specs.self_loops {
            assert forall|k: int| 0 <= k < rest.len() implies (#[trigger] rest[k]).u != rest[k].v by {
                assert(rest[k] == es[k + 1]);
                assert(es[k + 1].u != es[k + 1].v);
            }
        }
        if !g.specs.multi_edges {
            assert forall|i: int, j: int|
                0 <= i < rest.len() && 0 <= j < rest.len() && i != j implies !same_pair(
                g.specs.directed,
                #[trigger] rest[i],
                #[trigger] rest[j],
            ) by {
                assert(rest[i] == es[i + 1]);
                assert(rest[j] == es[j + 1]);
            }
            assert forall|k: int| 0 <= k < rest.len() implies !g1.connected(
                g1.index_of(#[trigger] rest[k].u),
                g1.index_of(rest[k].v),
            ) by {
                let f = rest[k];
                assert(f == es[k + 1]);
                assert(g.has_name(es[k + 1].u));
                assert(!g.connected(g.index_of(es[k + 1].u), g.index_of(es[k + 1].v)));
                assert(!same_pair(g.specs.directed, es[0], es[k + 1]));
                if g.key(g.index_of(f.u), g.index_of(f.v)) == g.key(g.index_of(e.u), g.index_of(e.v)) {
                    lemma_key_same_pair(g, f, e);
                }
            }
        }
        lemma_add_edges_ok(g1, rest);
    }
}

/// The graph with only its specs: no nodes and no edges.
pub open spec fn empty_view<A>(specs: crate::GraphSpecs) -> GraphView<A> {
    GraphView::<A> { specs, nodes: Seq::empty(), edges: Map::empty(), keys: Seq::empty() }
}

/// Adding nodes with new, distinct names appends them.
pub proof fn lemma_add_fresh_nodes<A>(g: GraphView<A>, ns: Seq<Node<A>>)
    requires
        distinct_names(ns),
        forall|k: int| 0 <= k < ns.len() ==> !g.has_name(#[trigger] ns[k].name),
    ensures
        g.add_nodes_view(ns) == (GraphView { nodes: g.nodes + ns, ..g }),
    decreases ns.len(),
{
    if ns.len() == 0 {
        assert(g.nodes + ns =~= g.nodes);
    } else {
        let g1 = GraphView { nodes: g.nodes.push(ns[0]), ..g };
        assert(!g.has_name(ns[0].name));
        assert(g.spec_add_node(ns[0]) == g1);
        let rest = ns.drop_first();
        assert forall|k: int| 0 <= k < rest.len() implies !g1.has_name(#[trigger] rest[k].name) by {
            assert(rest[k] == ns[k + 1]);
            assert(!g.has_name(ns[k + 1].name));
            assert(ns[k + 1].name != ns[0].name);
            if g1.has_name(rest[k].name) {
                let i = choose|i: int| 0 <= i < g1.nodes.len() && #[trigger] g1.nodes[i].name == rest[k].name;
                if i < g.nodes.len() {
                    assert(g.nodes[i].name == rest[k].name);
                }
            }
        }
        lemma_add_fresh_nodes(g1, rest);
        assert(g1.nodes + rest =~= g.nodes + ns);
    }
}

/// Adding nodes with distinct names to a graph with only specs gives a graph
/// with exactly those nodes.
pub proof fn lemma_nodes_into_empty<A>(specs: crate::GraphSpecs, ns: Seq<Node<A>>)
    requires
        distinct_names(ns),
    ensures
        empty_view::<A>(specs).add_nodes_view(ns) == (GraphView::<A> {
            specs,
            nodes: ns,
            edges: Map::empty(),
            keys: Seq::empty(),
        }),
{
    lemma_add_fresh_nodes(empty_view::<A>(specs), ns);
    assert(Seq::<Node<A>>::empty() + ns =~= ns);
}

/// Every edge kept under the keys `ks` of a well-formed graph fits one of them.
pub proof fn lemma_edges_of_keys_fit<A>(g: GraphView<A>, ks: Seq<(int, int)>, m: int)
    requires
        g.well_formed(),
        forall|p: int| 0 <= p < ks.len() ==> g.edges.contains_key(#[trigger] ks[p]),
        0 <= m < g.edges_of_keys(ks).len(),
    ensures
        exists|p: int| 0 <= p < ks.len() && #[trigger] g.edge_fits(ks[p], g.edges_of_keys(ks)[m]),
    decreases ks.len(),
{
    if ks.len() > 0 {
        let init = ks.drop_last();
        let prev = g.edges_of_keys(init);
        let k = ks.last();
        assert(g.edges.contains_key(ks[ks.len() - 1]));
        if m < prev.len() {
            assert forall|p: int| 0 <= p < init.len() implies g.edges.contains_key(#[trigger] init[p]) by {
                assert(init[p] == ks[p]);
            }
            lemma_edges_of_keys_fit(g, init, m);
            let p = choose|p: int| 0 <= p < init.len() && #[trigger] g.edge_fits(init[p], prev[m]);
            assert(init[p] == ks[p]);
            assert(g.edges_of_keys(ks)[m] == prev[m]);
        } else {
            assert(g.edges_of_keys(ks)[m] == g.edges[k][m - prev.len()]);
            assert(g.edge_fits(k, g.edges[k][m - prev.len()]));
            assert(g.edge_fits(ks[ks.len() - 1], g.edges_of_keys(ks)[m]));
        }
    }
}

/// An edge that fits a valid key of a well-formed graph joins two of its
/// nodes, and is no self-loop unless self-loops are allowed.
pub proof fn lemma_fitting_edge<A>(g: GraphView<A>, k: (int, int), e: Edge<A>)
    requires
        g.well_formed(),
        g.edges.contains_key(k),
        g.edge_fits(k, e),
    ensures
        g.has_name(e.u),
        g.has_name(e.v),
        !g.specs.self_loops ==> e.u != e.v,
{
    assert(g.valid_key(k));
    assert(g.nodes[k.0].name == g.name(k.0));
    assert(g.nodes[k.1].name == g.name(k.1));
}

/// Two edges that fit valid keys of a well-formed graph and join the same two
/// nodes fit the same key.
pub proof fn lemma_fits_same_key<A>(g: GraphView<A>, k1: (int, int), k2: (int, int), a: Edge<A>, b: Edge<A>)
    requires
        g.well_formed(),
        g.edges.contains_key(k1),
        g.edges.contains_key(k2),
        g.edge_fits(k1, a),
        g.edge_fits(k2, b),
        same_pair(g.specs.directed, a, b),
    ensures
        k1 == k2,
{
    assert(g.valid_key(k1));
    assert(g.valid_key(k2));
    assert(g.nodes[k1.0].name == g.name(k1.0));
    assert(g.nodes[k1.1].name == g.name(k1.1));
    assert(g.nodes[k2.0].name == g.name(k2.0));
    assert(g.nodes[k2.1].name == g.name(k2.1));
}

/// In a well-formed graph without multi-edges, the edges kept under distinct
/// keys join distinct pairs of nodes.
pub proof fn lemma_edges_of_keys_distinct<A>(g: GraphView<A>, ks: Seq<(int, int)>)
    requires
        g.well_formed(),
        !g.specs.multi_edges,
        ks.no_duplicates(),
        forall|p: int| 0 <= p < ks.len() ==> g.edges.contains_key(#[trigger] ks[p]),
    ensures
        distinct_pairs(g.specs.directed, g.edges_of_keys(ks)),
        g.edges_of_keys(ks).len() == ks.len(),
    decreases ks.len(),
{
    if ks.len() > 0 {
        let init = ks.drop_last();
        let k = ks.last();
        assert forall|p: int| 0 <= p < init.len() implies g.edges.contains_key(#[trigger] init[p]) by {
            assert(init[p] == ks[p]);
        }
        assert(init.no_duplicates()) by {
            assert forall|i: int, j: int| 0 <= i < init.len() && 0 <= j < init.len() && i != j implies init[i] != init[j] by {
                assert(init[i] == ks[i]);
                assert(init[j] == ks[j]);
            }
        }
        lemma_edges_of_keys_distinct(g, init);
        let prev = g.edges_of_keys(init);
        let all = g.edges_of_keys(ks);
        assert(g.edges.contains_key(ks[ks.len() - 1]));
        assert(g.edges[k].len() == 1);
        let last = g.edges[k][0];
        assert(g.edge_fits(k, last));
        assert(all == prev.push(last)) by {
            assert(all =~= prev + g.edges[k]);
        }
        assert forall|i: int, j: int| 0 <= i < all.len() && 0 <= j < all.len() && i != j implies !same_pair(
            g.specs.directed,
            #[trigger] all[i],
            #[trigger] all[j],
        ) by {
            if i < prev.len() && j < prev.len() {
                assert(all[i] == prev[i]);
                assert(all[j] == prev[j]);
            } else {
                let o = if i < prev.len() { i } else { j };
                assert(o < prev.len());
                assert(all[o] == prev[o]);
                lemma_edges_of_keys_fit(g, init, o);
                let p = choose|p: int| 0 <= p < init.len() && #[trigger] g.edge_fits(init[p], prev[o]);
                assert(init[p] == ks[p]);
                assert(ks[p] != k);
                if same_pair(g.specs.directed, all[i], all[j]) {
                    if i < prev.len() {
                        lemma_fits_same_key(g, init[p], k, prev[o], last);
                    } else {
                        lemma_fits_same_key(g, k, init[p], last, prev[o]);
                    }
                }
            }
        }
    }
}

/// A pairwise-distinctness property survives a filter.
pub proof fn lemma_filter_keeps_distinct<T>(s: Seq<T>, f: spec_fn(T) -> bool, r: spec_fn(T, T) -> bool)
    requires
        forall|i: int, j: int| 0 <= i < s.len() && 0 <= j < s.len() && i != j ==> !r(#[trigger] s[i], #[trigger] s[j]),
    ensures
        forall|i: int, j: int|
            0 <= i < s.filter(f).len() && 0 <= j < s.filter(f).len() && i != j ==> !r(
                #[trigger] s.filter(f)[i],
                #[trigger] s.filter(f)[j],
            ),
    decreases s.len(),
{
    reveal(Seq::filter);
    if s.len() > 0 {
        let init = s.drop_last();
        assert forall|i: int, j: int| 0 <= i < init.len() && 0 <= j < init.len() && i != j implies !r(#[trigger] init[i], #[trigger] init[j]) by {
            assert(init[i] == s[i]);
            assert(init[j] == s[j]);
        }
        lemma_filter_keeps_distinct(init, f, r);
        let fi = init.filter(f);
        let x = s.last();
        if f(x) {
            let fs = s.filter(f);
            assert(fs == fi.push(x));
            assert forall|i: int, j: int| 0 <= i < fs.len() && 0 <= j < fs.len() && i != j implies !r(#[trigger] fs[i], #[trigger] fs[j]) by {
                if i < fi.len() && j < fi.len() {
                    assert(fs[i] == fi[i]);
                    assert(fs[j] == fi[j]);
                } else {
                    let o = if i < fi.len() { i } else { j };
                    assert(fs[o] == fi[o]);
                    assert(fi.contains(fi[o]));
                    init.lemma_filter_contains_rev(f, fi[o]);
                    assert(init.contains(fi[o]));
                    let p = choose|p: int| 0 <= p < init.len() && init[p] == fi[o];
                    assert(s[p] == init[p]);
                    assert(s[s.len() - 1] == x);
                    assert(p != s.len() - 1);
                }
            }
        }
    }
}

/// What building a graph with `specs` from the nodes `ns` and then the edges
/// `es` gives: the graph, and the kind of the error that stopped it, if any.
pub open spec fn build_outcome<A>(specs: crate::GraphSpecs, ns: Seq<Node<A>>, es: Seq<Edge<A>>) -> (
    GraphView<A>,
    Option<crate::ErrorKind>,
) {
    empty_view::<A>(specs).add_nodes_view(ns).add_edges_outcome(es)
}

/// Whether two nodes have the same name.
pub open spec fn same_name<A>() -> spec_fn(Node<A>, Node<A>) -> bool {
    |a: Node<A>, b: Node<A>| a.name == b.name
}

/// Whether two edges join the same two nodes.
pub open spec fn pair_clash<A>(directed: bool) -> spec_fn(Edge<A>, Edge<A>) -> bool {
    |a: Edge<A>, b: Edge<A>| same_pair(directed, a, b)
}

/// Building a graph from nodes with distinct names and edges that can all be
/// added to them succeeds, and keeps exactly those nodes.
pub proof fn lemma_build_ok<A>(specs: crate::GraphSpecs, ns: Seq<Node<A>>, es: Seq<Edge<A>>)
    requires
        distinct_names(ns),
        (GraphView::<A> { specs, nodes: ns, edges: Map::empty(), keys: Seq::empty() }).can_add_all(es),
    ensures
        build_outcome(specs, ns, es).1.is_none(),
        build_outcome(specs, ns, es).0.nodes == ns,
        build_outcome(specs, ns, es).0.specs == specs,
{
    lemma_nodes_into_empty::<A>(specs, ns);
    lemma_add_edges_ok(GraphView::<A> { specs, nodes: ns, edges: Map::empty(), keys: Seq::empty() }, es);
}

/// In a well-formed graph, every edge joins two of its nodes, no edge is a
/// refused self-loop, and without multi-edges no two edges join the same nodes.
pub proof fn lemma_all_edges_addable<A>(g: GraphView<A>)
    requires
        g.well_formed(),
    ensures
        forall|m: int|
            0 <= m < g.all_edges().len() ==> g.has_name(#[trigger] g.all_edges()[m].u) && g.has_name(
                g.all_edges()[m].v,
            ) && (!g.specs.self_loops ==> g.all_edges()[m].u != g.all_edges()[m].v),
        !g.specs.multi_edges ==> distinct_pairs(g.specs.directed, g.all_edges()),
{
    assert forall|p: int| 0 <= p < g.keys.len() implies g.edges.contains_key(#[trigger] g.keys[p]) by {
        assert(g.keys.contains(g.keys[p]));
    }
    assert forall|m: int| 0 <= m < g.all_edges().len() implies g.has_name(#[trigger] g.all_edges()[m].u)
        && g.has_name(g.all_edges()[m].v) && (!g.specs.self_loops ==> g.all_edges()[m].u
        != g.all_edges()[m].v) by {
        lemma_edges_of_keys_fit(g, g.keys, m);
        let p = choose|p: int| 0 <= p < g.keys.len() && #[trigger] g.edge_fits(g.keys[p], g.all_edges()[m]);
        lemma_fitting_edge(g, g.keys[p], g.all_edges()[m]);
    }
    if !g.specs.multi_edges {
        lemma_edges_of_keys_distinct(g, g.keys);
    }
}

} // verus!
