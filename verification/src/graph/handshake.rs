use super::{key_into, key_out_of, key_out_to_other, key_touching, self_loop_at, GraphView};
use vstd::prelude::*;

verus! {

/// The sum of `f(i)` for `0 <= i < m`.
pub open spec fn sum_below(m: int, f: spec_fn(int) -> int) -> int
    decreases m,
{
    if m <= 0 {
        0
    } else {
        sum_below(m - 1, f) + f(m - 1)
    }
}

/// The degree of each node, as `get_node_degree` gives it.
pub open spec fn node_degrees<A>(g: GraphView<A>) -> spec_fn(int) -> int {
    |i: int| g.degree(i)
}

/// What the edges under the keys `ks` add to the degree of each node: those
/// under the keys that touch it, with the self-loops among them counted once more.
pub open spec fn key_degree<A>(g: GraphView<A>, ks: Seq<(int, int)>) -> spec_fn(int) -> int {
    |i: int|
        {
            let es = g.edges_of_keys(ks.filter(key_touching(i)));
            (es.len() + es.filter(self_loop_at(g.name(i))).len()) as int
        }
}

/// What the edges under key `k` add to the degree of each node.
pub open spec fn key_share<A>(g: GraphView<A>, k: (int, int)) -> spec_fn(int) -> int {
    |i: int|
        if key_touching(i)(k) {
            (g.edges[k].len() + g.edges[k].filter(self_loop_at(g.name(i))).len()) as int
        } else {
            0
        }
}

proof fn lemma_sum_add(m: int, f: spec_fn(int) -> int, g: spec_fn(int) -> int, h: spec_fn(int) -> int)
    requires
        forall|i: int| 0 <= i < m ==> #[trigger] h(i) == f(i) + g(i),
    ensures
        sum_below(m, h) == sum_below(m, f) + sum_below(m, g),
    decreases m,
{
    if m > 0 {
        lemma_sum_add(m - 1, f, g, h);
    }
}

proof fn lemma_sum_sparse(m: int, f: spec_fn(int) -> int, a: int, b: int)
    requires
        0 <= a,
        0 <= b,
        forall|i: int| 0 <= i < m && i != a && i != b ==> #[trigger] f(i) == 0,
    ensures
        sum_below(m, f) == (if a < m { f(a) } else { 0 }) + (if b < m && b != a { f(b) } else { 0 }),
    decreases m,
{
    if m > 0 {
        lemma_sum_sparse(m - 1, f, a, b);
    }
}

proof fn lemma_filter_keeps_all<T>(s: Seq<T>, p: spec_fn(T) -> bool)
    requires
        forall|m: int| 0 <= m < s.len() ==> #[trigger] p(s[m]),
    ensures
        s.filter(p) == s,
    decreases s.len(),
{
    reveal(Seq::filter);
    if s.len() > 0 {
        lemma_filter_keeps_all(s.drop_last(), p);
        assert(s.drop_last().push(s.last()) == s);
    }
}

proof fn lemma_filter_drops_all<T>(s: Seq<T>, p: spec_fn(T) -> bool)
    requires
        forall|m: int| 0 <= m < s.len() ==> !#[trigger] p(s[m]),
    ensures
        s.filter(p).len() == 0,
    decreases s.len(),
{
    reveal(Seq::filter);
    if s.len() > 0 {
        lemma_filter_drops_all(s.drop_last(), p);
    }
}

proof fn lemma_edges_of_keys_push<A>(g: GraphView<A>, ks: Seq<(int, int)>, k: (int, int))
    ensures
        g.edges_of_keys(ks.push(k)) == g.edges_of_keys(ks) + g.edges[k],
{
    assert(ks.push(k).drop_last() == ks);
}

proof fn lemma_key_degree_push<A>(g: GraphView<A>, ks: Seq<(int, int)>, k: (int, int), i: int)
    ensures
        key_degree(g, ks.push(k))(i) == key_degree(g, ks)(i) + key_share(g, k)(i),
{
    let t = key_touching(i);
    let sl = self_loop_at::<A>(g.name(i));
    ks.lemma_filter_push(k, t);
    let es = g.edges_of_keys(ks.filter(t));
    if t(k) {
        lemma_edges_of_keys_push(g, ks.filter(t), k);
        Seq::filter_distributes_over_add(es, g.edges[k], sl);
    }
}

/// The edges under a key add twice their number to the degrees: once at each
/// end, or twice at the node of a self-loop.
proof fn lemma_share_sum<A>(g: GraphView<A>, k: (int, int))
    requires
        g.well_formed(),
        g.edges.contains_key(k),
    ensures
        sum_below(g.nodes.len() as int, key_share(g, k)) == 2 * g.edges[k].len(),
{
    let n = g.nodes.len() as int;
    let (a, b) = k;
    let es = g.edges[k];
    let f = key_share(g, k);
    assert(g.valid_key(k));
    assert forall|i: int| 0 <= i < n && i != a && i != b implies #[trigger] f(i) == 0 by {}
    lemma_sum_sparse(n, f, a, b);
    if a != b {
        assert(g.nodes[a].name != g.nodes[b].name);
        assert forall|m: int| 0 <= m < es.len() implies !#[trigger] self_loop_at::<A>(g.name(a))(es[m]) by {
            assert(g.edge_fits(k, es[m]));
        }
        assert forall|m: int| 0 <= m < es.len() implies !#[trigger] self_loop_at::<A>(g.name(b))(es[m]) by {
            assert(g.edge_fits(k, es[m]));
        }
        lemma_filter_drops_all(es, self_loop_at::<A>(g.name(a)));
        lemma_filter_drops_all(es, self_loop_at::<A>(g.name(b)));
    } else {
        assert forall|m: int| 0 <= m < es.len() implies #[trigger] self_loop_at::<A>(g.name(a))(es[m]) by {
            assert(g.edge_fits(k, es[m]));
        }
        lemma_filter_keeps_all(es, self_loop_at::<A>(g.name(a)));
    }
}

proof fn lemma_degree_sum_keys<A>(g: GraphView<A>, ks: Seq<(int, int)>)
    requires
        g.well_formed(),
        forall|q: int| 0 <= q < ks.len() ==> g.edges.contains_key(#[trigger] ks[q]),
    ensures
        sum_below(g.nodes.len() as int, key_degree(g, ks)) == 2 * g.edges_of_keys(ks).len(),
    decreases ks.len(),
{
    let n = g.nodes.len() as int;
    if ks.len() == 0 {
        assert forall|i: int| 0 <= i < n implies #[trigger] key_degree(g, ks)(i) == 0 by {
            ks.lemma_filter_len(key_touching(i));
        }
        lemma_sum_sparse(n, key_degree(g, ks), n, n);
    } else {
        let rest = ks.drop_last();
        let k = ks.last();
        assert(rest.push(k) == ks);
        assert forall|q: int| 0 <= q < rest.len() implies g.edges.contains_key(#[trigger] rest[q]) by {
            assert(rest[q] == ks[q]);
        }
        lemma_degree_sum_keys(g, rest);
        assert forall|i: int| 0 <= i < n implies #[trigger] key_degree(g, ks)(i) == key_degree(g, rest)(i) + key_share(
            g,
            k,
        )(i) by {
            lemma_key_degree_push(g, rest, k, i);
        }
        lemma_sum_add(n, key_degree(g, rest), key_share(g, k), key_degree(g, ks));
        lemma_share_sum(g, k);
        lemma_edges_of_keys_push(g, rest, k);
    }
}

/// The keys that touch node `i` are those into it and those out of it to
/// another node, so their edges, and the self-loops among them, number as many.
proof fn lemma_touching_split<A>(g: GraphView<A>, ks: Seq<(int, int)>, i: int)
    ensures
        ({
            let t = g.edges_of_keys(ks.filter(key_touching(i)));
            let a = g.edges_of_keys(ks.filter(key_into(i)));
            let b = g.edges_of_keys(ks.filter(key_out_to_other(i)));
            let sl = self_loop_at::<A>(g.name(i));
            &&& t.len() == a.len() + b.len()
            &&& t.filter(sl).len() == a.filter(sl).len() + b.filter(sl).len()
        }),
    decreases ks.len(),
{
    let sl = self_loop_at::<A>(g.name(i));
    if ks.len() == 0 {
        ks.lemma_filter_len(key_touching(i));
        ks.lemma_filter_len(key_into(i));
        ks.lemma_filter_len(key_out_to_other(i));
        assert(ks.filter(key_touching(i)) =~= Seq::<(int, int)>::empty());
        assert(ks.filter(key_into(i)) =~= Seq::<(int, int)>::empty());
        assert(ks.filter(key_out_to_other(i)) =~= Seq::<(int, int)>::empty());
        assert(g.edges_of_keys(Seq::<(int, int)>::empty()).filter(sl) =~= Seq::<crate::Edge<A>>::empty());
    } else {
        let rest = ks.drop_last();
        let k = ks.last();
        assert(rest.push(k) == ks);
        lemma_touching_split(g, rest, i);
        rest.lemma_filter_push(k, key_touching(i));
        rest.lemma_filter_push(k, key_into(i));
        rest.lemma_filter_push(k, key_out_to_other(i));
        if key_touching(i)(k) {
            let t0 = g.edges_of_keys(rest.filter(key_touching(i)));
            lemma_edges_of_keys_push(g, rest.filter(key_touching(i)), k);
            Seq::filter_distributes_over_add(t0, g.edges[k], sl);
            if key_into(i)(k) {
                let a0 = g.edges_of_keys(rest.filter(key_into(i)));
                lemma_edges_of_keys_push(g, rest.filter(key_into(i)), k);
                Seq::filter_distributes_over_add(a0, g.edges[k], sl);
            } else {
                let b0 = g.edges_of_keys(rest.filter(key_out_to_other(i)));
                lemma_edges_of_keys_push(g, rest.filter(key_out_to_other(i)), k);
                Seq::filter_distributes_over_add(b0, g.edges[k], sl);
            }
        }
    }
}

/// The handshake: the degrees of the nodes of any graph, each self-loop
/// counted twice at its node, add up to twice its number of edges.
pub proof fn law_handshake<A>(g: GraphView<A>)
    requires
        g.well_formed(),
    ensures
        sum_below(g.nodes.len() as int, node_degrees(g)) == 2 * g.all_edges().len(),
{
    assert forall|q: int| 0 <= q < g.keys.len() implies g.edges.contains_key(#[trigger] g.keys[q]) by {
        assert(g.keys.contains(g.keys[q]));
    }
    lemma_degree_sum_keys(g, g.keys);
    assert forall|i: int| #![trigger node_degrees(g)(i)] node_degrees(g)(i) == key_degree(g, g.keys)(i) by {
        if g.specs.directed {
            let sl = self_loop_at::<A>(g.name(i));
            lemma_touching_split(g, g.keys, i);
            Seq::filter_distributes_over_add(g.in_edges(i), g.out_edges_to_others(i), sl);
        }
    }
    assert(node_degrees(g) =~= key_degree(g, g.keys));
}

/// The out-degree of each node: the number of edges out of it.
pub open spec fn node_out_degrees<A>(g: GraphView<A>) -> spec_fn(int) -> int {
    |i: int| g.out_edges(i).len() as int
}

/// The in-degree of each node: the number of edges into it.
pub open spec fn node_in_degrees<A>(g: GraphView<A>) -> spec_fn(int) -> int {
    |i: int| g.in_edges(i).len() as int
}

/// The number of edges under the keys `ks` whose key starts (`out`) or ends
/// at node `i`.
pub open spec fn keyed_count<A>(g: GraphView<A>, ks: Seq<(int, int)>, out: bool) -> spec_fn(int) -> int {
    |i: int| g.edges_of_keys(ks.filter(if out { key_out_of(i) } else { key_into(i) })).len() as int
}

/// What the edges under key `k` add to that count at each node.
pub open spec fn keyed_share<A>(g: GraphView<A>, k: (int, int), out: bool) -> spec_fn(int) -> int {
    |i: int| if (if out { k.0 } else { k.1 }) == i { g.edges[k].len() as int } else { 0 }
}

proof fn lemma_keyed_count_push<A>(g: GraphView<A>, ks: Seq<(int, int)>, k: (int, int), out: bool, i: int)
    ensures
        keyed_count(g, ks.push(k), out)(i) == keyed_count(g, ks, out)(i) + keyed_share(g, k, out)(i),
{
    let t = if out { key_out_of(i) } else { key_into(i) };
    ks.lemma_filter_push(k, t);
    if t(k) {
        lemma_edges_of_keys_push(g, ks.filter(t), k);
    }
}

proof fn lemma_keyed_sum<A>(g: GraphView<A>, ks: Seq<(int, int)>, out: bool)
    requires
        forall|q: int| 0 <= q < ks.len() ==> g.valid_key(#[trigger] ks[q]),
    ensures
        sum_below(g.nodes.len() as int, keyed_count(g, ks, out)) == g.edges_of_keys(ks).len(),
    decreases ks.len(),
{
    let n = g.nodes.len() as int;
    if ks.len() == 0 {
        assert forall|i: int| 0 <= i < n implies #[trigger] keyed_count(g, ks, out)(i) == 0 by {
            ks.lemma_filter_len(if out { key_out_of(i) } else { key_into(i) });
        }
        lemma_sum_sparse(n, keyed_count(g, ks, out), n, n);
    } else {
        let rest = ks.drop_last();
        let k = ks.last();
        assert(rest.push(k) == ks);
        assert forall|q: int| 0 <= q < rest.len() implies g.valid_key(#[trigger] rest[q]) by {
            assert(rest[q] == ks[q]);
        }
        lemma_keyed_sum(g, rest, out);
        assert forall|i: int| 0 <= i < n implies #[trigger] keyed_count(g, ks, out)(i) == keyed_count(g, rest, out)(i)
            + keyed_share(g, k, out)(i) by {
            lemma_keyed_count_push(g, rest, k, out, i);
        }
        lemma_sum_add(n, keyed_count(g, rest, out), keyed_share(g, k, out), keyed_count(g, ks, out));
        assert(g.valid_key(ks[ks.len() - 1]));
        let e = if out { k.0 } else { k.1 };
        assert forall|i: int| 0 <= i < n && i != e && i != e implies #[trigger] keyed_share(g, k, out)(i) == 0 by {}
        lemma_sum_sparse(n, keyed_share(g, k, out), e, e);
        lemma_edges_of_keys_push(g, rest, k);
    }
}

/// In every graph the out-degrees of the nodes add up to the number of
/// edges, and so do the in-degrees.
pub proof fn law_degree_sums<A>(g: GraphView<A>)
    requires
        g.well_formed(),
    ensures
        sum_below(g.nodes.len() as int, node_out_degrees(g)) == g.all_edges().len(),
        sum_below(g.nodes.len() as int, node_in_degrees(g)) == g.all_edges().len(),
{
    assert forall|q: int| 0 <= q < g.keys.len() implies g.valid_key(#[trigger] g.keys[q]) by {
        assert(g.keys.contains(g.keys[q]));
        assert(g.edges.contains_key(g.keys[q]));
    }
    lemma_keyed_sum(g, g.keys, true);
    lemma_keyed_sum(g, g.keys, false);
    assert(node_out_degrees(g) =~= keyed_count(g, g.keys, true));
    assert(node_in_degrees(g) =~= keyed_count(g, g.keys, false));
}

} // verus!
