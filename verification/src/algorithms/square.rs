use crate::shared::lemma_indices_where_len;
use crate::{indices_where, Graph, GraphView};
use vstd::prelude::*;

verus! {

/// The test whether node `k`, other than `v`, is a successor (neighbor) of
/// both `u` and `w`.
pub open spec fn shared_successor<A>(g: GraphView<A>, v: int, u: int, w: int) -> spec_fn(int) -> bool {
    |k: int| g.connected(u, k) && g.connected(w, k) && k != v
}

/// The number of successors (neighbors) of node `u`.
pub open spec fn successor_count<A>(g: GraphView<A>, u: int) -> int {
    g.successor_indices(u).len() as int
}

/// The number of squares through `v`, `u` and `w`: the nodes other than `v`
/// that are successors of both `u` and `w`.
pub open spec fn square_count<A>(g: GraphView<A>, v: int, u: int, w: int) -> int {
    indices_where(g.nodes.len() as int, shared_successor(g, v, u, w)).len() as int
}

/// The successors of `u` and of `w` that the squares and `v` already account
/// for, each counted once from each side.
pub open spec fn square_degm<A>(g: GraphView<A>, v: int, u: int, w: int) -> int {
    square_count(g, v, u, w) + 1 + if g.connected(u, w) { 1int } else { 0int }
}

/// Whether neither `u` nor `w` has fewer successors than `square_degm`.
pub open spec fn square_fits<A>(g: GraphView<A>, v: int, u: int, w: int) -> bool {
    &&& successor_count(g, u) >= square_degm(g, v, u, w)
    &&& successor_count(g, w) >= square_degm(g, v, u, w)
}

/// The number of squares that could pass through `v`, `u` and `w`.
pub open spec fn square_potential<A>(g: GraphView<A>, v: int, u: int, w: int) -> int {
    (successor_count(g, u) - square_degm(g, v, u, w)) + (successor_count(g, w) - square_degm(g, v, u, w))
        + square_count(g, v, u, w)
}

/// The squares (`squares` true) or the potential squares of the pair.
pub open spec fn pair_term<A>(g: GraphView<A>, v: int, u: int, w: int, squares: bool) -> int {
    if squares {
        square_count(g, v, u, w)
    } else {
        square_potential(g, v, u, w)
    }
}

/// The sum of the terms of the pairs (`s[a]`, `s[b']`) for `a < b' < b`.
pub open spec fn row_sum<A>(g: GraphView<A>, v: int, s: Seq<int>, a: int, b: int, squares: bool) -> int
    decreases b - a,
{
    if b <= a + 1 {
        0
    } else {
        row_sum(g, v, s, a, b - 1, squares) + pair_term(g, v, s[a], s[b - 1], squares)
    }
}

/// The sum of the terms of the pairs (`s[a']`, `s[b]`) for `a' < a` and `a' < b < s.len()`.
pub open spec fn pairs_sum<A>(g: GraphView<A>, v: int, s: Seq<int>, a: int, squares: bool) -> int
    decreases a,
{
    if a <= 0 {
        0
    } else {
        pairs_sum(g, v, s, a - 1, squares) + row_sum(g, v, s, a - 1, s.len() as int, squares)
    }
}

/// Whether every pair of successors of `v`, taken in order, fits.
pub open spec fn pairs_fit<A>(g: GraphView<A>, v: int) -> bool {
    let s = g.successor_indices(v);
    forall|a: int, b: int| 0 <= a < b < s.len() ==> square_fits(g, v, #[trigger] s[a], #[trigger] s[b])
}

proof fn lemma_row_sum_mono<A>(g: GraphView<A>, v: int, s: Seq<int>, a: int, b: int, c: int, squares: bool)
    requires
        a <= b <= c,
        forall|b2: int| a < b2 < c ==> pair_term(g, v, s[a], #[trigger] s[b2], squares) >= 0,
    ensures
        0 <= row_sum(g, v, s, a, b, squares) <= row_sum(g, v, s, a, c, squares),
    decreases c - b,
{
    if b < c {
        lemma_row_sum_mono(g, v, s, a, b, c - 1, squares);
        if c > a + 1 {
            assert(pair_term(g, v, s[a], s[c - 1], squares) >= 0);
        }
    } else {
        lemma_row_sum_nonneg(g, v, s, a, b, squares);
    }
}

proof fn lemma_row_sum_nonneg<A>(g: GraphView<A>, v: int, s: Seq<int>, a: int, b: int, squares: bool)
    requires
        forall|b2: int| a < b2 < b ==> pair_term(g, v, s[a], #[trigger] s[b2], squares) >= 0,
    ensures
        0 <= row_sum(g, v, s, a, b, squares),
    decreases b - a,
{
    if b > a + 1 {
        lemma_row_sum_nonneg(g, v, s, a, b - 1, squares);
        assert(pair_term(g, v, s[a], s[b - 1], squares) >= 0);
    }
}

proof fn lemma_pairs_sum_mono<A>(g: GraphView<A>, v: int, s: Seq<int>, a: int, c: int, squares: bool)
    requires
        0 <= a <= c <= s.len(),
        forall|a2: int, b2: int| 0 <= a2 < b2 < s.len() ==> pair_term(g, v, #[trigger] s[a2], #[trigger] s[b2], squares) >= 0,
    ensures
        0 <= pairs_sum(g, v, s, a, squares) <= pairs_sum(g, v, s, c, squares),
    decreases c,
{
    if a < c {
        lemma_pairs_sum_mono(g, v, s, a, c - 1, squares);
        lemma_row_sum_nonneg(g, v, s, c - 1, s.len() as int, squares);
    } else if a > 0 {
        lemma_pairs_sum_mono(g, v, s, a - 1, a - 1, squares);
        lemma_row_sum_nonneg(g, v, s, a - 1, s.len() as int, squares);
    }
}

/// The number of successors of a node: the length of its successor list.
fn count_successors<A: Copy>(graph: &Graph<A>, u: usize) -> (r: usize)
    requires
        graph.wf(),
        u < graph@.nodes.len(),
    ensures
        r == successor_count(graph@, u as int),
        r <= graph@.nodes.len(),
{
    let s = graph.successor_indexes(u);
    proof {
        lemma_indices_where_len(graph@.nodes.len() as int, graph@.succ_test(u as int));
        assert(s@.map_values(|j: usize| j as int).len() == s@.len());
    }
    s.len()
}

/// The squares through `v`, `u` and `w`, and the successors of `u` (and of
/// `w`) that they, `v` and the edge between `u` and `w` account for.
fn square_and_degm<A: Copy>(graph: &Graph<A>, v: usize, u: usize, w: usize) -> (r: (usize, usize))
    requires
        graph.wf(),
        v < graph@.nodes.len(),
        u < graph@.nodes.len(),
        w < graph@.nodes.len(),
        graph@.nodes.len() * 3 <= usize::MAX,
    ensures
        r.0 == square_count(graph@, v as int, u as int, w as int),
        r.1 == square_degm(graph@, v as int, u as int, w as int),
        r.0 <= graph@.nodes.len(),
{
    let ghost g = graph@;
    let n = graph.number_of_nodes();
    let ghost p = shared_successor(g, v as int, u as int, w as int);
    let mu = graph.successor_marks(u);
    let mw = graph.successor_marks(w);
    let mut squares: usize = 0;
    let mut k: usize = 0;
    while k < n
        invariant
            n == g.nodes.len(),
            mu@.len() == n,
            mw@.len() == n,
            forall|x: int| 0 <= x < n ==> mu@[x] == g.succ_test(u as int)(x),
            forall|x: int| 0 <= x < n ==> mw@[x] == g.succ_test(w as int)(x),
            p == shared_successor(g, v as int, u as int, w as int),
            k <= n,
            squares == indices_where(k as int, p).len(),
            squares <= k,
        decreases n - k,
    {
        if mu[k] && mw[k] && k != v {
            squares = squares + 1;
        }
        k = k + 1;
    }
    let degm = if mu[w] {
        squares + 2
    } else {
        squares + 1
    };
    (squares, degm)
}

/// The squares through nodes `v`, `u` and `w` of an undirected graph (with
/// `u` and `w` successors of `v`), and the squares that could pass through
/// them: the nodes other than `v` that `u` and `w` share, and the successors
/// of `u` and of `w` left over once those, `v`, and the edge between `u` and
/// `w` if there is one, are taken away, together with the shared ones.
pub fn get_coefficient_for_combination<A: Copy>(graph: &Graph<A>, v: usize, u: usize, w: usize) -> (r: (usize, usize))
    requires
        graph.wf(),
        v < graph@.nodes.len(),
        u < graph@.nodes.len(),
        w < graph@.nodes.len(),
        graph@.nodes.len() * 3 <= usize::MAX,
        square_fits(graph@, v as int, u as int, w as int),
    ensures
        r.0 == square_count(graph@, v as int, u as int, w as int),
        r.1 == square_potential(graph@, v as int, u as int, w as int),
{
    let (squares, degm) = square_and_degm(graph, v, u, w);
    let nu = count_successors(graph, u);
    let nw = count_successors(graph, w);
    let potential = (nu - degm) + (nw - degm) + squares;
    (squares, potential)
}

/// Whether every pair of successors of node `v`, taken in order, leaves the
/// counts of `get_coefficient_for_node` free of underflow: neither node of
/// the pair has fewer successors than its squares, `v` and the edge between
/// them account for.
pub fn square_pairs_fit<A: Copy>(graph: &Graph<A>, v: usize) -> (r: bool)
    requires
        graph.wf(),
        v < graph@.nodes.len(),
        graph@.nodes.len() * 3 <= usize::MAX,
    ensures
        r == pairs_fit(graph@, v as int),
{
    let ghost g = graph@;
    let nbrs = graph.successor_indexes(v);
    let ghost s = g.successor_indices(v as int);
    let len = nbrs.len();
    proof {
        assert(nbrs@.map_values(|j: usize| j as int).len() == nbrs@.len());
        assert forall|q: int| 0 <= q < len implies #[trigger] nbrs@[q] as int == s[q] by {
            assert(nbrs@.map_values(|j: usize| j as int)[q] == nbrs@[q] as int);
        }
    }
    let mut a: usize = 0;
    while a < len
        invariant
            graph.wf(),
            g == graph@,
            v < g.nodes.len(),
            g.nodes.len() * 3 <= usize::MAX,
            s == g.successor_indices(v as int),
            len == nbrs@.len(),
            len == s.len(),
            forall|q: int| 0 <= q < len ==> #[trigger] nbrs@[q] as int == s[q],
            forall|q: int| 0 <= q < len ==> #[trigger] nbrs@[q] < g.nodes.len(),
            a <= len,
            forall|a2: int, b2: int| 0 <= a2 < a && a2 < b2 < len ==> square_fits(g, v as int, #[trigger] s[a2], #[trigger] s[b2]),
        decreases len - a,
    {
        let mut b: usize = a + 1;
        while b < len
            invariant
                graph.wf(),
                g == graph@,
                v < g.nodes.len(),
                g.nodes.len() * 3 <= usize::MAX,
                s == g.successor_indices(v as int),
                len == nbrs@.len(),
                len == s.len(),
                forall|q: int| 0 <= q < len ==> #[trigger] nbrs@[q] as int == s[q],
                forall|q: int| 0 <= q < len ==> #[trigger] nbrs@[q] < g.nodes.len(),
                a < len,
                a + 1 <= b <= len,
                forall|a2: int, b2: int| 0 <= a2 < a && a2 < b2 < len ==> square_fits(g, v as int, #[trigger] s[a2], #[trigger] s[b2]),
                forall|b2: int| a < b2 < b ==> square_fits(g, v as int, s[a as int], #[trigger] s[b2]),
            decreases len - b,
        {
            let u = nbrs[a];
            let w = nbrs[b];
            let (_, degm) = square_and_degm(graph, v, u, w);
            let nu = count_successors(graph, u);
            let nw = count_successors(graph, w);
            if nu < degm || nw < degm {
                assert(!square_fits(g, v as int, s[a as int], s[b as int]));
                return false;
            }
            b = b + 1;
        }
        proof {
            lemma_indices_where_bounds_for(g, v as int);
        }
        a = a + 1;
    }
    true
}

/// The squares through node `v` and each pair of its successors, and the
/// squares that could pass through them, each summed over the pairs of
/// successors taken in order.
pub fn get_coefficient_for_node<A: Copy>(graph: &Graph<A>, v: usize) -> (r: (usize, usize))
    requires
        graph.wf(),
        v < graph@.nodes.len(),
        graph@.nodes.len() * 3 <= usize::MAX,
        pairs_fit(graph@, v as int),
        pairs_sum(graph@, v as int, graph@.successor_indices(v as int), graph@.successor_indices(v as int).len() as int, true)
            <= usize::MAX,
        pairs_sum(graph@, v as int, graph@.successor_indices(v as int), graph@.successor_indices(v as int).len() as int, false)
            <= usize::MAX,
    ensures
        r.0 == pairs_sum(graph@, v as int, graph@.successor_indices(v as int), graph@.successor_indices(v as int).len() as int, true),
        r.1 == pairs_sum(graph@, v as int, graph@.successor_indices(v as int), graph@.successor_indices(v as int).len() as int, false),
{
    let ghost g = graph@;
    let nbrs = graph.successor_indexes(v);
    let ghost s = g.successor_indices(v as int);
    let len = nbrs.len();
    proof {
        assert(nbrs@.map_values(|j: usize| j as int).len() == nbrs@.len());
        assert forall|q: int| 0 <= q < len implies #[trigger] nbrs@[q] as int == s[q] by {
            assert(nbrs@.map_values(|j: usize| j as int)[q] == nbrs@[q] as int);
        }
        assert forall|a2: int, b2: int| 0 <= a2 < b2 < s.len() implies pair_term(g, v as int, #[trigger] s[a2], #[trigger] s[b2], true) >= 0
            && pair_term(g, v as int, s[a2], s[b2], false) >= 0 by {
            assert(square_fits(g, v as int, s[a2], s[b2]));
        }
        lemma_pairs_sum_mono(g, v as int, s, 0, len as int, true);
        lemma_pairs_sum_mono(g, v as int, s, 0, len as int, false);
    }
    let mut total_squares: usize = 0;
    let mut total_potential: usize = 0;
    let mut a: usize = 0;
    while a < len
        invariant
            graph.wf(),
            g == graph@,
            v < g.nodes.len(),
            g.nodes.len() * 3 <= usize::MAX,
            pairs_fit(g, v as int),
            s == g.successor_indices(v as int),
            len == nbrs@.len(),
            len == s.len(),
            forall|q: int| 0 <= q < len ==> #[trigger] nbrs@[q] as int == s[q],
            forall|q: int| 0 <= q < len ==> #[trigger] nbrs@[q] < g.nodes.len(),
            forall|a2: int, b2: int| 0 <= a2 < b2 < s.len() ==> pair_term(g, v as int, #[trigger] s[a2], #[trigger] s[b2], true) >= 0
                && pair_term(g, v as int, s[a2], s[b2], false) >= 0,
            pairs_sum(g, v as int, s, len as int, true) <= usize::MAX,
            pairs_sum(g, v as int, s, len as int, false) <= usize::MAX,
            a <= len,
            total_squares == pairs_sum(g, v as int, s, a as int, true),
            total_potential == pairs_sum(g, v as int, s, a as int, false),
        decreases len - a,
    {
        proof {
            lemma_indices_where_bounds_for(g, v as int);
        }
        let mut b: usize = a + 1;
        while b < len
            invariant
                graph.wf(),
                g == graph@,
                v < g.nodes.len(),
                g.nodes.len() * 3 <= usize::MAX,
                pairs_fit(g, v as int),
                s == g.successor_indices(v as int),
                len == nbrs@.len(),
                len == s.len(),
                forall|q: int| 0 <= q < len ==> #[trigger] nbrs@[q] as int == s[q],
                forall|q: int| 0 <= q < len ==> #[trigger] nbrs@[q] < g.nodes.len(),
                forall|a2: int, b2: int| 0 <= a2 < b2 < s.len() ==> pair_term(g, v as int, #[trigger] s[a2], #[trigger] s[b2], true) >= 0
                    && pair_term(g, v as int, s[a2], s[b2], false) >= 0,
                pairs_sum(g, v as int, s, len as int, true) <= usize::MAX,
                pairs_sum(g, v as int, s, len as int, false) <= usize::MAX,
                a < len,
                a + 1 <= b <= len,
                total_squares == pairs_sum(g, v as int, s, a as int, true) + row_sum(g, v as int, s, a as int, b as int, true),
                total_potential == pairs_sum(g, v as int, s, a as int, false) + row_sum(g, v as int, s, a as int, b as int, false),
            decreases len - b,
        {
            proof {
                assert(square_fits(g, v as int, s[a as int], s[b as int]));
                lemma_row_sum_mono(g, v as int, s, a as int, b + 1, len as int, true);
                lemma_row_sum_mono(g, v as int, s, a as int, b + 1, len as int, false);
                lemma_pairs_sum_mono(g, v as int, s, a + 1, len as int, true);
                lemma_pairs_sum_mono(g, v as int, s, a + 1, len as int, false);
            }
            let (sq, pot) = get_coefficient_for_combination(graph, v, nbrs[a], nbrs[b]);
            total_squares = total_squares + sq;
            total_potential = total_potential + pot;
            b = b + 1;
        }
        a = a + 1;
    }
    (total_squares, total_potential)
}

/// Every listed successor of `v` lies below the number of nodes.
proof fn lemma_indices_where_bounds_for<A>(g: GraphView<A>, v: int)
    ensures
        forall|m: int| 0 <= m < g.successor_indices(v).len() ==> 0 <= #[trigger] g.successor_indices(v)[m] < g.nodes.len(),
{
    crate::shared::lemma_indices_where_bounds(g.nodes.len() as int, g.succ_test(v));
}

/// In an undirected graph the counts of a pair do not depend on the order of
/// its two nodes: the squares through `v`, `u` and `w` are those through `v`,
/// `w` and `u`, and so are the potential squares, which take the neighbors of
/// `u` and of `w` alike.
pub proof fn law_square_counts_symmetric<A>(g: GraphView<A>, v: int, u: int, w: int)
    requires
        g.well_formed(),
        !g.specs.directed,
    ensures
        square_count(g, v, u, w) == square_count(g, v, w, u),
        square_potential(g, v, u, w) == square_potential(g, v, w, u),
{
    assert(shared_successor(g, v, u, w) =~= shared_successor(g, v, w, u));
    assert(g.key(u, w) == g.key(w, u));
}

} // verus!
