use crate::shared::{
    lemma_distinct_indexes_len, lemma_indices_where_bounds, lemma_indices_where_increasing, lemma_indices_where_member,
};
use crate::graph::rebuild::lemma_index_of;
use crate::{Direction, Error, Graph, GraphView};
use std::collections::HashMap;
use vstd::prelude::*;

verus! {

/// Whether `p` is a walk along the edges (through the neighbors, in an
/// undirected graph) from one of the nodes `srcs` to node `j`.
pub open spec fn walk_from<A>(g: GraphView<A>, srcs: Seq<int>, p: Seq<int>, j: int) -> bool {
    &&& g.is_walk(Direction::Forward, p)
    &&& srcs.contains(p[0])
    &&& p.last() == j
}

/// Whether a walk of at most `k` steps leads from one of the nodes `srcs` to node `j`.
pub open spec fn within<A>(g: GraphView<A>, srcs: Seq<int>, j: int, k: int) -> bool {
    exists|p: Seq<int>| #[trigger] walk_from(g, srcs, p, j) && p.len() <= k + 1
}

/// Whether `k` is the length of the shortest walk from the nodes `srcs` to node `j`.
pub open spec fn distance_is<A>(g: GraphView<A>, srcs: Seq<int>, j: int, k: int) -> bool {
    &&& k >= 0
    &&& within(g, srcs, j, k)
    &&& !within(g, srcs, j, k - 1)
}

/// Whether distance `k` is kept under the `cutoff`: the sources (at distance
/// zero) always are.
pub open spec fn in_cutoff(k: int, cutoff: Option<i32>) -> bool {
    k == 0 || match cutoff {
        None => true,
        Some(c) => k <= c,
    }
}

/// Whether the search goes on past a node at distance `l` under the `cutoff`.
pub open spec fn expandable(l: int, cutoff: Option<i32>) -> bool {
    match cutoff {
        None => true,
        Some(c) => l + 1 <= c,
    }
}

/// The state of a breadth-first search: the queue `q` of the visited nodes,
/// of which the first `done` have been expanded, and the level of each.
pub open spec fn search_state<A>(
    g: GraphView<A>,
    srcs: Seq<int>,
    q: Seq<usize>,
    visited: Seq<bool>,
    level: Seq<usize>,
    done: int,
    cutoff: Option<i32>,
) -> bool {
    &&& g.nodes.len() <= usize::MAX
    &&& visited.len() == g.nodes.len()
    &&& level.len() == g.nodes.len()
    &&& q.no_duplicates()
    &&& forall|k: int| 0 <= k < q.len() ==> #[trigger] q[k] < g.nodes.len() && visited[q[k] as int]
    &&& forall|x: int| 0 <= x < g.nodes.len() && #[trigger] visited[x] ==> q.contains(x as usize)
    &&& forall|k: int| 0 <= k < srcs.len() ==> 0 <= #[trigger] srcs[k] < g.nodes.len() && visited[srcs[k]]
        && level[srcs[k]] == 0
    &&& forall|i: int, j: int| 0 <= i <= j < q.len() ==> level[#[trigger] q[i] as int] <= level[#[trigger] q[j] as int]
    &&& 0 <= done <= q.len()
    &&& forall|i: int, w: int|
        0 <= i < done && 0 <= w < g.nodes.len() && #[trigger] g.step(Direction::Forward, q[i] as int, w)
            && expandable(level[q[i] as int] as int, cutoff) ==> visited[w] && level[w] <= level[q[i] as int] + 1
}

/// Along a walk from a source, the search state has a node visited at a level
/// no greater than its position on the walk that is either the walk's end, or
/// not yet expanded, or past the cutoff.
proof fn lemma_walk_meets_frontier<A>(
    g: GraphView<A>,
    srcs: Seq<int>,
    q: Seq<usize>,
    visited: Seq<bool>,
    level: Seq<usize>,
    done: int,
    cutoff: Option<i32>,
    p: Seq<int>,
    i: int,
)
    requires
        search_state(g, srcs, q, visited, level, done, cutoff),
        g.is_walk(Direction::Forward, p),
        0 <= i < p.len(),
        visited[p[i]],
        level[p[i]] <= i,
    ensures
        exists|m: int|
            0 <= m < p.len() && visited[#[trigger] p[m]] && level[p[m]] <= m && (!q.take(done).contains(
                p[m] as usize,
            ) || m == p.len() - 1 || !expandable(level[p[m]] as int, cutoff)),
    decreases p.len() - i,
{
    if q.take(done).contains(p[i] as usize) && i < p.len() - 1 && expandable(level[p[i]] as int, cutoff) {
        let k = choose|k: int| 0 <= k < q.take(done).len() && q.take(done)[k] == p[i] as usize;
        assert(0 <= p[i] < g.nodes.len());
        assert(q[k] == p[i] as usize);
        assert(q[k] as int == p[i]);
        assert(g.step(Direction::Forward, p[i], p[i + 1]));
        assert(0 <= p[i + 1] < g.nodes.len());
        assert(g.step(Direction::Forward, q[k] as int, p[i + 1]));
        lemma_walk_meets_frontier(g, srcs, q, visited, level, done, cutoff, p, i + 1);
    } else {
        assert(visited[p[i]] && level[p[i]] <= i);
    }
}

/// A node not yet visited lies farther than the expanded levels: every walk to
/// it from a source has more steps than the level of the last expanded node.
proof fn lemma_unvisited_far<A>(
    g: GraphView<A>,
    srcs: Seq<int>,
    q: Seq<usize>,
    visited: Seq<bool>,
    level: Seq<usize>,
    done: int,
    cutoff: Option<i32>,
    u: int,
)
    requires
        search_state(g, srcs, q, visited, level, done, cutoff),
        0 <= u < g.nodes.len(),
        !visited[u],
        done < q.len(),
        expandable(level[q[done] as int] as int, cutoff),
    ensures
        !within(g, srcs, u, level[q[done] as int] as int),
{
    let lv = level[q[done] as int] as int;
    if within(g, srcs, u, lv) {
        let p = choose|p: Seq<int>| #[trigger] walk_from(g, srcs, p, u) && p.len() <= lv + 1;
        let s = p[0];
        let ks = choose|k: int| 0 <= k < srcs.len() && srcs[k] == s;
        assert(visited[srcs[ks]] && level[srcs[ks]] == 0);
        lemma_walk_meets_frontier(g, srcs, q, visited, level, done, cutoff, p, 0);
        let m = choose|m: int|
            0 <= m < p.len() && visited[#[trigger] p[m]] && level[p[m]] <= m && (!q.take(done).contains(
                p[m] as usize,
            ) || m == p.len() - 1 || !expandable(level[p[m]] as int, cutoff));
        assert(m != p.len() - 1);
        assert(0 <= p[m] < g.nodes.len());
        assert(q.contains(p[m] as usize));
        let km = choose|k: int| 0 <= k < q.len() && q[k] == p[m] as usize;
        if !q.take(done).contains(p[m] as usize) {
            if km < done {
                assert(q.take(done)[km] == p[m] as usize);
            }
            assert(level[q[done] as int] <= level[q[km] as int]);
        } else {
            assert(!expandable(level[p[m]] as int, cutoff));
        }
    }
}

/// The indexes `s` as integers.
pub open spec fn as_ints(s: Seq<usize>) -> Seq<int> {
    s.map_values(|x: usize| x as int)
}

/// A walk of at most `a` steps has at most `b` steps when `a <= b`.
proof fn lemma_within_mono<A>(g: GraphView<A>, srcs: Seq<int>, j: int, a: int, b: int)
    requires
        within(g, srcs, j, a),
        a <= b,
    ensures
        within(g, srcs, j, b),
{
    let p = choose|p: Seq<int>| #[trigger] walk_from(g, srcs, p, j) && p.len() <= a + 1;
    assert(walk_from(g, srcs, p, j) && p.len() <= b + 1);
}

/// A node has at most one distance.
proof fn lemma_distance_unique<A>(g: GraphView<A>, srcs: Seq<int>, j: int, a: int, b: int)
    requires
        distance_is(g, srcs, j, a),
        distance_is(g, srcs, j, b),
    ensures
        a == b,
{
    if a < b {
        lemma_within_mono(g, srcs, j, a, b - 1);
    } else if b < a {
        lemma_within_mono(g, srcs, j, b, a - 1);
    }
}

/// A walk to `v` of at most `k` steps and a step to `w` give a walk to `w` of
/// at most `k + 1` steps.
proof fn lemma_within_step<A>(g: GraphView<A>, srcs: Seq<int>, v: int, w: int, k: int)
    requires
        within(g, srcs, v, k),
        g.step(Direction::Forward, v, w),
        0 <= w < g.nodes.len(),
    ensures
        within(g, srcs, w, k + 1),
{
    let p = choose|p: Seq<int>| #[trigger] walk_from(g, srcs, p, v) && p.len() <= k + 1;
    let q = p.push(w);
    assert forall|m: int| 0 <= m < q.len() - 1 implies g.step(Direction::Forward, #[trigger] q[m], q[m + 1]) by {
        if m < p.len() - 1 {
            assert(q[m] == p[m] && q[m + 1] == p[m + 1]);
        }
    }
    assert(q[0] == p[0]);
    assert(walk_from(g, srcs, q, w));
}

/// What a breadth-first search leaves: the visited nodes in the order in
/// which they were queued, how many of them were settled, and the level and
/// the parent of each node.
struct Search {
    order: Vec<usize>,
    settled: usize,
    level: Vec<usize>,
    parent: Vec<usize>,
}

/// A vector of `n` copies of `x`.
fn filled<T: Copy>(n: usize, x: T) -> (r: Vec<T>)
    ensures
        r@.len() == n,
        forall|k: int| 0 <= k < n ==> r@[k] == x,
{
    let mut r: Vec<T> = Vec::new();
    let mut k: usize = 0;
    while k < n
        invariant
            k <= n,
            r@.len() == k,
            forall|j: int| 0 <= j < k ==> r@[j] == x,
        decreases n - k,
    {
        r.push(x);
        k = k + 1;
    }
    r
}

/// What the search knows of every visited node: its level is its distance
/// from the sources, within the cutoff, and a node off the sources has a
/// visited parent one level closer, from which an edge leads to it.
spec fn levels_ok<A>(
    g: GraphView<A>,
    srcs: Seq<int>,
    q: Seq<usize>,
    visited: Seq<bool>,
    level: Seq<usize>,
    parent: Seq<usize>,
    cutoff: Option<i32>,
) -> bool {
    &&& parent.len() == g.nodes.len()
    &&& forall|x: int|
        0 <= x < g.nodes.len() && #[trigger] visited[x] ==> within(g, srcs, x, level[x] as int) && !within(
            g,
            srcs,
            x,
            level[x] - 1,
        ) && in_cutoff(level[x] as int, cutoff)
    &&& forall|x: int| 0 <= x < g.nodes.len() && #[trigger] visited[x] && level[x] == 0 ==> srcs.contains(x)
    &&& forall|x: int|
        0 <= x < g.nodes.len() && #[trigger] visited[x] && level[x] > 0 ==> {
            &&& parent[x] < g.nodes.len()
            &&& visited[parent[x] as int]
            &&& level[parent[x] as int] + 1 == level[x]
            &&& g.step(Direction::Forward, parent[x] as int, x)
        }
    &&& forall|k: int| 0 <= k < q.len() ==> level[#[trigger] q[k] as int] <= k
}

/// Visiting an unvisited node `w` one step from `v`, the last node taken off
/// the queue, at the level after that of `v` keeps the search invariants.
#[verifier::spinoff_prover]
proof fn lemma_discover<A>(
    g: GraphView<A>,
    srcs: Seq<int>,
    old_q: Seq<usize>,
    old_visited: Seq<bool>,
    old_level: Seq<usize>,
    old_parent: Seq<usize>,
    h: int,
    v: usize,
    w: usize,
    cutoff: Option<i32>,
)
    requires
        search_state(g, srcs, old_q, old_visited, old_level, h - 1, cutoff),
        levels_ok(g, srcs, old_q, old_visited, old_level, old_parent, cutoff),
        0 < h <= old_q.len(),
        v == old_q[h - 1],
        expandable(old_level[v as int] as int, cutoff),
        w < g.nodes.len(),
        g.step(Direction::Forward, v as int, w as int),
        !old_visited[w as int],
        old_level[v as int] < usize::MAX,
        forall|k: int| 0 <= k < old_q.len() ==> old_level[#[trigger] old_q[k] as int] <= old_level[v as int] + 1,
    ensures
        search_state(
            g,
            srcs,
            old_q.push(w),
            old_visited.update(w as int, true),
            old_level.update(w as int, (old_level[v as int] + 1) as usize),
            h - 1,
            cutoff,
        ),
        levels_ok(
            g,
            srcs,
            old_q.push(w),
            old_visited.update(w as int, true),
            old_level.update(w as int, (old_level[v as int] + 1) as usize),
            old_parent.update(w as int, v),
            cutoff,
        ),
{
    lemma_discover_state(g, srcs, old_q, old_visited, old_level, h, v, w, cutoff);
    lemma_discover_levels(g, srcs, old_q, old_visited, old_level, old_parent, h, v, w, cutoff);
}

#[verifier::spinoff_prover]
proof fn lemma_discover_state<A>(
    g: GraphView<A>,
    srcs: Seq<int>,
    old_q: Seq<usize>,
    old_visited: Seq<bool>,
    old_level: Seq<usize>,
    h: int,
    v: usize,
    w: usize,
    cutoff: Option<i32>,
)
    requires
        search_state(g, srcs, old_q, old_visited, old_level, h - 1, cutoff),
        0 < h <= old_q.len(),
        v == old_q[h - 1],
        w < g.nodes.len(),
        !old_visited[w as int],
        old_level[v as int] < usize::MAX,
        forall|k: int| 0 <= k < old_q.len() ==> old_level[#[trigger] old_q[k] as int] <= old_level[v as int] + 1,
    ensures
        search_state(
            g,
            srcs,
            old_q.push(w),
            old_visited.update(w as int, true),
            old_level.update(w as int, (old_level[v as int] + 1) as usize),
            h - 1,
            cutoff,
        ),
{
    let n = g.nodes.len();
    let q = old_q.push(w);
    let visited = old_visited.update(w as int, true);
    let level = old_level.update(w as int, (old_level[v as int] + 1) as usize);
    assert forall|k: int| 0 <= k < q.len() implies #[trigger] q[k] < n && visited[q[k] as int] by {
        if k < old_q.len() {
            assert(q[k] == old_q[k]);
        }
    }
    assert forall|x: int| 0 <= x < n && #[trigger] visited[x] implies q.contains(x as usize) by {
        if x == w as int {
            assert(q[old_q.len() as int] == w);
        } else {
            assert(old_visited[x]);
            let k = choose|k: int| 0 <= k < old_q.len() && old_q[k] == x as usize;
            assert(q[k] == x as usize);
        }
    }
    assert forall|k: int| 0 <= k < srcs.len() implies 0 <= #[trigger] srcs[k] < n && visited[srcs[k]]
        && level[srcs[k]] == 0 by {
        assert(old_visited[srcs[k]]);
    }
    assert forall|a: int, b: int| 0 <= a <= b < q.len() implies level[#[trigger] q[a] as int]
        <= level[#[trigger] q[b] as int] by {
        if b < old_q.len() {
            assert(q[a] == old_q[a] && q[b] == old_q[b]);
            assert(old_visited[old_q[a] as int] && old_visited[old_q[b] as int]);
        } else if a < old_q.len() {
            assert(q[a] == old_q[a]);
            assert(old_visited[old_q[a] as int]);
        }
    }
    assert forall|a: int, x: int|
        0 <= a < h - 1 && 0 <= x < n && #[trigger] g.step(Direction::Forward, q[a] as int, x)
            && expandable(level[q[a] as int] as int, cutoff) implies visited[x] && level[x] <= level[q[a] as int]
        + 1 by {
        assert(q[a] == old_q[a]);
        assert(old_visited[old_q[a] as int]);
        assert(old_visited[x] && old_level[x] <= old_level[old_q[a] as int] + 1);
    }
}

#[verifier::spinoff_prover]
proof fn lemma_discover_levels<A>(
    g: GraphView<A>,
    srcs: Seq<int>,
    old_q: Seq<usize>,
    old_visited: Seq<bool>,
    old_level: Seq<usize>,
    old_parent: Seq<usize>,
    h: int,
    v: usize,
    w: usize,
    cutoff: Option<i32>,
)
    requires
        search_state(g, srcs, old_q, old_visited, old_level, h - 1, cutoff),
        levels_ok(g, srcs, old_q, old_visited, old_level, old_parent, cutoff),
        0 < h <= old_q.len(),
        v == old_q[h - 1],
        expandable(old_level[v as int] as int, cutoff),
        w < g.nodes.len(),
        g.step(Direction::Forward, v as int, w as int),
        !old_visited[w as int],
        old_level[v as int] < usize::MAX,
    ensures
        levels_ok(
            g,
            srcs,
            old_q.push(w),
            old_visited.update(w as int, true),
            old_level.update(w as int, (old_level[v as int] + 1) as usize),
            old_parent.update(w as int, v),
            cutoff,
        ),
{
    let n = g.nodes.len();
    let lv = old_level[v as int];
    let q = old_q.push(w);
    let visited = old_visited.update(w as int, true);
    let level = old_level.update(w as int, (lv + 1) as usize);
    let parent = old_parent.update(w as int, v);
    lemma_distinct_indexes_len(old_q, n as int);
    lemma_unvisited_far(g, srcs, old_q, old_visited, old_level, h - 1, cutoff, w as int);
    assert(old_visited[v as int]);
    lemma_within_step(g, srcs, v as int, w as int, lv as int);
    assert(old_level[old_q[h - 1] as int] <= h - 1);
    assert forall|k: int| 0 <= k < q.len() implies level[#[trigger] q[k] as int] <= k by {
        if k < old_q.len() {
            assert(q[k] == old_q[k]);
            assert(old_visited[old_q[k] as int]);
        }
    }
    assert forall|x: int| 0 <= x < n && #[trigger] visited[x] implies within(g, srcs, x, level[x] as int)
        && !within(g, srcs, x, level[x] - 1) && in_cutoff(level[x] as int, cutoff) by {
        if x != w as int {
            assert(old_visited[x]);
        }
    }
    assert forall|x: int| 0 <= x < n && #[trigger] visited[x] && level[x] == 0 implies srcs.contains(x) by {
        if x != w as int {
            assert(old_visited[x]);
        }
    }
    assert forall|x: int| 0 <= x < n && #[trigger] visited[x] && level[x] > 0 implies {
        &&& parent[x] < n
        &&& visited[parent[x] as int]
        &&& level[parent[x] as int] + 1 == level[x]
        &&& g.step(Direction::Forward, parent[x] as int, x)
    } by {
        if x != w as int {
            assert(old_visited[x]);
            assert(old_visited[parent[x] as int]);
            assert(parent[x] != w);
        }
    }
}

/// Once every successor of `v`, the last node taken off the queue, has been
/// visited no more than one level below it, `v` counts as expanded.
proof fn lemma_expansion_done<A>(
    g: GraphView<A>,
    srcs: Seq<int>,
    q: Seq<usize>,
    visited: Seq<bool>,
    level: Seq<usize>,
    h: int,
    v: usize,
    cutoff: Option<i32>,
)
    requires
        search_state(g, srcs, q, visited, level, h - 1, cutoff),
        0 < h <= q.len(),
        q[h - 1] == v,
        forall|x: int| 0 <= x < g.nodes.len() && #[trigger] g.succ_test(v as int)(x) ==> visited[x] && level[x] <= level[v as int] + 1,
    ensures
        search_state(g, srcs, q, visited, level, h, cutoff),
{
    assert forall|a: int, x: int|
        0 <= a < h && 0 <= x < g.nodes.len() && #[trigger] g.step(Direction::Forward, q[a] as int, x) && expandable(
            level[q[a] as int] as int,
            cutoff,
        ) implies visited[x] && level[x] <= level[q[a] as int] + 1 by {
        if a == h - 1 {
            assert(g.succ_test(v as int)(x));
        }
    }
}

/// A node whose successors would lie beyond the cutoff counts as expanded
/// once it is taken off the queue.
proof fn lemma_expansion_skipped<A>(
    g: GraphView<A>,
    srcs: Seq<int>,
    q: Seq<usize>,
    visited: Seq<bool>,
    level: Seq<usize>,
    h: int,
    cutoff: Option<i32>,
)
    requires
        search_state(g, srcs, q, visited, level, h - 1, cutoff),
        0 < h <= q.len(),
        !expandable(level[q[h - 1] as int] as int, cutoff),
    ensures
        search_state(g, srcs, q, visited, level, h, cutoff),
{
}

/// When the whole queue has been expanded, every node within the cutoff of
/// the sources has been visited.
proof fn lemma_search_complete<A>(
    g: GraphView<A>,
    srcs: Seq<int>,
    q: Seq<usize>,
    visited: Seq<bool>,
    level: Seq<usize>,
    cutoff: Option<i32>,
)
    requires
        search_state(g, srcs, q, visited, level, q.len() as int, cutoff),
    ensures
        forall|x: int, d: int|
            0 <= x < g.nodes.len() && #[trigger] distance_is(g, srcs, x, d) && in_cutoff(d, cutoff) ==> q.contains(
                x as usize,
            ),
{
    assert forall|x: int, d: int|
        0 <= x < g.nodes.len() && #[trigger] distance_is(g, srcs, x, d) && in_cutoff(d, cutoff) implies q.contains(
        x as usize,
    ) by {
        let p = choose|p: Seq<int>| #[trigger] walk_from(g, srcs, p, x) && p.len() <= d + 1;
        let ks = choose|k: int| 0 <= k < srcs.len() && srcs[k] == p[0];
        assert(visited[srcs[ks]] && level[srcs[ks]] == 0);
        lemma_walk_meets_frontier(g, srcs, q, visited, level, q.len() as int, cutoff, p, 0);
        let m = choose|m: int|
            0 <= m < p.len() && visited[#[trigger] p[m]] && level[p[m]] <= m && (!q.take(q.len() as int).contains(
                p[m] as usize,
            ) || m == p.len() - 1 || !expandable(level[p[m]] as int, cutoff));
        assert(q.take(q.len() as int) == q);
        assert(0 <= p[m] < g.nodes.len());
        assert(q.contains(p[m] as usize));
    }
}

/// When the search stopped at the target, the last node taken off the
/// queue, a node closer to the sources than the target had been taken off it.
#[verifier::spinoff_prover]
proof fn lemma_stopped_one<A>(
    g: GraphView<A>,
    srcs: Seq<int>,
    q: Seq<usize>,
    visited: Seq<bool>,
    level: Seq<usize>,
    parent: Seq<usize>,
    h: int,
    cutoff: Option<i32>,
    x: int,
    d: int,
)
    requires
        search_state(g, srcs, q, visited, level, h - 1, cutoff),
        levels_ok(g, srcs, q, visited, level, parent, cutoff),
        0 < h <= q.len(),
        0 <= x < g.nodes.len(),
        distance_is(g, srcs, x, d),
        d < level[q[h - 1] as int],
    ensures
        q.take(h).contains(x as usize),
{
    let t = q[h - 1];
    assert(visited[t as int]);
    let p = choose|p: Seq<int>| #[trigger] walk_from(g, srcs, p, x) && p.len() <= d + 1;
    let ks = choose|k: int| 0 <= k < srcs.len() && srcs[k] == p[0];
    assert(visited[srcs[ks]] && level[srcs[ks]] == 0);
    lemma_walk_meets_frontier(g, srcs, q, visited, level, h - 1, cutoff, p, 0);
    let m = choose|m: int|
        0 <= m < p.len() && visited[#[trigger] p[m]] && level[p[m]] <= m && (!q.take(h - 1).contains(
            p[m] as usize,
        ) || m == p.len() - 1 || !expandable(level[p[m]] as int, cutoff));
    assert(0 <= p[m] < g.nodes.len());
    assert(q.contains(p[m] as usize));
    let km = choose|k: int| 0 <= k < q.len() && q[k] == p[m] as usize;
    if !q.take(h - 1).contains(p[m] as usize) {
        if km < h - 1 {
            assert(q.take(h - 1)[km] == p[m] as usize);
        }
        assert(level[q[h - 1] as int] <= level[q[km] as int]);
    } else if m == p.len() - 1 {
        assert(p[m] == x);
        lemma_distance_unique(g, srcs, x, level[x] as int, d);
        if km >= h - 1 {
            assert(level[q[h - 1] as int] <= level[q[km] as int]);
        }
        assert(q.take(h)[km] == x as usize);
    } else {
        assert(in_cutoff(level[t as int] as int, cutoff));
    }
}

/// When the search stopped at the target, the last node taken off the queue,
/// every node closer to the sources than the target had been taken off it,
/// and none taken off it lies farther.
proof fn lemma_search_stopped<A>(
    g: GraphView<A>,
    srcs: Seq<int>,
    q: Seq<usize>,
    visited: Seq<bool>,
    level: Seq<usize>,
    parent: Seq<usize>,
    h: int,
    cutoff: Option<i32>,
)
    requires
        search_state(g, srcs, q, visited, level, h - 1, cutoff),
        levels_ok(g, srcs, q, visited, level, parent, cutoff),
        0 < h <= q.len(),
    ensures
        forall|x: int, d: int|
            0 <= x < g.nodes.len() && #[trigger] distance_is(g, srcs, x, d) && d < level[q[h - 1] as int] ==> q.take(
                h,
            ).contains(x as usize),
        forall|k: int| 0 <= k < h ==> level[#[trigger] q[k] as int] <= level[q[h - 1] as int],
{
    assert forall|x: int, d: int|
        0 <= x < g.nodes.len() && #[trigger] distance_is(g, srcs, x, d) && d < level[q[h - 1] as int] implies q.take(
        h,
    ).contains(x as usize) by {
        lemma_stopped_one(g, srcs, q, visited, level, parent, h, cutoff, x, d);
    }
}

/// The mutable state of a breadth-first search.
struct Frontier {
    visited: Vec<bool>,
    level: Vec<usize>,
    parent: Vec<usize>,
    queue: Vec<usize>,
}

impl Frontier {
    #[verifier::opaque]
    spec fn inv<A>(self, g: GraphView<A>, srcs: Seq<int>, done: int, cutoff: Option<i32>) -> bool {
        &&& search_state(g, srcs, self.queue@, self.visited@, self.level@, done, cutoff)
        &&& levels_ok(g, srcs, self.queue@, self.visited@, self.level@, self.parent@, cutoff)
    }

    /// Visits node `w`, found one step from node `v`, the last node taken off the queue.
    fn discover<A: Copy>(
        &mut self,
        graph: &Graph<A>,
        Ghost(srcs): Ghost<Seq<int>>,
        h: usize,
        v: usize,
        w: usize,
        cutoff: Option<i32>,
    )
        requires
            old(self).inv(graph@, srcs, h - 1, cutoff),
            0 < h <= old(self).queue@.len(),
            v == old(self).queue@[h - 1],
            expandable(old(self).level@[v as int] as int, cutoff),
            w < graph@.nodes.len(),
            graph@.step(Direction::Forward, v as int, w as int),
            !old(self).visited@[w as int],
            forall|k: int|
                0 <= k < old(self).queue@.len() ==> old(self).level@[#[trigger] old(self).queue@[k] as int]
                    <= old(self).level@[v as int] + 1,
        ensures
            final(self).inv(graph@, srcs, h - 1, cutoff),
            final(self).queue@ == old(self).queue@.push(w),
            final(self).visited@ == old(self).visited@.update(w as int, true),
            final(self).level@ == old(self).level@.update(w as int, (old(self).level@[v as int] + 1) as usize),
            forall|k: int|
                0 <= k < final(self).queue@.len() ==> final(self).level@[#[trigger] final(self).queue@[k] as int]
                    <= old(self).level@[v as int] + 1,
    {
        let ghost g = graph@;
        let ghost n = g.nodes.len();
        let ghost old_q = self.queue@;
        let ghost old_visited = self.visited@;
        let ghost old_level = self.level@;
        proof {
            reveal(Frontier::inv);
            lemma_distinct_indexes_len(old_q, n as int);
            assert(old_level[old_q[h - 1] as int] <= h - 1);
        }
        let lv = self.level[v];
        let ghost old_parent = self.parent@;
        self.visited.set(w, true);
        self.level.set(w, lv + 1);
        self.parent.set(w, v);
        self.queue.push(w);
        proof {
            lemma_discover(g, srcs, old_q, old_visited, old_level, old_parent, h as int, v, w, cutoff);
            assert(self.queue@ == old_q.push(w));
            assert forall|k: int| 0 <= k < self.queue@.len() implies self.level@[#[trigger] self.queue@[k] as int] <= lv + 1 by {
                if k < old_q.len() {
                    assert(self.queue@[k] == old_q[k]);
                    assert(old_visited[old_q[k] as int]);
                }
            }
        }
    }

    /// Expands node `v`, the last node taken off the queue: visits each of its
    /// successors not visited yet.
    #[verifier::rlimit(40)]
    fn expand<A: Copy>(&mut self, graph: &Graph<A>, Ghost(srcs): Ghost<Seq<int>>, h: usize, v: usize, cutoff: Option<i32>)
        requires
            graph.wf(),
            old(self).inv(graph@, srcs, h - 1, cutoff),
            0 < h <= old(self).queue@.len(),
            v == old(self).queue@[h - 1],
            expandable(old(self).level@[v as int] as int, cutoff),
            forall|k: int|
                0 <= k < old(self).queue@.len() ==> old(self).level@[#[trigger] old(self).queue@[k] as int]
                    <= old(self).level@[v as int] + 1,
        ensures
            final(self).inv(graph@, srcs, h as int, cutoff),
            final(self).queue@.len() >= old(self).queue@.len(),
            final(self).queue@.take(old(self).queue@.len() as int) == old(self).queue@,
            final(self).level@[v as int] == old(self).level@[v as int],
            forall|k: int|
                0 <= k < final(self).queue@.len() ==> final(self).level@[#[trigger] final(self).queue@[k] as int]
                    <= old(self).level@[v as int] + 1,
    {
        let ghost g = graph@;
        let ghost n = g.nodes.len();
        let ghost old_q = self.queue@;
        let ghost lv = self.level@[v as int];
        assert(self.visited@[old_q[h - 1] as int] && old_q[h - 1] < n && self.visited@.len() == n
            && self.level@.len() == n) by {
            reveal(Frontier::inv);
        }
        let succ = graph.successor_indexes(v);
        proof {
            lemma_indices_where_bounds(n as int, g.succ_test(v as int));
        }
        let mut j: usize = 0;
        while j < succ.len()
            invariant
                graph.wf(),
                g == graph@,
                n == g.nodes.len(),
                0 < h <= old_q.len(),
                v == old_q[h - 1],
                lv == self.level@[v as int],
                expandable(lv as int, cutoff),
                succ@.map_values(|x: usize| x as int) == g.successor_indices(v as int),
                forall|k: int| 0 <= k < succ@.len() ==> succ@[k] < n,
                j <= succ@.len(),
                self.inv(g, srcs, h - 1, cutoff),
                self.visited@.len() == n,
                self.level@.len() == n,
                v < n,
                self.visited@[v as int],
                self.queue@.len() >= old_q.len(),
                self.queue@.take(old_q.len() as int) == old_q,
                forall|k: int| 0 <= k < self.queue@.len() ==> self.level@[#[trigger] self.queue@[k] as int] <= lv + 1,
                forall|k: int|
                    0 <= k < j ==> self.visited@[#[trigger] succ@[k] as int] && self.level@[succ@[k] as int] <= lv
                        + 1,
            decreases succ@.len() - j,
        {
            let w = succ[j];
            proof {
                lemma_indices_where_bounds(n as int, g.succ_test(v as int));
                assert(succ@.map_values(|x: usize| x as int)[j as int] == w as int);
                assert(g.successor_indices(v as int)[j as int] == w as int);
                assert(g.succ_test(v as int)(w as int));
                assert(self.queue@[h - 1] == old_q[h - 1]);
            }
            if !self.visited[w] {
                let ghost before_q = self.queue@;
                let ghost before_visited = self.visited@;
                let ghost before_level = self.level@;
                proof {
                    assert(w != v);
                }
                self.discover(graph, Ghost(srcs), h, v, w, cutoff);
                proof {
                    assert(self.visited@[v as int]);
                    assert(self.level@[v as int] == before_level[v as int]);
                    assert(self.queue@.take(old_q.len() as int) =~= before_q.take(old_q.len() as int));
                    assert forall|k: int| 0 <= k < j + 1 implies self.visited@[#[trigger] succ@[k] as int]
                        && self.level@[succ@[k] as int] <= lv + 1 by {
                        if k < j {
                            assert(before_visited[succ@[k] as int]);
                            assert(succ@[k] != w);
                        }
                    }
                }
            } else {
                assert(self.level@[w as int] <= lv + 1) by {
                    reveal(Frontier::inv);
                    let k = choose|k: int| 0 <= k < self.queue@.len() && self.queue@[k] == w;
                    assert(self.level@[self.queue@[k] as int] <= lv + 1);
                }
            }
            j = j + 1;
        }
        proof {
            assert(self.queue@[h - 1] == v) by {
                assert(self.queue@.take(old_q.len() as int)[h - 1] == old_q[h - 1]);
            }
            assert forall|x: int| 0 <= x < n && #[trigger] g.succ_test(v as int)(x) implies self.visited@[x]
                && self.level@[x] <= lv + 1 by {
                lemma_indices_where_member(n as int, g.succ_test(v as int), x);
                let k = choose|k: int|
                    0 <= k < g.successor_indices(v as int).len() && g.successor_indices(v as int)[k] == x;
                assert(succ@.map_values(|y: usize| y as int)[k] == x);
                assert(succ@[k] as int == x);
            }
            assert(self.inv(g, srcs, h as int, cutoff)) by {
                reveal(Frontier::inv);
                lemma_expansion_done(g, srcs, self.queue@, self.visited@, self.level@, h as int, v, cutoff);
            }
        }
    }
}

/// Whether the search settled the `target`.
pub open spec fn stopped_at(target: Option<usize>, order: Seq<usize>, settled: int) -> bool {
    match target {
        Some(t) => order.take(settled).contains(t),
        None => false,
    }
}

/// Whether every node in `order` has its distance as level, within the
/// cutoff, and, off the sources, a parent in `order` one step closer.
#[verifier::opaque]
spec fn levels_of_order<A>(
    g: GraphView<A>,
    srcs: Seq<int>,
    order: Seq<usize>,
    level: Seq<usize>,
    parent: Seq<usize>,
    cutoff: Option<i32>,
) -> bool {
    &&& order.no_duplicates()
    &&& level.len() == g.nodes.len()
    &&& parent.len() == g.nodes.len()
    &&& forall|k: int| 0 <= k < order.len() ==> #[trigger] order[k] < g.nodes.len()
    &&& forall|a: int, b: int| 0 <= a <= b < order.len() ==> level[#[trigger] order[a] as int] <= level[#[trigger] order[b] as int]
    &&& forall|k: int|
        0 <= k < order.len() ==> distance_is(g, srcs, order[k] as int, level[#[trigger] order[k] as int] as int)
            && in_cutoff(level[order[k] as int] as int, cutoff) && level[order[k] as int] < g.nodes.len()
    &&& forall|x: int|
        0 <= x < g.nodes.len() && order.contains(x as usize) && #[trigger] level[x] == 0 ==> srcs.contains(x)
    &&& forall|x: int|
        0 <= x < g.nodes.len() && order.contains(x as usize) && #[trigger] level[x] > 0 ==> {
            &&& parent[x] < g.nodes.len()
            &&& order.contains(parent[x])
            &&& level[parent[x] as int] + 1 == level[x]
            &&& g.step(Direction::Forward, parent[x] as int, x)
        }
}

/// Which nodes a search settled: with the target settled, the target last,
/// no node farther than it and every node closer; otherwise every node
/// within the cutoff.
spec fn settled_nodes<A>(
    g: GraphView<A>,
    srcs: Seq<int>,
    order: Seq<usize>,
    settled: int,
    level: Seq<usize>,
    target: Option<usize>,
    cutoff: Option<i32>,
) -> bool {
    &&& 0 <= settled <= order.len()
    &&& stopped_at(target, order, settled) ==> {
        let t = target->0;
        &&& settled > 0
        &&& order[settled - 1] == t
        &&& forall|k: int| 0 <= k < settled ==> level[#[trigger] order[k] as int] <= level[t as int]
        &&& forall|x: int, d: int|
            0 <= x < g.nodes.len() && #[trigger] distance_is(g, srcs, x, d) && d < level[t as int] ==> order.take(
                settled,
            ).contains(x as usize)
    }
    &&& !stopped_at(target, order, settled) ==> {
        &&& settled == order.len()
        &&& forall|x: int, d: int|
            0 <= x < g.nodes.len() && #[trigger] distance_is(g, srcs, x, d) && in_cutoff(d, cutoff) ==> order.contains(
                x as usize,
            )
    }
}

/// What a breadth-first search from `srcs` found: the nodes in `order`, of
/// which the first `settled` were taken off the queue, with their levels and
/// parents.
spec fn search_outcome<A>(
    g: GraphView<A>,
    srcs: Seq<int>,
    order: Seq<usize>,
    settled: int,
    level: Seq<usize>,
    parent: Seq<usize>,
    target: Option<usize>,
    cutoff: Option<i32>,
) -> bool {
    &&& levels_of_order(g, srcs, order, level, parent, cutoff)
    &&& settled_nodes(g, srcs, order, settled, level, target, cutoff)
}

proof fn lemma_levels_of_order<A>(
    g: GraphView<A>,
    srcs: Seq<int>,
    q: Seq<usize>,
    visited: Seq<bool>,
    level: Seq<usize>,
    parent: Seq<usize>,
    done: int,
    cutoff: Option<i32>,
)
    requires
        search_state(g, srcs, q, visited, level, done, cutoff),
        levels_ok(g, srcs, q, visited, level, parent, cutoff),
    ensures
        levels_of_order(g, srcs, q, level, parent, cutoff),
{
    reveal(levels_of_order);
    let n = g.nodes.len();
    lemma_distinct_indexes_len(q, n as int);
    assert forall|x: int| 0 <= x < n && q.contains(x as usize) && #[trigger] level[x] == 0 implies srcs.contains(x) by {
        let k = choose|k: int| 0 <= k < q.len() && q[k] == x as usize;
        assert(visited[q[k] as int]);
    }
    assert forall|x: int| 0 <= x < n && q.contains(x as usize) && #[trigger] level[x] > 0 implies {
        &&& parent[x] < n
        &&& q.contains(parent[x])
        &&& level[parent[x] as int] + 1 == level[x]
        &&& g.step(Direction::Forward, parent[x] as int, x)
    } by {
        let k = choose|k: int| 0 <= k < q.len() && q[k] == x as usize;
        assert(visited[q[k] as int]);
    }
    assert forall|k: int| 0 <= k < q.len() implies distance_is(g, srcs, q[k] as int, level[#[trigger] q[k] as int] as int)
        && in_cutoff(level[q[k] as int] as int, cutoff) && level[q[k] as int] < n by {
        assert(visited[q[k] as int]);
    }
}

/// What the levels of a search say of the node at position `k` of its order.
proof fn lemma_order_entry<A>(
    g: GraphView<A>,
    srcs: Seq<int>,
    order: Seq<usize>,
    level: Seq<usize>,
    parent: Seq<usize>,
    cutoff: Option<i32>,
    k: int,
)
    requires
        levels_of_order(g, srcs, order, level, parent, cutoff),
        0 <= k < order.len(),
    ensures
        order[k] < g.nodes.len(),
        order.contains(order[k]),
        level.len() == g.nodes.len(),
        parent.len() == g.nodes.len(),
        distance_is(g, srcs, order[k] as int, level[order[k] as int] as int),
        in_cutoff(level[order[k] as int] as int, cutoff),
        level[order[k] as int] < g.nodes.len(),
{
    reveal(levels_of_order);
}

/// What the levels of a search say of a node `x` in its order: a source at
/// level zero, otherwise a parent in the order one step and one level closer.
proof fn lemma_order_parent<A>(
    g: GraphView<A>,
    srcs: Seq<int>,
    order: Seq<usize>,
    level: Seq<usize>,
    parent: Seq<usize>,
    cutoff: Option<i32>,
    x: usize,
)
    requires
        levels_of_order(g, srcs, order, level, parent, cutoff),
        order.contains(x),
    ensures
        x < g.nodes.len(),
        level.len() == g.nodes.len(),
        parent.len() == g.nodes.len(),
        level[x as int] == 0 ==> srcs.contains(x as int),
        level[x as int] > 0 ==> {
            &&& parent[x as int] < g.nodes.len()
            &&& order.contains(parent[x as int])
            &&& level[parent[x as int] as int] + 1 == level[x as int]
            &&& g.step(Direction::Forward, parent[x as int] as int, x as int)
        },
{
    reveal(levels_of_order);
    let k = choose|k: int| 0 <= k < order.len() && order[k] == x;
    assert(order[k] < g.nodes.len());
}

/// A search stopped at its target settled what `settled_nodes` asks.
proof fn lemma_settled_stopped<A>(
    g: GraphView<A>,
    srcs: Seq<int>,
    q: Seq<usize>,
    level: Seq<usize>,
    h: int,
    target: Option<usize>,
    cutoff: Option<i32>,
)
    requires
        0 < h <= q.len(),
        target == Some(q[h - 1]),
        forall|x: int, d: int|
            0 <= x < g.nodes.len() && #[trigger] distance_is(g, srcs, x, d) && d < level[q[h - 1] as int] ==> q.take(
                h,
            ).contains(x as usize),
        forall|k: int| 0 <= k < h ==> level[#[trigger] q[k] as int] <= level[q[h - 1] as int],
    ensures
        settled_nodes(g, srcs, q, h, level, target, cutoff),
{
    assert(q.take(h)[h - 1] == q[h - 1]);
}

/// A search that ran out of nodes settled what `settled_nodes` asks.
proof fn lemma_settled_complete<A>(
    g: GraphView<A>,
    srcs: Seq<int>,
    q: Seq<usize>,
    level: Seq<usize>,
    h: int,
    target: Option<usize>,
    cutoff: Option<i32>,
)
    requires
        h == q.len(),
        forall|k: int| 0 <= k < h ==> target != Some(#[trigger] q[k]),
        forall|x: int, d: int|
            0 <= x < g.nodes.len() && #[trigger] distance_is(g, srcs, x, d) && in_cutoff(d, cutoff) ==> q.contains(
                x as usize,
            ),
    ensures
        settled_nodes(g, srcs, q, h, level, target, cutoff),
{
    assert(q.take(h) == q);
    match target {
        Some(t) => {
            if q.take(h).contains(t) {
                let k = choose|k: int| 0 <= k < h && q.take(h)[k] == t;
                assert(q[k] == t);
            }
        },
        None => {},
    }
}

/// The invariants of a search that has ended give its outcome.
proof fn lemma_search_result<A>(
    g: GraphView<A>,
    srcs: Seq<int>,
    q: Seq<usize>,
    visited: Seq<bool>,
    level: Seq<usize>,
    parent: Seq<usize>,
    h: int,
    stopped: bool,
    target: Option<usize>,
    cutoff: Option<i32>,
)
    requires
        0 <= h <= q.len(),
        search_state(g, srcs, q, visited, level, if stopped { h - 1 } else { h }, cutoff),
        levels_ok(g, srcs, q, visited, level, parent, cutoff),
        stopped ==> h > 0 && target == Some(q[h - 1]),
        !stopped ==> h == q.len() && forall|k: int| 0 <= k < h ==> target != Some(#[trigger] q[k]),
    ensures
        search_outcome(g, srcs, q, h, level, parent, target, cutoff),
{
    lemma_levels_of_order(g, srcs, q, visited, level, parent, if stopped { h - 1 } else { h }, cutoff);
    if stopped {
        lemma_search_stopped(g, srcs, q, visited, level, parent, h, cutoff);
        lemma_settled_stopped(g, srcs, q, level, h, target, cutoff);
    } else {
        lemma_search_complete(g, srcs, q, visited, level, cutoff);
        lemma_settled_complete(g, srcs, q, level, h, target, cutoff);
    }
}

/// Breadth-first search from the nodes `srcs`, stopping once `target` is
/// taken off the queue, and not going past nodes whose successors would lie
/// beyond the `cutoff`.
fn search<A: Copy>(graph: &Graph<A>, srcs: &Vec<usize>, target: Option<usize>, cutoff: Option<i32>) -> (r: Search)
    requires
        graph.wf(),
        forall|k: int| 0 <= k < srcs@.len() ==> #[trigger] srcs@[k] < graph@.nodes.len(),
    ensures
        search_outcome(graph@, as_ints(srcs@), r.order@, r.settled as int, r.level@, r.parent@, target, cutoff),
{
    let ghost g = graph@;
    let ghost si = as_ints(srcs@);
    let n = graph.number_of_nodes();
    let mut visited = filled(n, false);
    let level = filled(n, 0usize);
    let parent = filled(n, 0usize);
    let mut q: Vec<usize> = Vec::new();
    let mut m: usize = 0;
    while m < srcs.len()
        invariant
            n == g.nodes.len(),
            si == as_ints(srcs@),
            forall|k: int| 0 <= k < srcs@.len() ==> #[trigger] srcs@[k] < n,
            m <= srcs@.len(),
            visited@.len() == n,
            q@.no_duplicates(),
            forall|k: int| 0 <= k < q@.len() ==> #[trigger] q@[k] < n && visited@[q@[k] as int],
            forall|x: int| 0 <= x < n && #[trigger] visited@[x] ==> q@.contains(x as usize) && si.contains(x),
            forall|k: int| 0 <= k < m ==> visited@[#[trigger] srcs@[k] as int],
        decreases srcs@.len() - m,
    {
        let s = srcs[m];
        if !visited[s] {
            let ghost old_q = q@;
            visited.set(s, true);
            q.push(s);
            proof {
                assert(si[m as int] == s as int);
                assert(q@[q@.len() - 1] == s);
                assert forall|x: int| 0 <= x < n && #[trigger] visited@[x] implies q@.contains(x as usize)
                    && si.contains(x) by {
                    if x != s as int {
                        assert(old_q.contains(x as usize));
                        let k = choose|k: int| 0 <= k < old_q.len() && old_q[k] == x as usize;
                        assert(q@[k] == x as usize);
                    }
                }
            }
        }
        m = m + 1;
    }
    let mut f = Frontier { visited, level, parent, queue: q };
    assert(f.inv(g, si, 0, cutoff)) by {
        reveal(Frontier::inv);
        assert forall|k: int| 0 <= k < si.len() implies 0 <= #[trigger] si[k] < n && f.visited@[si[k]]
            && f.level@[si[k]] == 0 by {
            assert(si[k] == srcs@[k] as int);
        }
        assert forall|x: int| 0 <= x < n && #[trigger] f.visited@[x] implies within(g, si, x, f.level@[x] as int)
            && !within(g, si, x, f.level@[x] - 1) && in_cutoff(f.level@[x] as int, cutoff) by {
            let p = seq![x];
            assert(g.is_walk(Direction::Forward, p));
            assert(walk_from(g, si, p, x));
        }
    }
    let mut h: usize = 0;
    let mut stopped = false;
    while h < f.queue.len() && !stopped
        invariant
            graph.wf(),
            g == graph@,
            n == g.nodes.len(),
            si == as_ints(srcs@),
            h <= f.queue@.len(),
            f.inv(g, si, if stopped { h - 1 } else { h as int }, cutoff),
            h == 0 ==> forall|k: int| 0 <= k < f.queue@.len() ==> f.level@[#[trigger] f.queue@[k] as int] == 0,
            h > 0 ==> forall|k: int|
                0 <= k < f.queue@.len() ==> f.level@[#[trigger] f.queue@[k] as int] <= f.level@[f.queue@[h
                    - 1] as int] + 1,
            stopped ==> h > 0 && target == Some(f.queue@[h - 1]),
            !stopped ==> forall|k: int| 0 <= k < h ==> target != Some(#[trigger] f.queue@[k]),
        decreases n - h,
    {
        assert(f.queue@.len() <= n && f.queue@[h as int] < n && f.level@.len() == n && f.level@[f.queue@[h as int] as int]
            <= h && (h > 0 ==> f.level@[f.queue@[h - 1] as int] <= f.level@[f.queue@[h as int] as int])) by {
            reveal(Frontier::inv);
            lemma_distinct_indexes_len(f.queue@, n as int);
        }
        let v = f.queue[h];
        h = h + 1;
        let hit = match target {
            Some(t) => t == v,
            None => false,
        };
        if hit {
            stopped = true;
        } else {
            let lv = f.level[v];
            let expand = match cutoff {
                None => true,
                Some(c) => c > 0 && lv < (c as usize),
            };
            if expand {
                let ghost before = f.queue@;
                f.expand(graph, Ghost(si), h, v, cutoff);
                proof {
                    assert forall|k: int| 0 <= k < h implies target != Some(#[trigger] f.queue@[k]) by {
                        assert(f.queue@.take(before.len() as int)[k] == before[k]);
                    }
                    assert(f.queue@[h - 1] == v) by {
                        assert(f.queue@.take(before.len() as int)[h - 1] == before[h - 1]);
                    }
                }
            } else {
                assert(f.inv(g, si, h as int, cutoff)) by {
                    reveal(Frontier::inv);
                    lemma_expansion_skipped(g, si, f.queue@, f.visited@, f.level@, h as int, cutoff);
                }
            }
        }
    }
    assert(search_state(g, si, f.queue@, f.visited@, f.level@, if stopped { h - 1 } else { h as int }, cutoff)
        && levels_ok(g, si, f.queue@, f.visited@, f.level@, f.parent@, cutoff)) by {
        reveal(Frontier::inv);
    }
    proof {
        lemma_search_result(g, si, f.queue@, f.visited@, f.level@, f.parent@, h as int, stopped, target, cutoff);
    }
    Search { order: f.queue, settled: h, level: f.level, parent: f.parent }
}

/// The distance of a node from the sources of a search, and a shortest path
/// to it.
pub struct ShortestPathUnweighted {
    /// The number of edges on the path.
    pub distance: i32,
    /// The names of the nodes on the path, from a source to the node.
    pub path: Vec<u64>,
}

/// The indexes of the nodes named `sources`.
pub open spec fn source_indices<A>(g: GraphView<A>, sources: Seq<u64>) -> Seq<int> {
    sources.map_values(|x: u64| g.index_of(x))
}

/// Whether node `j` lies within the cutoff of the nodes `srcs`.
pub open spec fn reachable_in_cutoff<A>(g: GraphView<A>, srcs: Seq<int>, j: int, cutoff: Option<i32>) -> bool {
    exists|d: int| #[trigger] distance_is(g, srcs, j, d) && in_cutoff(d, cutoff)
}

/// Whether `sp` holds the distance of node `j` from the nodes `srcs`, within
/// the cutoff, and the names along a shortest walk to it.
pub open spec fn describes_path<A>(g: GraphView<A>, srcs: Seq<int>, j: int, sp: ShortestPathUnweighted, cutoff: Option<i32>) -> bool {
    &&& distance_is(g, srcs, j, sp.distance as int)
    &&& in_cutoff(sp.distance as int, cutoff)
    &&& exists|p: Seq<int>|
        #[trigger] walk_from(g, srcs, p, j) && p.len() == sp.distance + 1 && sp.path@ == g.names_at(p)
}

/// What a search from the nodes named `sources` gives: for each node it
/// settles, its distance and a shortest path. Without a target, or with one
/// beyond the cutoff, it settles every node within the cutoff; with a target
/// within the cutoff it settles the target, no node farther than it, and
/// every node closer than it.
pub open spec fn search_result<A>(
    g: GraphView<A>,
    sources: Seq<u64>,
    target: Option<u64>,
    cutoff: Option<i32>,
    m: Map<u64, ShortestPathUnweighted>,
) -> bool {
    let srcs = source_indices(g, sources);
    &&& forall|x: u64| #[trigger]
        m.contains_key(x) ==> g.has_name(x) && describes_path(g, srcs, g.index_of(x), m[x], cutoff)
    &&& if target is Some && g.has_name(target->0) && reachable_in_cutoff(g, srcs, g.index_of(target->0), cutoff) {
        let t = target->0;
        &&& m.contains_key(t)
        &&& forall|x: u64| #[trigger] m.contains_key(x) ==> m[x].distance <= m[t].distance
        &&& forall|x: u64, d: int|
            g.has_name(x) && #[trigger] distance_is(g, srcs, g.index_of(x), d) && d < m[t].distance ==> m.contains_key(x)
    } else {
        forall|x: u64| g.has_name(x) && #[trigger] reachable_in_cutoff(g, srcs, g.index_of(x), cutoff) ==> m.contains_key(x)
    }
}

/// Whether `t` is the index of the node named by `target`, if there is one.
pub open spec fn target_index<A>(g: GraphView<A>, target: Option<u64>, t: Option<usize>) -> bool {
    match target {
        Some(x) => if g.has_name(x) {
            t == Some(g.index_of(x) as usize)
        } else {
            t is None
        },
        None => t is None,
    }
}

/// The map built from the settled nodes of a search is its result.
proof fn lemma_search_map<A>(
    g: GraphView<A>,
    sources: Seq<u64>,
    si: Seq<int>,
    order: Seq<usize>,
    settled: int,
    level: Seq<usize>,
    parent: Seq<usize>,
    target: Option<u64>,
    t: Option<usize>,
    cutoff: Option<i32>,
    m: Map<u64, ShortestPathUnweighted>,
)
    requires
        g.well_formed(),
        g.nodes.len() <= i32::MAX,
        si == source_indices(g, sources),
        search_outcome(g, si, order, settled, level, parent, t, cutoff),
        target_index(g, target, t),
        forall|y: u64| #[trigger] m.contains_key(y) <==> exists|kk: int| 0 <= kk < settled && g.name(order[kk] as int) == y,
        forall|y: u64| #[trigger]
            m.contains_key(y) ==> g.has_name(y) && describes_path(g, si, g.index_of(y), m[y], cutoff)
                && m[y].distance == level[g.index_of(y)],
    ensures
        search_result(g, sources, target, cutoff, m),
{
    if stopped_at(t, order, settled) {
        let i = t->0;
        let x = target->0;
        assert(g.has_name(x));
        lemma_index_of(g, x);
        assert(order[settled - 1] == i);
        assert(i as int == g.index_of(x));
        assert(order.take(settled)[settled - 1] == i);
        assert(g.name(order[settled - 1] as int) == x);
        assert(m.contains_key(x));
        let ki = settled - 1;
        lemma_order_entry(g, si, order, level, parent, cutoff, ki);
        assert(reachable_in_cutoff(g, si, g.index_of(x), cutoff));
        assert forall|y: u64| #[trigger] m.contains_key(y) implies m[y].distance <= m[x].distance by {
            let kk = choose|kk: int| 0 <= kk < settled && g.name(order[kk] as int) == y;
            lemma_order_entry(g, si, order, level, parent, cutoff, kk);
            lemma_index_of(g, y);
            assert(g.index_of(y) == order[kk] as int);
            assert(level[order[kk] as int] <= level[i as int]);
        }
        assert forall|y: u64, d: int|
            g.has_name(y) && #[trigger] distance_is(g, si, g.index_of(y), d) && d < m[x].distance implies m.contains_key(
            y,
        ) by {
            lemma_index_of(g, y);
            assert((g.index_of(y) as usize) as int == g.index_of(y));
            assert(order.take(settled).contains(g.index_of(y) as usize));
            let kk = choose|kk: int| 0 <= kk < settled && order.take(settled)[kk] == g.index_of(y) as usize;
            assert(order[kk] == g.index_of(y) as usize);
            assert(g.name(order[kk] as int) == y);
        }
    } else {
        if target is Some && g.has_name(target->0) && reachable_in_cutoff(g, si, g.index_of(target->0), cutoff) {
            let x = target->0;
            lemma_index_of(g, x);
            let d = choose|d: int| #[trigger] distance_is(g, si, g.index_of(x), d) && in_cutoff(d, cutoff);
            assert((g.index_of(x) as usize) as int == g.index_of(x));
            assert(order.contains(g.index_of(x) as usize));
            assert(order.take(settled) == order);
            assert(false);
        }
        assert forall|y: u64| g.has_name(y) && #[trigger] reachable_in_cutoff(g, si, g.index_of(y), cutoff) implies m.contains_key(
            y,
        ) by {
            lemma_index_of(g, y);
            let d = choose|d: int| #[trigger] distance_is(g, si, g.index_of(y), d) && in_cutoff(d, cutoff);
            assert((g.index_of(y) as usize) as int == g.index_of(y));
            assert(order.contains(g.index_of(y) as usize));
            let kk = choose|kk: int| 0 <= kk < order.len() && order[kk] == g.index_of(y) as usize;
            assert(order[kk] as int == g.index_of(y));
            assert(g.name(order[kk] as int) == y);
        }
    }
}

/// The indexes along the parents from node `x` back to a source, source first.
fn path_to<A: Copy>(graph: &Graph<A>, r: &Search, Ghost(srcs): Ghost<Seq<int>>, Ghost(cutoff): Ghost<Option<i32>>, x: usize) -> (p: Vec<usize>)
    requires
        graph.wf(),
        levels_of_order(graph@, srcs, r.order@, r.level@, r.parent@, cutoff),
        r.order@.contains(x),
    ensures
        walk_from(graph@, srcs, as_ints(p@), x as int),
        p@.len() == r.level@[x as int] + 1,
{
    let ghost g = graph@;
    let ghost n = g.nodes.len();
    proof {
        lemma_order_parent(g, srcs, r.order@, r.level@, r.parent@, cutoff, x);
    }
    let mut rev: Vec<usize> = Vec::new();
    rev.push(x);
    let mut cur = x;
    while r.level[cur] > 0
        invariant
            g == graph@,
            n == g.nodes.len(),
            levels_of_order(g, srcs, r.order@, r.level@, r.parent@, cutoff),
            r.order@.contains(cur),
            r.order@.contains(x),
            cur < n,
            x < n,
            r.level@.len() == n,
            r.parent@.len() == n,
            rev@.len() == r.level@[x as int] - r.level@[cur as int] + 1,
            rev@.len() >= 1,
            rev@[0] == x,
            rev@[rev@.len() - 1] == cur,
            forall|k: int| 0 <= k < rev@.len() ==> #[trigger] rev@[k] < n,
            forall|k: int| 0 <= k < rev@.len() - 1 ==> g.step(Direction::Forward, #[trigger] rev@[k + 1] as int, rev@[k] as int),
        decreases r.level@[cur as int],
    {
        proof {
            lemma_order_parent(g, srcs, r.order@, r.level@, r.parent@, cutoff, cur);
        }
        let next = r.parent[cur];
        let ghost old_rev = rev@;
        rev.push(next);
        proof {
            assert(rev@ == old_rev.push(next));
            assert(rev@[0] == old_rev[0]);
            assert forall|k: int| 0 <= k < rev@.len() - 1 implies g.step(Direction::Forward, #[trigger] rev@[k + 1] as int, rev@[k] as int) by {
                if k < old_rev.len() - 1 {
                    assert(rev@[k + 1] == old_rev[k + 1] && rev@[k] == old_rev[k]);
                }
            }
        }
        cur = next;
    }
    let mut p: Vec<usize> = Vec::new();
    let mut i: usize = rev.len();
    while i > 0
        invariant
            i <= rev@.len(),
            p@.len() == rev@.len() - i,
            forall|k: int| 0 <= k < p@.len() ==> p@[k] == rev@[rev@.len() - 1 - k],
        decreases i,
    {
        i = i - 1;
        p.push(rev[i]);
    }
    proof {
        let ps = as_ints(p@);
        lemma_order_parent(g, srcs, r.order@, r.level@, r.parent@, cutoff, cur);
        assert(r.level@[cur as int] == 0);
        assert(srcs.contains(cur as int));
        assert(ps[0] == cur as int);
        assert(ps.last() == x as int);
        assert forall|k: int| 0 <= k < ps.len() implies 0 <= #[trigger] ps[k] < g.nodes.len() by {
            assert(ps[k] == rev@[rev@.len() - 1 - k] as int);
        }
        assert forall|k: int| 0 <= k < ps.len() - 1 implies g.step(Direction::Forward, #[trigger] ps[k], ps[k + 1]) by {
            let j = rev@.len() - 2 - k;
            assert(ps[k] == rev@[j + 1] as int);
            assert(ps[k + 1] == rev@[j] as int);
        }
        assert(g.is_walk(Direction::Forward, ps));
    }
    p
}

/// The names of the nodes at the indexes `p`.
fn names_along<A: Copy>(graph: &Graph<A>, p: &Vec<usize>) -> (r: Vec<u64>)
    requires
        graph.wf(),
        forall|k: int| 0 <= k < p@.len() ==> #[trigger] p@[k] < graph@.nodes.len(),
    ensures
        r@ == graph@.names_at(as_ints(p@)),
{
    let mut r: Vec<u64> = Vec::new();
    let mut k: usize = 0;
    while k < p.len()
        invariant
            graph.wf(),
            forall|j: int| 0 <= j < p@.len() ==> #[trigger] p@[j] < graph@.nodes.len(),
            k <= p@.len(),
            r@ == graph@.names_at(as_ints(p@.take(k as int))),
        decreases p@.len() - k,
    {
        r.push(graph.name_at(p[k]));
        proof {
            assert(p@.take(k + 1) == p@.take(k as int).push(p@[k as int]));
            assert(graph@.names_at(as_ints(p@.take(k + 1))) =~= graph@.names_at(as_ints(p@.take(k as int))).push(
                graph@.name(p@[k as int] as int),
            ));
        }
        k = k + 1;
    }
    proof {
        assert(p@.take(k as int) == p@);
    }
    r
}

/// The distance and a shortest path from the nodes named `sources` to each
/// node the search settles: every node within the `cutoff` when no `target`
/// is given or the target lies beyond the cutoff; otherwise the target, and
/// no node farther than it, and every node closer than it.
pub fn multi_source_dijkstra<A: Copy>(
    graph: &Graph<A>,
    sources: Vec<u64>,
    target: Option<u64>,
    cutoff: Option<i32>,
) -> (r: Result<HashMap<u64, ShortestPathUnweighted>, Error>)
    requires
        graph.wf(),
        graph@.nodes.len() <= i32::MAX,
        forall|k: int| 0 <= k < sources@.len() ==> graph@.has_name(#[trigger] sources@[k]),
    ensures
        r matches Ok(m) && search_result(graph@, sources@, target, cutoff, m@),
{
    let ghost g = graph@;
    let ghost si = source_indices(g, sources@);
    proof {
        graph.lemma_well_formed();
    }
    let mut srcs: Vec<usize> = Vec::new();
    let mut j: usize = 0;
    while j < sources.len()
        invariant
            graph.wf(),
            g == graph@,
            forall|k: int| 0 <= k < sources@.len() ==> g.has_name(#[trigger] sources@[k]),
            j <= sources@.len(),
            as_ints(srcs@) == source_indices(g, sources@.take(j as int)),
            forall|k: int| 0 <= k < srcs@.len() ==> #[trigger] srcs@[k] < g.nodes.len(),
        decreases sources@.len() - j,
    {
        match graph.node_index(sources[j]) {
            Some(i) => {
                let ghost old_srcs = srcs@;
                srcs.push(i);
                proof {
                    assert(sources@.take(j + 1) == sources@.take(j as int).push(sources@[j as int]));
                    assert(as_ints(srcs@) =~= as_ints(old_srcs).push(i as int));
                    assert(source_indices(g, sources@.take(j + 1)) =~= source_indices(g, sources@.take(j as int)).push(
                        g.index_of(sources@[j as int]),
                    ));
                }
            },
            None => {
                assert(g.has_name(sources@[j as int]));
            },
        }
        j = j + 1;
    }
    proof {
        assert(sources@.take(j as int) == sources@);
    }
    let t = match target {
        Some(x) => graph.node_index(x),
        None => None,
    };
    proof {
        match target {
            Some(x) => {},
            None => {},
        }
    }
    assert(target_index(g, target, t));
    let res = search(graph, &srcs, t, cutoff);
    assert(res.level@.len() == g.nodes.len()) by {
        reveal(levels_of_order);
    }
    let mut m: HashMap<u64, ShortestPathUnweighted> = HashMap::new();
    let mut k: usize = 0;
    while k < res.settled
        invariant
            graph.wf(),
            g == graph@,
            g.well_formed(),
            g.nodes.len() <= i32::MAX,
            si == as_ints(srcs@),
            search_outcome(g, si, res.order@, res.settled as int, res.level@, res.parent@, t, cutoff),
            target_index(g, target, t),
            res.level@.len() == g.nodes.len(),
            k <= res.settled,
            forall|y: u64| #[trigger]
                m@.contains_key(y) <==> exists|kk: int| 0 <= kk < k && g.name(res.order@[kk] as int) == y,
            forall|y: u64| #[trigger]
                m@.contains_key(y) ==> g.has_name(y) && describes_path(g, si, g.index_of(y), m@[y], cutoff)
                    && m@[y].distance == res.level@[g.index_of(y)],
        decreases res.settled - k,
    {
        let x = res.order[k];
        proof {
            lemma_order_entry(g, si, res.order@, res.level@, res.parent@, cutoff, k as int);
        }
        let p = path_to(graph, &res, Ghost(si), Ghost(cutoff), x);
        proof {
            assert forall|q: int| 0 <= q < p@.len() implies #[trigger] p@[q] < g.nodes.len() by {
                assert(as_ints(p@)[q] == p@[q] as int);
            }
        }
        let names = names_along(graph, &p);
        let dist = res.level[x] as i32;
        let name = graph.name_at(x);
        let ghost old_m = m@;
        m.insert(name, ShortestPathUnweighted { distance: dist, path: names });
        proof {
            assert(g.nodes[x as int].name == name);
            lemma_index_of(g, name);
            assert(g.index_of(name) == x as int);
            assert(dist as int == res.level@[x as int] as int);
            assert(walk_from(g, si, as_ints(p@), x as int));
            assert(describes_path(g, si, x as int, m@[name], cutoff));
            assert forall|y: u64| #[trigger] m@.contains_key(y) <==> exists|kk: int| 0 <= kk < k + 1 && g.name(res.order@[kk] as int) == y by {
                if y == name {
                    assert(g.name(res.order@[k as int] as int) == y);
                } else if old_m.contains_key(y) {
                    let kk = choose|kk: int| 0 <= kk < k && g.name(res.order@[kk] as int) == y;
                    assert(0 <= kk < k + 1 && g.name(res.order@[kk] as int) == y);
                } else {
                    if exists|kk: int| 0 <= kk < k + 1 && g.name(res.order@[kk] as int) == y {
                        let kk = choose|kk: int| 0 <= kk < k + 1 && g.name(res.order@[kk] as int) == y;
                        assert(kk == k);
                    }
                }
            }
        }
        k = k + 1;
    }
    proof {
        lemma_search_map(g, sources@, si, res.order@, res.settled as int, res.level@, res.parent@, target, t, cutoff, m@);
    }
    Ok(m)
}

/// The distance and a shortest path from the node named `source` to each
/// node the search settles, as `multi_source_dijkstra` with one source.
pub fn single_source_dijkstra<A: Copy>(
    graph: &Graph<A>,
    source: u64,
    target: Option<u64>,
    cutoff: Option<i32>,
) -> (r: Result<HashMap<u64, ShortestPathUnweighted>, Error>)
    requires
        graph.wf(),
        graph@.nodes.len() <= i32::MAX,
        graph@.has_name(source),
    ensures
        r matches Ok(m) && search_result(graph@, seq![source], target, cutoff, m@),
{
    let sources = vec![source];
    assert(sources@ == seq![source]);
    multi_source_dijkstra(graph, sources, target, cutoff)
}

/// For each node, the distance and a shortest path to every node within the
/// `cutoff` of it.
pub fn all_pairs_dijkstra<A: Copy>(graph: &Graph<A>, cutoff: Option<i32>) -> (r: Result<
    HashMap<u64, HashMap<u64, ShortestPathUnweighted>>,
    Error,
>)
    requires
        graph.wf(),
        graph@.nodes.len() <= i32::MAX,
    ensures
        r matches Ok(m) && (forall|x: u64| #[trigger] m@.contains_key(x) <==> graph@.has_name(x)) && (forall|x: u64|
            #[trigger] m@.contains_key(x) ==> search_result(graph@, seq![x], None, cutoff, m@[x]@)),
{
    let ghost g = graph@;
    let names = graph.get_all_node_names();
    let mut m: HashMap<u64, HashMap<u64, ShortestPathUnweighted>> = HashMap::new();
    let mut k: usize = 0;
    while k < names.len()
        invariant
            graph.wf(),
            g == graph@,
            g.nodes.len() <= i32::MAX,
            names@ == g.names(),
            k <= names@.len(),
            forall|x: u64| #[trigger] m@.contains_key(x) <==> exists|j: int| 0 <= j < k && names@[j] == x,
            forall|x: u64| #[trigger] m@.contains_key(x) ==> search_result(g, seq![x], None, cutoff, m@[x]@),
        decreases names@.len() - k,
    {
        let x = names[k];
        proof {
            assert(g.nodes[k as int].name == x);
        }
        match single_source_dijkstra(graph, x, None, cutoff) {
            Ok(paths) => {
                m.insert(x, paths);
                proof {
                    assert forall|y: u64| #[trigger] m@.contains_key(y) <==> exists|j: int| 0 <= j < k + 1 && names@[j] == y by {
                        if y == x {
                            assert(names@[k as int] == y);
                        }
                    }
                }
            },
            Err(_) => {
                assert(false);
            },
        }
        k = k + 1;
    }
    proof {
        assert forall|x: u64| #[trigger] m@.contains_key(x) <==> g.has_name(x) by {
            if g.has_name(x) {
                let i = choose|i: int| 0 <= i < g.nodes.len() && #[trigger] g.nodes[i].name == x;
                assert(names@[i] == x);
            }
        }
    }
    Ok(m)
}

} // verus!

verus! {

/// Whether `r` lists each node reachable from node `source` exactly once,
/// with its distance from `source`, and nothing else.
pub open spec fn lists_levels<A>(g: GraphView<A>, source: int, r: Seq<(usize, usize)>) -> bool {
    &&& forall|k: int|
        0 <= k < r.len() ==> (#[trigger] r[k]).0 < g.nodes.len() && distance_is(g, seq![source], r[k].0 as int, r[k].1 as int)
    &&& forall|a: int, b: int| 0 <= a < b < r.len() ==> (#[trigger] r[a]).0 != (#[trigger] r[b]).0
    &&& forall|x: int, d: int|
        0 <= x < g.nodes.len() && #[trigger] distance_is(g, seq![source], x, d) ==> exists|k: int|
            0 <= k < r.len() && (#[trigger] r[k]).0 == x as usize
}

/// Each node that the node at index `source` reaches, with its distance
/// (the number of edges on a shortest path) from it.
pub fn single_source_shortest_path_length_unweighted<A: Copy>(graph: &Graph<A>, source: usize) -> (r: Vec<(usize, usize)>)
    requires
        graph.wf(),
        graph@.nodes.len() <= i32::MAX,
        source < graph@.nodes.len(),
    ensures
        lists_levels(graph@, source as int, r@),
        forall|a: int, b: int| 0 <= a <= b < r@.len() ==> (#[trigger] r@[a]).1 <= (#[trigger] r@[b]).1,
{
    let ghost g = graph@;
    let srcs = vec![source];
    let ghost si = as_ints(srcs@);
    assert(si =~= seq![source as int]);
    let s = search(graph, &srcs, None, None);
    let mut r: Vec<(usize, usize)> = Vec::new();
    let mut k: usize = 0;
    assert(s.settled as int == s.order@.len() && s.order@.no_duplicates()) by {
        reveal(levels_of_order);
    }
    while k < s.order.len()
        invariant
            graph.wf(),
            g == graph@,
            si == seq![source as int],
            levels_of_order(g, si, s.order@, s.level@, s.parent@, None),
            s.order@.no_duplicates(),
            k <= s.order@.len(),
            r@.len() == k,
            forall|j: int| 0 <= j < k ==> (#[trigger] r@[j]) == (s.order@[j], s.level@[s.order@[j] as int]),
        decreases s.order@.len() - k,
    {
        let x = s.order[k];
        proof {
            lemma_order_entry(g, si, s.order@, s.level@, s.parent@, None, k as int);
        }
        r.push((x, s.level[x]));
        k = k + 1;
    }
    proof {
        assert forall|a: int, b: int| 0 <= a <= b < r@.len() implies (#[trigger] r@[a]).1 <= (#[trigger] r@[b]).1 by {
            reveal(levels_of_order);
            assert(s.level@[s.order@[a] as int] <= s.level@[s.order@[b] as int]);
        }
        assert forall|j: int| 0 <= j < r@.len() implies (#[trigger] r@[j]).0 < g.nodes.len() && distance_is(
            g,
            seq![source as int],
            r@[j].0 as int,
            r@[j].1 as int,
        ) by {
            lemma_order_entry(g, si, s.order@, s.level@, s.parent@, None, j);
        }
        assert forall|x: int, d: int|
            0 <= x < g.nodes.len() && #[trigger] distance_is(g, seq![source as int], x, d) implies exists|j: int|
            0 <= j < r@.len() && (#[trigger] r@[j]).0 == x as usize by {
            assert(in_cutoff(d, None));
            assert(s.order@.contains(x as usize));
            let j = choose|j: int| 0 <= j < s.order@.len() && s.order@[j] == x as usize;
            assert(r@[j].0 == x as usize);
        }
    }
    r
}

} // verus!

verus! {

/// A node within some number of steps of `srcs` has a distance from them.
proof fn lemma_within_has_distance<A>(g: GraphView<A>, srcs: Seq<int>, j: int, k: int)
    requires
        within(g, srcs, j, k),
    ensures
        exists|d: int| 0 <= d <= k && #[trigger] distance_is(g, srcs, j, d),
    decreases k,
{
    let p = choose|p: Seq<int>| #[trigger] walk_from(g, srcs, p, j) && p.len() <= k + 1;
    assert(p.len() > 0);
    if within(g, srcs, j, k - 1) {
        lemma_within_has_distance(g, srcs, j, k - 1);
    } else {
        assert(distance_is(g, srcs, j, k));
    }
}

/// Whether node `x` is reachable from node `source`.
pub open spec fn reachable_from<A>(g: GraphView<A>, source: int, x: int) -> bool {
    exists|d: int| #[trigger] distance_is(g, seq![source], x, d)
}

/// A walk leads from node `source` to node `x` exactly when `x` has a
/// distance from `source`.
pub proof fn lemma_reaches_iff_reachable<A>(g: GraphView<A>, source: int, x: int)
    ensures
        g.reaches(Direction::Forward, source, x) <==> reachable_from(g, source, x),
{
    if g.reaches(Direction::Forward, source, x) {
        let p = choose|p: Seq<int>| #[trigger] g.is_walk(Direction::Forward, p) && p[0] == source && p.last() == x;
        assert(seq![source][0] == p[0]);
        assert(seq![source].contains(p[0]));
        assert(walk_from(g, seq![source], p, x));
        assert(within(g, seq![source], x, p.len() - 1));
        lemma_within_has_distance(g, seq![source], x, p.len() - 1);
    }
    if reachable_from(g, source, x) {
        let d = choose|d: int| #[trigger] distance_is(g, seq![source], x, d);
        let p = choose|p: Seq<int>| #[trigger] walk_from(g, seq![source], p, x) && p.len() <= d + 1;
        assert(seq![source].contains(p[0]));
        let k = choose|k: int| 0 <= k < seq![source].len() && seq![source][k] == p[0];
        assert(p[0] == source);
        assert(g.is_walk(Direction::Forward, p) && p[0] == source && p.last() == x);
    }
}

/// Node `source` lies at distance zero from itself.
proof fn lemma_source_distance<A>(g: GraphView<A>, source: int)
    requires
        0 <= source < g.nodes.len(),
    ensures
        distance_is(g, seq![source], source, 0),
{
    let p = seq![source];
    assert(g.is_walk(Direction::Forward, p));
    assert(walk_from(g, seq![source], p, source));
    if within(g, seq![source], source, -1) {
        let q = choose|q: Seq<int>| #[trigger] walk_from(g, seq![source], q, source) && q.len() <= 0;
    }
}

/// A node at distance zero from `source` is `source` itself.
proof fn lemma_distance_zero<A>(g: GraphView<A>, source: int, x: int)
    requires
        distance_is(g, seq![source], x, 0),
    ensures
        x == source,
{
    let p = choose|p: Seq<int>| #[trigger] walk_from(g, seq![source], p, x) && p.len() <= 1;
    assert(seq![source].contains(p[0]));
    let k = choose|k: int| 0 <= k < seq![source].len() && seq![source][k] == p[0];
    assert(p.len() == 1);
    assert(p.last() == p[0]);
}

/// A search order that lists every node reachable from `source`, nearer
/// nodes first, starts at `source`.
pub proof fn lemma_order_starts_at_source<A>(g: GraphView<A>, source: usize, order: Seq<usize>)
    requires
        source < g.nodes.len(),
        reached_in_order(g, source as int, order),
        in_distance_order(g, source as int, order),
    ensures
        order.len() > 0,
        order[0] == source,
{
    let s = source as int;
    lemma_source_distance(g, s);
    assert(reachable_from(g, s, s));
    assert(order.contains(source));
    let q = choose|q: int| 0 <= q < order.len() && order[q] == source;
    assert(reachable_from(g, s, order[0] as int));
    let d0 = choose|d: int| #[trigger] distance_is(g, seq![s], order[0] as int, d);
    assert(distance_is(g, seq![s], order[q] as int, 0));
    assert(d0 <= 0);
    lemma_distance_zero(g, s, order[0] as int);
}

/// Whether `order` lists each node reachable from node `source` exactly once.
pub open spec fn reached_in_order<A>(g: GraphView<A>, source: int, order: Seq<usize>) -> bool {
    &&& order.no_duplicates()
    &&& forall|k: int| 0 <= k < order.len() ==> (#[trigger] order[k]) < g.nodes.len() && reachable_from(g, source, order[k] as int)
    &&& forall|x: int| 0 <= x < g.nodes.len() && #[trigger] reachable_from(g, source, x) ==> order.contains(x as usize)
}

/// Whether the nodes of `order` come in order of their distance from node `source`.
pub open spec fn in_distance_order<A>(g: GraphView<A>, source: int, order: Seq<usize>) -> bool {
    forall|a: int, b: int, da: int, db: int|
        0 <= a <= b < order.len() && #[trigger] distance_is(g, seq![source], order[a] as int, da) && #[trigger] distance_is(
            g,
            seq![source],
            order[b] as int,
            db,
        ) ==> da <= db
}

/// Whether node `v` comes right before node `w` on a shortest walk from
/// node `source`: a step leads from `v` to `w`, and `w` lies one step
/// farther from `source` than `v`.
pub open spec fn shortest_step<A>(g: GraphView<A>, source: int, v: int, w: int) -> bool {
    &&& g.step(Direction::Forward, v, w)
    &&& exists|d: int| #[trigger] distance_is(g, seq![source], v, d) && distance_is(g, seq![source], w, d + 1)
}

/// The test whether a node comes right before node `w` on a shortest walk from `source`.
pub open spec fn shortest_step_into<A>(g: GraphView<A>, source: int, w: int) -> spec_fn(usize) -> bool {
    |v: usize| shortest_step(g, source, v as int, w)
}

/// The breadth-first search from node `source` that the betweenness of
/// nodes is built on: the nodes it reaches, in the order in which it takes
/// them off its queue, and for each node the nodes right before it on
/// shortest walks from `source`, in that same order.
pub fn bfs<A: Copy>(graph: &Graph<A>, source: usize) -> (r: (Vec<usize>, Vec<Vec<usize>>))
    requires
        graph.wf(),
        source < graph@.nodes.len(),
    ensures
        reached_in_order(graph@, source as int, r.0@),
        in_distance_order(graph@, source as int, r.0@),
        r.1@.len() == graph@.nodes.len(),
        forall|w: int|
            0 <= w < graph@.nodes.len() ==> (#[trigger] r.1@[w])@ == r.0@.filter(shortest_step_into(graph@, source as int, w)),
{
    let ghost g = graph@;
    let n = graph.number_of_nodes();
    let srcs = vec![source];
    let ghost si = as_ints(srcs@);
    assert(si =~= seq![source as int]);
    let s = search(graph, &srcs, None, None);
    assert(s.order@.no_duplicates()) by {
        reveal(levels_of_order);
    }
    assert forall|x: int| 0 <= x < g.nodes.len() && #[trigger] reachable_from(g, source as int, x) implies s.order@.contains(
        x as usize,
    ) by {
        let d = choose|d: int| #[trigger] distance_is(g, seq![source as int], x, d);
        assert(in_cutoff(d, None));
    }
    let mut preds: Vec<Vec<usize>> = Vec::new();
    let mut j: usize = 0;
    while j < n
        invariant
            j <= n,
            preds@.len() == j,
            forall|w: int| 0 <= w < j ==> (#[trigger] preds@[w])@.len() == 0,
        decreases n - j,
    {
        preds.push(Vec::new());
        j = j + 1;
    }
    let mut k: usize = 0;
    while k < s.order.len()
        invariant
            graph.wf(),
            g == graph@,
            n == g.nodes.len(),
            si == seq![source as int],
            levels_of_order(g, si, s.order@, s.level@, s.parent@, None),
            forall|x: int| 0 <= x < g.nodes.len() && #[trigger] reachable_from(g, source as int, x) ==> s.order@.contains(
                x as usize,
            ),
            k <= s.order@.len(),
            preds@.len() == n,
            forall|w: int|
                0 <= w < n ==> (#[trigger] preds@[w])@ == s.order@.take(k as int).filter(
                    shortest_step_into(g, source as int, w),
                ),
        decreases s.order@.len() - k,
    {
        let v = s.order[k];
        proof {
            lemma_order_entry(g, si, s.order@, s.level@, s.parent@, None, k as int);
            assert(s.order@.take(k + 1) == s.order@.take(k as int).push(v));
        }
        let lv = s.level[v];
        let succ = graph.successor_indexes(v);
        proof {
            lemma_indices_where_bounds(n as int, g.succ_test(v as int));
            lemma_indices_where_increasing(n as int, g.succ_test(v as int));
            let si_v = succ@.map_values(|x: usize| x as int);
            assert forall|m: int| 0 <= m < succ@.len() implies g.connected(v as int, #[trigger] succ@[m] as int) by {
                assert(si_v[m] == succ@[m] as int);
            }
            assert forall|a: int, b: int| 0 <= a < succ@.len() && 0 <= b < succ@.len() && a != b implies succ@[a]
                != succ@[b] by {
                assert(si_v[a] == succ@[a] as int);
                assert(si_v[b] == succ@[b] as int);
            }
            assert forall|x: int| 0 <= x < n && g.connected(v as int, x) implies succ@.contains(x as usize) by {
                lemma_indices_where_member(n as int, g.succ_test(v as int), x);
                let q = choose|q: int| 0 <= q < si_v.len() && si_v[q] == x;
                assert(succ@[q] as int == x);
            }
        }
        let mut m: usize = 0;
        while m < succ.len()
            invariant
                graph.wf(),
                g == graph@,
                n == g.nodes.len(),
                si == seq![source as int],
                levels_of_order(g, si, s.order@, s.level@, s.parent@, None),
                forall|x: int| 0 <= x < g.nodes.len() && #[trigger] reachable_from(g, source as int, x) ==> s.order@.contains(
                    x as usize,
                ),
                k < s.order@.len(),
                v == s.order@[k as int],
                s.order@.take(k + 1) == s.order@.take(k as int).push(v),
                v < n,
                lv == s.level@[v as int],
                distance_is(g, si, v as int, lv as int),
                lv < n,
                succ@.no_duplicates(),
                forall|q: int| 0 <= q < succ@.len() ==> #[trigger] succ@[q] < n && g.connected(v as int, succ@[q] as int),
                forall|x: int| 0 <= x < n && g.connected(v as int, x) ==> succ@.contains(x as usize),
                m <= succ@.len(),
                preds@.len() == n,
                forall|w: int|
                    0 <= w < n ==> (#[trigger] preds@[w])@ == if succ@.take(m as int).contains(w as usize) {
                        s.order@.take(k + 1).filter(shortest_step_into(g, source as int, w))
                    } else {
                        s.order@.take(k as int).filter(shortest_step_into(g, source as int, w))
                    },
            decreases succ@.len() - m,
        {
            let w = succ[m];
            proof {
                assert(succ@.take(m + 1) == succ@.take(m as int).push(w));
                assert(!succ@.take(m as int).contains(w)) by {
                    if succ@.take(m as int).contains(w) {
                        let q = choose|q: int| 0 <= q < m && succ@.take(m as int)[q] == w;
                        assert(succ@[q] == succ@[m as int]);
                    }
                }
                lemma_within_step(g, si, v as int, w as int, lv as int);
                lemma_within_has_distance(g, si, w as int, lv + 1);
                assert(reachable_from(g, source as int, w as int));
                let kw = choose|kw: int| 0 <= kw < s.order@.len() && s.order@[kw] == w;
                lemma_order_entry(g, si, s.order@, s.level@, s.parent@, None, kw);
                let pw = shortest_step_into(g, source as int, w as int);
                assert(pw(v) <==> s.level@[w as int] == lv + 1) by {
                    if pw(v) {
                        let d = choose|d: int| #[trigger] distance_is(g, seq![source as int], v as int, d) && distance_is(
                            g,
                            seq![source as int],
                            w as int,
                            d + 1,
                        );
                        lemma_distance_unique(g, si, v as int, d, lv as int);
                        lemma_distance_unique(g, si, w as int, d + 1, s.level@[w as int] as int);
                    }
                    if s.level@[w as int] == lv + 1 {
                        assert(g.step(Direction::Forward, v as int, w as int));
                        assert(distance_is(g, seq![source as int], v as int, lv as int));
                    }
                }
            }
            let ghost old_preds = preds@;
            proof {
                s.order@.take(k as int).lemma_filter_push(v, shortest_step_into(g, source as int, w as int));
            }
            if s.level[w] == lv + 1 {
                let mut pw_vec = Vec::new();
                std::mem::swap(&mut pw_vec, &mut preds[w]);
                assert(pw_vec@ == old_preds[w as int]@);
                pw_vec.push(v);
                preds.set(w, pw_vec);
            }
            proof {
                assert forall|x: int| 0 <= x < n implies (#[trigger] preds@[x])@ == if succ@.take(m + 1).contains(
                    x as usize,
                ) {
                    s.order@.take(k + 1).filter(shortest_step_into(g, source as int, x))
                } else {
                    s.order@.take(k as int).filter(shortest_step_into(g, source as int, x))
                } by {
                    if x != w as int {
                        assert(preds@[x] == old_preds[x]);
                        assert(succ@.take(m + 1).contains(x as usize) == succ@.take(m as int).contains(x as usize));
                    } else {
                        assert(succ@.take(m + 1)[m as int] == w);
                    }
                }
            }
            m = m + 1;
        }
        proof {
            assert forall|w: int| 0 <= w < n implies (#[trigger] preds@[w])@ == s.order@.take(k + 1).filter(
                shortest_step_into(g, source as int, w),
            ) by {
                if !succ@.contains(w as usize) {
                    assert(!g.connected(v as int, w));
                    assert(!shortest_step_into(g, source as int, w)(v));
                    s.order@.take(k as int).lemma_filter_push(v, shortest_step_into(g, source as int, w));
                    assert(!succ@.take(m as int).contains(w as usize)) by {
                        assert(succ@.take(m as int) == succ@);
                    }
                } else {
                    assert(succ@.take(m as int) == succ@);
                }
            }
        }
        k = k + 1;
    }
    proof {
        assert(s.order@.take(k as int) == s.order@);
        assert forall|a: int, b: int, da: int, db: int|
            0 <= a <= b < s.order@.len() && #[trigger] distance_is(g, seq![source as int], s.order@[a] as int, da)
                && #[trigger] distance_is(g, seq![source as int], s.order@[b] as int, db) implies da <= db by {
            lemma_order_entry(g, si, s.order@, s.level@, s.parent@, None, a);
            lemma_order_entry(g, si, s.order@, s.level@, s.parent@, None, b);
            lemma_distance_unique(g, si, s.order@[a] as int, da, s.level@[s.order@[a] as int] as int);
            lemma_distance_unique(g, si, s.order@[b] as int, db, s.level@[s.order@[b] as int] as int);
            assert(s.level@[s.order@[a] as int] <= s.level@[s.order@[b] as int]) by {
                reveal(levels_of_order);
            }
        }
        assert forall|q: int| 0 <= q < s.order@.len() implies (#[trigger] s.order@[q]) < g.nodes.len() && reachable_from(
            g,
            source as int,
            s.order@[q] as int,
        ) by {
            lemma_order_entry(g, si, s.order@, s.level@, s.parent@, None, q);
        }
    }
    (s.order, preds)
}

} // verus!
