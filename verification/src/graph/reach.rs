use super::{indices_where, Graph, GraphView};
use std::collections::HashSet;
use crate::shared::{lemma_distinct_indexes_len, lemma_push_contains};
use crate::algorithms::shortest_path::unweighted::{
    bfs, distance_is, lemma_order_starts_at_source, lemma_reaches_iff_reachable, reachable_from,
};
use crate::graph::rebuild::lemma_index_of;
use vstd::prelude::*;

verus! {

/// Which way a search follows edges: along them, against them (in a directed
/// graph), or both ways.
#[derive(Clone, Copy, Debug, PartialEq, Eq, Structural)]
pub enum Direction {
    Forward,
    Backward,
    Both,
}

impl<A> GraphView<A> {
    /// Whether a search that goes in direction `d` steps from node `u` to node `v`.
    pub open spec fn step(self, d: Direction, u: int, v: int) -> bool {
        match d {
            Direction::Forward => self.connected(u, v),
            Direction::Backward => self.specs.directed && self.edges.contains_key((v, u)),
            Direction::Both => self.connected(u, v) || (self.specs.directed && self.edges.contains_key(
                (v, u),
            )),
        }
    }

    /// Whether `p` is a walk of nodes, each a step in direction `d` from the one before.
    pub open spec fn is_walk(self, d: Direction, p: Seq<int>) -> bool {
        &&& p.len() > 0
        &&& forall|k: int| 0 <= k < p.len() ==> 0 <= #[trigger] p[k] < self.nodes.len()
        &&& forall|k: int| 0 <= k < p.len() - 1 ==> self.step(d, #[trigger] p[k], p[k + 1])
    }

    /// The names of the nodes that node `i` reaches in direction `d`.
    pub open spec fn reached_names(self, d: Direction, i: int) -> Set<u64> {
        Set::new(
            |x: u64|
                exists|j: int| 0 <= j < self.nodes.len() && self.reaches(d, i, j) && #[trigger] self.nodes[j].name == x,
        )
    }

    /// Whether node `i` is reached in direction `d` from no node of smaller index.
    pub open spec fn leader_test(self, d: Direction) -> spec_fn(int) -> bool {
        |i: int| forall|j: int| 0 <= j < i ==> !#[trigger] self.reaches(d, j, i)
    }

    /// The nodes reached from no node of smaller index, in increasing order:
    /// one node of each component that searches in direction `d` find.
    pub open spec fn leaders(self, d: Direction) -> Seq<int> {
        indices_where(self.nodes.len() as int, self.leader_test(d))
    }

    /// Whether walks along the edges lead both from `i` to `j` and back.
    pub open spec fn mutually_reach(self, i: int, j: int) -> bool {
        self.reaches(Direction::Forward, i, j) && self.reaches(Direction::Forward, j, i)
    }

    /// The names of the nodes that node `i` and that reach each other.
    pub open spec fn mutual_names(self, i: int) -> Set<u64> {
        Set::new(
            |x: u64|
                exists|j: int| 0 <= j < self.nodes.len() && self.mutually_reach(i, j) && #[trigger] self.nodes[j].name == x,
        )
    }

    /// Whether node `i` and no node of smaller index reach each other.
    pub open spec fn strong_leader_test(self) -> spec_fn(int) -> bool {
        |i: int| forall|j: int| 0 <= j < i ==> !#[trigger] self.mutually_reach(j, i)
    }

    /// One node of each strongly connected component, in increasing order.
    pub open spec fn strong_leaders(self) -> Seq<int> {
        indices_where(self.nodes.len() as int, self.strong_leader_test())
    }

    /// Whether a walk in direction `d` leads from node `i` to node `j`.
    pub open spec fn reaches(self, d: Direction, i: int, j: int) -> bool {
        exists|p: Seq<int>| #[trigger] self.is_walk(d, p) && p[0] == i && p.last() == j
    }
}

/// Every node reaches itself.
pub proof fn lemma_reaches_self<A>(g: GraphView<A>, d: Direction, i: int)
    requires
        0 <= i < g.nodes.len(),
    ensures
        g.reaches(d, i, i),
{
    let p = seq![i];
    assert(g.is_walk(d, p));
}

/// A walk to `u` followed by a step to `v` is a walk to `v`.
pub proof fn lemma_reaches_step<A>(g: GraphView<A>, d: Direction, i: int, u: int, v: int)
    requires
        g.reaches(d, i, u),
        g.step(d, u, v),
        0 <= v < g.nodes.len(),
    ensures
        g.reaches(d, i, v),
{
    let p = choose|p: Seq<int>| #[trigger] g.is_walk(d, p) && p[0] == i && p.last() == u;
    let q = p.push(v);
    assert forall|k: int| 0 <= k < q.len() - 1 implies g.step(d, #[trigger] q[k], q[k + 1]) by {
        if k < p.len() - 1 {
            assert(q[k] == p[k] && q[k + 1] == p[k + 1]);
        }
    }
    assert(g.is_walk(d, q));
}

/// A set of nodes that holds `i` and everything one step from its members
/// holds every node that `i` reaches.
pub proof fn lemma_closed_holds_reached<A>(g: GraphView<A>, d: Direction, s: spec_fn(int) -> bool, i: int, j: int)
    requires
        s(i),
        forall|u: int, v: int| s(u) && 0 <= v < g.nodes.len() && #[trigger] g.step(d, u, v) ==> s(v),
        g.reaches(d, i, j),
    ensures
        s(j),
{
    let p = choose|p: Seq<int>| #[trigger] g.is_walk(d, p) && p[0] == i && p.last() == j;
    lemma_walk_in_closed(g, d, s, p, p.len() - 1);
}

proof fn lemma_walk_in_closed<A>(g: GraphView<A>, d: Direction, s: spec_fn(int) -> bool, p: Seq<int>, k: int)
    requires
        g.is_walk(d, p),
        s(p[0]),
        forall|u: int, v: int| s(u) && 0 <= v < g.nodes.len() && #[trigger] g.step(d, u, v) ==> s(v),
        0 <= k < p.len(),
    ensures
        s(p[k]),
    decreases k,
{
    if k > 0 {
        lemma_walk_in_closed(g, d, s, p, k - 1);
        assert(g.step(d, p[k - 1], p[k]));
    }
}

/// Walks compose: if `i` reaches `j` and `j` reaches `k`, then `i` reaches `k`.
pub proof fn lemma_reaches_trans<A>(g: GraphView<A>, d: Direction, i: int, j: int, k: int)
    requires
        g.reaches(d, i, j),
        g.reaches(d, j, k),
    ensures
        g.reaches(d, i, k),
{
    let p = choose|p: Seq<int>| #[trigger] g.is_walk(d, p) && p[0] == i && p.last() == j;
    let q = choose|q: Seq<int>| #[trigger] g.is_walk(d, q) && q[0] == j && q.last() == k;
    let w = p + q.drop_first();
    assert forall|m: int| 0 <= m < w.len() implies 0 <= #[trigger] w[m] < g.nodes.len() by {
        if m >= p.len() {
            assert(w[m] == q[m - p.len() + 1]);
        }
    }
    assert forall|m: int| 0 <= m < w.len() - 1 implies g.step(d, #[trigger] w[m], w[m + 1]) by {
        if m < p.len() - 1 {
            assert(w[m] == p[m] && w[m + 1] == p[m + 1]);
        } else if m == p.len() - 1 {
            assert(w[m] == q[0]);
            assert(w[m + 1] == q[1]);
        } else {
            assert(w[m] == q[m - p.len() + 1]);
            assert(w[m + 1] == q[m - p.len() + 2]);
        }
    }
    if q.len() == 1 {
        assert(w =~= p);
    } else {
        assert(w.last() == q.last());
    }
    assert(g.is_walk(d, w));
}

/// In a directed graph, a walk against the edges from `i` to `j` is a walk
/// along them from `j` to `i`.
pub proof fn lemma_reaches_backward<A>(g: GraphView<A>, i: int, j: int)
    requires
        g.specs.directed,
    ensures
        g.reaches(Direction::Backward, i, j) <==> g.reaches(Direction::Forward, j, i),
{
    if g.reaches(Direction::Backward, i, j) {
        let p = choose|p: Seq<int>| #[trigger] g.is_walk(Direction::Backward, p) && p[0] == i && p.last() == j;
        let q = p.reverse();
        assert forall|m: int| 0 <= m < q.len() implies 0 <= #[trigger] q[m] < g.nodes.len() by {
            assert(q[m] == p[p.len() - 1 - m]);
        }
        assert forall|m: int| 0 <= m < q.len() - 1 implies g.step(Direction::Forward, #[trigger] q[m], q[m + 1]) by {
            assert(q[m] == p[p.len() - 1 - m]);
            assert(q[m + 1] == p[p.len() - 2 - m]);
            assert(g.step(Direction::Backward, p[p.len() - 2 - m], p[p.len() - 1 - m]));
        }
        assert(g.is_walk(Direction::Forward, q));
        assert(q[0] == j && q.last() == i);
    }
    if g.reaches(Direction::Forward, j, i) {
        let p = choose|p: Seq<int>| #[trigger] g.is_walk(Direction::Forward, p) && p[0] == j && p.last() == i;
        let q = p.reverse();
        assert forall|m: int| 0 <= m < q.len() implies 0 <= #[trigger] q[m] < g.nodes.len() by {
            assert(q[m] == p[p.len() - 1 - m]);
        }
        assert forall|m: int| 0 <= m < q.len() - 1 implies g.step(Direction::Backward, #[trigger] q[m], q[m + 1]) by {
            assert(q[m] == p[p.len() - 1 - m]);
            assert(q[m + 1] == p[p.len() - 2 - m]);
            assert(g.step(Direction::Forward, p[p.len() - 2 - m], p[p.len() - 1 - m]));
        }
        assert(g.is_walk(Direction::Backward, q));
        assert(q[0] == i && q.last() == j);
    }
}

/// Marks the entries of `list` as visited, appending to `queue` the ones that
/// were not.
fn visit_all(
    list: &Vec<usize>,
    visited: &mut Vec<bool>,
    queue: &mut Vec<usize>,
    n: usize,
    Ghost(ok): Ghost<spec_fn(int) -> bool>,
)
    requires
        old(visited)@.len() == n,
        forall|m: int| 0 <= m < list@.len() ==> #[trigger] list@[m] < n && ok(list@[m] as int),
        old(queue)@.no_duplicates(),
        forall|m: int|
            0 <= m < old(queue)@.len() ==> #[trigger] old(queue)@[m] < n && old(visited)@[old(queue)@[m] as int] && ok(old(queue)@[m] as int),
        forall|x: int| 0 <= x < n && #[trigger] old(visited)@[x] ==> old(queue)@.contains(x as usize),
    ensures
        final(visited)@.len() == n,
        final(queue)@.no_duplicates(),
        forall|m: int|
            0 <= m < final(queue)@.len() ==> #[trigger] final(queue)@[m] < n && final(visited)@[final(queue)@[m] as int] && ok(final(queue)@[m] as int),
        forall|x: int| 0 <= x < n && #[trigger] final(visited)@[x] ==> final(queue)@.contains(x as usize),
        final(queue)@.len() >= old(queue)@.len(),
        final(queue)@.take(old(queue)@.len() as int) == old(queue)@,
        forall|x: int| 0 <= x < n && old(visited)@[x] ==> #[trigger] final(visited)@[x],
        forall|m: int| 0 <= m < list@.len() ==> final(visited)@[#[trigger] list@[m] as int],
{
    let ghost q0 = queue@;
    let ghost v0 = visited@;
    let mut i: usize = 0;
    while i < list.len()
        invariant
            i <= list@.len(),
            visited@.len() == n,
            forall|m: int| 0 <= m < list@.len() ==> #[trigger] list@[m] < n && ok(list@[m] as int),
            queue@.no_duplicates(),
            forall|m: int|
                0 <= m < queue@.len() ==> #[trigger] queue@[m] < n && visited@[queue@[m] as int] && ok(
                    queue@[m] as int,
                ),
            forall|x: int| 0 <= x < n && #[trigger] visited@[x] ==> queue@.contains(x as usize),
            queue@.len() >= q0.len(),
            queue@.take(q0.len() as int) == q0,
            forall|x: int| 0 <= x < n && v0[x] ==> #[trigger] visited@[x],
            forall|m: int| 0 <= m < i ==> visited@[#[trigger] list@[m] as int],
        decreases list@.len() - i,
    {
        let x = list[i];
        if !visited[x] {
            let ghost oq = queue@;
            let ghost ov = visited@;
            visited.set(x, true);
            queue.push(x);
            proof {
                assert(!oq.contains(x)) by {
                    if oq.contains(x) {
                        let m = choose|m: int| 0 <= m < oq.len() && oq[m] == x;
                        assert(ov[oq[m] as int]);
                    }
                }
                assert forall|a: int, b: int| 0 <= a < queue@.len() && 0 <= b < queue@.len() && a != b implies queue@[a] != queue@[b] by {
                    if a < oq.len() && b < oq.len() {
                        assert(oq[a] != oq[b]);
                    } else if a < oq.len() {
                        assert(oq.contains(oq[a]));
                    } else {
                        assert(oq.contains(oq[b]));
                    }
                }
                assert forall|y: int| 0 <= y < n && #[trigger] visited@[y] implies queue@.contains(y as usize) by {
                    lemma_push_contains(oq, x, y as usize);
                }
                assert(queue@.take(q0.len() as int) == q0) by {
                    assert(queue@.take(q0.len() as int) =~= oq.take(q0.len() as int));
                }
            }
        }
        i = i + 1;
    }
}

impl<A: Copy> Graph<A> {
    /// The set of the names of the nodes at the indexes `ix`.
    pub(crate) fn name_set(&self, ix: &Vec<usize>) -> (r: HashSet<u64>)
        requires
            self.wf(),
            forall|m: int| 0 <= m < ix@.len() ==> #[trigger] ix@[m] < self@.nodes.len(),
        ensures
            forall|x: u64| #[trigger] r@.contains(x) <==> exists|m: int| 0 <= m < ix@.len() && self@.nodes[ix@[m] as int].name == x,
    {
        let mut r: HashSet<u64> = HashSet::new();
        let mut m: usize = 0;
        while m < ix.len()
            invariant
                self.wf(),
                m <= ix@.len(),
                forall|q: int| 0 <= q < ix@.len() ==> #[trigger] ix@[q] < self@.nodes.len(),
                forall|x: u64| #[trigger] r@.contains(x) <==> exists|q: int| 0 <= q < m && self@.nodes[ix@[q] as int].name == x,
            decreases ix@.len() - m,
        {
            let name = self.nodes_vec[ix[m]].name;
            r.insert(name);
            proof {
                assert forall|x: u64| #[trigger] r@.contains(x) <==> exists|q: int| 0 <= q < m + 1 && self@.nodes[ix@[q] as int].name == x by {
                    if x == name {
                        assert(self@.nodes[ix@[m as int] as int].name == x);
                    }
                }
            }
            m = m + 1;
        }
        r
    }

    /// Performs a breadth-first search from the node called `name` and returns
    /// the names of the nodes it reaches, each once, `name` first: along the
    /// edges in a directed graph, along any edge in an undirected one.
    pub fn breadth_first_search(&self, name: &u64) -> (r: Vec<u64>)
        requires
            self.wf(),
            self@.has_name(*name),
        ensures
            r@.no_duplicates(),
            r@.len() > 0,
            r@[0] == *name,
            forall|x: u64| #[trigger] r@.contains(x) <==> self@.reached_names(Direction::Forward, self@.index_of(*name)).contains(x),
            forall|a: int, b: int, da: int, db: int|
                0 <= a <= b < r@.len() && #[trigger] distance_is(
                    self@,
                    seq![self@.index_of(*name)],
                    self@.index_of(r@[a]),
                    da,
                ) && #[trigger] distance_is(self@, seq![self@.index_of(*name)], self@.index_of(r@[b]), db) ==> da <= db,
    {
        let i = match self.node_index(*name) {
            Some(i) => i,
            None => {
                return Vec::new();
            },
        };
        let ghost g = self@;
        let n = self.number_of_nodes();
        let (ix, _) = bfs(self, i);
        proof {
            lemma_order_starts_at_source(g, i, ix@);
            assert forall|j: int| 0 <= j < g.nodes.len() implies (#[trigger] ix@.contains(j as usize)
                <==> g.reaches(Direction::Forward, i as int, j)) by {
                lemma_reaches_iff_reachable(g, i as int, j);
                assert(j <= usize::MAX);
                if g.reaches(Direction::Forward, i as int, j) {
                    assert(reachable_from(g, i as int, j));
                }
                if ix@.contains(j as usize) {
                    let q = choose|q: int| 0 <= q < ix@.len() && ix@[q] == j as usize;
                    assert(reachable_from(g, i as int, ix@[q] as int));
                }
            }
        }
        let mut r: Vec<u64> = Vec::new();
        let mut m: usize = 0;
        while m < ix.len()
            invariant
                self.wf(),
                m <= ix@.len(),
                ix@.no_duplicates(),
                forall|q: int| 0 <= q < ix@.len() ==> #[trigger] ix@[q] < self@.nodes.len(),
                r@.len() == m,
                forall|q: int| 0 <= q < m ==> r@[q] == self@.nodes[ix@[q] as int].name,
            decreases ix@.len() - m,
        {
            r.push(self.nodes_vec[ix[m]].name);
            m = m + 1;
        }
        proof {
            assert(g.nodes[i as int].name == *name);
            self.lemma_well_formed();
            lemma_index_of(g, *name);
            assert(g.index_of(*name) == i);
            assert forall|a: int| 0 <= a < r@.len() implies #[trigger] g.index_of(r@[a]) == ix@[a] as int by {
                assert(g.nodes[ix@[a] as int].name == r@[a]);
                assert(g.has_name(r@[a]));
                lemma_index_of(g, r@[a]);
            }
            assert forall|a: int, b: int, da: int, db: int|
                0 <= a <= b < r@.len() && #[trigger] distance_is(g, seq![g.index_of(*name)], g.index_of(r@[a]), da)
                    && #[trigger] distance_is(g, seq![g.index_of(*name)], g.index_of(r@[b]), db) implies da <= db by {
                assert(g.index_of(r@[a]) == ix@[a] as int);
                assert(g.index_of(r@[b]) == ix@[b] as int);
                assert(distance_is(g, seq![i as int], ix@[a] as int, da));
                assert(distance_is(g, seq![i as int], ix@[b] as int, db));
            }
            assert forall|a: int, b: int| 0 <= a < r@.len() && 0 <= b < r@.len() && a != b implies r@[a] != r@[b] by {
                assert(ix@[a] != ix@[b]);
                assert(g.nodes[ix@[a] as int].name != g.nodes[ix@[b] as int].name);
            }
            assert forall|x: u64| #[trigger] r@.contains(x) <==> g.reached_names(Direction::Forward, i as int).contains(x) by {
                if r@.contains(x) {
                    let q = choose|q: int| 0 <= q < r@.len() && r@[q] == x;
                    assert(ix@.contains(ix@[q]));
                    let j = ix@[q] as int;
                    assert(ix@.contains(j as usize));
                    assert(g.reaches(Direction::Forward, i as int, j));
                    assert(g.nodes[j].name == x);
                }
                if g.reached_names(Direction::Forward, i as int).contains(x) {
                    let j = choose|j: int| 0 <= j < g.nodes.len() && g.reaches(Direction::Forward, i as int, j) && #[trigger] g.nodes[j].name == x;
                    assert(ix@.contains(j as usize));
                    let q = choose|q: int| 0 <= q < ix@.len() && ix@[q] == j as usize;
                    assert(r@[q] == x);
                }
            }
        }
        r
    }

    /// The indexes of the nodes that a search from node `start` in direction
    /// `d` reaches, each once, `start` first.
    pub(crate) fn bfs_indexes(&self, start: usize, d: Direction) -> (r: Vec<usize>)
        requires
            self.wf(),
            start < self@.nodes.len(),
        ensures
            r@.no_duplicates(),
            r@.len() > 0,
            r@[0] == start,
            forall|m: int| 0 <= m < r@.len() ==> #[trigger] r@[m] < self@.nodes.len(),
            forall|j: int|
                0 <= j < self@.nodes.len() ==> (#[trigger] r@.contains(j as usize) <==> self@.reaches(
                    d,
                    start as int,
                    j,
                )),
    {
        let n = self.nodes_vec.len();
        let ghost g = self@;
        let ghost ok = |x: int| g.reaches(d, start as int, x);
        let mut visited: Vec<bool> = Vec::new();
        let mut k: usize = 0;
        while k < n
            invariant
                k <= n,
                visited@.len() == k,
                forall|x: int| 0 <= x < k ==> visited@[x] == false,
            decreases n - k,
        {
            visited.push(false);
            k = k + 1;
        }
        visited.set(start, true);
        let mut queue: Vec<usize> = Vec::new();
        queue.push(start);
        proof {
            lemma_reaches_self(g, d, start as int);
            assert forall|x: int| 0 <= x < n && #[trigger] visited@[x] implies queue@.contains(x as usize) by {
                assert(x == start);
                assert(queue@[0] == start);
            }
        }
        let mut head: usize = 0;
        while head < queue.len()
            invariant
                self.wf(),
                g == self@,
                ok == (|x: int| g.reaches(d, start as int, x)),
                n == self@.nodes.len(),
                start < n,
                visited@.len() == n,
                queue@.no_duplicates(),
                queue@.len() > 0,
                queue@[0] == start,
                head <= queue@.len(),
                queue@.len() <= n,
                forall|m: int|
                    0 <= m < queue@.len() ==> #[trigger] queue@[m] < n && visited@[queue@[m] as int] && ok(
                        queue@[m] as int,
                    ),
                forall|x: int| 0 <= x < n && #[trigger] visited@[x] ==> queue@.contains(x as usize),
                forall|m: int, v: int|
                    0 <= m < head && 0 <= v < n && #[trigger] g.step(d, queue@[m] as int, v)
                        ==> visited@[v],
            decreases n - head,
        {
            let u = queue[head];
            let ghost q_before = queue@;
            let ghost v_before = visited@;
            if d != Direction::Backward {
                proof {
                    assert forall|m: int| 0 <= m < self.successors_vec@[u as int]@.len() implies #[trigger] self.successors_vec@[u as int]@[m] < n
                        && ok(self.successors_vec@[u as int]@[m] as int) by {
                        let x = self.successors_vec@[u as int]@[m];
                        assert(self.successors_vec@[u as int]@.contains(x));
                        assert(g.step(d, u as int, x as int));
                        lemma_reaches_step(g, d, start as int, u as int, x as int);
                    }
                }
                visit_all(&self.successors_vec[u], &mut visited, &mut queue, n, Ghost(ok));
            }
            let ghost q_mid = queue@;
            let ghost v_mid = visited@;
            if d != Direction::Forward {
                proof {
                    assert forall|m: int| 0 <= m < self.predecessors_vec@[u as int]@.len() implies #[trigger] self.predecessors_vec@[u as int]@[m] < n
                        && ok(self.predecessors_vec@[u as int]@[m] as int) by {
                        let x = self.predecessors_vec@[u as int]@[m];
                        assert(self.predecessors_vec@[u as int]@.contains(x));
                        assert(g.step(d, u as int, x as int));
                        lemma_reaches_step(g, d, start as int, u as int, x as int);
                    }
                }
                visit_all(&self.predecessors_vec[u], &mut visited, &mut queue, n, Ghost(ok));
            }
            proof {
                assert(queue@.take(q_before.len() as int) == q_before) by {
                    assert(queue@.take(q_mid.len() as int) == q_mid);
                    assert(q_mid.take(q_before.len() as int) == q_before);
                    assert(queue@.take(q_before.len() as int) =~= q_mid.take(q_before.len() as int));
                }
                assert(queue@[0] == start) by {
                    assert(queue@.take(q_before.len() as int)[0] == q_before[0]);
                }
                assert forall|m: int, v: int|
                    0 <= m < head + 1 && 0 <= v < n && #[trigger] g.step(d, queue@[m] as int, v) implies visited@[v] by {
                    assert(queue@[m] == q_before[m]) by {
                        assert(queue@.take(q_before.len() as int)[m] == q_before[m]);
                    }
                    if m < head {
                        assert(v_before[v]);
                    } else {
                        assert(queue@[m] == u);
                        if d == Direction::Forward || (d == Direction::Both && g.connected(u as int, v)) {
                            assert(self.successors_vec@[u as int]@.contains(v as usize));
                            let j = choose|j: int| 0 <= j < self.successors_vec@[u as int]@.len() && self.successors_vec@[u as int]@[j] == v as usize;
                            assert(v_mid[self.successors_vec@[u as int]@[j] as int]);
                        } else {
                            assert(self.predecessors_vec@[u as int]@.contains(v as usize));
                            let j = choose|j: int| 0 <= j < self.predecessors_vec@[u as int]@.len() && self.predecessors_vec@[u as int]@[j] == v as usize;
                            assert(visited@[self.predecessors_vec@[u as int]@[j] as int]);
                        }
                    }
                }
                lemma_distinct_indexes_len(queue@, n as int);
            }
            head = head + 1;
        }
        proof {
            assert forall|j: int| 0 <= j < n implies (#[trigger] queue@.contains(j as usize) <==> g.reaches(d, start as int, j)) by {
                if queue@.contains(j as usize) {
                    let m = choose|m: int| 0 <= m < queue@.len() && queue@[m] == j as usize;
                    assert(ok(queue@[m] as int));
                }
                if g.reaches(d, start as int, j) {
                    let s = |x: int| 0 <= x < n && visited@[x];
                    assert forall|a: int, b: int| s(a) && 0 <= b < g.nodes.len() && #[trigger] g.step(d, a, b) implies s(b) by {
                        assert(queue@.contains(a as usize));
                        let m = choose|m: int| 0 <= m < queue@.len() && queue@[m] == a as usize;
                        assert(g.step(d, queue@[m] as int, b));
                    }
                    lemma_closed_holds_reached(g, d, s, start as int, j);
                }
            }
        }
        queue
    }
}

} // verus!
