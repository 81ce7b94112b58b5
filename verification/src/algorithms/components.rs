use crate::graph::reach::{lemma_reaches_backward, lemma_reaches_self, lemma_reaches_trans, Direction};
use crate::graph::rebuild::lemma_index_of;
use crate::shared::{
    lemma_distinct_indexes_len, lemma_indices_where_bounds, lemma_indices_where_increasing,
    lemma_indices_where_member,
};
use crate::{indices_where, Error, Graph, GraphView};
use std::collections::HashSet;
use vstd::prelude::*;

verus! {

broadcast use vstd::std_specs::hash::group_hash_axioms;

/// The components that searches in direction `d` find, each as the names of its
/// nodes, one for each leader, in the order of the leaders.
fn components_by<A: Copy>(graph: &Graph<A>, d: Direction) -> (r: Vec<HashSet<u64>>)
    requires
        graph.wf(),
    ensures
        r@.len() == graph@.leaders(d).len(),
        forall|k: int| 0 <= k < r@.len() ==> #[trigger] r@[k]@ == graph@.reached_names(d, graph@.leaders(d)[k]),
{
    let ghost g = graph@;
    let n = graph.number_of_nodes();
    let mut seen: Vec<bool> = Vec::new();
    let mut k: usize = 0;
    while k < n
        invariant
            k <= n,
            seen@.len() == k,
            forall|x: int| 0 <= x < k ==> seen@[x] == false,
        decreases n - k,
    {
        seen.push(false);
        k = k + 1;
    }
    let mut comps: Vec<HashSet<u64>> = Vec::new();
    let mut i: usize = 0;
    while i < n
        invariant
            graph.wf(),
            g == graph@,
            n == g.nodes.len(),
            i <= n,
            seen@.len() == n,
            forall|x: int| 0 <= x < n ==> (#[trigger] seen@[x] <==> exists|j: int| 0 <= j < i && g.reaches(d, j, x)),
            comps@.len() == indices_where(i as int, g.leader_test(d)).len(),
            forall|q: int| 0 <= q < comps@.len() ==> #[trigger] comps@[q]@ == g.reached_names(d, indices_where(i as int, g.leader_test(d))[q]),
        decreases n - i,
    {
        if !seen[i] {
            proof {
                assert(g.leader_test(d)(i as int)) by {
                    assert forall|j: int| 0 <= j < i implies !#[trigger] g.reaches(d, j, i as int) by {
                        if g.reaches(d, j, i as int) {
                            assert(seen@[i as int]);
                        }
                    }
                }
            }
            let ix = graph.bfs_indexes(i, d);
            let ghost seen0 = seen@;
            let mut m: usize = 0;
            while m < ix.len()
                invariant
                    m <= ix@.len(),
                    seen@.len() == n,
                    forall|q: int| 0 <= q < ix@.len() ==> #[trigger] ix@[q] < n,
                    forall|x: int| 0 <= x < n ==> (#[trigger] seen@[x] <==> (seen0[x] || ix@.take(m as int).contains(x as usize))),
                decreases ix@.len() - m,
            {
                let x = ix[m];
                seen.set(x, true);
                proof {
                    assert(ix@.take(m + 1) == ix@.take(m as int).push(x));
                    assert forall|y: int| 0 <= y < n implies (#[trigger] seen@[y] <==> (seen0[y] || ix@.take(m + 1).contains(y as usize))) by {
                        crate::shared::lemma_push_contains(ix@.take(m as int), x, y as usize);
                    }
                }
                m = m + 1;
            }
            let comp = graph.name_set(&ix);
            proof {
                assert(ix@.take(m as int) == ix@);
                assert(comp@ =~= g.reached_names(d, i as int)) by {
                    assert forall|x: u64| comp@.contains(x) <==> g.reached_names(d, i as int).contains(x) by {
                        if comp@.contains(x) {
                            let q = choose|q: int| 0 <= q < ix@.len() && g.nodes[ix@[q] as int].name == x;
                            let j = ix@[q] as int;
                            assert(ix@.contains(j as usize));
                            assert(g.reaches(d, i as int, j));
                        }
                        if g.reached_names(d, i as int).contains(x) {
                            let j = choose|j: int| 0 <= j < g.nodes.len() && g.reaches(d, i as int, j) && #[trigger] g.nodes[j].name == x;
                            assert(ix@.contains(j as usize));
                            let q = choose|q: int| 0 <= q < ix@.len() && ix@[q] == j as usize;
                            assert(g.nodes[ix@[q] as int].name == x);
                        }
                    }
                }
            }
            let ghost old_comps = comps@;
            comps.push(comp);
            proof {
                assert(indices_where(i + 1, g.leader_test(d)) == indices_where(i as int, g.leader_test(d)).push(i as int));
                assert forall|x: int| 0 <= x < n implies (#[trigger] seen@[x] <==> exists|j: int| 0 <= j < i + 1 && g.reaches(d, j, x)) by {
                    if seen@[x] && !seen0[x] {
                        assert(ix@.contains(x as usize));
                        assert(g.reaches(d, i as int, x));
                    }
                    if g.reaches(d, i as int, x) {
                        assert(ix@.contains(x as usize));
                    }
                }
                assert forall|q: int| 0 <= q < comps@.len() implies #[trigger] comps@[q]@ == g.reached_names(d, indices_where(i + 1, g.leader_test(d))[q]) by {
                    if q < old_comps.len() {
                        assert(comps@[q] == old_comps[q]);
                    }
                }
            }
        } else {
            proof {
                let j0 = choose|j: int| 0 <= j < i && g.reaches(d, j, i as int);
                assert(!g.leader_test(d)(i as int));
                assert(indices_where(i + 1, g.leader_test(d)) == indices_where(i as int, g.leader_test(d)));
                assert forall|x: int| 0 <= x < n implies (#[trigger] seen@[x] <==> exists|j: int| 0 <= j < i + 1 && g.reaches(d, j, x)) by {
                    if g.reaches(d, i as int, x) {
                        lemma_reaches_trans(g, d, j0, i as int, x);
                    }
                }
            }
        }
        i = i + 1;
    }
    comps
}

/// Marks the indexes in `ix` among the indexes below `n`.
fn mark_indexes(n: usize, ix: &Vec<usize>) -> (r: Vec<bool>)
    requires
        forall|q: int| 0 <= q < ix@.len() ==> #[trigger] ix@[q] < n,
    ensures
        r@.len() == n,
        forall|x: int| 0 <= x < n ==> (#[trigger] r@[x] <==> ix@.contains(x as usize)),
{
    let mut r: Vec<bool> = Vec::new();
    let mut k: usize = 0;
    while k < n
        invariant
            k <= n,
            r@.len() == k,
            forall|x: int| 0 <= x < k ==> r@[x] == false,
        decreases n - k,
    {
        r.push(false);
        k = k + 1;
    }
    let mut m: usize = 0;
    while m < ix.len()
        invariant
            m <= ix@.len(),
            r@.len() == n,
            forall|q: int| 0 <= q < ix@.len() ==> #[trigger] ix@[q] < n,
            forall|x: int| 0 <= x < n ==> (#[trigger] r@[x] <==> ix@.take(m as int).contains(x as usize)),
        decreases ix@.len() - m,
    {
        let x = ix[m];
        r.set(x, true);
        proof {
            assert(ix@.take(m + 1) == ix@.take(m as int).push(x));
            assert forall|y: int| 0 <= y < n implies (#[trigger] r@[y] <==> ix@.take(m + 1).contains(y as usize)) by {
                crate::shared::lemma_push_contains(ix@.take(m as int), x, y as usize);
            }
        }
        m = m + 1;
    }
    proof {
        assert(ix@.take(m as int) == ix@);
    }
    r
}

/// The strongly connected components of a directed graph: the classes of
/// nodes that reach each other along the edges. Each is the set of the names
/// of its nodes; they come in the order of their first-added nodes.
pub fn strongly_connected_components<A: Copy>(graph: &Graph<A>) -> (r: Result<Vec<HashSet<u64>>, Error>)
    requires
        graph.wf(),
    ensures
        match r {
            Ok(cs) => graph@.specs.directed && cs@.len() == graph@.strong_leaders().len()
                && forall|k: int| 0 <= k < cs@.len() ==> #[trigger] cs@[k]@ == graph@.mutual_names(
                graph@.strong_leaders()[k],
            ),
            Err(e) => !graph@.specs.directed && e.kind == crate::ErrorKind::WrongMethod,
        },
{
    graph.ensure_directed()?;
    let ghost g = graph@;
    let n = graph.number_of_nodes();
    let mut assigned: Vec<bool> = Vec::new();
    let mut k: usize = 0;
    while k < n
        invariant
            k <= n,
            assigned@.len() == k,
            forall|x: int| 0 <= x < k ==> assigned@[x] == false,
        decreases n - k,
    {
        assigned.push(false);
        k = k + 1;
    }
    let mut comps: Vec<HashSet<u64>> = Vec::new();
    let mut i: usize = 0;
    while i < n
        invariant
            graph.wf(),
            g == graph@,
            g.specs.directed,
            n == g.nodes.len(),
            i <= n,
            assigned@.len() == n,
            forall|x: int| 0 <= x < n ==> (#[trigger] assigned@[x] <==> exists|j: int| 0 <= j < i && g.mutually_reach(j, x)),
            comps@.len() == indices_where(i as int, g.strong_leader_test()).len(),
            forall|q: int| 0 <= q < comps@.len() ==> #[trigger] comps@[q]@ == g.mutual_names(indices_where(i as int, g.strong_leader_test())[q]),
        decreases n - i,
    {
        if !assigned[i] {
            proof {
                assert(g.strong_leader_test()(i as int)) by {
                    assert forall|j: int| 0 <= j < i implies !#[trigger] g.mutually_reach(j, i as int) by {
                        if g.mutually_reach(j, i as int) {
                            assert(assigned@[i as int]);
                        }
                    }
                }
            }
            let fwd = graph.bfs_indexes(i, Direction::Forward);
            let bwd = graph.bfs_indexes(i, Direction::Backward);
            let fmarks = mark_indexes(n, &fwd);
            let mut ix: Vec<usize> = Vec::new();
            let mut m: usize = 0;
            while m < bwd.len()
                invariant
                    m <= bwd@.len(),
                    fmarks@.len() == n,
                    forall|q: int| 0 <= q < bwd@.len() ==> #[trigger] bwd@[q] < n,
                    forall|q: int| 0 <= q < ix@.len() ==> #[trigger] ix@[q] < n,
                    forall|x: int| 0 <= x < n ==> (#[trigger] ix@.contains(x as usize) <==> (fmarks@[x] && bwd@.take(m as int).contains(x as usize))),
                decreases bwd@.len() - m,
            {
                let x = bwd[m];
                let ghost old_ix = ix@;
                if fmarks[x] {
                    ix.push(x);
                }
                proof {
                    assert(bwd@.take(m + 1) == bwd@.take(m as int).push(x));
                    assert forall|y: int| 0 <= y < n implies (#[trigger] ix@.contains(y as usize) <==> (fmarks@[y] && bwd@.take(m + 1).contains(y as usize))) by {
                        crate::shared::lemma_push_contains(bwd@.take(m as int), x, y as usize);
                        if fmarks@[x as int] {
                            crate::shared::lemma_push_contains(old_ix, x, y as usize);
                        }
                    }
                }
                m = m + 1;
            }
            proof {
                assert(bwd@.take(m as int) == bwd@);
                assert forall|x: int| 0 <= x < n implies (#[trigger] ix@.contains(x as usize) <==> g.mutually_reach(i as int, x)) by {
                    assert(fwd@.contains(x as usize) <==> g.reaches(Direction::Forward, i as int, x));
                    assert(bwd@.contains(x as usize) <==> g.reaches(Direction::Backward, i as int, x));
                    lemma_reaches_backward(g, i as int, x);
                }
            }
            let ghost assigned0 = assigned@;
            let mut m: usize = 0;
            while m < ix.len()
                invariant
                    m <= ix@.len(),
                    assigned@.len() == n,
                    forall|q: int| 0 <= q < ix@.len() ==> #[trigger] ix@[q] < n,
                    forall|x: int| 0 <= x < n ==> (#[trigger] assigned@[x] <==> (assigned0[x] || ix@.take(m as int).contains(x as usize))),
                decreases ix@.len() - m,
            {
                let x = ix[m];
                assigned.set(x, true);
                proof {
                    assert(ix@.take(m + 1) == ix@.take(m as int).push(x));
                    assert forall|y: int| 0 <= y < n implies (#[trigger] assigned@[y] <==> (assigned0[y] || ix@.take(m + 1).contains(y as usize))) by {
                        crate::shared::lemma_push_contains(ix@.take(m as int), x, y as usize);
                    }
                }
                m = m + 1;
            }
            let comp = graph.name_set(&ix);
            proof {
                assert(ix@.take(m as int) == ix@);
                assert(comp@ =~= g.mutual_names(i as int)) by {
                    assert forall|x: u64| comp@.contains(x) <==> g.mutual_names(i as int).contains(x) by {
                        if comp@.contains(x) {
                            let q = choose|q: int| 0 <= q < ix@.len() && g.nodes[ix@[q] as int].name == x;
                            let j = ix@[q] as int;
                            assert(ix@.contains(j as usize));
                            assert(g.mutually_reach(i as int, j));
                        }
                        if g.mutual_names(i as int).contains(x) {
                            let j = choose|j: int| 0 <= j < g.nodes.len() && g.mutually_reach(i as int, j) && #[trigger] g.nodes[j].name == x;
                            assert(ix@.contains(j as usize));
                            let q = choose|q: int| 0 <= q < ix@.len() && ix@[q] == j as usize;
                            assert(g.nodes[ix@[q] as int].name == x);
                        }
                    }
                }
            }
            let ghost old_comps = comps@;
            comps.push(comp);
            proof {
                assert(indices_where(i + 1, g.strong_leader_test()) == indices_where(i as int, g.strong_leader_test()).push(i as int));
                assert forall|x: int| 0 <= x < n implies (#[trigger] assigned@[x] <==> exists|j: int| 0 <= j < i + 1 && g.mutually_reach(j, x)) by {
                    if assigned@[x] && !assigned0[x] {
                        assert(ix@.contains(x as usize));
                        assert(g.mutually_reach(i as int, x));
                        let j = i as int;
                        assert(0 <= j < i + 1 && g.mutually_reach(j, x));
                    }
                    if assigned0[x] {
                        let j = choose|j: int| 0 <= j < i && g.mutually_reach(j, x);
                        assert(0 <= j < i + 1 && g.mutually_reach(j, x));
                    }
                    if exists|j: int| 0 <= j < i + 1 && g.mutually_reach(j, x) {
                        let j = choose|j: int| 0 <= j < i + 1 && g.mutually_reach(j, x);
                        if j == i {
                            assert(ix@.contains(x as usize));
                        } else {
                            assert(assigned0[x]);
                        }
                    }
                }
                assert forall|q: int| 0 <= q < comps@.len() implies #[trigger] comps@[q]@ == g.mutual_names(indices_where(i + 1, g.strong_leader_test())[q]) by {
                    if q < old_comps.len() {
                        assert(comps@[q] == old_comps[q]);
                    }
                }
            }
        } else {
            proof {
                let j0 = choose|j: int| 0 <= j < i && g.mutually_reach(j, i as int);
                assert(!g.strong_leader_test()(i as int));
                assert(indices_where(i + 1, g.strong_leader_test()) == indices_where(i as int, g.strong_leader_test()));
                assert forall|x: int| 0 <= x < n implies (#[trigger] assigned@[x] <==> exists|j: int| 0 <= j < i + 1 && g.mutually_reach(j, x)) by {
                    if exists|j: int| 0 <= j < i + 1 && g.mutually_reach(j, x) {
                        let j = choose|j: int| 0 <= j < i + 1 && g.mutually_reach(j, x);
                        if j == i {
                            lemma_reaches_trans(g, Direction::Forward, j0, i as int, x);
                            lemma_reaches_trans(g, Direction::Forward, x, i as int, j0);
                            assert(0 <= j0 < i && g.mutually_reach(j0, x));
                        } else {
                            assert(0 <= j < i && g.mutually_reach(j, x));
                        }
                    }
                    if assigned@[x] {
                        let j = choose|j: int| 0 <= j < i && g.mutually_reach(j, x);
                        assert(0 <= j < i + 1 && g.mutually_reach(j, x));
                    }
                }
            }
        }
        i = i + 1;
    }
    Ok(comps)
}

/// The connected components of an undirected graph, each as the set of the
/// names of its nodes, in the order of their first-added nodes.
pub fn connected_components<A: Copy>(graph: &Graph<A>) -> (r: Result<Vec<HashSet<u64>>, Error>)
    requires
        graph.wf(),
    ensures
        match r {
            Ok(cs) => !graph@.specs.directed && cs@.len() == graph@.leaders(Direction::Forward).len()
                && forall|k: int| 0 <= k < cs@.len() ==> #[trigger] cs@[k]@ == graph@.reached_names(
                Direction::Forward,
                graph@.leaders(Direction::Forward)[k],
            ),
            Err(e) => graph@.specs.directed && e.kind == crate::ErrorKind::WrongMethod,
        },
{
    graph.ensure_undirected()?;
    Ok(components_by(graph, Direction::Forward))
}

/// The number of connected components of an undirected graph.
pub fn number_of_connected_components<A: Copy>(graph: &Graph<A>) -> (r: Result<usize, Error>)
    requires
        graph.wf(),
    ensures
        match r {
            Ok(c) => !graph@.specs.directed && c == graph@.leaders(Direction::Forward).len(),
            Err(e) => graph@.specs.directed && e.kind == crate::ErrorKind::WrongMethod,
        },
{
    let result = connected_components(graph)?;
    Ok(result.len())
}

/// The names of the nodes of the component of an undirected graph that holds
/// the node called `name`.
pub fn node_connected_component<A: Copy>(graph: &Graph<A>, name: &u64) -> (r: Result<HashSet<u64>, Error>)
    requires
        graph.wf(),
        graph@.has_name(*name),
    ensures
        match r {
            Ok(c) => !graph@.specs.directed && c@ == graph@.reached_names(
                Direction::Forward,
                graph@.index_of(*name),
            ),
            Err(e) => graph@.specs.directed && e.kind == crate::ErrorKind::WrongMethod,
        },
{
    graph.ensure_undirected()?;
    let i = match graph.node_index(*name) {
        Some(i) => i,
        None => {
            return Ok(HashSet::new());
        },
    };
    let n = graph.number_of_nodes();
    let ix = graph.bfs_indexes(i, Direction::Forward);
    let comp = graph.name_set(&ix);
    proof {
        let g = graph@;
        assert forall|x: u64| comp@.contains(x) <==> g.reached_names(Direction::Forward, i as int).contains(x) by {
            if comp@.contains(x) {
                let q = choose|q: int| 0 <= q < ix@.len() && g.nodes[ix@[q] as int].name == x;
                let j = ix@[q] as int;
                assert(ix@.contains(j as usize));
                assert(g.reaches(Direction::Forward, i as int, j));
            }
            if g.reached_names(Direction::Forward, i as int).contains(x) {
                let j = choose|j: int| 0 <= j < g.nodes.len() && g.reaches(Direction::Forward, i as int, j) && #[trigger] g.nodes[j].name == x;
                assert(ix@.contains(j as usize));
                let q = choose|q: int| 0 <= q < ix@.len() && ix@[q] == j as usize;
                assert(g.nodes[ix@[q] as int].name == x);
            }
        }
        assert(comp@ =~= g.reached_names(Direction::Forward, i as int));
    }
    Ok(comp)
}

/// The weakly connected components of a directed graph: those of the graph
/// when each edge may be followed both ways. Each is the set of the names of
/// its nodes; they come in the order of their first-added nodes.
pub fn weakly_connected_components<A: Copy>(graph: &Graph<A>) -> (r: Result<Vec<HashSet<u64>>, Error>)
    requires
        graph.wf(),
    ensures
        match r {
            Ok(cs) => graph@.specs.directed && cs@.len() == graph@.leaders(Direction::Both).len()
                && forall|k: int| 0 <= k < cs@.len() ==> #[trigger] cs@[k]@ == graph@.reached_names(
                Direction::Both,
                graph@.leaders(Direction::Both)[k],
            ),
            Err(e) => !graph@.specs.directed && e.kind == crate::ErrorKind::WrongMethod,
        },
{
    graph.ensure_directed()?;
    Ok(components_by(graph, Direction::Both))
}

/// Whether searches in direction `d` follow edges both ways: always when
/// they go both ways, and in an undirected graph when they go forward.
pub open spec fn symmetric_search<A>(g: GraphView<A>, d: Direction) -> bool {
    d == Direction::Both || (d == Direction::Forward && !g.specs.directed)
}

/// When searches follow edges both ways, a walk from `i` to `j` can be
/// walked back from `j` to `i`.
pub proof fn lemma_reaches_symmetric<A>(g: GraphView<A>, d: Direction, i: int, j: int)
    requires
        symmetric_search(g, d),
        g.reaches(d, i, j),
    ensures
        g.reaches(d, j, i),
{
    let p = choose|p: Seq<int>| #[trigger] g.is_walk(d, p) && p[0] == i && p.last() == j;
    let q = p.reverse();
    assert forall|m: int| 0 <= m < q.len() implies 0 <= #[trigger] q[m] < g.nodes.len() by {
        assert(q[m] == p[p.len() - 1 - m]);
    }
    assert forall|m: int| 0 <= m < q.len() - 1 implies g.step(d, #[trigger] q[m], q[m + 1]) by {
        assert(q[m] == p[p.len() - 1 - m]);
        assert(q[m + 1] == p[p.len() - 2 - m]);
        assert(g.step(d, p[p.len() - 2 - m], p[p.len() - 1 - m]));
    }
    assert(g.is_walk(d, q));
    assert(q[0] == j && q.last() == i);
}

/// Every node is reached from a leader.
proof fn lemma_has_leader<A>(g: GraphView<A>, d: Direction, j: int)
    requires
        0 <= j < g.nodes.len(),
    ensures
        exists|l: int| 0 <= l <= j && g.leader_test(d)(l) && #[trigger] g.reaches(d, l, j),
    decreases j,
{
    lemma_reaches_self(g, d, j);
    if !g.leader_test(d)(j) {
        let i = choose|i: int| 0 <= i < j && #[trigger] g.reaches(d, i, j);
        lemma_has_leader(g, d, i);
        let l = choose|l: int| 0 <= l <= i && g.leader_test(d)(l) && #[trigger] g.reaches(d, l, i);
        lemma_reaches_trans(g, d, l, i, j);
    }
}

/// When searches follow edges both ways, the components partition the nodes:
/// the name of every node is in the component of exactly one leader.
pub proof fn law_components_partition<A>(g: GraphView<A>, d: Direction)
    requires
        g.well_formed(),
        symmetric_search(g, d),
    ensures
        forall|j: int|
            #![trigger g.nodes[j]]
            0 <= j < g.nodes.len() ==> exists|k: int|
                0 <= k < g.leaders(d).len() && #[trigger] g.reached_names(d, g.leaders(d)[k]).contains(g.nodes[j].name),
        forall|k1: int, k2: int, x: u64|
            0 <= k1 < g.leaders(d).len() && 0 <= k2 < g.leaders(d).len() && #[trigger] g.reached_names(
                d,
                g.leaders(d)[k1],
            ).contains(x) && #[trigger] g.reached_names(d, g.leaders(d)[k2]).contains(x) ==> k1 == k2,
{
    let n = g.nodes.len() as int;
    let ls = g.leaders(d);
    lemma_indices_where_bounds(n, g.leader_test(d));
    lemma_indices_where_increasing(n, g.leader_test(d));
    assert forall|j: int| #![trigger g.nodes[j]] 0 <= j < g.nodes.len() implies exists|k: int|
        0 <= k < ls.len() && #[trigger] g.reached_names(d, ls[k]).contains(g.nodes[j].name) by {
        lemma_has_leader(g, d, j);
        let l = choose|l: int| 0 <= l <= j && g.leader_test(d)(l) && #[trigger] g.reaches(d, l, j);
        lemma_indices_where_member(n, g.leader_test(d), l);
        let k = choose|k: int| 0 <= k < ls.len() && ls[k] == l;
        assert(g.reached_names(d, ls[k]).contains(g.nodes[j].name));
    }
    assert forall|k1: int, k2: int, x: u64|
        0 <= k1 < ls.len() && 0 <= k2 < ls.len() && #[trigger] g.reached_names(d, ls[k1]).contains(x)
            && #[trigger] g.reached_names(d, ls[k2]).contains(x) implies k1 == k2 by {
        let l1 = ls[k1];
        let l2 = ls[k2];
        let j1 = choose|j: int| 0 <= j < g.nodes.len() && g.reaches(d, l1, j) && #[trigger] g.nodes[j].name == x;
        let j2 = choose|j: int| 0 <= j < g.nodes.len() && g.reaches(d, l2, j) && #[trigger] g.nodes[j].name == x;
        assert(j1 == j2);
        lemma_reaches_symmetric(g, d, l2, j1);
        lemma_reaches_trans(g, d, l1, j1, l2);
        lemma_reaches_symmetric(g, d, l1, l2);
        assert(g.leader_test(d)(l1) && g.leader_test(d)(l2));
        if l1 < l2 {
            assert(g.reaches(d, l1, l2));
        } else if l2 < l1 {
            assert(g.reaches(d, l2, l1));
        }
        if k1 < k2 {
            assert(ls[k1] < ls[k2]);
        } else if k2 < k1 {
            assert(ls[k2] < ls[k1]);
        }
    }
}

/// When searches follow edges both ways, the component of any node is the
/// component of one of the leaders: what `node_connected_component` gives for
/// a node is one of the sets that `connected_components` gives.
pub proof fn law_node_component_is_a_component<A>(g: GraphView<A>, d: Direction, j: int)
    requires
        g.well_formed(),
        symmetric_search(g, d),
        0 <= j < g.nodes.len(),
    ensures
        exists|k: int| 0 <= k < g.leaders(d).len() && #[trigger] g.reached_names(d, g.leaders(d)[k]) == g.reached_names(d, j),
{
    lemma_has_leader(g, d, j);
    let l = choose|l: int| 0 <= l <= j && g.leader_test(d)(l) && #[trigger] g.reaches(d, l, j);
    lemma_reaches_symmetric(g, d, l, j);
    assert forall|x: u64| #[trigger] g.reached_names(d, l).contains(x) <==> g.reached_names(d, j).contains(x) by {
        if g.reached_names(d, l).contains(x) {
            let y = choose|y: int| 0 <= y < g.nodes.len() && g.reaches(d, l, y) && #[trigger] g.nodes[y].name == x;
            lemma_reaches_trans(g, d, j, l, y);
        }
        if g.reached_names(d, j).contains(x) {
            let y = choose|y: int| 0 <= y < g.nodes.len() && g.reaches(d, j, y) && #[trigger] g.nodes[y].name == x;
            lemma_reaches_trans(g, d, l, j, y);
        }
    }
    assert(g.reached_names(d, l) =~= g.reached_names(d, j));
    lemma_indices_where_member(g.nodes.len() as int, g.leader_test(d), l);
    let k = choose|k: int| 0 <= k < g.leaders(d).len() && g.leaders(d)[k] == l;
    assert(g.reached_names(d, g.leaders(d)[k]) == g.reached_names(d, j));
}

/// Every node mutually reaches a strong leader.
proof fn lemma_has_strong_leader<A>(g: GraphView<A>, j: int)
    requires
        0 <= j < g.nodes.len(),
    ensures
        exists|l: int| 0 <= l <= j && g.strong_leader_test()(l) && #[trigger] g.mutually_reach(l, j),
    decreases j,
{
    lemma_reaches_self(g, Direction::Forward, j);
    if !g.strong_leader_test()(j) {
        let i = choose|i: int| 0 <= i < j && #[trigger] g.mutually_reach(i, j);
        lemma_has_strong_leader(g, i);
        let l = choose|l: int| 0 <= l <= i && g.strong_leader_test()(l) && #[trigger] g.mutually_reach(l, i);
        lemma_reaches_trans(g, Direction::Forward, l, i, j);
        lemma_reaches_trans(g, Direction::Forward, j, i, l);
        assert(g.mutually_reach(l, j));
    } else {
        assert(g.mutually_reach(j, j));
    }
}

/// The strongly connected components partition the nodes: the name of every
/// node is in the component of exactly one strong leader.
pub proof fn law_strong_components_partition<A>(g: GraphView<A>)
    requires
        g.well_formed(),
    ensures
        forall|j: int|
            #![trigger g.nodes[j]]
            0 <= j < g.nodes.len() ==> exists|k: int|
                0 <= k < g.strong_leaders().len() && #[trigger] g.mutual_names(g.strong_leaders()[k]).contains(
                    g.nodes[j].name,
                ),
        forall|k1: int, k2: int, x: u64|
            0 <= k1 < g.strong_leaders().len() && 0 <= k2 < g.strong_leaders().len() && #[trigger] g.mutual_names(
                g.strong_leaders()[k1],
            ).contains(x) && #[trigger] g.mutual_names(g.strong_leaders()[k2]).contains(x) ==> k1 == k2,
{
    let n = g.nodes.len() as int;
    let ls = g.strong_leaders();
    lemma_indices_where_bounds(n, g.strong_leader_test());
    lemma_indices_where_increasing(n, g.strong_leader_test());
    assert forall|j: int| #![trigger g.nodes[j]] 0 <= j < g.nodes.len() implies exists|k: int|
        0 <= k < ls.len() && #[trigger] g.mutual_names(ls[k]).contains(g.nodes[j].name) by {
        lemma_has_strong_leader(g, j);
        let l = choose|l: int| 0 <= l <= j && g.strong_leader_test()(l) && #[trigger] g.mutually_reach(l, j);
        lemma_indices_where_member(n, g.strong_leader_test(), l);
        let k = choose|k: int| 0 <= k < ls.len() && ls[k] == l;
        assert(g.mutual_names(ls[k]).contains(g.nodes[j].name));
    }
    assert forall|k1: int, k2: int, x: u64|
        0 <= k1 < ls.len() && 0 <= k2 < ls.len() && #[trigger] g.mutual_names(ls[k1]).contains(x)
            && #[trigger] g.mutual_names(ls[k2]).contains(x) implies k1 == k2 by {
        let l1 = ls[k1];
        let l2 = ls[k2];
        let j1 = choose|j: int| 0 <= j < g.nodes.len() && g.mutually_reach(l1, j) && #[trigger] g.nodes[j].name == x;
        let j2 = choose|j: int| 0 <= j < g.nodes.len() && g.mutually_reach(l2, j) && #[trigger] g.nodes[j].name == x;
        assert(j1 == j2);
        lemma_reaches_trans(g, Direction::Forward, l1, j1, l2);
        lemma_reaches_trans(g, Direction::Forward, l2, j1, l1);
        assert(g.mutually_reach(l1, l2) && g.mutually_reach(l2, l1));
        assert(g.strong_leader_test()(l1) && g.strong_leader_test()(l2));
        if l1 < l2 {
            assert(g.mutually_reach(l1, l2));
        } else if l2 < l1 {
            assert(g.mutually_reach(l2, l1));
        }
        if k1 < k2 {
            assert(ls[k1] < ls[k2]);
        } else if k2 < k1 {
            assert(ls[k2] < ls[k1]);
        }
    }
}

/// The items of the vectors `vs`, one vector after the other.
pub open spec fn flatten_vecs<T>(vs: Seq<Vec<T>>) -> Seq<T>
    decreases vs.len(),
{
    if vs.len() == 0 {
        Seq::empty()
    } else {
        flatten_vecs(vs.drop_last()) + vs.last()@
    }
}

/// Whether a search may take the node at position `q` of `s` next: it is
/// either the lowest index not placed before it, or a successor of a node
/// placed before it.
pub open spec fn search_step<A>(g: GraphView<A>, s: Seq<usize>, q: int) -> bool {
    ||| forall|x: usize| x < s[q] ==> #[trigger] s.take(q).contains(x)
    ||| exists|p: int| 0 <= p < q && #[trigger] g.connected(s[p] as int, s[q] as int)
}

/// Whether every node of `s` is placed as a search places it: from the lowest
/// index not yet placed, or along an edge from a node placed earlier.
pub open spec fn search_order<A>(g: GraphView<A>, s: Seq<usize>) -> bool {
    forall|q: int| 0 <= q < s.len() ==> #[trigger] search_step(g, s, q)
}

proof fn lemma_search_order_push<A>(g: GraphView<A>, s: Seq<usize>, x: usize)
    requires
        search_order(g, s),
        search_step(g, s.push(x), s.len() as int),
    ensures
        search_order(g, s.push(x)),
{
    let t = s.push(x);
    assert forall|q: int| 0 <= q < t.len() implies #[trigger] search_step(g, t, q) by {
        if q < s.len() {
            assert(search_step(g, s, q));
            assert(t.take(q) =~= s.take(q));
            assert(t[q] == s[q]);
            if !(forall|y: usize| y < s[q] ==> #[trigger] s.take(q).contains(y)) {
                let p = choose|p: int| 0 <= p < q && #[trigger] g.connected(s[p] as int, s[q] as int);
                assert(t[p] == s[p]);
                assert(g.connected(t[p] as int, t[q] as int));
            }
        }
    }
}

/// Whether the parts `ps` split the indexes below `n` into `k` parts of at
/// most `n / k + 1` indexes, every part before a nonempty one full.
pub open spec fn equal_size_split(ps: Seq<Vec<usize>>, n: int, k: int) -> bool {
    &&& ps.len() == k
    &&& forall|p: int| 0 <= p < k ==> (#[trigger] ps[p])@.len() <= n / k + 1
    &&& forall|p: int, q: int| 0 <= p < q < k && (#[trigger] ps[q])@.len() > 0 ==> (#[trigger] ps[p])@.len() == n / k + 1
    &&& flatten_vecs(ps).no_duplicates()
    &&& forall|x: usize| x < n <==> #[trigger] flatten_vecs(ps).contains(x)
}

proof fn lemma_flatten_push<T>(vs: Seq<Vec<T>>, v: Vec<T>)
    ensures
        flatten_vecs(vs.push(v)) == flatten_vecs(vs) + v@,
{
    assert(vs.push(v).drop_last() == vs);
}

/// Splits the node indexes into `num_partitions` parts of nearly equal size:
/// breadth-first searches, each from the first node not yet placed, fill one
/// part after the other, each up to `n / num_partitions + 1` nodes.
pub fn get_bfs_partitions_usize<A: Copy>(graph: &Graph<A>, num_partitions: usize) -> (r: Vec<Vec<usize>>)
    requires
        graph.wf(),
        num_partitions > 0,
        graph@.nodes.len() < usize::MAX,
    ensures
        equal_size_split(r@, graph@.nodes.len() as int, num_partitions as int),
        search_order(graph@, flatten_vecs(r@)),
{
    let ghost g = graph@;
    let n = graph.number_of_nodes();
    let k = num_partitions;
    let max = n / k + 1;
    proof {
        assert(k * (n / k) + n % k == n) by (nonlinear_arith)
            requires
                k > 0,
        ;
        assert(n % k < k) by (nonlinear_arith)
            requires
                k > 0,
        ;
        assert(k * max > n) by (nonlinear_arith)
            requires
                max == n / k + 1,
                k * (n / k) + n % k == n,
                n % k < k,
        ;
    }
    let mut visited: Vec<bool> = Vec::new();
    let mut j: usize = 0;
    while j < n
        invariant
            j <= n,
            visited@.len() == j,
            forall|x: int| 0 <= x < j ==> !visited@[x],
        decreases n - j,
    {
        visited.push(false);
        j = j + 1;
    }
    let mut done: Vec<Vec<usize>> = Vec::new();
    let mut cur: Vec<usize> = Vec::new();
    let ghost mut order: Seq<usize> = Seq::empty();
    loop
        invariant
            graph.wf(),
            g == graph@,
            n == g.nodes.len(),
            k == num_partitions,
            k > 0,
            max == n / k + 1,
            k * max > n,
            visited@.len() == n,
            order == flatten_vecs(done@) + cur@,
            order.no_duplicates(),
            forall|q: int| 0 <= q < order.len() ==> #[trigger] order[q] < n,
            forall|x: int| 0 <= x < n ==> (#[trigger] visited@[x] <==> order.contains(x as usize)),
            forall|p: int| 0 <= p < done@.len() ==> (#[trigger] done@[p])@.len() == max,
            cur@.len() < max,
            done@.len() < k,
            flatten_vecs(done@).len() == done@.len() * max,
            order.len() <= n,
            search_order(g, order),
        ensures
            search_order(g, order),
            forall|x: int| 0 <= x < n ==> visited@[x],
            visited@.len() == n,
            order == flatten_vecs(done@) + cur@,
            order.no_duplicates(),
            forall|x: int| 0 <= x < n ==> (#[trigger] visited@[x] <==> order.contains(x as usize)),
            forall|p: int| 0 <= p < done@.len() ==> (#[trigger] done@[p])@.len() == max,
            cur@.len() < max,
            done@.len() < k,
        decreases n - order.len(),
    {
        proof {
            lemma_distinct_indexes_len(order, n as int);
        }
        let mut start: usize = 0;
        while start < n && visited[start]
            invariant
                start <= n,
                visited@.len() == n,
                forall|x: int| 0 <= x < start ==> visited@[x],
            decreases n - start,
        {
            start = start + 1;
        }
        if start == n {
            break;
        }
        assert forall|x: usize| x < start implies #[trigger] order.contains(x) by {
            assert(visited@[x as int]);
        }
        let mut queue: Vec<usize> = Vec::new();
        queue.push(start);
        let mut head: usize = 0;
        let ghost before = order.len();
        while head < queue.len()
            invariant_except_break
                cur@.len() < max,
            invariant
                graph.wf(),
                g == graph@,
                n == g.nodes.len(),
                max == n / k + 1,
                visited@.len() == n,
                order == flatten_vecs(done@) + cur@,
                order.no_duplicates(),
                forall|q: int| 0 <= q < order.len() ==> #[trigger] order[q] < n,
                forall|x: int| 0 <= x < n ==> (#[trigger] visited@[x] <==> order.contains(x as usize)),
                order.len() <= n,
                head <= queue@.len(),
                forall|q: int| 0 <= q < queue@.len() ==> #[trigger] queue@[q] < n,
                head == 0 ==> queue@.len() == 1 && !visited@[queue@[0] as int],
                search_order(g, order),
                forall|x: usize| x < start ==> #[trigger] order.contains(x),
                forall|q: int|
                    0 <= q < queue@.len() ==> #[trigger] queue@[q] == start || exists|p: int|
                        0 <= p < order.len() && #[trigger] g.connected(order[p] as int, queue@[q] as int),
                order.len() >= before,
                head > 0 ==> order.len() > before,
            ensures
                order.len() > before,
                cur@.len() <= max,
            decreases n - order.len(), queue@.len() - head,
        {
            proof {
                lemma_distinct_indexes_len(order, n as int);
            }
            let current = queue[head];
            head = head + 1;
            if !visited[current] {
                let ghost old_visited = visited@;
                let ghost old_order = order;
                visited.set(current, true);
                cur.push(current);
                proof {
                    assert(!old_order.contains(current));
                    assert(flatten_vecs(done@) + cur@ =~= old_order.push(current));
                    order = old_order.push(current);
                    assert(search_step(g, order, old_order.len() as int)) by {
                        assert(order.take(old_order.len() as int) =~= old_order);
                        assert(order[old_order.len() as int] == current);
                        if current != start {
                            let p = choose|p: int|
                                0 <= p < old_order.len() && #[trigger] g.connected(old_order[p] as int, current as int);
                            assert(order[p] == old_order[p]);
                            assert(g.connected(order[p] as int, order[old_order.len() as int] as int));
                        }
                    }
                    lemma_search_order_push(g, old_order, current);
                    assert forall|x: usize| x < start implies #[trigger] order.contains(x) by {
                        assert(old_order.contains(x));
                        let q = choose|q: int| 0 <= q < old_order.len() && old_order[q] == x;
                        assert(order[q] == x);
                    }
                    assert forall|q: int|
                        0 <= q < queue@.len() implies #[trigger] queue@[q] == start || exists|p: int|
                            0 <= p < order.len() && #[trigger] g.connected(order[p] as int, queue@[q] as int) by {
                        if queue@[q] != start {
                            let p = choose|p: int|
                                0 <= p < old_order.len() && #[trigger] g.connected(old_order[p] as int, queue@[q] as int);
                            assert(order[p] == old_order[p]);
                        }
                    }
                    assert forall|x: int| 0 <= x < n implies (#[trigger] visited@[x] <==> order.contains(x as usize)) by {
                        if order.contains(x as usize) && x != current as int {
                            let q = choose|q: int| 0 <= q < order.len() && order[q] == x as usize;
                            assert(q < old_order.len());
                            assert(old_order[q] == x as usize);
                            assert(old_visited[x]);
                        }
                        if x == current as int {
                            assert(order[order.len() - 1] == current);
                        }
                        if visited@[x] && x != current as int {
                            assert(old_visited[x]);
                            let q = choose|q: int| 0 <= q < old_order.len() && old_order[q] == x as usize;
                            assert(order[q] == x as usize);
                        }
                    }
                    assert forall|q: int| 0 <= q < order.len() implies #[trigger] order[q] < n by {
                        if q < old_order.len() {
                            assert(order[q] == old_order[q]);
                        }
                    }
                    lemma_distinct_indexes_len(order, n as int);
                }
                if cur.len() == max {
                    break;
                }
                let succ = graph.successor_indexes(current);
                proof {
                    lemma_indices_where_bounds(n as int, g.succ_test(current as int));
                    assert forall|q: int| 0 <= q < succ@.len() implies #[trigger] g.connected(
                        current as int,
                        succ@[q] as int,
                    ) by {
                        assert(succ@.map_values(|x: usize| x as int)[q] == succ@[q] as int);
                    }
                }
                let ghost last = (order.len() - 1) as int;
                assert(order[last] == current);
                let mut m: usize = 0;
                while m < succ.len()
                    invariant
                        m <= succ@.len(),
                        head <= queue@.len(),
                        forall|q: int| 0 <= q < succ@.len() ==> succ@[q] < n,
                        forall|q: int| 0 <= q < queue@.len() ==> #[trigger] queue@[q] < n,
                        0 <= last < order.len(),
                        order[last] == current,
                        forall|q: int| 0 <= q < succ@.len() ==> #[trigger] g.connected(current as int, succ@[q] as int),
                        forall|q: int|
                            0 <= q < queue@.len() ==> #[trigger] queue@[q] == start || exists|p: int|
                                0 <= p < order.len() && #[trigger] g.connected(order[p] as int, queue@[q] as int),
                    decreases succ@.len() - m,
                {
                    let ghost old_queue = queue@;
                    queue.push(succ[m]);
                    proof {
                        assert(g.connected(order[last] as int, succ@[m as int] as int));
                        assert forall|q: int|
                            0 <= q < queue@.len() implies #[trigger] queue@[q] == start || exists|p: int|
                                0 <= p < order.len() && #[trigger] g.connected(order[p] as int, queue@[q] as int) by {
                            if q < old_queue.len() {
                                assert(queue@[q] == old_queue[q]);
                            } else {
                                assert(queue@[q] == succ@[m as int]);
                                assert(g.connected(order[last] as int, queue@[q] as int));
                            }
                        }
                    }
                    m = m + 1;
                }
                proof {
                    assert forall|q: int| 0 <= q < succ@.len() implies succ@[q] < n by {
                        assert(succ@.map_values(|x: usize| x as int)[q] == succ@[q] as int);
                    }
                }
            }
        }
        if cur.len() == max {
            let ghost old_done = done@;
            let full = cur;
            cur = Vec::new();
            done.push(full);
            proof {
                lemma_flatten_push(old_done, full);
                assert(done@ == old_done.push(full));
                assert(flatten_vecs(done@) + cur@ =~= flatten_vecs(old_done) + full@);
                lemma_distinct_indexes_len(order, n as int);
                assert(flatten_vecs(done@).len() == done@.len() * max) by (nonlinear_arith)
                    requires
                        flatten_vecs(done@).len() == flatten_vecs(old_done).len() + max,
                        flatten_vecs(old_done).len() == old_done.len() * max,
                        done@.len() == old_done.len() + 1,
                ;
                assert(done@.len() < k) by (nonlinear_arith)
                    requires
                        done@.len() * max <= n,
                        k * max > n,
                        max > 0,
                ;
                assert forall|p: int| 0 <= p < done@.len() implies (#[trigger] done@[p])@.len() == max by {
                    if p < old_done.len() {
                        assert(done@[p] == old_done[p]);
                    }
                }
            }
        }
    }
    let ghost head_parts = done@;
    let last = cur;
    done.push(last);
    proof {
        lemma_flatten_push(head_parts, last);
    }
    while done.len() < k
        invariant
            done@.len() <= k,
            done@.len() >= 1,
            flatten_vecs(done@) == order,
            forall|p: int| 0 <= p < head_parts.len() ==> (#[trigger] done@[p]) == head_parts[p],
            done@[head_parts.len() as int] == last,
            head_parts.len() < done@.len(),
            forall|p: int| head_parts.len() < p < done@.len() ==> (#[trigger] done@[p])@.len() == 0,
        decreases k - done@.len(),
    {
        let ghost old_done = done@;
        let empty: Vec<usize> = Vec::new();
        done.push(empty);
        proof {
            lemma_flatten_push(old_done, empty);
            assert(flatten_vecs(done@) =~= flatten_vecs(old_done));
        }
    }
    proof {
        assert forall|x: usize| x < n <==> #[trigger] flatten_vecs(done@).contains(x) by {
            if x < n {
                assert(visited@[x as int]);
            }
        }
        assert forall|p: int| 0 <= p < k implies (#[trigger] done@[p])@.len() <= n / k + 1 by {
            if p < head_parts.len() {
                assert(head_parts[p]@.len() == max);
            }
        }
        assert forall|p: int, q: int| 0 <= p < q < k && (#[trigger] done@[q])@.len() > 0 implies (#[trigger] done@[p])@.len()
            == n / k + 1 by {
            assert(q <= head_parts.len());
            assert(head_parts[p]@.len() == max);
        }
    }
    done
}

/// The names of the nodes at the indexes `s`.
pub open spec fn part_names<A>(g: GraphView<A>, s: Seq<usize>) -> Seq<u64> {
    s.map_values(|i: usize| g.name(i as int))
}

/// Whether each part of `r` holds the names of the nodes at the indexes of the
/// same part of `ps`, in the same order.
pub open spec fn names_of_parts<A>(g: GraphView<A>, ps: Seq<Vec<usize>>, r: Seq<Vec<u64>>) -> bool {
    &&& r.len() == ps.len()
    &&& forall|p: int| 0 <= p < r.len() ==> (#[trigger] r[p])@ == part_names(g, ps[p]@)
}

proof fn lemma_flatten_names<A>(g: GraphView<A>, ps: Seq<Vec<usize>>, r: Seq<Vec<u64>>)
    requires
        names_of_parts(g, ps, r),
    ensures
        flatten_vecs(r) == part_names(g, flatten_vecs(ps)),
    decreases r.len(),
{
    if r.len() > 0 {
        let ps1 = ps.drop_last();
        let r1 = r.drop_last();
        assert(names_of_parts(g, ps1, r1)) by {
            assert forall|p: int| 0 <= p < r1.len() implies (#[trigger] r1[p])@ == part_names(g, ps1[p]@) by {
                assert(r1[p] == r[p]);
                assert(ps1[p] == ps[p]);
            }
        }
        lemma_flatten_names(g, ps1, r1);
        assert(r.last()@ == part_names(g, ps.last()@)) by {
            assert(r[r.len() - 1]@ == part_names(g, ps[r.len() - 1]@));
        }
        assert(part_names(g, flatten_vecs(ps1) + ps.last()@) =~= part_names(g, flatten_vecs(ps1)) + part_names(
            g,
            ps.last()@,
        ));
    }
}

proof fn lemma_flatten_member<T>(vs: Seq<Vec<T>>, p: int, q: int)
    requires
        0 <= p < vs.len(),
        0 <= q < vs[p]@.len(),
    ensures
        flatten_vecs(vs).contains(vs[p]@[q]),
    decreases vs.len(),
{
    let f = flatten_vecs(vs);
    let f1 = flatten_vecs(vs.drop_last());
    if p == vs.len() - 1 {
        assert(f[f1.len() + q] == vs[p]@[q]);
    } else {
        assert(vs.drop_last()[p] == vs[p]);
        lemma_flatten_member(vs.drop_last(), p, q);
        let k = choose|k: int| 0 <= k < f1.len() && f1[k] == vs[p]@[q];
        assert(f[k] == vs[p]@[q]);
    }
}

/// The names of the nodes, split into `num_partitions` parts of nearly equal
/// size: breadth-first searches, each from the first node not yet placed,
/// fill one part after the other, each up to `n / num_partitions + 1` nodes.
/// Every node name stands in exactly one part, and each part holds names in
/// the order in which the searches placed their nodes.
pub fn bfs_equal_size_partitions<A: Copy>(graph: &Graph<A>, num_partitions: usize) -> (r: Vec<Vec<u64>>)
    requires
        graph.wf(),
        num_partitions > 0,
        graph@.nodes.len() < usize::MAX,
    ensures
        exists|ps: Seq<Vec<usize>>|
            equal_size_split(ps, graph@.nodes.len() as int, num_partitions as int) && search_order(
                graph@,
                flatten_vecs(ps),
            ) && #[trigger] names_of_parts(graph@, ps, r@),
        r@.len() == num_partitions,
        flatten_vecs(r@).no_duplicates(),
        forall|x: u64| #[trigger] flatten_vecs(r@).contains(x) <==> graph@.has_name(x),
{
    let ghost g = graph@;
    let parts = get_bfs_partitions_usize(graph, num_partitions);
    let ghost n = g.nodes.len() as int;
    let mut r: Vec<Vec<u64>> = Vec::new();
    let mut p: usize = 0;
    while p < parts.len()
        invariant
            graph.wf(),
            g == graph@,
            equal_size_split(parts@, n, num_partitions as int),
            search_order(g, flatten_vecs(parts@)),
            n == g.nodes.len(),
            p <= parts@.len(),
            r@.len() == p,
            forall|q: int| 0 <= q < p ==> (#[trigger] r@[q])@ == part_names(g, parts@[q]@),
        decreases parts@.len() - p,
    {
        let part = &parts[p];
        proof {
            assert forall|q: int| 0 <= q < part@.len() implies part@[q] < n by {
                lemma_flatten_member(parts@, p as int, q);
            }
        }
        let mut names: Vec<u64> = Vec::new();
        let mut m: usize = 0;
        while m < part.len()
            invariant
                graph.wf(),
                g == graph@,
                n == g.nodes.len(),
                m <= part@.len(),
                forall|q: int| 0 <= q < part@.len() ==> part@[q] < n,
                names@ == part_names(g, part@.take(m as int)),
            decreases part@.len() - m,
        {
            let name = graph.name_at(part[m]);
            names.push(name);
            m = m + 1;
            proof {
                assert(part_names(g, part@.take(m as int)) =~= part_names(g, part@.take(m as int - 1)).push(name));
            }
        }
        proof {
            assert(part@.take(m as int) =~= part@);
        }
        r.push(names);
        p = p + 1;
    }
    proof {
        assert(names_of_parts(g, parts@, r@));
        lemma_flatten_names(g, parts@, r@);
        let f = flatten_vecs(parts@);
        graph.lemma_well_formed();
        assert forall|i: int, j: int| 0 <= i < f.len() && 0 <= j < f.len() && i != j implies
            part_names(g, f)[i] != part_names(g, f)[j] by {
            assert(f.contains(f[i]));
            assert(f.contains(f[j]));
            assert(g.nodes[f[i] as int].name != g.nodes[f[j] as int].name);
        }
        assert forall|x: u64| #[trigger] flatten_vecs(r@).contains(x) <==> g.has_name(x) by {
            if g.has_name(x) {
                let i = choose|i: int| 0 <= i < g.nodes.len() && #[trigger] g.nodes[i].name == x;
                assert(f.contains(i as usize));
                let q = choose|q: int| 0 <= q < f.len() && f[q] == i as usize;
                assert(part_names(g, f)[q] == x);
            }
            if flatten_vecs(r@).contains(x) {
                let q = choose|q: int| 0 <= q < part_names(g, f).len() && part_names(g, f)[q] == x;
                assert(f.contains(f[q]));
                assert(g.nodes[f[q] as int].name == x);
            }
        }
    }
    r
}

} // verus!
