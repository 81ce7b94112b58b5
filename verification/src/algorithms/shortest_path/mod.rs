use crate::{Error, ErrorKind, Graph};
use vstd::prelude::*;

pub mod unweighted;

verus! {

/// The position of the distance from the `u`-th source to node `v` in a flat
/// table that holds `number_of_sources` entries for each node.
pub fn get_distance_index(u: usize, v: usize, number_of_sources: usize) -> (r: usize)
    requires
        v * number_of_sources + u <= usize::MAX,
    ensures
        r == v * number_of_sources + u,
{
    v * number_of_sources + u
}

/// How many parts the all-pairs search splits the source nodes into: one
/// for a graph of fewer than 100 nodes, else twelve for each of the
/// `parallelism` threads that the machine offers.
pub fn get_number_of_partitions<A: Copy>(graph: &Graph<A>, parallelism: usize) -> (r: usize)
    requires
        graph.wf(),
        parallelism * 12 <= usize::MAX,
    ensures
        r == if graph@.nodes.len() < 100 { 1 } else { parallelism * 12 },
{
    if graph.number_of_nodes() < 100 {
        1
    } else {
        parallelism * 12
    }
}

/// Whether `x` stands strictly inside one of the paths: neither first nor
/// last on it.
pub open spec fn passes_through(paths: Seq<Vec<u64>>, x: u64) -> bool {
    exists|p: int, k: int| 0 <= p < paths.len() && 1 <= k < paths[p]@.len() - 1 && #[trigger] paths[p]@[k] == x
}

/// Whether one of the shortest paths `paths` runs through the node named
/// `node_name` between its two ends.
pub fn contains_path_through_node(paths: &Vec<Vec<u64>>, node_name: u64) -> (r: bool)
    ensures
        r == passes_through(paths@, node_name),
{
    let mut p: usize = 0;
    while p < paths.len()
        invariant
            p <= paths@.len(),
            forall|q: int, k: int| 0 <= q < p && 1 <= k < paths@[q]@.len() - 1 ==> #[trigger] paths@[q]@[k] != node_name,
        decreases paths@.len() - p,
    {
        let path = &paths[p];
        if path.len() > 2 {
            let mut k: usize = 1;
            while k < path.len() - 1
                invariant
                    1 <= k <= path@.len() - 1,
                    p < paths@.len(),
                    path@ == paths@[p as int]@,
                    forall|j: int| 1 <= j < k ==> path@[j] != node_name,
                decreases path@.len() - k,
            {
                if path[k] == node_name {
                    assert(paths@[p as int]@[k as int] == node_name);
                    return true;
                }
                k = k + 1;
            }
        }
        p = p + 1;
    }
    false
}

/// The error returned when a search finds a shorter path to a node it has
/// already settled.
pub fn get_contractory_paths_error() -> (e: Error)
    ensures
        e.kind == ErrorKind::ContradictoryPaths,
        e.message@ == "Contradictary paths found, do some edges have negative weights?"@,
{
    Error::new(ErrorKind::ContradictoryPaths, "Contradictary paths found, do some edges have negative weights?")
}

/// The views of the paths `ps`.
pub open spec fn path_views(ps: Seq<Vec<usize>>) -> Seq<Seq<usize>> {
    ps.map_values(|p: Vec<usize>| p@)
}

/// The views of the paths `ps`, each with `u` appended.
pub open spec fn extended_path_views(ps: Seq<Vec<usize>>, u: usize) -> Seq<Seq<usize>> {
    ps.map_values(|p: Vec<usize>| p@.push(u))
}

/// A copy of the path `p` with `u` appended.
fn extended_path(p: &Vec<usize>, u: usize) -> (r: Vec<usize>)
    ensures
        r@ == p@.push(u),
{
    let mut r: Vec<usize> = Vec::new();
    let mut i: usize = 0;
    while i < p.len()
        invariant
            i <= p@.len(),
            r@ == p@.take(i as int),
        decreases p@.len() - i,
    {
        r.push(p[i]);
        proof {
            assert(p@.take(i + 1) == p@.take(i as int).push(p@[i as int]));
        }
        i = i + 1;
    }
    proof {
        assert(p@.take(i as int) == p@);
    }
    r.push(u);
    r
}

/// Appends to the paths to node `u` each path to node `v` extended by `u`.
pub fn add_u_to_v_paths_and_append_v_paths_to_u_paths(u: usize, v: usize, paths: &mut Vec<Vec<Vec<usize>>>)
    requires
        u < old(paths)@.len(),
        v < old(paths)@.len(),
    ensures
        final(paths)@.len() == old(paths)@.len(),
        forall|w: int| 0 <= w < old(paths)@.len() && w != u ==> #[trigger] final(paths)@[w] == old(paths)@[w],
        path_views(final(paths)@[u as int]@) == path_views(old(paths)@[u as int]@) + extended_path_views(
            old(paths)@[v as int]@,
            u,
        ),
{
    let mut v_paths: Vec<Vec<usize>> = Vec::new();
    let mut i: usize = 0;
    while i < paths[v].len()
        invariant
            v < paths@.len(),
            paths@ == old(paths)@,
            i <= paths@[v as int]@.len(),
            path_views(v_paths@) == extended_path_views(paths@[v as int]@.take(i as int), u),
        decreases paths@[v as int]@.len() - i,
    {
        let x = extended_path(&paths[v][i], u);
        let ghost old_v = v_paths@;
        v_paths.push(x);
        proof {
            let pv = paths@[v as int]@;
            assert(pv.take(i + 1) == pv.take(i as int).push(pv[i as int]));
            assert(path_views(v_paths@) =~= path_views(old_v).push(x@));
            assert(extended_path_views(pv.take(i + 1), u) =~= extended_path_views(pv.take(i as int), u).push(
                pv[i as int]@.push(u),
            ));
        }
        i = i + 1;
    }
    proof {
        assert(paths@[v as int]@.take(i as int) == paths@[v as int]@);
    }
    let ghost old_vs = v_paths@;
    let mut u_paths: Vec<Vec<usize>> = Vec::new();
    std::mem::swap(&mut u_paths, &mut paths[u]);
    let ghost before_u = u_paths@;
    u_paths.append(&mut v_paths);
    proof {
        assert(path_views(u_paths@) =~= path_views(before_u) + path_views(old_vs));
    }
    std::mem::swap(&mut u_paths, &mut paths[u]);
}

} // verus!
