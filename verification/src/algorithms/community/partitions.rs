use crate::{Graph, GraphView};
use std::collections::HashSet;
use vstd::prelude::*;

verus! {

broadcast use vstd::std_specs::hash::group_hash_axioms;

/// The sizes of the first `m` sets of `cs`, summed.
pub open spec fn total_size<T>(cs: Seq<HashSet<T>>, m: int) -> int
    decreases m,
{
    if m <= 0 {
        0
    } else {
        total_size(cs, m - 1) + cs[m - 1]@.len()
    }
}

proof fn lemma_total_size_mono<T>(cs: Seq<HashSet<T>>, a: int, b: int)
    requires
        0 <= a <= b,
    ensures
        total_size(cs, a) <= total_size(cs, b),
    decreases b - a,
{
    if a < b {
        lemma_total_size_mono(cs, a, b - 1);
    }
}

/// Whether every name in the first `k` communities is the name of a node, and
/// no name is in two of them.
pub open spec fn named_and_disjoint<A>(g: GraphView<A>, cs: Seq<HashSet<u64>>, k: int) -> bool {
    &&& forall|q: int, x: u64| 0 <= q < k && #[trigger] cs[q]@.contains(x) ==> g.has_name(x)
    &&& forall|q: int, l: int, x: u64|
        #![trigger cs[q]@.contains(x), cs[l]@.contains(x)]
        0 <= l < q < k && cs[q]@.contains(x) ==> !cs[l]@.contains(x)
}

/// Whether the name `x` is in one of the communities `cs`.
pub open spec fn name_covered(cs: Seq<HashSet<u64>>, x: u64) -> bool {
    exists|k: int| 0 <= k < cs.len() && #[trigger] cs[k]@.contains(x)
}

/// Whether the communities partition the nodes of `g`: every name in them is
/// the name of a node, no name is in two of them, and every node is in one
/// of them.
pub open spec fn partitions_nodes<A>(g: GraphView<A>, cs: Seq<HashSet<u64>>) -> bool {
    &&& named_and_disjoint(g, cs, cs.len() as int)
    &&& forall|j: int| 0 <= j < g.nodes.len() ==> #[trigger] name_covered(cs, g.name(j))
}

/// Whether every name in community `k` is the name of a node and in none of
/// the communities before it.
fn named_and_new<A: Copy>(graph: &Graph<A>, communities: &[HashSet<u64>], k: usize) -> (r: bool)
    requires
        graph.wf(),
        k < communities@.len(),
    ensures
        r == forall|x: u64| #[trigger] communities@[k as int]@.contains(x) ==> (graph@.has_name(x)
            && forall|l: int| 0 <= l < k ==> !#[trigger] communities@[l]@.contains(x)),
{
    let ghost cs = communities@;
    let c = &communities[k];
    let ghost ck = c@;
    let ghost mut seen: Set<u64> = Set::empty();
    for x in it: c.iter()
        invariant
            graph.wf(),
            cs == communities@,
            k < cs.len(),
            ck == cs[k as int]@,
            seen == it.seq().take(it.index()).unref().to_set(),
            it.seq().unref().to_set() == ck,
            forall|y: u64| #[trigger] seen.contains(y) ==> (graph@.has_name(y)
                && forall|l: int| 0 <= l < k ==> !#[trigger] cs[l]@.contains(y)),
            it.index() == it.seq().len() ==> seen == ck,
    {
        proof {
            assert(it.seq().unref()[it.index() as int] == *x);
            assert(ck.contains(*x));
        }
        if !graph.has_node(x) {
            return false;
        }
        let mut l: usize = 0;
        while l < k
            invariant
                cs == communities@,
                k < cs.len(),
                ck == cs[k as int]@,
                ck.contains(*x),
                l <= k,
                forall|q: int| 0 <= q < l ==> !#[trigger] cs[q]@.contains(*x),
            decreases k - l,
        {
            if communities[l].contains(x) {
                proof {
                    assert(cs[l as int]@.contains(*x));
                    assert(cs[k as int]@.contains(*x));
                }
                return false;
            }
            l = l + 1;
        }
        proof {
            assert(it.seq().take(it.index() + 1).unref() == it.seq().take(it.index()).unref().push(*x));
            it.seq().take(it.index()).unref().lemma_push_to_set_commute(*x);
            assert(it.index() + 1 == it.seq().len() ==> it.seq().take(it.index() + 1) == it.seq());
            seen = seen.insert(*x);
        }
    }
    true
}

/// Whether the communities partition the nodes of the graph: their union
/// holds every node, each name in them is a node, and no two overlap.
pub fn is_partition<A: Copy>(graph: &Graph<A>, communities: &[HashSet<u64>]) -> (r: bool)
    requires
        graph.wf(),
    ensures
        r == partitions_nodes(graph@, communities@),
{
    let ghost g = graph@;
    let ghost cs = communities@;
    let mut k: usize = 0;
    while k < communities.len()
        invariant
            graph.wf(),
            g == graph@,
            cs == communities@,
            k <= cs.len(),
            named_and_disjoint(g, cs, k as int),
        decreases cs.len() - k,
    {
        if !named_and_new(graph, communities, k) {
            proof {
                let x = choose|x: u64| #[trigger] cs[k as int]@.contains(x) && !(g.has_name(x)
                    && forall|l: int| 0 <= l < k ==> !#[trigger] cs[l]@.contains(x));
                if !g.has_name(x) {
                    assert(!named_and_disjoint(g, cs, cs.len() as int));
                } else {
                    let l = choose|l: int| 0 <= l < k && #[trigger] cs[l]@.contains(x);
                    assert(cs[k as int]@.contains(x) && cs[l]@.contains(x));
                }
            }
            return false;
        }
        k = k + 1;
    }
    let n = graph.number_of_nodes();
    let mut j: usize = 0;
    while j < n
        invariant
            graph.wf(),
            g == graph@,
            cs == communities@,
            n == g.nodes.len(),
            j <= n,
            forall|i: int| 0 <= i < j ==> #[trigger] name_covered(cs, g.name(i)),
        decreases n - j,
    {
        let x = graph.name_at(j);
        let mut found = false;
        let mut q: usize = 0;
        while q < communities.len() && !found
            invariant
                cs == communities@,
                q <= cs.len(),
                found ==> name_covered(cs, x),
                !found ==> forall|p: int| 0 <= p < q ==> !#[trigger] cs[p]@.contains(x),
            decreases cs.len() - q,
        {
            if communities[q].contains(&x) {
                found = true;
            }
            q = q + 1;
        }
        if !found {
            assert(!name_covered(cs, g.name(j as int)));
            return false;
        }
        j = j + 1;
    }
    true
}

/// Whether index `j` is in one of the communities `cs`.
pub open spec fn covered(cs: Seq<HashSet<usize>>, j: usize) -> bool {
    exists|k: int| 0 <= k < cs.len() && #[trigger] cs[k]@.contains(j)
}

/// Whether every index below the number of nodes is in some community.
pub fn is_partition_of_indexes<A: Copy>(graph: &Graph<A>, communities: &[HashSet<usize>]) -> (r: bool)
    requires
        graph.wf(),
    ensures
        r == forall|j: usize| j < graph@.nodes.len() ==> #[trigger] covered(communities@, j),
{
    let n = graph.number_of_nodes();
    let mut j: usize = 0;
    while j < n
        invariant
            n == graph@.nodes.len(),
            j <= n,
            forall|x: usize| x < j ==> #[trigger] covered(communities@, x),
        decreases n - j,
    {
        let mut found = false;
        let mut k: usize = 0;
        while k < communities.len() && !found
            invariant
                k <= communities@.len(),
                found ==> exists|q: int| 0 <= q < communities@.len() && #[trigger] communities@[q]@.contains(j),
                !found ==> forall|q: int| 0 <= q < k ==> !#[trigger] communities@[q]@.contains(j),
            decreases communities@.len() - k,
        {
            if communities[k].contains(&j) {
                found = true;
            }
            k = k + 1;
        }
        if !found {
            assert(!covered(communities@, j));
            return false;
        }
        j = j + 1;
    }
    true
}

/// The partition that puts every node index in a community of its own.
pub fn get_singleton_partition<A: Copy>(graph: &Graph<A>) -> (r: Vec<HashSet<usize>>)
    requires
        graph.wf(),
    ensures
        r@.len() == graph@.nodes.len(),
        forall|i: int| 0 <= i < r@.len() ==> #[trigger] r@[i]@ == set![i as usize],
{
    let n = graph.number_of_nodes();
    let mut r: Vec<HashSet<usize>> = Vec::new();
    let mut i: usize = 0;
    while i < n
        invariant
            i <= n,
            r@.len() == i,
            forall|k: int| 0 <= k < i ==> #[trigger] r@[k]@ == set![k as usize],
        decreases n - i,
    {
        let mut s: HashSet<usize> = HashSet::new();
        s.insert(i);
        proof {
            assert(s@ =~= set![i]);
        }
        r.push(s);
        i = i + 1;
    }
    r
}

/// Whether the partition has `num_nodes` communities that hold, in all,
/// `num_nodes` indexes: one index in each, when none is empty.
pub fn partition_is_singleton(partition: &[HashSet<usize>], num_nodes: usize) -> (r: bool)
    ensures
        r == (total_size(partition@, partition@.len() as int) == partition@.len() && partition@.len()
            == num_nodes),
{
    let len = partition.len();
    let mut size: usize = 0;
    let mut k: usize = 0;
    while k < len
        invariant
            len == partition@.len(),
            k <= len,
            size == total_size(partition@, k as int),
            size <= len,
        decreases len - k,
    {
        let l = partition[k].len();
        if l > len - size {
            proof {
                lemma_total_size_mono(partition@, k + 1, len as int);
            }
            return false;
        }
        size = size + l;
        k = k + 1;
    }
    size == len && len == num_nodes
}

/// Whether every element of `a` is in `b`.
fn subset_of(a: &HashSet<usize>, b: &HashSet<usize>) -> (r: bool)
    ensures
        r == a@.subset_of(b@),
{
    let ghost mut seen: Set<usize> = Set::empty();
    for x in it: a.iter()
        invariant
            seen == it.seq().take(it.index()).unref().to_set(),
            it.seq().unref().to_set() == a@,
            seen.subset_of(b@),
            it.index() == it.seq().len() ==> seen == a@,
    {
        if !b.contains(x) {
            proof {
                assert(it.seq().unref()[it.index() as int] == *x);
                assert(a@.contains(*x));
            }
            return false;
        }
        proof {
            assert(it.seq().take(it.index() + 1).unref() == it.seq().take(it.index()).unref().push(*x));
            it.seq().take(it.index()).unref().lemma_push_to_set_commute(*x);
            assert(it.index() + 1 == it.seq().len() ==> it.seq().take(it.index() + 1) == it.seq());
            seen = seen.insert(*x);
        }
    }
    true
}

/// Whether the set `c` is one of the communities of `p`.
pub open spec fn is_community_of(p: Seq<HashSet<usize>>, c: Set<usize>) -> bool {
    exists|i: int| 0 <= i < p.len() && p[i]@ == c
}

/// Whether every community of `partition1` is also a community of `partition2`.
/// Each community of `partition1` is nonempty and lies within the communities
/// of `partition2`, which do not overlap.
pub fn partitions_eq(partition1: &Vec<HashSet<usize>>, partition2: &Vec<HashSet<usize>>) -> (r: bool)
    requires
        forall|k: int| #![trigger partition1@[k]] 0 <= k < partition1@.len() ==> exists|x: usize| partition1@[k]@.contains(x),
        forall|k: int, x: usize| 0 <= k < partition1@.len() && #[trigger] partition1@[k]@.contains(x) ==> covered(partition2@, x),
        forall|i: int, j: int, x: usize|
            0 <= i < partition2@.len() && 0 <= j < partition2@.len() && i != j && #[trigger] partition2@[i]@.contains(x)
                ==> !#[trigger] partition2@[j]@.contains(x),
    ensures
        r == forall|k: int| 0 <= k < partition1@.len() ==> #[trigger] is_community_of(partition2@, partition1@[k]@),
{
    let mut k: usize = 0;
    while k < partition1.len()
        invariant
            k <= partition1@.len(),
            forall|q: int| 0 <= q < k ==> #[trigger] is_community_of(partition2@, partition1@[q]@),
        decreases partition1@.len() - k,
    {
        let mut found = false;
        let mut i: usize = 0;
        while i < partition2.len() && !found
            invariant
                k < partition1@.len(),
                i <= partition2@.len(),
                found ==> is_community_of(partition2@, partition1@[k as int]@),
                !found ==> forall|j: int| 0 <= j < i ==> partition2@[j]@ != partition1@[k as int]@,
            decreases partition2@.len() - i,
        {
            if subset_of(&partition1[k], &partition2[i]) && subset_of(&partition2[i], &partition1[k]) {
                proof {
                    assert(partition2@[i as int]@ =~= partition1@[k as int]@);
                }
                found = true;
            } else {
                proof {
                    if partition2@[i as int]@ == partition1@[k as int]@ {
                        assert(partition1@[k as int]@.subset_of(partition2@[i as int]@));
                    }
                }
            }
            i = i + 1;
        }
        if !found {
            proof {
                assert(!is_community_of(partition2@, partition1@[k as int]@));
            }
            return false;
        }
        k = k + 1;
    }
    true
}

/// The names of the nodes at the indexes `s`.
pub open spec fn names_of_indexes<A>(g: GraphView<A>, s: Set<usize>) -> Set<u64> {
    s.map(|i: usize| g.name(i as int))
}

proof fn lemma_names_of_indexes_insert<A>(g: GraphView<A>, s: Set<usize>, x: usize)
    ensures
        names_of_indexes(g, s.insert(x)) == names_of_indexes(g, s).insert(g.name(x as int)),
{
    let f = |i: usize| g.name(i as int);
    assert forall|y: u64| #[trigger] names_of_indexes(g, s.insert(x)).contains(y) <==> names_of_indexes(g, s).insert(
        g.name(x as int),
    ).contains(y) by {
        if names_of_indexes(g, s.insert(x)).contains(y) {
            let a = choose|a: usize| s.insert(x).contains(a) && y == f(a);
            if a != x {
                assert(s.contains(a) && y == f(a));
            }
        }
        if names_of_indexes(g, s).contains(y) {
            let a = choose|a: usize| s.contains(a) && y == f(a);
            assert(s.insert(x).contains(a) && y == f(a));
        }
        if y == g.name(x as int) {
            assert(s.insert(x).contains(x) && y == f(x));
        }
    }
    assert(names_of_indexes(g, s.insert(x)) =~= names_of_indexes(g, s).insert(g.name(x as int)));
}

/// Each community of node indexes as a set of node names.
pub fn convert_usize_partitions_to_t<A: Copy>(partitions: Vec<HashSet<usize>>, graph: &Graph<A>) -> (r: Vec<HashSet<u64>>)
    requires
        graph.wf(),
        forall|k: int, i: usize| 0 <= k < partitions@.len() && #[trigger] partitions@[k]@.contains(i) ==> i < graph@.nodes.len(),
    ensures
        r@.len() == partitions@.len(),
        forall|k: int| 0 <= k < r@.len() ==> #[trigger] r@[k]@ == names_of_indexes(graph@, partitions@[k]@),
{
    let ghost g = graph@;
    let mut r: Vec<HashSet<u64>> = Vec::new();
    let mut k: usize = 0;
    while k < partitions.len()
        invariant
            graph.wf(),
            g == graph@,
            forall|q: int, i: usize| 0 <= q < partitions@.len() && #[trigger] partitions@[q]@.contains(i) ==> i < g.nodes.len(),
            k <= partitions@.len(),
            r@.len() == k,
            forall|q: int| 0 <= q < k ==> #[trigger] r@[q]@ == names_of_indexes(g, partitions@[q]@),
        decreases partitions@.len() - k,
    {
        let part = &partitions[k];
        let ghost pk = part@;
        let mut names: HashSet<u64> = HashSet::new();
        let ghost mut seen: Set<usize> = Set::empty();
        for x in it: part.iter()
            invariant
                graph.wf(),
                g == graph@,
                k < partitions@.len(),
                pk == partitions@[k as int]@,
                forall|i: usize| #[trigger] pk.contains(i) ==> i < g.nodes.len(),
                seen == it.seq().take(it.index()).unref().to_set(),
                it.seq().unref().to_set() == pk,
                names@ == names_of_indexes(g, seen),
                it.index() == it.seq().len() ==> seen == pk,
        {
            proof {
                assert(it.seq().unref()[it.index() as int] == *x);
                assert(pk.contains(*x));
            }
            let ghost before = names@;
            names.insert(graph.name_at(*x));
            proof {
                assert(it.seq().take(it.index() + 1).unref() == it.seq().take(it.index()).unref().push(*x));
                it.seq().take(it.index()).unref().lemma_push_to_set_commute(*x);
                lemma_names_of_indexes_insert(g, seen, *x);
                assert(names@ == before.insert(g.name(*x as int)));
                assert(it.index() + 1 == it.seq().len() ==> it.seq().take(it.index() + 1) == it.seq());
                seen = seen.insert(*x);
            }
        }
        r.push(names);
        k = k + 1;
    }
    r
}

/// Each partition of node indexes, each community as a set of node names.
pub fn convert_usize_partitions_vec_to_t<A: Copy>(partitions_vec: Vec<Vec<HashSet<usize>>>, graph: &Graph<A>) -> (r: Vec<
    Vec<HashSet<u64>>,
>)
    requires
        graph.wf(),
        forall|p: int, k: int, i: usize|
            0 <= p < partitions_vec@.len() && 0 <= k < partitions_vec@[p]@.len() && #[trigger] partitions_vec@[p]@[k]@.contains(i)
                ==> i < graph@.nodes.len(),
    ensures
        r@.len() == partitions_vec@.len(),
        forall|p: int| 0 <= p < r@.len() ==> (#[trigger] r@[p])@.len() == partitions_vec@[p]@.len(),
        forall|p: int, k: int|
            0 <= p < r@.len() && 0 <= k < r@[p]@.len() ==> #[trigger] r@[p]@[k]@ == names_of_indexes(
                graph@,
                partitions_vec@[p]@[k]@,
            ),
{
    let ghost all = partitions_vec@;
    let mut rest = partitions_vec;
    let mut out: Vec<Vec<HashSet<u64>>> = Vec::new();
    while rest.len() > 0
        invariant
            graph.wf(),
            forall|p: int, k: int, i: usize|
                0 <= p < all.len() && 0 <= k < all[p]@.len() && #[trigger] all[p]@[k]@.contains(i) ==> i < graph@.nodes.len(),
            rest@.len() + out@.len() == all.len(),
            rest@ == all.skip(out@.len() as int),
            forall|p: int| 0 <= p < out@.len() ==> (#[trigger] out@[p])@.len() == all[p]@.len(),
            forall|p: int, k: int|
                0 <= p < out@.len() && 0 <= k < out@[p]@.len() ==> #[trigger] out@[p]@[k]@ == names_of_indexes(
                    graph@,
                    all[p]@[k]@,
                ),
        decreases rest@.len(),
    {
        let ghost o = out@.len() as int;
        let first = rest.remove(0);
        proof {
            assert(first == all[o]);
            assert forall|k: int, i: usize| 0 <= k < first@.len() && #[trigger] first@[k]@.contains(i) implies i < graph@.nodes.len() by {
                assert(all[o]@[k]@.contains(i));
            }
        }
        let converted = convert_usize_partitions_to_t(first, graph);
        out.push(converted);
        proof {
            assert(rest@ =~= all.skip(out@.len() as int));
            assert forall|p: int, k: int|
                0 <= p < out@.len() && 0 <= k < out@[p]@.len() implies #[trigger] out@[p]@[k]@ == names_of_indexes(
                    graph@,
                    all[p]@[k]@,
                ) by {
                if p == o {
                    assert(out@[p] == converted);
                }
            }
        }
    }
    out
}

proof fn lemma_singleton_total_size(cs: Seq<HashSet<usize>>, m: int)
    requires
        0 <= m <= cs.len(),
        forall|i: int| 0 <= i < cs.len() ==> #[trigger] cs[i]@ == set![i as usize],
    ensures
        total_size(cs, m) == m,
    decreases m,
{
    if m > 0 {
        lemma_singleton_total_size(cs, m - 1);
        assert(cs[m - 1]@.len() == 1);
    }
}

/// The singleton partition of `n` indexes covers every index, and is what
/// `partition_is_singleton` recognizes: `n` sets holding `n` indexes in all.
pub proof fn law_singleton_partition(cs: Seq<HashSet<usize>>, n: int)
    requires
        cs.len() == n,
        forall|i: int| 0 <= i < cs.len() ==> #[trigger] cs[i]@ == set![i as usize],
    ensures
        forall|j: usize| j < n ==> #[trigger] covered(cs, j),
        total_size(cs, n) == n,
{
    assert forall|j: usize| j < n implies #[trigger] covered(cs, j) by {
        assert(cs[j as int]@.contains(j));
    }
    lemma_singleton_total_size(cs, n);
}

/// Every partition is equal to itself: each of its communities is one of its
/// communities.
pub proof fn law_partitions_eq_reflexive(p: Seq<HashSet<usize>>)
    ensures
        forall|k: int| 0 <= k < p.len() ==> #[trigger] is_community_of(p, p[k]@),
{
    assert forall|k: int| 0 <= k < p.len() implies #[trigger] is_community_of(p, p[k]@) by {
        assert(p[k]@ == p[k]@);
    }
}

} // verus!
