use crate::shared::{lemma_indices_where_bounds, lemma_indices_where_member};
use crate::{Error, ErrorKind, Graph, GraphView};
use std::collections::HashSet;
use vstd::prelude::*;

verus! {

broadcast use vstd::std_specs::hash::group_hash_axioms;

/// The names in `pool` of the successors of node `i` (of its neighbors, in
/// an undirected graph).
pub open spec fn successor_names_in<A>(g: GraphView<A>, i: int, pool: Set<u64>) -> Set<u64> {
    Set::new(
        |x: u64|
            pool.contains(x) && exists|j: int| 0 <= j < g.nodes.len() && g.connected(i, j) && #[trigger] g.nodes[j].name == x,
    )
}

/// The names in `pool` of the successors (neighbors) of the nodes named in
/// `group` that the graph holds.
pub open spec fn group_successor_names<A>(g: GraphView<A>, group: Seq<u64>, pool: Set<u64>) -> Set<u64> {
    Set::new(
        |x: u64|
            exists|k: int|
                0 <= k < group.len() && g.has_name(group[k]) && #[trigger] successor_names_in(
                    g,
                    g.index_of(group[k]),
                    pool,
                ).contains(x),
    )
}

/// The names of the nodes of the graph that are not in `group`.
pub open spec fn outside_group<A>(g: GraphView<A>, group: Seq<u64>) -> Set<u64> {
    Set::new(|x: u64| g.has_name(x) && !group.contains(x))
}

/// The names in `pool` of the successors of the node called `node`, in the
/// order of their indexes; none if there is no such node.
fn connected_in_pool<A: Copy>(graph: &Graph<A>, node: u64, pool: &HashSet<u64>) -> (r: Vec<u64>)
    requires
        graph.wf(),
    ensures
        r@.to_set() == if graph@.has_name(node) {
            successor_names_in(graph@, graph@.index_of(node), pool@)
        } else {
            Set::empty()
        },
{
    let ghost g = graph@;
    let mut r: Vec<u64> = Vec::new();
    let i = match graph.node_index(node) {
        Some(i) => i,
        None => {
            assert(r@.to_set() =~= Set::empty());
            return r;
        },
    };
    let succ = graph.successor_indexes(i);
    let ghost si = succ@.map_values(|j: usize| j as int);
    proof {
        lemma_indices_where_bounds(g.nodes.len() as int, g.succ_test(i as int));
    }
    let mut m: usize = 0;
    while m < succ.len()
        invariant
            graph.wf(),
            g == graph@,
            i < g.nodes.len(),
            si == succ@.map_values(|j: usize| j as int),
            si == g.successor_indices(i as int),
            forall|q: int| 0 <= q < succ@.len() ==> #[trigger] succ@[q] < g.nodes.len(),
            forall|q: int| 0 <= q < si.len() ==> g.connected(i as int, #[trigger] si[q]),
            m <= succ@.len(),
            forall|x: u64| #[trigger] r@.contains(x) <==> pool@.contains(x) && exists|q: int|
                0 <= q < m && g.nodes[succ@[q] as int].name == x,
        decreases succ@.len() - m,
    {
        let j = succ[m];
        let x = graph.name_at(j);
        let ghost before = r@;
        if pool.contains(&x) {
            r.push(x);
        }
        proof {
            assert(si[m as int] == j as int);
            assert(g.nodes[succ@[m as int] as int].name == x);
            assert forall|y: u64| #[trigger] r@.contains(y) <==> pool@.contains(y) && exists|q: int|
                0 <= q < m + 1 && g.nodes[succ@[q] as int].name == y by {
                if before.contains(y) {
                    let q0 = choose|q0: int| 0 <= q0 < before.len() && before[q0] == y;
                    assert(r@[q0] == y);
                    let q = choose|q: int| 0 <= q < m && g.nodes[succ@[q] as int].name == y;
                    assert(g.nodes[succ@[q] as int].name == y);
                }
                if y == x && pool@.contains(y) {
                    assert(r@[r@.len() - 1] == y);
                }
                if r@.contains(y) && !before.contains(y) {
                    let q0 = choose|q0: int| 0 <= q0 < r@.len() && r@[q0] == y;
                    if q0 < before.len() {
                        assert(before[q0] == y);
                    }
                    assert(y == x);
                }
                if pool@.contains(y) && (exists|q: int| 0 <= q < m + 1 && g.nodes[succ@[q] as int].name == y) {
                    let q = choose|q: int| 0 <= q < m + 1 && g.nodes[succ@[q] as int].name == y;
                    if q < m {
                        assert(before.contains(y));
                    } else {
                        assert(y == x);
                    }
                }
            }
        }
        m = m + 1;
    }
    proof {
        assert forall|x: u64| #[trigger] r@.to_set().contains(x) <==> successor_names_in(g, i as int, pool@).contains(x) by {
            if r@.contains(x) {
                let q = choose|q: int| 0 <= q < m && g.nodes[succ@[q] as int].name == x;
                assert(si[q] == succ@[q] as int);
                assert(g.connected(i as int, succ@[q] as int));
            }
            if successor_names_in(g, i as int, pool@).contains(x) {
                let j = choose|j: int| 0 <= j < g.nodes.len() && g.connected(i as int, j) && #[trigger] g.nodes[j].name == x;
                lemma_indices_where_member(g.nodes.len() as int, g.succ_test(i as int), j);
                let q = choose|q: int| 0 <= q < si.len() && si[q] == j;
                assert(succ@[q] as int == j);
            }
        }
        assert(r@.to_set() =~= successor_names_in(g, i as int, pool@));
    }
    r
}

/// Adds the names `xs` to the set `all`.
fn insert_all(all: &mut HashSet<u64>, xs: &Vec<u64>)
    ensures
        final(all)@ == old(all)@ + xs@.to_set(),
{
    let ghost before = all@;
    let mut m: usize = 0;
    while m < xs.len()
        invariant
            m <= xs@.len(),
            all@ == before + xs@.take(m as int).to_set(),
        decreases xs@.len() - m,
    {
        all.insert(xs[m]);
        proof {
            assert(xs@.take(m + 1) == xs@.take(m as int).push(xs@[m as int]));
            xs@.take(m as int).lemma_push_to_set_commute(xs@[m as int]);
            assert(all@ =~= before + xs@.take(m + 1).to_set());
        }
        m = m + 1;
    }
    proof {
        assert(xs@.take(m as int) == xs@);
    }
}

/// The names in `non_group_set` of the successors of the node called `node`
/// (of its neighbors, in an undirected graph); none if there is no such node.
pub fn get_connected_non_group_nodes_for_node<A: Copy>(
    graph: &Graph<A>,
    node: &u64,
    non_group_set: &HashSet<u64>,
) -> (r: Result<HashSet<u64>, Error>)
    requires
        graph.wf(),
    ensures
        r matches Ok(s) && s@ == if graph@.has_name(*node) {
            successor_names_in(graph@, graph@.index_of(*node), non_group_set@)
        } else {
            Set::empty()
        },
{
    let names = connected_in_pool(graph, *node, non_group_set);
    let mut r: HashSet<u64> = HashSet::new();
    insert_all(&mut r, &names);
    assert(r@ =~= names@.to_set());
    Ok(r)
}

/// The names in `non_group_set` of the successors (neighbors) of the nodes
/// of the group, each once.
pub fn calculate_connected_non_group_nodes_sequential<A: Copy>(
    graph: &Graph<A>,
    group_nodes: &[u64],
    non_group_set: &HashSet<u64>,
) -> (r: Result<HashSet<u64>, Error>)
    requires
        graph.wf(),
    ensures
        r matches Ok(s) && s@ == group_successor_names(graph@, group_nodes@, non_group_set@),
{
    let ghost g = graph@;
    let mut all: HashSet<u64> = HashSet::new();
    let mut k: usize = 0;
    while k < group_nodes.len()
        invariant
            graph.wf(),
            g == graph@,
            k <= group_nodes@.len(),
            all@ == group_successor_names(g, group_nodes@.take(k as int), non_group_set@),
        decreases group_nodes@.len() - k,
    {
        let node = group_nodes[k];
        let ghost before = all@;
        let part_vec = connected_in_pool(graph, node, non_group_set);
        insert_all(&mut all, &part_vec);
        proof {
            let t = group_nodes@.take(k as int);
            let t1 = group_nodes@.take(k + 1);
            assert(t1 == t.push(node));
            let own = if g.has_name(node) {
                successor_names_in(g, g.index_of(node), non_group_set@)
            } else {
                Set::<u64>::empty()
            };
            assert(part_vec@.to_set() =~= own);
            assert forall|x: u64| #[trigger] all@.contains(x) <==> group_successor_names(g, t1, non_group_set@).contains(x) by {
                if group_successor_names(g, t1, non_group_set@).contains(x) {
                    let q = choose|q: int|
                        0 <= q < t1.len() && g.has_name(t1[q]) && #[trigger] successor_names_in(
                            g,
                            g.index_of(t1[q]),
                            non_group_set@,
                        ).contains(x);
                    if q < k {
                        assert(t[q] == t1[q]);
                        assert(group_successor_names(g, t, non_group_set@).contains(x));
                    }
                }
                if all@.contains(x) && !before.contains(x) {
                    assert(own.contains(x));
                    assert(t1[k as int] == node);
                }
                if before.contains(x) {
                    let q = choose|q: int|
                        0 <= q < t.len() && g.has_name(t[q]) && #[trigger] successor_names_in(
                            g,
                            g.index_of(t[q]),
                            non_group_set@,
                        ).contains(x);
                    assert(t1[q] == t[q]);
                }
            }
            assert(all@ =~= group_successor_names(g, t1, non_group_set@));
        }
        k = k + 1;
    }
    proof {
        assert(group_nodes@.take(k as int) == group_nodes@);
    }
    Ok(all)
}

/// What group degree centrality is computed from, for a group of distinct
/// node names: the number of nodes outside the group that some member has as
/// a successor (a neighbor, in an undirected graph), and the number of nodes
/// outside the group. A name that the graph lacks gives `NodeNotFound`; an
/// empty group, or one that holds every node, gives `InvalidArgument`.
pub fn group_degree_counts<A: Copy>(graph: &Graph<A>, group: &[u64]) -> (r: Result<(usize, usize), Error>)
    requires
        graph.wf(),
        group@.no_duplicates(),
    ensures
        match r {
            Ok((count, total)) => {
                &&& forall|k: int| 0 <= k < group@.len() ==> graph@.has_name(#[trigger] group@[k])
                &&& 0 < group@.len() < graph@.nodes.len()
                &&& total == graph@.nodes.len() - group@.len()
                &&& count == group_successor_names(graph@, group@, outside_group(graph@, group@)).len()
            },
            Err(e) => if exists|k: int| 0 <= k < group@.len() && !graph@.has_name(#[trigger] group@[k]) {
                e.kind == ErrorKind::NodeNotFound
            } else {
                e.kind == ErrorKind::InvalidArgument && (group@.len() == 0 || group@.len() >= graph@.nodes.len())
            },
        },
{
    let ghost g = graph@;
    let mut k: usize = 0;
    while k < group.len()
        invariant
            graph.wf(),
            g == graph@,
            k <= group@.len(),
            forall|j: int| 0 <= j < k ==> g.has_name(#[trigger] group@[j]),
        decreases group@.len() - k,
    {
        if !graph.has_node(&group[k]) {
            return Err(Error::new(ErrorKind::NodeNotFound, "A node of the group is not in the graph"));
        }
        k = k + 1;
    }
    let n = graph.number_of_nodes();
    let c = group.len();
    if c == 0 {
        return Err(Error::new(ErrorKind::InvalidArgument, "Group cannot be empty"));
    }
    if c >= n {
        return Err(Error::new(ErrorKind::InvalidArgument, "Group cannot contain all nodes"));
    }
    let mut group_set: HashSet<u64> = HashSet::new();
    let mut j: usize = 0;
    while j < group.len()
        invariant
            j <= group@.len(),
            group_set@ == group@.take(j as int).to_set(),
        decreases group@.len() - j,
    {
        group_set.insert(group[j]);
        proof {
            assert(group@.take(j + 1) == group@.take(j as int).push(group@[j as int]));
            group@.take(j as int).lemma_push_to_set_commute(group@[j as int]);
        }
        j = j + 1;
    }
    proof {
        assert(group@.take(j as int) == group@);
    }
    let names = graph.get_all_node_names();
    let mut non_group: HashSet<u64> = HashSet::new();
    let mut m: usize = 0;
    while m < names.len()
        invariant
            graph.wf(),
            g == graph@,
            names@ == g.names(),
            group_set@ == group@.to_set(),
            m <= names@.len(),
            forall|x: u64| #[trigger] non_group@.contains(x) <==> !group@.contains(x) && exists|q: int|
                0 <= q < m && names@[q] == x,
        decreases names@.len() - m,
    {
        let x = names[m];
        if !group_set.contains(&x) {
            non_group.insert(x);
        }
        proof {
            assert forall|y: u64| #[trigger] non_group@.contains(y) <==> !group@.contains(y) && exists|q: int|
                0 <= q < m + 1 && names@[q] == y by {
                if y == x && !group@.contains(y) {
                    assert(names@[m as int] == y);
                }
                if !group@.contains(y) && (exists|q: int| 0 <= q < m + 1 && names@[q] == y) {
                    let q = choose|q: int| 0 <= q < m + 1 && names@[q] == y;
                    if q == m {
                        assert(y == x);
                    }
                }
            }
        }
        m = m + 1;
    }
    proof {
        assert forall|x: u64| #[trigger] non_group@.contains(x) <==> outside_group(g, group@).contains(x) by {
            if non_group@.contains(x) {
                let q = choose|q: int| 0 <= q < m && names@[q] == x;
                assert(g.nodes[q].name == x);
            }
            if outside_group(g, group@).contains(x) {
                let i = choose|i: int| 0 <= i < g.nodes.len() && #[trigger] g.nodes[i].name == x;
                assert(names@[i] == x);
            }
        }
        assert(non_group@ =~= outside_group(g, group@));
    }
    let connected = match calculate_connected_non_group_nodes_sequential(graph, group, &non_group) {
        Ok(s) => s,
        Err(e) => {
            return Err(e);
        },
    };
    Ok((connected.len(), n - c))
}

/// Whether `group` can have a group betweenness in `graph`: each of its names
/// is a node, it is not empty, and it leaves at least two nodes outside it.
/// A name that the graph lacks gives `NodeNotFound`; a group that is empty
/// or leaves fewer than two nodes outside gives `InvalidArgument`.
pub fn check_betweenness_group<A: Copy>(graph: &Graph<A>, group: &[u64]) -> (r: Result<(), Error>)
    requires
        graph.wf(),
    ensures
        match r {
            Ok(_) => {
                &&& forall|k: int| 0 <= k < group@.len() ==> graph@.has_name(#[trigger] group@[k])
                &&& 0 < group@.len() && group@.len() + 2 <= graph@.nodes.len()
            },
            Err(e) => if exists|k: int| 0 <= k < group@.len() && !graph@.has_name(#[trigger] group@[k]) {
                e.kind == ErrorKind::NodeNotFound
            } else {
                e.kind == ErrorKind::InvalidArgument && (group@.len() == 0 || group@.len() + 2
                    > graph@.nodes.len())
            },
        },
{
    let mut k: usize = 0;
    while k < group.len()
        invariant
            graph.wf(),
            k <= group@.len(),
            forall|j: int| 0 <= j < k ==> graph@.has_name(#[trigger] group@[j]),
        decreases group@.len() - k,
    {
        if !graph.has_node(&group[k]) {
            return Err(Error::new(ErrorKind::NodeNotFound, "A node of the group is not in the graph"));
        }
        k = k + 1;
    }
    let n = graph.number_of_nodes();
    let c = group.len();
    if c >= n || n - c < 2 {
        return Err(Error::new(ErrorKind::InvalidArgument, "The group must leave at least two nodes outside it"));
    }
    if c == 0 {
        return Err(Error::new(ErrorKind::InvalidArgument, "Group cannot be empty"));
    }
    Ok(())
}

} // verus!
