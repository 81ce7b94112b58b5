use crate::graph::marked_indexes;
use crate::shared::{lemma_indices_where_len, lemma_indices_where_witness, names_to_vec};
use crate::{indices_where, names_where, Error, ErrorKind, Graph, GraphView};
use std::collections::{HashMap, HashSet};
use vstd::prelude::*;

verus! {

broadcast use vstd::std_specs::hash::group_hash_axioms;

/// Whether `j` is a neighbor of `i` other than `i` itself.
pub open spec fn adjacent<A>(g: GraphView<A>, i: int) -> spec_fn(int) -> bool {
    |j: int| g.neighbor_test(i)(j) && j != i
}

/// Whether `x` is a neighbor of both `i` and `w`, other than these two themselves.
pub open spec fn common_neighbor<A>(g: GraphView<A>, i: int, w: int) -> spec_fn(int) -> bool {
    |x: int| adjacent(g, i)(x) && adjacent(g, w)(x)
}

/// The number of neighbors that `i` and `w` share: the number of triangles
/// that the edge between them is part of, when they are neighbors.
pub open spec fn common_count<A>(g: GraphView<A>, i: int, w: int) -> int {
    indices_where(g.nodes.len() as int, common_neighbor(g, i, w)).len() as int
}

/// The number of neighbors of `i`, other than `i` itself.
pub open spec fn neighbor_count<A>(g: GraphView<A>, i: int) -> int {
    indices_where(g.nodes.len() as int, adjacent(g, i)).len() as int
}

/// The sum, over the neighbors `w` of `i` below `m`, of the neighbors that
/// `i` and `w` share. Over all neighbors it counts each triangle at `i` twice.
pub open spec fn triangle_sum<A>(g: GraphView<A>, i: int, m: int) -> int
    decreases m,
{
    if m <= 0 {
        0
    } else {
        triangle_sum(g, i, m - 1) + if adjacent(g, i)(m - 1) {
            common_count(g, i, m - 1)
        } else {
            0
        }
    }
}

/// Whether `w` is a neighbor of `i` whose edge with `i` is part of `k` triangles.
pub open spec fn multiplicity_is<A>(g: GraphView<A>, i: int, k: int) -> spec_fn(int) -> bool {
    |w: int| adjacent(g, i)(w) && common_count(g, i, w) == k
}

/// The number of neighbors of `i` whose edge with `i` is part of `k` triangles.
pub open spec fn multiplicity_count<A>(g: GraphView<A>, i: int, k: int) -> int {
    indices_where(g.nodes.len() as int, multiplicity_is(g, i, k)).len() as int
}

/// The generalized degree of `i`: for each triangle multiplicity `k` that
/// occurs, the number of edges of `i` with that multiplicity.
pub open spec fn generalized_degree_of<A>(g: GraphView<A>, i: int) -> Map<usize, usize> {
    Map::new(
        |k: usize| multiplicity_count(g, i, k as int) > 0,
        |k: usize| multiplicity_count(g, i, k as int) as usize,
    )
}

/// A partial triangle sum is at most a longer one.
proof fn lemma_triangle_sum_mono<A>(g: GraphView<A>, i: int, a: int, b: int)
    requires
        0 <= a <= b,
    ensures
        triangle_sum(g, i, a) <= triangle_sum(g, i, b),
    decreases b - a,
{
    if a < b {
        lemma_triangle_sum_mono(g, i, a, b - 1);
    }
}

/// The degree, triangle count and generalized degree of a node.
pub struct TrianglesAndDegrees {
    /// The name of the node.
    pub node_name: u64,
    /// The number of its neighbors, itself excluded.
    pub degree: usize,
    /// The number of triangles it is part of, each counted twice.
    pub number_of_triangles: usize,
    /// For each triangle multiplicity, the number of its edges that have it.
    pub generalized_degree: HashMap<usize, usize>,
}

/// Whether `t` holds the degree, triangles and generalized degree of node `i`.
pub open spec fn describes_node<A>(t: TrianglesAndDegrees, g: GraphView<A>, i: int) -> bool {
    &&& t.node_name == g.name(i)
    &&& t.degree == neighbor_count(g, i)
    &&& t.number_of_triangles == triangle_sum(g, i, g.nodes.len() as int)
    &&& t.generalized_degree@ == generalized_degree_of(g, i)
}

/// The number of indexes at which both `a` and `b` are marked.
fn count_both(a: &Vec<bool>, b: &Vec<bool>, Ghost(p): Ghost<spec_fn(int) -> bool>) -> (r: usize)
    requires
        a@.len() == b@.len(),
        forall|x: int| 0 <= x < a@.len() ==> (a@[x] && b@[x]) == p(x),
    ensures
        r == indices_where(a@.len() as int, p).len(),
{
    let mut r: usize = 0;
    let mut x: usize = 0;
    while x < a.len()
        invariant
            a@.len() == b@.len(),
            forall|y: int| 0 <= y < a@.len() ==> (a@[y] && b@[y]) == p(y),
            x <= a@.len(),
            r == indices_where(x as int, p).len(),
        decreases a@.len() - x,
    {
        proof {
            lemma_indices_where_len(x as int, p);
        }
        if a[x] && b[x] {
            r = r + 1;
        }
        x = x + 1;
    }
    r
}

impl<A: Copy> Graph<A> {
    /// Marks the neighbors of node `i` other than `i` itself.
    fn adjacent_marks(&self, i: usize) -> (r: Vec<bool>)
        requires
            self.wf(),
            i < self@.nodes.len(),
        ensures
            r@.len() == self@.nodes.len(),
            forall|x: int| 0 <= x < r@.len() ==> r@[x] == adjacent(self@, i as int)(x),
    {
        let mut r = self.neighbor_marks(i);
        r.set(i, false);
        r
    }
}

/// The degree, the doubled number of triangles and the generalized degree of
/// node `i` of `graph`.
pub fn get_triangles_and_degrees_for_node<A: Copy>(graph: &Graph<A>, i: usize) -> (r: TrianglesAndDegrees)
    requires
        graph.wf(),
        i < graph@.nodes.len(),
        triangle_sum(graph@, i as int, graph@.nodes.len() as int) <= usize::MAX,
    ensures
        describes_node(r, graph@, i as int),
{
    let ghost g = graph@;
    let n = graph.number_of_nodes();
    let imarks = graph.adjacent_marks(i);
    let mut counts: Vec<usize> = Vec::new();
    counts.push(0);
    let mut k: usize = 0;
    while k < n
        invariant
            n == g.nodes.len(),
            k <= n,
            counts@.len() == k + 1,
            forall|q: int| 0 <= q <= k ==> counts@[q] == 0,
        decreases n - k,
    {
        counts.push(0);
        k = k + 1;
    }
    let mut degree: usize = 0;
    let mut total: usize = 0;
    let mut w: usize = 0;
    while w < n
        invariant
            graph.wf(),
            g == graph@,
            n == g.nodes.len(),
            i < n,
            triangle_sum(g, i as int, n as int) <= usize::MAX,
            imarks@.len() == n,
            forall|x: int| 0 <= x < n ==> imarks@[x] == adjacent(g, i as int)(x),
            counts@.len() == n + 1,
            w <= n,
            degree == indices_where(w as int, adjacent(g, i as int)).len(),
            total == triangle_sum(g, i as int, w as int),
            forall|q: int| 0 <= q <= n ==> #[trigger] counts@[q] == indices_where(w as int, multiplicity_is(g, i as int, q)).len(),
        decreases n - w,
    {
        proof {
            lemma_indices_where_len(w as int, adjacent(g, i as int));
            lemma_triangle_sum_mono(g, i as int, w + 1, n as int);
        }
        if imarks[w] {
            let wmarks = graph.adjacent_marks(w);
            let c = count_both(&imarks, &wmarks, Ghost(common_neighbor(g, i as int, w as int)));
            proof {
                lemma_indices_where_len(n as int, common_neighbor(g, i as int, w as int));
                lemma_indices_where_len(w as int, multiplicity_is(g, i as int, c as int));
            }
            degree = degree + 1;
            total = total + c;
            let old_count = counts[c];
            counts.set(c, old_count + 1);
            proof {
                assert forall|q: int| 0 <= q <= n implies #[trigger] counts@[q] == indices_where(w + 1, multiplicity_is(g, i as int, q)).len() by {
                    if q == c {
                        assert(multiplicity_is(g, i as int, q)(w as int));
                    } else {
                        assert(!multiplicity_is(g, i as int, q)(w as int));
                    }
                }
            }
        } else {
            proof {
                assert forall|q: int| 0 <= q <= n implies #[trigger] counts@[q] == indices_where(w + 1, multiplicity_is(g, i as int, q)).len() by {
                    assert(!multiplicity_is(g, i as int, q)(w as int));
                }
            }
        }
        w = w + 1;
    }
    let mut gd: HashMap<usize, usize> = HashMap::new();
    let mut k: usize = 0;
    while k < counts.len()
        invariant
            n == g.nodes.len(),
            k <= n + 1,
            counts@.len() == n + 1,
            forall|q: int| 0 <= q <= n ==> #[trigger] counts@[q] == multiplicity_count(g, i as int, q),
            gd@ == Map::new(
                |key: usize| key < k && multiplicity_count(g, i as int, key as int) > 0,
                |key: usize| multiplicity_count(g, i as int, key as int) as usize,
            ),
        decreases n + 1 - k,
    {
        let ck = counts[k];
        if ck > 0 {
            gd.insert(k, ck);
        }
        proof {
            assert(gd@ =~= Map::new(
                |key: usize| key < k + 1 && multiplicity_count(g, i as int, key as int) > 0,
                |key: usize| multiplicity_count(g, i as int, key as int) as usize,
            ));
        }
        k = k + 1;
    }
    proof {
        assert forall|key: usize| multiplicity_count(g, i as int, key as int) > 0 implies key <= n by {
            lemma_indices_where_witness(n as int, multiplicity_is(g, i as int, key as int));
            let j = choose|j: int| 0 <= j < n && #[trigger] multiplicity_is(g, i as int, key as int)(j);
            lemma_indices_where_len(n as int, common_neighbor(g, i as int, j));
        }
        assert(gd@ =~= generalized_degree_of(g, i as int));
    }
    TrianglesAndDegrees {
        node_name: graph.name_at(i),
        degree,
        number_of_triangles: total,
        generalized_degree: gd,
    }
}

/// The names to work on: those given, or all names of the graph when none
/// or an empty list is given.
pub open spec fn chosen_names<A>(g: GraphView<A>, node_names: Option<&[u64]>) -> Seq<u64> {
    match node_names {
        Some(ns) => if ns@.len() > 0 {
            ns@
        } else {
            g.names()
        },
        None => g.names(),
    }
}

/// Whether the names `ns` can be counted: each names a node, and the doubled
/// triangle count of each, taken over the whole graph, fits in a `usize`.
pub open spec fn countable_names<A>(g: GraphView<A>, ns: Seq<u64>) -> bool {
    &&& forall|x: u64| #[trigger] ns.contains(x) ==> g.has_name(x)
    &&& forall|x: u64| #[trigger]
        ns.contains(x) ==> triangle_sum(g, g.index_of(x), g.nodes.len() as int) <= usize::MAX
}

/// The degree, doubled triangle count and generalized degree of each node
/// named in `node_names` (of every node when `node_names` is `None` or empty),
/// one entry per distinct name. The names only choose which nodes are
/// reported: each count is taken over the whole graph.
pub fn get_triangles_and_degrees<A: Copy>(graph: &Graph<A>, node_names: Option<&[u64]>) -> (r: Vec<
    TrianglesAndDegrees,
>)
    requires
        graph.wf(),
        countable_names(graph@, chosen_names(graph@, node_names)),
    ensures
        forall|q: int|
            0 <= q < r@.len() ==> chosen_names(graph@, node_names).contains(#[trigger] r@[q].node_name)
                && describes_node(r@[q], graph@, graph@.index_of(r@[q].node_name)),
        forall|x: u64| #[trigger]
            chosen_names(graph@, node_names).contains(x) ==> exists|q: int|
                0 <= q < r@.len() && #[trigger] r@[q].node_name == x,
        forall|q1: int, q2: int|
            0 <= q1 < r@.len() && 0 <= q2 < r@.len() && q1 != q2 ==> #[trigger] r@[q1].node_name
                != #[trigger] r@[q2].node_name,
{
    let ghost g = graph@;
    let names: Vec<u64> = match node_names {
        Some(ns) => if ns.len() > 0 {
            names_to_vec(ns)
        } else {
            graph.get_all_node_names()
        },
        None => graph.get_all_node_names(),
    };
    let ghost ls = chosen_names(g, node_names);
    assert(names@ == ls);
    let n = graph.number_of_nodes();
    let mut seen: Vec<bool> = Vec::new();
    let mut k: usize = 0;
    while k < n
        invariant
            k <= n,
            seen@.len() == k,
            forall|j: int| 0 <= j < k ==> !seen@[j],
        decreases n - k,
    {
        seen.push(false);
        k = k + 1;
    }
    let mut r: Vec<TrianglesAndDegrees> = Vec::new();
    let mut m: usize = 0;
    while m < names.len()
        invariant
            graph.wf(),
            g == graph@,
            n == g.nodes.len(),
            names@ == ls,
            countable_names(g, ls),
            m <= names@.len(),
            seen@.len() == n,
            forall|q: int|
                0 <= q < r@.len() ==> ls.contains(#[trigger] r@[q].node_name) && describes_node(
                    r@[q],
                    g,
                    g.index_of(r@[q].node_name),
                ),
            forall|p: int| #![trigger ls[p]] 0 <= p < m ==> exists|q: int| 0 <= q < r@.len() && #[trigger] r@[q].node_name == ls[p],
            forall|q1: int, q2: int|
                0 <= q1 < r@.len() && 0 <= q2 < r@.len() && q1 != q2 ==> #[trigger] r@[q1].node_name
                    != #[trigger] r@[q2].node_name,
            forall|j: int|
                0 <= j < n ==> (#[trigger] seen@[j] <==> exists|q: int|
                    0 <= q < r@.len() && r@[q].node_name == g.name(j)),
        decreases names@.len() - m,
    {
        let x = names[m];
        assert(ls.contains(x));
        match graph.node_index(x) {
            Some(i) => {
                if !seen[i] {
                    let t = get_triangles_and_degrees_for_node(graph, i);
                    let ghost old_r = r@;
                    let ghost old_seen = seen@;
                    r.push(t);
                    seen.set(i, true);
                    proof {
                        graph.lemma_well_formed();
                        assert forall|j: int|
                            0 <= j < n implies (#[trigger] seen@[j] <==> exists|q: int|
                                0 <= q < r@.len() && r@[q].node_name == g.name(j)) by {
                            if j == i {
                                assert(r@[old_r.len() as int].node_name == g.name(j));
                            } else {
                                assert(g.name(j) != g.name(i as int));
                                assert(seen@[j] == old_seen[j]);
                                if exists|q: int| 0 <= q < old_r.len() && old_r[q].node_name == g.name(j) {
                                    let q = choose|q: int| 0 <= q < old_r.len() && old_r[q].node_name == g.name(j);
                                    assert(r@[q].node_name == g.name(j));
                                }
                                if exists|q: int| 0 <= q < r@.len() && r@[q].node_name == g.name(j) {
                                    let q = choose|q: int| 0 <= q < r@.len() && r@[q].node_name == g.name(j);
                                    assert(q < old_r.len());
                                    assert(old_r[q].node_name == g.name(j));
                                }
                            }
                        }
                        assert forall|q: int| 0 <= q < old_r.len() implies #[trigger] r@[q].node_name != x by {
                            if r@[q].node_name == x {
                                assert(g.nodes[g.index_of(x)].name == x);
                                assert(seen@[i as int]);
                            }
                        }
                        assert forall|p: int| #![trigger ls[p]] 0 <= p < m + 1 implies exists|q: int| 0 <= q < r@.len() && #[trigger] r@[q].node_name == ls[p] by {
                            if p == m {
                                assert(r@[old_r.len() as int].node_name == ls[p]);
                            } else {
                                let q = choose|q: int| 0 <= q < old_r.len() && #[trigger] old_r[q].node_name == ls[p];
                                assert(r@[q].node_name == ls[p]);
                            }
                        }
                    }
                } else {
                    proof {
                        let q = choose|q: int| 0 <= q < r@.len() && r@[q].node_name == g.name(i as int);
                        assert forall|p: int| #![trigger ls[p]] 0 <= p < m + 1 implies exists|q: int| 0 <= q < r@.len() && #[trigger] r@[q].node_name == ls[p] by {
                            if p == m {
                                assert(r@[q].node_name == ls[p]);
                            }
                        }
                    }
                }
            },
            None => {
                assert(false);
            },
        }
        m = m + 1;
    }
    proof {
        assert forall|x: u64| #[trigger] ls.contains(x) implies exists|q: int| 0 <= q < r@.len() && #[trigger] r@[q].node_name == x by {
            let p = choose|p: int| 0 <= p < ls.len() && ls[p] == x;
        }
    }
    r
}

/// The number of triangles that each node named in `node_names` (every node
/// when `node_names` is `None` or empty) is part of, in an undirected graph.
pub fn triangles<A: Copy>(graph: &Graph<A>, node_names: Option<&[u64]>) -> (r: Result<HashMap<u64, usize>, Error>)
    requires
        graph.wf(),
        !graph@.specs.directed ==> countable_names(graph@, chosen_names(graph@, node_names)),
    ensures
        match r {
            Ok(m) => {
                &&& !graph@.specs.directed
                &&& forall|x: u64| #[trigger] m@.contains_key(x) <==> chosen_names(graph@, node_names).contains(x)
                &&& forall|x: u64| #[trigger]
                    m@.contains_key(x) ==> m@[x] == triangle_sum(
                        graph@,
                        graph@.index_of(x),
                        graph@.nodes.len() as int,
                    ) / 2
            },
            Err(e) => graph@.specs.directed && e.kind == ErrorKind::WrongMethod,
        },
{
    match graph.ensure_undirected() {
        Err(e) => {
            return Err(e);
        },
        Ok(_) => {},
    }
    let ghost g = graph@;
    let ghost ls = chosen_names(g, node_names);
    let tads = get_triangles_and_degrees(graph, node_names);
    let mut m: HashMap<u64, usize> = HashMap::new();
    let mut q: usize = 0;
    while q < tads.len()
        invariant
            g == graph@,
            q <= tads@.len(),
            forall|p: int|
                0 <= p < tads@.len() ==> ls.contains(#[trigger] tads@[p].node_name) && describes_node(
                    tads@[p],
                    g,
                    g.index_of(tads@[p].node_name),
                ),
            forall|x: u64| #[trigger]
                m@.contains_key(x) <==> exists|p: int| 0 <= p < q && #[trigger] tads@[p].node_name == x,
            forall|x: u64| #[trigger]
                m@.contains_key(x) ==> m@[x] == triangle_sum(g, g.index_of(x), g.nodes.len() as int) / 2,
        decreases tads@.len() - q,
    {
        let t = &tads[q];
        m.insert(t.node_name, t.number_of_triangles / 2);
        proof {
            assert forall|x: u64| #[trigger]
                m@.contains_key(x) <==> exists|p: int| 0 <= p < q + 1 && #[trigger] tads@[p].node_name == x by {
                if x == tads@[q as int].node_name {
                    assert(tads@[q as int].node_name == x);
                }
            }
        }
        q = q + 1;
    }
    proof {
        assert forall|x: u64| #[trigger] m@.contains_key(x) <==> ls.contains(x) by {
            if ls.contains(x) {
                let p = choose|p: int| 0 <= p < tads@.len() && #[trigger] tads@[p].node_name == x;
            }
            if m@.contains_key(x) {
                let p = choose|p: int| 0 <= p < q && #[trigger] tads@[p].node_name == x;
            }
        }
    }
    Ok(m)
}

/// The generalized degree of each node named in `node_names` (every node when
/// `node_names` is `None` or empty), in an undirected graph.
pub fn generalized_degree<A: Copy>(graph: &Graph<A>, node_names: Option<&[u64]>) -> (r: Result<
    HashMap<u64, HashMap<usize, usize>>,
    Error,
>)
    requires
        graph.wf(),
        !graph@.specs.directed ==> countable_names(graph@, chosen_names(graph@, node_names)),
    ensures
        match r {
            Ok(m) => {
                &&& !graph@.specs.directed
                &&& forall|x: u64| #[trigger] m@.contains_key(x) <==> chosen_names(graph@, node_names).contains(x)
                &&& forall|x: u64| #[trigger]
                    m@.contains_key(x) ==> m@[x]@ == generalized_degree_of(graph@, graph@.index_of(x))
            },
            Err(e) => graph@.specs.directed && e.kind == ErrorKind::WrongMethod,
        },
{
    match graph.ensure_undirected() {
        Err(e) => {
            return Err(e);
        },
        Ok(_) => {},
    }
    let ghost g = graph@;
    let ghost ls = chosen_names(g, node_names);
    let mut tads = get_triangles_and_degrees(graph, node_names);
    let ghost all = tads@;
    let mut m: HashMap<u64, HashMap<usize, usize>> = HashMap::new();
    while tads.len() > 0
        invariant
            g == graph@,
            tads@.len() <= all.len(),
            tads@ == all.take(tads@.len() as int),
            forall|p: int|
                0 <= p < all.len() ==> ls.contains(#[trigger] all[p].node_name) && describes_node(
                    all[p],
                    g,
                    g.index_of(all[p].node_name),
                ),
            forall|x: u64| #[trigger]
                m@.contains_key(x) <==> exists|p: int| tads@.len() <= p < all.len() && #[trigger] all[p].node_name == x,
            forall|x: u64| #[trigger]
                m@.contains_key(x) ==> m@[x]@ == generalized_degree_of(g, g.index_of(x)),
        decreases tads@.len(),
    {
        let ghost len = tads@.len();
        let t = tads.pop().unwrap();
        assert(t == all[len - 1]);
        m.insert(t.node_name, t.generalized_degree);
        proof {
            assert(tads@ == all.take(tads@.len() as int));
            assert forall|x: u64| #[trigger]
                m@.contains_key(x) <==> exists|p: int| tads@.len() <= p < all.len() && #[trigger] all[p].node_name == x by {
                if x == t.node_name {
                    assert(all[len - 1].node_name == x);
                }
            }
        }
    }
    proof {
        assert forall|x: u64| #[trigger] m@.contains_key(x) <==> ls.contains(x) by {
            if ls.contains(x) {
                let p = choose|p: int| 0 <= p < all.len() && #[trigger] all[p].node_name == x;
            }
            if m@.contains_key(x) {
                let p = choose|p: int| tads@.len() <= p < all.len() && #[trigger] all[p].node_name == x;
            }
        }
    }
    Ok(m)
}

/// Whether `j` is a predecessor of `i` other than `i` itself.
pub open spec fn pred_without<A>(g: GraphView<A>, i: int) -> spec_fn(int) -> bool {
    |j: int| g.pred_test(i)(j) && j != i
}

/// Whether `j` is a successor of `i` other than `i` itself.
pub open spec fn succ_without<A>(g: GraphView<A>, i: int) -> spec_fn(int) -> bool {
    |j: int| g.succ_test(i)(j) && j != i
}

/// Whether both `p` and `q` hold.
pub open spec fn both_of(p: spec_fn(int) -> bool, q: spec_fn(int) -> bool) -> spec_fn(int) -> bool {
    |x: int| p(x) && q(x)
}

/// The number of nodes at which both `p` and `q` hold.
pub open spec fn overlap<A>(g: GraphView<A>, p: spec_fn(int) -> bool, q: spec_fn(int) -> bool) -> int {
    indices_where(g.nodes.len() as int, both_of(p, q)).len() as int
}

/// The number of directed triangles through `i` and its neighbor `j`: the
/// nodes that are a predecessor or successor of both, counted once for each
/// of the four combinations that holds.
pub open spec fn directed_term<A>(g: GraphView<A>, i: int, j: int) -> int {
    overlap(g, pred_without(g, i), pred_without(g, j)) + overlap(g, pred_without(g, i), succ_without(g, j))
        + overlap(g, succ_without(g, i), pred_without(g, j)) + overlap(
        g,
        succ_without(g, i),
        succ_without(g, j),
    )
}

/// The sum of `directed_term(g, i, j)` over the predecessors `j` of `i` below
/// `m` and, again, over its successors below `m`.
pub open spec fn directed_triangle_sum<A>(g: GraphView<A>, i: int, m: int) -> int
    decreases m,
{
    if m <= 0 {
        0
    } else {
        directed_triangle_sum(g, i, m - 1) + (if pred_without(g, i)(m - 1) {
            directed_term(g, i, m - 1)
        } else {
            0
        }) + (if succ_without(g, i)(m - 1) {
            directed_term(g, i, m - 1)
        } else {
            0
        })
    }
}

/// The number of predecessors plus the number of successors of `i`, itself excluded.
pub open spec fn total_degree_of<A>(g: GraphView<A>, i: int) -> int {
    (indices_where(g.nodes.len() as int, pred_without(g, i)).len() + indices_where(
        g.nodes.len() as int,
        succ_without(g, i),
    ).len()) as int
}

/// Whether the counts of node `i` of a directed graph fit in a `usize`.
pub open spec fn directed_counts_fit<A>(g: GraphView<A>, i: int) -> bool {
    &&& directed_triangle_sum(g, i, g.nodes.len() as int) <= usize::MAX
    &&& total_degree_of(g, i) <= usize::MAX
}

proof fn lemma_directed_sum_mono<A>(g: GraphView<A>, i: int, a: int, b: int)
    requires
        0 <= a <= b,
    ensures
        directed_triangle_sum(g, i, a) <= directed_triangle_sum(g, i, b),
    decreases b - a,
{
    if a < b {
        lemma_directed_sum_mono(g, i, a, b - 1);
    }
}

/// The degrees and directed triangle count of a node of a directed graph.
pub struct DirectedTrianglesAndDegree {
    /// The name of the node.
    pub node_name: u64,
    /// The number of its predecessors plus the number of its successors.
    pub total_degree: usize,
    /// The number of nodes that are both its predecessor and its successor.
    pub reciprocal_degree: usize,
    /// The number of directed triangles it is part of.
    pub directed_triangles: usize,
}

/// Whether `t` holds the degrees and directed triangle count of node `i`.
pub open spec fn describes_directed_node<A>(t: DirectedTrianglesAndDegree, g: GraphView<A>, i: int) -> bool {
    &&& t.node_name == g.name(i)
    &&& t.total_degree == total_degree_of(g, i)
    &&& t.reciprocal_degree == overlap(g, pred_without(g, i), succ_without(g, i))
    &&& t.directed_triangles == directed_triangle_sum(g, i, g.nodes.len() as int)
}

impl<A: Copy> Graph<A> {
    /// Marks the predecessors (`preds`) or successors of node `i`, other than `i` itself.
    fn adjacent_marks_without(&self, i: usize, preds: bool) -> (r: Vec<bool>)
        requires
            self.wf(),
            i < self@.nodes.len(),
        ensures
            r@.len() == self@.nodes.len(),
            forall|x: int|
                0 <= x < r@.len() ==> r@[x] == if preds {
                    pred_without(self@, i as int)(x)
                } else {
                    succ_without(self@, i as int)(x)
                },
    {
        let mut r = if preds {
            self.predecessor_marks(i)
        } else {
            self.successor_marks(i)
        };
        r.set(i, false);
        r
    }
}

/// The degrees and directed triangle count of node `i` of a directed graph.
fn directed_triangles_of_node<A: Copy>(graph: &Graph<A>, i: usize) -> (r: DirectedTrianglesAndDegree)
    requires
        graph.wf(),
        i < graph@.nodes.len(),
        directed_counts_fit(graph@, i as int),
    ensures
        describes_directed_node(r, graph@, i as int),
{
    let ghost g = graph@;
    let n = graph.number_of_nodes();
    let ipreds = graph.adjacent_marks_without(i, true);
    let isuccs = graph.adjacent_marks_without(i, false);
    let npreds = count_both(&ipreds, &ipreds, Ghost(pred_without(g, i as int)));
    let nsuccs = count_both(&isuccs, &isuccs, Ghost(succ_without(g, i as int)));
    let reciprocal = count_both(
        &ipreds,
        &isuccs,
        Ghost(both_of(pred_without(g, i as int), succ_without(g, i as int))),
    );
    let mut total: usize = 0;
    let mut j: usize = 0;
    while j < n
        invariant
            graph.wf(),
            g == graph@,
            n == g.nodes.len(),
            i < n,
            directed_counts_fit(g, i as int),
            ipreds@.len() == n,
            isuccs@.len() == n,
            forall|x: int| 0 <= x < n ==> ipreds@[x] == pred_without(g, i as int)(x),
            forall|x: int| 0 <= x < n ==> isuccs@[x] == succ_without(g, i as int)(x),
            j <= n,
            total == directed_triangle_sum(g, i as int, j as int),
        decreases n - j,
    {
        proof {
            lemma_directed_sum_mono(g, i as int, j + 1, n as int);
        }
        if ipreds[j] || isuccs[j] {
            let jpreds = graph.adjacent_marks_without(j, true);
            let jsuccs = graph.adjacent_marks_without(j, false);
            let c1 = count_both(
                &ipreds,
                &jpreds,
                Ghost(both_of(pred_without(g, i as int), pred_without(g, j as int))),
            );
            let c2 = count_both(
                &ipreds,
                &jsuccs,
                Ghost(both_of(pred_without(g, i as int), succ_without(g, j as int))),
            );
            let c3 = count_both(
                &isuccs,
                &jpreds,
                Ghost(both_of(succ_without(g, i as int), pred_without(g, j as int))),
            );
            let c4 = count_both(
                &isuccs,
                &jsuccs,
                Ghost(both_of(succ_without(g, i as int), succ_without(g, j as int))),
            );
            let term = c1 + c2 + c3 + c4;
            if ipreds[j] {
                total = total + term;
            }
            if isuccs[j] {
                total = total + term;
            }
        }
        j = j + 1;
    }
    DirectedTrianglesAndDegree {
        node_name: graph.name_at(i),
        total_degree: npreds + nsuccs,
        reciprocal_degree: reciprocal,
        directed_triangles: total,
    }
}

/// The names to work on in a directed graph: those given, or all names of
/// the graph when `None` is given.
pub open spec fn listed_names<A>(g: GraphView<A>, node_names: Option<&[u64]>) -> Seq<u64> {
    match node_names {
        Some(ns) => ns@,
        None => g.names(),
    }
}

/// The degrees and directed triangle count of each node named in
/// `node_names` (of every node when it is `None`), in the order of the names.
pub fn get_directed_triangles_and_degrees<A: Copy>(graph: &Graph<A>, node_names: Option<&[u64]>) -> (r: Vec<
    DirectedTrianglesAndDegree,
>)
    requires
        graph.wf(),
        graph@.specs.directed || listed_names(graph@, node_names).len() == 0,
        forall|x: u64| #[trigger]
            listed_names(graph@, node_names).contains(x) ==> graph@.has_name(x) && directed_counts_fit(
                graph@,
                graph@.index_of(x),
            ),
    ensures
        r@.len() == listed_names(graph@, node_names).len(),
        forall|q: int|
            0 <= q < r@.len() ==> describes_directed_node(
                #[trigger] r@[q],
                graph@,
                graph@.index_of(listed_names(graph@, node_names)[q]),
            ),
{
    let ghost g = graph@;
    let names: Vec<u64> = match node_names {
        Some(ns) => names_to_vec(ns),
        None => graph.get_all_node_names(),
    };
    let ghost ls = listed_names(g, node_names);
    let mut r: Vec<DirectedTrianglesAndDegree> = Vec::new();
    let mut m: usize = 0;
    while m < names.len()
        invariant
            graph.wf(),
            g == graph@,
            names@ == ls,
            forall|x: u64| #[trigger] ls.contains(x) ==> g.has_name(x) && directed_counts_fit(g, g.index_of(x)),
            m <= names@.len(),
            r@.len() == m,
            forall|q: int| 0 <= q < m ==> describes_directed_node(#[trigger] r@[q], g, g.index_of(ls[q])),
        decreases names@.len() - m,
    {
        let x = names[m];
        assert(ls.contains(x));
        match graph.node_index(x) {
            Some(i) => {
                r.push(directed_triangles_of_node(graph, i));
            },
            None => {
                assert(false);
            },
        }
        m = m + 1;
    }
    r
}

/// The names of the predecessors (`preds`) or successors of the node called
/// `node_name` in a directed graph, itself excluded.
pub fn get_adjacent_nodes_without<A: Copy>(graph: &Graph<A>, node_name: &u64, preds: bool) -> (r: HashSet<u64>)
    requires
        graph.wf(),
        graph@.specs.directed,
        graph@.has_name(*node_name),
    ensures
        r@ == names_where(
            graph@,
            if preds {
                pred_without(graph@, graph@.index_of(*node_name))
            } else {
                succ_without(graph@, graph@.index_of(*node_name))
            },
            graph@.nodes.len() as int,
        ),
{
    let i = match graph.node_index(*node_name) {
        Some(i) => i,
        None => {
            return HashSet::new();
        },
    };
    let marks = graph.adjacent_marks_without(i, preds);
    let ghost p = if preds {
        pred_without(graph@, i as int)
    } else {
        succ_without(graph@, i as int)
    };
    graph.marked_names(&marks, Ghost(p))
}

/// For each node named in `node_names` (every node when none or an empty
/// list is given), the names of its neighbors.
pub fn get_neighbors_of_nodes<A: Copy>(node_names: Option<&[u64]>, graph: &Graph<A>) -> (r: HashMap<u64, HashSet<u64>>)
    requires
        graph.wf(),
        forall|x: u64| #[trigger] chosen_names(graph@, node_names).contains(x) ==> graph@.has_name(x),
    ensures
        forall|x: u64| #[trigger] r@.contains_key(x) <==> chosen_names(graph@, node_names).contains(x),
        forall|x: u64| #[trigger]
            r@.contains_key(x) ==> r@[x]@ == names_where(
                graph@,
                graph@.neighbor_test(graph@.index_of(x)),
                graph@.nodes.len() as int,
            ),
{
    let ghost g = graph@;
    let names: Vec<u64> = match node_names {
        Some(ns) => if ns.len() > 0 {
            names_to_vec(ns)
        } else {
            graph.get_all_node_names()
        },
        None => graph.get_all_node_names(),
    };
    let ghost ls = chosen_names(g, node_names);
    assert(names@ == ls);
    let mut r: HashMap<u64, HashSet<u64>> = HashMap::new();
    let mut m: usize = 0;
    while m < names.len()
        invariant
            graph.wf(),
            g == graph@,
            names@ == ls,
            forall|x: u64| #[trigger] ls.contains(x) ==> g.has_name(x),
            m <= names@.len(),
            forall|x: u64| #[trigger] r@.contains_key(x) <==> exists|p: int| 0 <= p < m && names@[p] == x,
            forall|x: u64| #[trigger]
                r@.contains_key(x) ==> r@[x]@ == names_where(g, g.neighbor_test(g.index_of(x)), g.nodes.len() as int),
        decreases names@.len() - m,
    {
        let x = names[m];
        assert(ls.contains(x));
        match graph.node_index(x) {
            Some(i) => {
                let marks = graph.neighbor_marks(i);
                let set = graph.marked_names(&marks, Ghost(g.neighbor_test(i as int)));
                r.insert(x, set);
                proof {
                    assert forall|y: u64| #[trigger] r@.contains_key(y) <==> exists|p: int| 0 <= p < m + 1 && names@[p] == y by {
                        if y == x {
                            assert(names@[m as int] == y);
                        }
                    }
                }
            },
            None => {
                assert(false);
            },
        }
        m = m + 1;
    }
    proof {
        assert forall|x: u64| #[trigger] r@.contains_key(x) <==> ls.contains(x) by {
            if ls.contains(x) {
                let p = choose|p: int| 0 <= p < ls.len() && ls[p] == x;
            }
        }
    }
    r
}

/// The triangle counts of the first `m` entries of `ts`, summed.
pub open spec fn triangle_total(ts: Seq<TrianglesAndDegrees>, m: int) -> int
    decreases m,
{
    if m <= 0 {
        0
    } else {
        triangle_total(ts, m - 1) + ts[m - 1].number_of_triangles
    }
}

/// The number of ordered pairs of neighbors, `d * (d - 1)` for a node of
/// degree `d`, over the first `m` entries of `ts`, summed.
pub open spec fn triad_total(ts: Seq<TrianglesAndDegrees>, m: int) -> int
    decreases m,
{
    if m <= 0 {
        0
    } else {
        triad_total(ts, m - 1) + ts[m - 1].degree * (ts[m - 1].degree - 1)
    }
}

proof fn lemma_totals_mono(ts: Seq<TrianglesAndDegrees>, a: int, b: int)
    requires
        0 <= a <= b,
    ensures
        triangle_total(ts, a) <= triangle_total(ts, b),
        triad_total(ts, a) <= triad_total(ts, b),
    decreases b - a,
{
    if a < b {
        lemma_totals_mono(ts, a, b - 1);
        let d = ts[b - 1].degree;
        assert(d * (d - 1) >= 0) by (nonlinear_arith)
            requires
                d >= 0,
        ;
    }
}

/// The doubled triangle counts of the entries, summed, and the ordered pairs
/// of neighbors of their nodes, summed: the two totals of which transitivity
/// is the ratio. `None` when either total exceeds a `usize`.
pub fn triangle_and_triad_totals(tads: &[TrianglesAndDegrees]) -> (r: Option<(usize, usize)>)
    ensures
        match r {
            Some((t, p)) => t == triangle_total(tads@, tads@.len() as int) && p == triad_total(
                tads@,
                tads@.len() as int,
            ),
            None => triangle_total(tads@, tads@.len() as int) > usize::MAX || triad_total(
                tads@,
                tads@.len() as int,
            ) > usize::MAX,
        },
{
    let ghost n = tads@.len() as int;
    let mut t: usize = 0;
    let mut p: usize = 0;
    let mut k: usize = 0;
    while k < tads.len()
        invariant
            n == tads@.len(),
            k <= n,
            t == triangle_total(tads@, k as int),
            p == triad_total(tads@, k as int),
        decreases n - k,
    {
        let item = &tads[k];
        proof {
            lemma_totals_mono(tads@, k + 1, n);
        }
        t = match t.checked_add(item.number_of_triangles) {
            Some(x) => x,
            None => {
                return None;
            },
        };
        let d = item.degree;
        let pairs = if d == 0 {
            0
        } else {
            match d.checked_mul(d - 1) {
                Some(x) => x,
                None => {
                    proof {
                        assert(p + d * (d - 1) >= d * (d - 1));
                    }
                    return None;
                },
            }
        };
        proof {
            assert(d == 0 ==> d * (d - 1) == 0);
        }
        p = match p.checked_add(pairs) {
            Some(x) => x,
            None => {
                return None;
            },
        };
        k = k + 1;
    }
    Some((t, p))
}

/// The sum of `f(j)` over the entries `j` of `s`.
pub open spec fn seq_sum(s: Seq<int>, f: spec_fn(int) -> int) -> int
    decreases s.len(),
{
    if s.len() == 0 {
        0
    } else {
        seq_sum(s.drop_last(), f) + f(s.last())
    }
}

proof fn lemma_directed_sum_split<A>(g: GraphView<A>, i: int, m: int)
    requires
        m >= 0,
    ensures
        directed_triangle_sum(g, i, m) == seq_sum(indices_where(m, pred_without(g, i)), |j: int| directed_term(g, i, j))
            + seq_sum(indices_where(m, succ_without(g, i)), |j: int| directed_term(g, i, j)),
    decreases m,
{
    let f = |j: int| directed_term(g, i, j);
    if m > 0 {
        lemma_directed_sum_split(g, i, m - 1);
        let ps = indices_where(m - 1, pred_without(g, i));
        let ss = indices_where(m - 1, succ_without(g, i));
        if pred_without(g, i)(m - 1) {
            assert(ps.push(m - 1).drop_last() == ps);
        }
        if succ_without(g, i)(m - 1) {
            assert(ss.push(m - 1).drop_last() == ss);
        }
    }
}

/// The directed triangle count of node `i` is the sum, over the
/// predecessors `j` of `i` and then again over its successors, of the
/// directed triangles through `i` and `j`: a node that is both a
/// predecessor and a successor of `i` is summed in both.
pub proof fn law_directed_triangles_over_preds_and_succs<A>(g: GraphView<A>, i: int)
    requires
        g.well_formed(),
        0 <= i < g.nodes.len(),
    ensures
        directed_triangle_sum(g, i, g.nodes.len() as int) == seq_sum(
            indices_where(g.nodes.len() as int, pred_without(g, i)),
            |j: int| directed_term(g, i, j),
        ) + seq_sum(indices_where(g.nodes.len() as int, succ_without(g, i)), |j: int| directed_term(g, i, j)),
{
    lemma_directed_sum_split(g, i, g.nodes.len() as int);
}

} // verus!
