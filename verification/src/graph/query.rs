use super::{arc_values, int_pairs, key_any, selector, EdgeBucket, Graph, GraphView, KeySelect};
use crate::shared::{arc_clone, lemma_push_contains};
use crate::{Edge, Error, ErrorKind, Node};
use std::sync::Arc;
use vstd::prelude::*;

verus! {

/// Filtering with a predicate that always holds keeps every element.
pub proof fn lemma_filter_all<T>(s: Seq<T>, p: spec_fn(T) -> bool)
    requires
        forall|x: T| #[trigger] p(x),
    ensures
        s.filter(p) == s,
    decreases s.len(),
{
    reveal(Seq::filter);
    if s.len() > 0 {
        lemma_filter_all(s.drop_last(), p);
        assert(s.drop_last().push(s.last()) == s);
    }
}

/// Whether `x` is one of the elements of `s`.
pub fn slice_contains(s: &[u64], x: u64) -> (r: bool)
    ensures
        r == s@.contains(x),
{
    let mut i: usize = 0;
    while i < s.len()
        invariant
            i <= s@.len(),
            forall|j: int| 0 <= j < i ==> s@[j] != x,
        decreases s@.len() - i,
    {
        if s[i] == x {
            return true;
        }
        i = i + 1;
    }
    false
}

/// The edges of `es` with an end named in `names`, as the chosen `side` says:
/// 0 for `u`, 1 for `v`, anything else for either.
pub open spec fn edge_named_on<A>(names: Seq<u64>, side: u8, e: Edge<A>) -> bool {
    if side == 0 {
        names.contains(e.u)
    } else if side == 1 {
        names.contains(e.v)
    } else {
        names.contains(e.u) || names.contains(e.v)
    }
}

impl<A: Copy> Graph<A> {
    /// Collects the edges of the keys that `sel` keeps, key after key.
    pub(crate) fn collect_edges(&self, sel: KeySelect) -> (r: Vec<Arc<Edge<A>>>)
        requires
            self.wf(),
        ensures
            arc_values(r@) == self@.edges_of_keys(self@.keys.filter(selector(sel))),
    {
        let ghost p = selector(sel);
        let mut r: Vec<Arc<Edge<A>>> = Vec::new();
        let mut j: usize = 0;
        while j < self.edge_keys.len()
            invariant
                self.wf(),
                j <= self.edge_keys@.len(),
                p == selector(sel),
                arc_values(r@) == self@.edges_of_keys(self@.keys.take(j as int).filter(p)),
            decreases self.edge_keys@.len() - j,
        {
            let (ku, kv) = self.edge_keys[j];
            let ghost k = (ku as int, kv as int);
            proof {
                assert(self@.keys[j as int] == k);
                assert(self@.keys.take(j + 1) == self@.keys.take(j as int).push(k));
                self@.keys.take(j as int).lemma_filter_push(k, p);
            }
            let keep = match sel {
                KeySelect::All => true,
                KeySelect::Into(i) => kv == i,
                KeySelect::OutOf(i) => ku == i,
                KeySelect::OutToOther(i) => ku == i && kv != i,
                KeySelect::Touching(i) => ku == i || kv == i,
            };
            if keep {
                proof {
                    assert(self@.keys.contains(k));
                    assert(self@.edges.contains_key(k));
                    assert(self@.valid_key(k));
                    let f = self@.keys.take(j as int).filter(p);
                    assert(f.push(k).drop_last() == f);
                }
                let found = self.find_bucket(ku, kv);
                match found {
                    Some(b) => {
                        let bucket = &self.buckets[ku][b];
                        let ghost before = arc_values(r@);
                        let mut m: usize = 0;
                        while m < bucket.edges.len()
                            invariant
                                self.wf(),
                                m <= bucket.edges@.len(),
                                arc_values(r@) == before + arc_values(bucket.edges@).take(m as int),
                            decreases bucket.edges@.len() - m,
                        {
                            let ghost old_r = r@;
                            let x = arc_clone(&bucket.edges[m]);
                            r.push(x);
                            proof {
                                assert(arc_values(r@) =~= arc_values(old_r).push(*x));
                                assert(arc_values(bucket.edges@).take(m + 1) == arc_values(bucket.edges@).take(m as int).push(*bucket.edges@[m as int]));
                                assert(arc_values(r@) =~= before + arc_values(bucket.edges@).take(m + 1));
                            }
                            m = m + 1;
                        }
                        proof {
                            assert(arc_values(bucket.edges@).take(m as int) == arc_values(bucket.edges@));
                            assert(self@.edges[k] == arc_values(self.buckets@[ku as int]@[b as int].edges@));
                        }
                    },
                    None => {},
                }
            }
            j = j + 1;
        }
        proof {
            assert(self@.keys.take(j as int) == self@.keys);
        }
        r
    }

    /// The edge from node `u` to node `v` (in an undirected graph: between
    /// them), given by their indexes: the first one where there are several.
    pub fn get_edge_by_indexes(&self, u: usize, v: usize) -> (r: Result<Arc<Edge<A>>, Error>)
        requires
            self.wf(),
        ensures
            match r {
                Ok(e) => self@.connected(u as int, v as int) && *e == self@.edges_between(
                    u as int,
                    v as int,
                )[0],
                Err(e) => e.kind == ErrorKind::EdgeNotFound && !self@.connected(u as int, v as int),
            },
    {
        let (ku, kv) = if !self.specs.directed && u > v {
            (v, u)
        } else {
            (u, v)
        };
        if ku >= self.nodes_vec.len() {
            proof {
                if self@.edges.contains_key((ku as int, kv as int)) {
                    assert(self@.valid_key((ku as int, kv as int)));
                }
            }
            return Err(Error::new(ErrorKind::EdgeNotFound, "The requested edge does not exist."));
        }
        match self.find_bucket(ku, kv) {
            Some(b) => {
                let bucket = &self.buckets[ku][b];
                proof {
                    assert(self@.edges[(ku as int, kv as int)] == arc_values(bucket.edges@));
                    assert(self@.edges[(ku as int, kv as int)].len() > 0);
                }
                Ok(arc_clone(&bucket.edges[0]))
            },
            None => Err(Error::new(ErrorKind::EdgeNotFound, "The requested edge does not exist.")),
        }
    }

    /// The edges from node `u` to node `v` (in an undirected graph: between
    /// them), given by their indexes.
    pub(crate) fn get_edges_by_indexes(&self, u: usize, v: usize) -> (r: Result<Vec<Arc<Edge<A>>>, Error>)
        requires
            self.wf(),
        ensures
            match r {
                Ok(es) => self@.connected(u as int, v as int) && arc_values(es@) == self@.edges_between(
                    u as int,
                    v as int,
                ),
                Err(e) => e.kind == ErrorKind::EdgeNotFound && !self@.connected(u as int, v as int),
            },
    {
        let (ku, kv) = if !self.specs.directed && u > v {
            (v, u)
        } else {
            (u, v)
        };
        if ku >= self.nodes_vec.len() {
            proof {
                if self@.edges.contains_key((ku as int, kv as int)) {
                    assert(self@.valid_key((ku as int, kv as int)));
                }
            }
            return Err(Error::new(ErrorKind::EdgeNotFound, "The requested edge does not exist."));
        }
        match self.find_bucket(ku, kv) {
            Some(b) => {
                let bucket = &self.buckets[ku][b];
                let mut r: Vec<Arc<Edge<A>>> = Vec::new();
                let mut m: usize = 0;
                while m < bucket.edges.len()
                    invariant
                        m <= bucket.edges@.len(),
                        arc_values(r@) == arc_values(bucket.edges@).take(m as int),
                    decreases bucket.edges@.len() - m,
                {
                    let ghost old_r = r@;
                    let x = arc_clone(&bucket.edges[m]);
                    r.push(x);
                    proof {
                        assert(arc_values(r@) =~= arc_values(old_r).push(*x));
                        assert(arc_values(bucket.edges@).take(m + 1) =~= arc_values(bucket.edges@).take(m as int).push(*x));
                    }
                    m = m + 1;
                }
                proof {
                    assert(arc_values(bucket.edges@).take(m as int) == arc_values(bucket.edges@));
                    assert(self@.edges[(ku as int, kv as int)] == arc_values(bucket.edges@));
                }
                Ok(r)
            },
            None => Err(Error::new(ErrorKind::EdgeNotFound, "The requested edge does not exist.")),
        }
    }

    /// The edge from the node called `u` to the node called `v` (in an
    /// undirected graph: between them), in a graph without multi-edges.
    pub fn get_edge(&self, u: u64, v: u64) -> (r: Result<Arc<Edge<A>>, Error>)
        requires
            self.wf(),
        ensures
            match r {
                Ok(e) => !self@.specs.multi_edges && self@.has_name(u) && self@.has_name(v)
                    && self@.connected(self@.index_of(u), self@.index_of(v)) && *e == self@.edges_between(
                    self@.index_of(u),
                    self@.index_of(v),
                )[0],
                Err(e) => if self@.specs.multi_edges {
                    e.kind == ErrorKind::WrongMethod
                } else if !self@.has_name(u) || !self@.has_name(v) {
                    e.kind == ErrorKind::NodeNotFound
                } else {
                    e.kind == ErrorKind::EdgeNotFound && !self@.connected(self@.index_of(u), self@.index_of(v))
                },
            },
    {
        if self.specs.multi_edges {
            return Err(
                Error::new(
                    ErrorKind::WrongMethod,
                    "Use the `get_edges` method when `GraphSpecs.multi_edges` is `true`.",
                ),
            );
        }
        let ui = self.node_index(u);
        let vi = self.node_index(v);
        match (ui, vi) {
            (Some(i), Some(j)) => self.get_edge_by_indexes(i, j),
            _ => Err(
                Error::new(
                    ErrorKind::NodeNotFound,
                    "One or both of the specified nodes were not found in the graph.",
                ),
            ),
        }
    }

    /// The edges from the node called `u` to the node called `v` (in an
    /// undirected graph: between them), in a graph with multi-edges.
    pub fn get_edges(&self, u: u64, v: u64) -> (r: Result<Vec<Arc<Edge<A>>>, Error>)
        requires
            self.wf(),
        ensures
            match r {
                Ok(es) => self@.specs.multi_edges && self@.has_name(u) && self@.has_name(v)
                    && self@.connected(self@.index_of(u), self@.index_of(v)) && arc_values(es@)
                    == self@.edges_between(self@.index_of(u), self@.index_of(v)),
                Err(e) => if !self@.specs.multi_edges {
                    e.kind == ErrorKind::WrongMethod
                } else if !self@.has_name(u) || !self@.has_name(v) {
                    e.kind == ErrorKind::NodeNotFound
                } else {
                    e.kind == ErrorKind::EdgeNotFound && !self@.connected(self@.index_of(u), self@.index_of(v))
                },
            },
    {
        if !self.specs.multi_edges {
            return Err(
                Error::new(
                    ErrorKind::WrongMethod,
                    "Use the `get_edge` method when `multi_edges` is `false`",
                ),
            );
        }
        let ui = self.node_index(u);
        let vi = self.node_index(v);
        match (ui, vi) {
            (Some(i), Some(j)) => self.get_edges_by_indexes(i, j),
            _ => Err(
                Error::new(
                    ErrorKind::NodeNotFound,
                    "One or both of the specified nodes were not found in the graph.",
                ),
            ),
        }
    }

    /// All edges of the graph.
    pub fn get_all_edges(&self) -> (r: Vec<Arc<Edge<A>>>)
        requires
            self.wf(),
        ensures
            arc_values(r@) == self@.all_edges(),
    {
        let r = self.collect_edges(KeySelect::All);
        proof {
            lemma_filter_all(self@.keys, key_any());
        }
        r
    }

    /// Keeps the edges of `es` with an end named in `names`, on the side that
    /// `side` chooses.
    fn filter_edges_by_names(es: Vec<Arc<Edge<A>>>, names: &[u64], side: u8) -> (r: Vec<Arc<Edge<A>>>)
        ensures
            arc_values(r@) == arc_values(es@).filter(|e: Edge<A>| edge_named_on(names@, side, e)),
    {
        let ghost p = |e: Edge<A>| edge_named_on(names@, side, e);
        let mut r: Vec<Arc<Edge<A>>> = Vec::new();
        let mut i: usize = 0;
        while i < es.len()
            invariant
                i <= es@.len(),
                p == (|e: Edge<A>| edge_named_on(names@, side, e)),
                arc_values(r@) == arc_values(es@).take(i as int).filter(p),
            decreases es@.len() - i,
        {
            let e = arc_clone(&es[i]);
            proof {
                assert(arc_values(es@).take(i + 1) == arc_values(es@).take(i as int).push(*e));
                arc_values(es@).take(i as int).lemma_filter_push(*e, p);
            }
            let keep = if side == 0 {
                slice_contains(names, e.u)
            } else if side == 1 {
                slice_contains(names, e.v)
            } else {
                slice_contains(names, e.u) || slice_contains(names, e.v)
            };
            if keep {
                let ghost old_r = r@;
                r.push(e);
                proof {
                    assert(arc_values(r@) =~= arc_values(old_r).push(*e));
                }
            }
            i = i + 1;
        }
        proof {
            assert(arc_values(es@).take(i as int) == arc_values(es@));
        }
        r
    }

    /// All edges that connect to a node named in `names`.
    pub fn get_edges_for_nodes(&self, names: &[u64]) -> (r: Result<Vec<Arc<Edge<A>>>, Error>)
        requires
            self.wf(),
        ensures
            match r {
                Ok(es) => (forall|i: int| 0 <= i < names@.len() ==> self@.has_name(#[trigger] names@[i]))
                    && arc_values(es@) == self@.all_edges().filter(
                    |e: Edge<A>| names@.contains(e.u) || names@.contains(e.v),
                ),
                Err(e) => e.kind == ErrorKind::NodeNotFound && !(forall|i: int|
                    0 <= i < names@.len() ==> self@.has_name(#[trigger] names@[i])),
            },
    {
        if !self.has_nodes(names) {
            return Err(
                Error::new(
                    ErrorKind::NodeNotFound,
                    "One or more of the specified nodes were not found in the graph.",
                ),
            );
        }
        let r = Self::filter_edges_by_names(self.get_all_edges(), names, 2);
        proof {
            assert((|e: Edge<A>| edge_named_on(names@, 2, e)) =~= (|e: Edge<A>| names@.contains(e.u)
                || names@.contains(e.v)));
        }
        Ok(r)
    }

    /// All edges (u, v) of a directed graph where v is named in `names`.
    pub fn get_in_edges_for_nodes(&self, names: &[u64]) -> (r: Result<Vec<Arc<Edge<A>>>, Error>)
        requires
            self.wf(),
        ensures
            match r {
                Ok(es) => self@.specs.directed && (forall|i: int|
                    0 <= i < names@.len() ==> self@.has_name(#[trigger] names@[i])) && arc_values(es@)
                    == self@.all_edges().filter(|e: Edge<A>| names@.contains(e.v)),
                Err(e) => if !self@.specs.directed {
                    e.kind == ErrorKind::WrongMethod
                } else {
                    e.kind == ErrorKind::NodeNotFound && !(forall|i: int|
                        0 <= i < names@.len() ==> self@.has_name(#[trigger] names@[i]))
                },
            },
    {
        if !self.specs.directed {
            return Err(
                Error::new(
                    ErrorKind::WrongMethod,
                    "Use the `get_edges_for_nodes` method when `directed` is `false`",
                ),
            );
        }
        if !self.has_nodes(names) {
            return Err(
                Error::new(
                    ErrorKind::NodeNotFound,
                    "One or more of the specified nodes were not found in the graph.",
                ),
            );
        }
        let r = Self::filter_edges_by_names(self.get_all_edges(), names, 1);
        proof {
            assert((|e: Edge<A>| edge_named_on(names@, 1, e)) =~= (|e: Edge<A>| names@.contains(e.v)));
        }
        Ok(r)
    }

    /// All edges (u, v) of a directed graph where u is named in `names`.
    pub fn get_out_edges_for_nodes(&self, names: &[u64]) -> (r: Result<Vec<Arc<Edge<A>>>, Error>)
        requires
            self.wf(),
        ensures
            match r {
                Ok(es) => self@.specs.directed && (forall|i: int|
                    0 <= i < names@.len() ==> self@.has_name(#[trigger] names@[i])) && arc_values(es@)
                    == self@.all_edges().filter(|e: Edge<A>| names@.contains(e.u)),
                Err(e) => if !self@.specs.directed {
                    e.kind == ErrorKind::WrongMethod
                } else {
                    e.kind == ErrorKind::NodeNotFound && !(forall|i: int|
                        0 <= i < names@.len() ==> self@.has_name(#[trigger] names@[i]))
                },
            },
    {
        if !self.specs.directed {
            return Err(
                Error::new(
                    ErrorKind::WrongMethod,
                    "Use the `get_edges_for_nodes` method when `directed` is `false`",
                ),
            );
        }
        if !self.has_nodes(names) {
            return Err(
                Error::new(
                    ErrorKind::NodeNotFound,
                    "One or more of the specified nodes were not found in the graph.",
                ),
            );
        }
        let r = Self::filter_edges_by_names(self.get_all_edges(), names, 0);
        proof {
            assert((|e: Edge<A>| edge_named_on(names@, 0, e)) =~= (|e: Edge<A>| names@.contains(e.u)));
        }
        Ok(r)
    }

    /// All edges that connect to the node called `name`, each once: in a
    /// directed graph its in-edges followed by its out-edges to other nodes.
    pub fn get_edges_for_node(&self, name: u64) -> (r: Result<Vec<Arc<Edge<A>>>, Error>)
        requires
            self.wf(),
        ensures
            match r {
                Ok(es) => self@.has_name(name) && arc_values(es@) == self@.edges_for_node(
                    self@.index_of(name),
                ),
                Err(e) => e.kind == ErrorKind::NodeNotFound && !self@.has_name(name),
            },
    {
        let i = match self.node_index(name) {
            Some(i) => i,
            None => {
                return Err(
                    Error::new(ErrorKind::NodeNotFound, "The requested node was not found in the graph."),
                );
            },
        };
        if self.specs.directed {
            let mut r = self.collect_edges(KeySelect::Into(i));
            let mut out = self.collect_edges(KeySelect::OutToOther(i));
            let ghost a = r@;
            let ghost b = out@;
            r.append(&mut out);
            proof {
                assert(arc_values(r@) =~= arc_values(a) + arc_values(b));
                assert(arc_values(a) == self@.in_edges(i as int));
                assert(arc_values(b) == self@.out_edges_to_others(i as int));
            }
            Ok(r)
        } else {
            let r = self.collect_edges(KeySelect::Touching(i));
            proof {
            }
            Ok(r)
        }
    }

    /// All edges (u, v) of a directed graph where v is the node called `name`.
    pub fn get_in_edges_for_node(&self, name: u64) -> (r: Result<Vec<Arc<Edge<A>>>, Error>)
        requires
            self.wf(),
        ensures
            match r {
                Ok(es) => self@.specs.directed && self@.has_name(name) && arc_values(es@)
                    == self@.in_edges(self@.index_of(name)),
                Err(e) => if !self@.specs.directed {
                    e.kind == ErrorKind::WrongMethod
                } else {
                    e.kind == ErrorKind::NodeNotFound && !self@.has_name(name)
                },
            },
    {
        if !self.specs.directed {
            return Err(
                Error::new(
                    ErrorKind::WrongMethod,
                    "Use the `get_edges_for_node` method when `directed` is `false`",
                ),
            );
        }
        let i = match self.node_index(name) {
            Some(i) => i,
            None => {
                return Err(
                    Error::new(ErrorKind::NodeNotFound, "The requested node was not found in the graph."),
                );
            },
        };
        let r = self.collect_edges(KeySelect::Into(i));
        proof {
        }
        Ok(r)
    }

    /// All edges (u, v) of a directed graph where u is the node called `name`.
    pub fn get_out_edges_for_node(&self, name: u64) -> (r: Result<Vec<Arc<Edge<A>>>, Error>)
        requires
            self.wf(),
        ensures
            match r {
                Ok(es) => self@.specs.directed && self@.has_name(name) && arc_values(es@)
                    == self@.out_edges(self@.index_of(name)),
                Err(e) => if !self@.specs.directed {
                    e.kind == ErrorKind::WrongMethod
                } else {
                    e.kind == ErrorKind::NodeNotFound && !self@.has_name(name)
                },
            },
    {
        if !self.specs.directed {
            return Err(
                Error::new(
                    ErrorKind::WrongMethod,
                    "Use the `get_edges_for_node` method when `directed` is `false`",
                ),
            );
        }
        let i = match self.node_index(name) {
            Some(i) => i,
            None => {
                return Err(
                    Error::new(ErrorKind::NodeNotFound, "The requested node was not found in the graph."),
                );
            },
        };
        let r = self.collect_edges(KeySelect::OutOf(i));
        proof {
        }
        Ok(r)
    }

    /// Whether the graph has a node called `name`.
    pub fn has_node(&self, name: &u64) -> (r: bool)
        requires
            self.wf(),
        ensures
            r == self@.has_name(*name),
    {
        self.node_index(*name).is_some()
    }

    /// Whether the graph has a node for every name in `names`.
    pub fn has_nodes(&self, names: &[u64]) -> (r: bool)
        requires
            self.wf(),
        ensures
            r == forall|i: int| 0 <= i < names@.len() ==> self@.has_name(#[trigger] names@[i]),
    {
        let mut i: usize = 0;
        while i < names.len()
            invariant
                self.wf(),
                i <= names@.len(),
                forall|j: int| 0 <= j < i ==> self@.has_name(#[trigger] names@[j]),
            decreases names@.len() - i,
        {
            if !self.has_node(&names[i]) {
                return false;
            }
            i = i + 1;
        }
        true
    }

    /// The index of the node called `name`.
    pub fn get_node_index(&self, name: &u64) -> (r: Result<usize, Error>)
        requires
            self.wf(),
        ensures
            match r {
                Ok(i) => self@.has_name(*name) && i == self@.index_of(*name) && i < self@.nodes.len(),
                Err(e) => !self@.has_name(*name) && e.kind == ErrorKind::NodeNotFound,
            },
    {
        match self.node_index(*name) {
            Some(i) => Ok(i),
            None => Err(Error::new(ErrorKind::NodeNotFound, "Node not found in the graph.")),
        }
    }

    /// The name of the node at index `i`.
    pub(crate) fn name_at(&self, i: usize) -> (r: u64)
        requires
            self.wf(),
            i < self@.nodes.len(),
        ensures
            r == self@.name(i as int),
    {
        self.nodes_vec[i].name
    }

    /// The number of nodes in the graph.
    pub fn number_of_nodes(&self) -> (r: usize)
        requires
            self.wf(),
        ensures
            r == self@.nodes.len(),
    {
        self.nodes_vec.len()
    }

    /// The number of pairs of nodes joined by edges: parallel edges count once.
    pub fn number_of_edges(&self) -> (r: usize)
        requires
            self.wf(),
        ensures
            r == self@.keys.len(),
            r == self@.edges.dom().len(),
    {
        proof {
            assert(self@.edges.dom() =~= self@.keys.to_set());
            self@.keys.unique_seq_to_set();
        }
        self.edge_keys.len()
    }

    /// All nodes of the graph, in the order in which they were added.
    pub fn get_all_nodes(&self) -> (r: Vec<Arc<Node<A>>>)
        requires
            self.wf(),
        ensures
            arc_values(r@) == self@.nodes,
    {
        let mut r: Vec<Arc<Node<A>>> = Vec::new();
        let mut i: usize = 0;
        while i < self.nodes_vec.len()
            invariant
                self.wf(),
                i <= self.nodes_vec@.len(),
                arc_values(r@) == self@.nodes.take(i as int),
            decreases self.nodes_vec@.len() - i,
        {
            let ghost old_r = r@;
            let x = arc_clone(&self.nodes_vec[i]);
            r.push(x);
            proof {
                assert(arc_values(r@) =~= arc_values(old_r).push(*x));
                assert(self@.nodes.take(i + 1) =~= self@.nodes.take(i as int).push(*x));
            }
            i = i + 1;
        }
        proof {
            assert(self@.nodes.take(i as int) == self@.nodes);
        }
        r
    }

    /// The names of all nodes of the graph, in the order in which they were added.
    pub fn get_all_node_names(&self) -> (r: Vec<u64>)
        requires
            self.wf(),
        ensures
            r@ == self@.names(),
    {
        let mut r: Vec<u64> = Vec::new();
        let mut i: usize = 0;
        while i < self.nodes_vec.len()
            invariant
                self.wf(),
                i <= self.nodes_vec@.len(),
                r@ == self@.names().take(i as int),
            decreases self.nodes_vec@.len() - i,
        {
            r.push(self.nodes_vec[i].name);
            proof {
                assert(self@.names().take(i + 1) =~= self@.names().take(i as int).push(self@.nodes[i as int].name));
            }
            i = i + 1;
        }
        proof {
            assert(self@.names().take(i as int) == self@.names());
        }
        r
    }

    /// The node called `name`, if the graph has one.
    pub fn get_node(&self, name: u64) -> (r: Option<Arc<Node<A>>>)
        requires
            self.wf(),
        ensures
            match r {
                Some(n) => self@.has_name(name) && *n == self@.nodes[self@.index_of(name)],
                None => !self@.has_name(name),
            },
    {
        match self.node_index(name) {
            Some(i) => Some(arc_clone(&self.nodes_vec[i])),
            None => None,
        }
    }

    /// The node with index `index`: the node added `index`-th.
    pub fn get_node_by_index(&self, index: &usize) -> (r: Option<Arc<Node<A>>>)
        requires
            self.wf(),
        ensures
            match r {
                Some(n) => *index < self@.nodes.len() && *n == self@.nodes[*index as int],
                None => *index >= self@.nodes.len(),
            },
    {
        if *index < self.nodes_vec.len() {
            Some(arc_clone(&self.nodes_vec[*index]))
        } else {
            None
        }
    }

    /// Whether every edge has a weight: a weight that is not not-a-number.
    pub fn edges_have_weight(&self) -> (r: bool)
        requires
            self.wf(),
        ensures
            r == forall|m: int| 0 <= m < self@.all_edges().len() ==> !crate::is_nan_bits(
                #[trigger] self@.all_edges()[m].weight_bits,
            ),
    {
        let es = self.get_all_edges();
        let mut i: usize = 0;
        while i < es.len()
            invariant
                i <= es@.len(),
                arc_values(es@) == self@.all_edges(),
                forall|m: int| 0 <= m < i ==> !crate::is_nan_bits(#[trigger] self@.all_edges()[m].weight_bits),
            decreases es@.len() - i,
        {
            if crate::weight_is_nan(es[i].weight_bits) {
                proof {
                    assert(self@.all_edges()[i as int] == *es@[i as int]);
                }
                return false;
            }
            proof {
                assert(self@.all_edges()[i as int] == *es@[i as int]);
            }
            i = i + 1;
        }
        true
    }
}

} // verus!
