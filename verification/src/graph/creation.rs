use super::{Graph, GraphView, EdgeBucket, arc_values, int_pairs};
use crate::{Edge, EdgeDedupeStrategy, Error, ErrorKind, GraphSpecs, MissingNodeStrategy, Node, SelfLoopsFalseStrategy};
use std::collections::HashMap;
use std::sync::Arc;
use vstd::prelude::*;
use crate::shared::{arc_clone, lemma_push_contains};

verus! {

impl<A: Copy> Graph<A> {
    /// Creates an empty graph with the given specs.
    pub fn new(specs: GraphSpecs) -> (g: Graph<A>)
        ensures
            g.wf(),
            g@ == (GraphView::<A> { specs, nodes: Seq::empty(), edges: Map::empty(), keys: Seq::empty() }),
    {
        let g = Graph {
            specs,
            nodes_vec: Vec::new(),
            nodes_map: HashMap::new(),
            buckets: Vec::new(),
            successors_vec: Vec::new(),
            predecessors_vec: Vec::new(),
            edge_keys: Vec::new(),
            edge_map: Ghost(Map::empty()),
        };
        assert(g@.edges =~= Map::empty());
        assert(g@.nodes =~= Seq::empty());
        assert(g@.keys =~= Seq::empty());
        g
    }

    /// The index of the node called `name`, if the graph has one.
    pub(crate) fn node_index(&self, name: u64) -> (r: Option<usize>)
        requires
            self.wf(),
        ensures
            match r {
                Some(i) => self@.has_name(name) && i == self@.index_of(name) && i < self@.nodes.len(),
                None => !self@.has_name(name),
            },
    {
        match self.nodes_map.get(&name) {
            Some(idx) => {
                let i = *idx;
                proof {
                    assert(self@.has_name(name));
                    let j = self@.index_of(name);
                    assert(self.nodes_vec@[j].name == name);
                    assert(self.nodes_map@[name] == j);
                }
                Some(i)
            },
            None => None,
        }
    }

    /// Finds the bucket of edges from `ku` to `kv`.
    pub(crate) fn find_bucket(&self, ku: usize, kv: usize) -> (r: Option<usize>)
        requires
            self.wf(),
            ku < self@.nodes.len(),
        ensures
            match r {
                Some(b) => b < self.buckets@[ku as int]@.len() && self.buckets@[ku as int]@[b as int].target
                    == kv && self@.edges.contains_key((ku as int, kv as int)),
                None => !self@.edges.contains_key((ku as int, kv as int)),
            },
    {
        let row = &self.buckets[ku];
        let mut b: usize = 0;
        while b < row.len()
            invariant
                self.wf(),
                ku < self@.nodes.len(),
                row == self.buckets@[ku as int],
                b <= row@.len(),
                forall|c: int| 0 <= c < b ==> #[trigger] row@[c].target != kv,
            decreases row@.len() - b,
        {
            if row[b].target == kv {
                return Some(b);
            }
            b = b + 1;
        }
        proof {
            if self@.edges.contains_key((ku as int, kv as int)) {
                let c = choose|c: int| 0 <= c < self.buckets@[ku as int]@.len() && #[trigger] self.buckets@[ku as int]@[c].target == kv;
                assert(row@[c].target == kv);
            }
        }
        None
    }

    /// Adds the first edge between two nodes, under the new key (`ku`, `kv`).
    fn insert_new_key(&mut self, ku: usize, kv: usize, stored: Arc<Edge<A>>)
        requires
            old(self).wf(),
            old(self)@.valid_key((ku as int, kv as int)),
            !old(self)@.edges.contains_key((ku as int, kv as int)),
            old(self)@.edge_fits((ku as int, kv as int), *stored),
        ensures
            final(self).wf(),
            final(self)@ == (GraphView {
                edges: old(self)@.edges.insert((ku as int, kv as int), seq![*stored]),
                keys: old(self)@.keys.push((ku as int, kv as int)),
                ..old(self)@
            }),
    {
        let ghost old_view = self@;
        let ghost old_buckets = self.buckets@;
        let ghost old_succ = self.successors_vec@;
        let ghost old_pred = self.predecessors_vec@;
        let ghost k = (ku as int, kv as int);
        let ghost s = *stored;
        self.buckets[ku].push(EdgeBucket { target: kv, edges: vec![stored] });
        self.edge_keys.push((ku, kv));
        self.edge_map = Ghost(self.edge_map@.insert(k, seq![s]));
        if self.specs.directed {
            self.successors_vec[ku].push(kv);
            self.predecessors_vec[kv].push(ku);
        } else {
            self.successors_vec[ku].push(kv);
            if ku != kv {
                self.successors_vec[kv].push(ku);
            }
        }
        proof {
            let g = self@;
            assert(g.nodes == old_view.nodes);
            assert(g.keys =~= old_view.keys.push(k));
            assert forall|kk: (int, int)| #[trigger] g.edges.contains_key(kk) <==> g.keys.contains(kk) by {
                lemma_push_contains(old_view.keys, k, kk);
            }
            assert(!old_view.keys.contains(k));
            assert(arc_values(self.buckets@[ku as int]@[old_buckets[ku as int]@.len() as int].edges@) =~= seq![s]);
            assert(g.edges.dom() =~= old_view.edges.dom().insert(k));
            assert forall|kk: (int, int)| #[trigger] g.edges.contains_key(kk) implies {
                &&& g.valid_key(kk)
                &&& g.edges[kk].len() > 0
                &&& !g.specs.multi_edges ==> g.edges[kk].len() == 1
                &&& forall|m: int| 0 <= m < g.edges[kk].len() ==> g.edge_fits(kk, #[trigger] g.edges[kk][m])
            } by {
                if kk != k {
                    assert(old_view.edges.contains_key(kk));
                    assert forall|m: int| 0 <= m < g.edges[kk].len() implies g.edge_fits(kk, #[trigger] g.edges[kk][m]) by {
                        assert(old_view.edge_fits(kk, old_view.edges[kk][m]));
                    }
                } else {
                    assert forall|m: int| 0 <= m < g.edges[kk].len() implies g.edge_fits(kk, #[trigger] g.edges[kk][m]) by {
                        assert(g.edges[kk][m] == s);
                    }
                }
            }
            assert(g.well_formed());
            assert forall|u: int, bb: int|
                #![trigger self.buckets@[u]@[bb]]
                0 <= u < self.buckets@.len() && 0 <= bb < self.buckets@[u]@.len() implies {
                    &&& self.edge_map@.contains_key((u, self.buckets@[u]@[bb].target as int))
                    &&& self.edge_map@[(u, self.buckets@[u]@[bb].target as int)] == arc_values(
                        self.buckets@[u]@[bb].edges@,
                    )
                } by {
                if u == ku && bb == old_buckets[u]@.len() {
                } else {
                    assert(self.buckets@[u]@[bb] == old_buckets[u]@[bb]);
                    assert(old_view.edges.contains_key((u, old_buckets[u]@[bb].target as int)));
                }
            }
            assert forall|u: int, b1: int, b2: int|
                0 <= u < self.buckets@.len() && 0 <= b1 < self.buckets@[u]@.len() && 0 <= b2
                    < self.buckets@[u]@.len() && b1 != b2 implies #[trigger] self.buckets@[u]@[b1].target
                    != #[trigger] self.buckets@[u]@[b2].target by {
                if u == ku {
                    let last = old_buckets[u]@.len() as int;
                    if b1 == last {
                        assert(old_view.edges.contains_key((u, old_buckets[u]@[b2].target as int)));
                    } else if b2 == last {
                        assert(old_view.edges.contains_key((u, old_buckets[u]@[b1].target as int)));
                    } else {
                        assert(old_buckets[u]@[b1].target != old_buckets[u]@[b2].target);
                    }
                } else {
                    assert(old_buckets[u]@[b1].target != old_buckets[u]@[b2].target);
                }
            }
            assert forall|kk: (int, int)| #[trigger] self.edge_map@.contains_key(kk) implies exists|bb: int|
                0 <= bb < self.buckets@[kk.0]@.len() && #[trigger] self.buckets@[kk.0]@[bb].target == kk.1 by {
                if kk == k {
                    assert(self.buckets@[ku as int]@[old_buckets[ku as int]@.len() as int].target == kv);
                } else {
                    let bb = choose|bb: int| 0 <= bb < old_buckets[kk.0]@.len() && #[trigger] old_buckets[kk.0]@[bb].target == kk.1;
                    assert(self.buckets@[kk.0]@[bb].target == kk.1);
                }
            }
            assert forall|u: int, x: usize| 0 <= u < self.successors_vec@.len() implies
                (#[trigger] self.successors_vec@[u]@.contains(x) <==> (x < self.nodes_vec@.len() && g.connected(u, x as int))) by {
                assert(old_succ[u]@.contains(x) <==> (x < self.nodes_vec@.len() && old_view.connected(u, x as int)));
                let extra: Option<usize> = if u == ku {
                    Some(kv)
                } else if !g.specs.directed && u == kv {
                    Some(ku)
                } else {
                    None
                };
                match extra {
                    Some(y) => {
                        assert(self.successors_vec@[u]@ == old_succ[u]@.push(y));
                        assert(g.connected(u, y as int));
                        lemma_push_contains(old_succ[u]@, y, x);
                        assert(g.connected(u, x as int) <==> (old_view.connected(u, x as int) || x == y));
                    },
                    None => {
                        assert(self.successors_vec@[u]@ == old_succ[u]@);
                        assert(g.connected(u, x as int) <==> old_view.connected(u, x as int));
                    },
                }
            }
            assert forall|u: int| 0 <= u < self.successors_vec@.len() implies (#[trigger] self.successors_vec@[u])@.no_duplicates() by {
                assert(old_succ[u]@.no_duplicates());
                if u == ku {
                    assert(!old_succ[u]@.contains(kv)) by {
                        assert(!old_view.connected(u, kv as int));
                    }
                }
                if !g.specs.directed && u == kv && ku != kv {
                    assert(!old_succ[u]@.contains(ku)) by {
                        assert(old_view.key(u, ku as int) == k);
                    }
                }
            }
            assert forall|v: int, x: usize| 0 <= v < self.predecessors_vec@.len() implies
                (#[trigger] self.predecessors_vec@[v]@.contains(x) <==> (self.specs.directed && x < self.nodes_vec@.len()
                    && g.edges.contains_key((x as int, v)))) by {
                assert(old_pred[v]@.contains(x) <==> (self.specs.directed && x < self.nodes_vec@.len()
                    && old_view.edges.contains_key((x as int, v))));
                if g.specs.directed && v == kv {
                    assert(self.predecessors_vec@[v]@ == old_pred[v]@.push(ku));
                    lemma_push_contains(old_pred[v]@, ku, x);
                } else {
                    assert(self.predecessors_vec@[v]@ == old_pred[v]@);
                    if g.edges.contains_key((x as int, v)) && !old_view.edges.contains_key((x as int, v)) {
                        assert((x as int, v) == k);
                        assert(!g.specs.directed);
                    }
                }
            }
            assert forall|v: int| 0 <= v < self.predecessors_vec@.len() implies (#[trigger] self.predecessors_vec@[v])@.no_duplicates() by {
                assert(old_pred[v]@.no_duplicates());
                if self.specs.directed && v == kv {
                    assert(!old_pred[v]@.contains(ku));
                }
            }
            assert(g =~= (GraphView { edges: old_view.edges.insert(k, seq![s]), keys: old_view.keys.push(k), ..old_view }));
        }
    }

    /// Puts `stored` among the edges of bucket `b` of node `ku`: appended to
    /// them when `append` is set, in place of them otherwise.
    fn update_bucket(&mut self, ku: usize, b: usize, stored: Arc<Edge<A>>, append: bool)
        requires
            old(self).wf(),
            ku < old(self)@.nodes.len(),
            b < old(self).buckets@[ku as int]@.len(),
            append ==> old(self)@.specs.multi_edges,
            old(self)@.edge_fits((ku as int, old(self).buckets@[ku as int]@[b as int].target as int), *stored),
        ensures
            final(self).wf(),
            ({
                let k = (ku as int, old(self).buckets@[ku as int]@[b as int].target as int);
                final(self)@ == (GraphView {
                    edges: old(self)@.edges.insert(
                        k,
                        if append { old(self)@.edges[k].push(*stored) } else { seq![*stored] },
                    ),
                    ..old(self)@
                })
            }),
    {
        let ghost old_view = self@;
        let ghost old_buckets = self.buckets@;
        let ghost k = (ku as int, self.buckets@[ku as int]@[b as int].target as int);
        let ghost s = *stored;
        let ghost new_seq = if append { old_view.edges[k].push(s) } else { seq![s] };
        if append {
            self.buckets[ku][b].edges.push(stored);
        } else {
            self.buckets[ku][b].edges = vec![stored];
        }
        self.edge_map = Ghost(self.edge_map@.insert(k, new_seq));
        proof {
            let g = self@;
            assert(old_view.edges.contains_key(k));
            assert(g.edges.dom() =~= old_view.edges.dom());
            assert(arc_values(self.buckets@[ku as int]@[b as int].edges@) =~= new_seq);
            assert forall|kk: (int, int)| #[trigger] g.edges.contains_key(kk) implies {
                &&& g.valid_key(kk)
                &&& g.edges[kk].len() > 0
                &&& !g.specs.multi_edges ==> g.edges[kk].len() == 1
                &&& forall|m: int| 0 <= m < g.edges[kk].len() ==> g.edge_fits(kk, #[trigger] g.edges[kk][m])
            } by {
                assert(old_view.edges.contains_key(kk));
                assert forall|m: int| 0 <= m < g.edges[kk].len() implies g.edge_fits(kk, #[trigger] g.edges[kk][m]) by {
                    if kk != k || (append && m < old_view.edges[k].len()) {
                        assert(old_view.edge_fits(kk, old_view.edges[kk][m]));
                    } else {
                        assert(g.edges[kk][m] == s);
                    }
                }
            }
            assert(g.well_formed());
            assert forall|u: int, bb: int|
                #![trigger self.buckets@[u]@[bb]]
                0 <= u < self.buckets@.len() && 0 <= bb < self.buckets@[u]@.len() implies {
                    &&& self.edge_map@.contains_key((u, self.buckets@[u]@[bb].target as int))
                    &&& self.edge_map@[(u, self.buckets@[u]@[bb].target as int)] == arc_values(
                        self.buckets@[u]@[bb].edges@,
                    )
                } by {
                if u == ku && bb == b {
                } else {
                    assert(self.buckets@[u]@[bb] == old_buckets[u]@[bb]);
                    if u == ku {
                        assert(old_buckets[u]@[bb].target != old_buckets[u]@[b as int].target);
                    }
                }
            }
            assert forall|u: int, b1: int, b2: int|
                0 <= u < self.buckets@.len() && 0 <= b1 < self.buckets@[u]@.len() && 0 <= b2
                    < self.buckets@[u]@.len() && b1 != b2 implies #[trigger] self.buckets@[u]@[b1].target
                    != #[trigger] self.buckets@[u]@[b2].target by {
                assert(old_buckets[u]@[b1].target != old_buckets[u]@[b2].target);
            }
            assert forall|kk: (int, int)| #[trigger] self.edge_map@.contains_key(kk) implies exists|bb: int|
                0 <= bb < self.buckets@[kk.0]@.len() && #[trigger] self.buckets@[kk.0]@[bb].target == kk.1 by {
                let bb = choose|bb: int| 0 <= bb < old_buckets[kk.0]@.len() && #[trigger] old_buckets[kk.0]@[bb].target == kk.1;
                assert(self.buckets@[kk.0]@[bb].target == kk.1);
            }
            assert forall|u: int, x: usize| 0 <= u < self.successors_vec@.len() implies
                (#[trigger] self.successors_vec@[u]@.contains(x) <==> (x < self.nodes_vec@.len() && g.connected(u, x as int))) by {
                assert(g.connected(u, x as int) <==> old_view.connected(u, x as int));
            }
            assert forall|v: int, x: usize| 0 <= v < self.predecessors_vec@.len() implies
                (#[trigger] self.predecessors_vec@[v]@.contains(x) <==> (self.specs.directed && x < self.nodes_vec@.len()
                    && g.edges.contains_key((x as int, v)))) by {
                assert(g.edges.contains_key((x as int, v)) <==> old_view.edges.contains_key((x as int, v)));
            }
            assert(g =~= (GraphView { edges: old_view.edges.insert(k, new_seq), ..old_view }));
        }
    }

    /// Adds an edge to the graph.
    ///
    /// If the edge references nodes that don't exist, `specs.missing_node_strategy`
    /// determines what happens; a self-loop in a graph without self-loops is
    /// handled as `specs.self_loops_false_strategy` says; a duplicate edge in a
    /// graph without multi-edges as `specs.edge_dedupe_strategy` says.
    pub fn add_edge(&mut self, edge: Arc<Edge<A>>) -> (r: Result<(), Error>)
        requires
            old(self).wf(),
        ensures
            final(self).wf(),
            final(self)@ == old(self)@.add_edge_outcome(*edge).0,
            match r {
                Ok(_) => old(self)@.add_edge_outcome(*edge).1.is_none(),
                Err(e) => old(self)@.add_edge_outcome(*edge).1 == Some(e.kind),
            },
    {
        let ghost old_view = self@;
        let u = edge.u;
        let v = edge.v;
        if !self.specs.self_loops && u == v {
            match self.specs.self_loops_false_strategy {
                SelfLoopsFalseStrategy::Error => {
                    return Err(
                        Error::new(
                            ErrorKind::SelfLoopsFound,
                            "The edge is a self-loop and `specs.self_loops` is false.",
                        ),
                    );
                },
                SelfLoopsFalseStrategy::Drop => {
                    return Ok(());
                },
            }
        }
        let u_present = self.node_index(u).is_some();
        let v_present = self.node_index(v).is_some();
        if self.specs.missing_node_strategy == MissingNodeStrategy::Error && (!u_present
            || !v_present) {
            return Err(
                Error::new(
                    ErrorKind::NodeNotFound,
                    "While adding an edge one or both of the nodes was not found in the graph. \
                    Either add the nodes or set GraphSpecs.missing_node_strategy to `Create`.",
                ),
            );
        }
        if !u_present {
            self.add_node(Arc::new(Node::from_name(u)));
        }
        proof {
            assert(self@ == old_view.with_node_named(u));
        }
        let ghost g1 = self@;
        if self.node_index(v).is_none() {
            self.add_node(Arc::new(Node::from_name(v)));
        }
        proof {
            assert(self@ == g1.with_node_named(v));
        }
        let ghost g = self@;
        let ui = match self.node_index(u) {
            Some(i) => i,
            None => {
                proof {
                    if old_view.has_name(u) {
                        let j = old_view.index_of(u);
                        assert(g.nodes[j].name == u);
                    } else {
                        assert(g1.nodes[g1.nodes.len() - 1].name == u);
                        assert(g.nodes[g1.nodes.len() - 1].name == u);
                    }
                }
                return Ok(());
            },
        };
        let vi = match self.node_index(v) {
            Some(i) => i,
            None => {
                proof {
                    if g1.has_name(v) {
                        assert(g.nodes[g1.index_of(v)].name == v);
                    } else {
                        assert(g.nodes[g.nodes.len() - 1].name == v);
                    }
                }
                return Ok(());
            },
        };
        let (ku, kv) = if !self.specs.directed && ui > vi {
            (vi, ui)
        } else {
            (ui, vi)
        };
        let found = self.find_bucket(ku, kv);
        if self.specs.edge_dedupe_strategy == EdgeDedupeStrategy::Error && !self.specs.multi_edges
            && found.is_some() {
            return Err(
                Error::new(
                    ErrorKind::DuplicateEdge,
                    "A duplicate edge was found. Set the `GraphSpecs.edge_dedupe_strategy` \
                    if a different behavior is desired.",
                ),
            );
        }
        let stored: Arc<Edge<A>> = if self.specs.directed {
            edge
        } else {
            let e: Edge<A> = *edge;
            Arc::new(e.ordered())
        };
        proof {
            assert(*stored == g.stored_edge(*edge));
            assert(g.nodes[ui as int].name == u);
            assert(g.nodes[vi as int].name == v);
            assert(g.edge_fits((ku as int, kv as int), *stored));
            if !g.specs.self_loops {
                assert(ui != vi);
            }
        }
        match found {
            Some(b) => {
                if self.specs.multi_edges {
                    self.update_bucket(ku, b, stored, true);
                } else if self.specs.edge_dedupe_strategy == EdgeDedupeStrategy::KeepLast {
                    self.update_bucket(ku, b, stored, false);
                }
            },
            None => {
                self.insert_new_key(ku, kv, stored);
            },
        }
        Ok(())
    }

    /// Adds an edge, given as a (u, v) pair, to the graph.
    pub fn add_edge_tuple(&mut self, u: u64, v: u64) -> (r: Result<(), Error>)
        requires
            old(self).wf(),
        ensures
            final(self).wf(),
            ({
                let e = Edge { u, v, attributes: None, weight_bits: crate::NAN_BITS };
                &&& final(self)@ == old(self)@.add_edge_outcome(e).0
                &&& match r {
                    Ok(_) => old(self)@.add_edge_outcome(e).1.is_none(),
                    Err(err) => old(self)@.add_edge_outcome(e).1 == Some(err.kind),
                }
            }),
    {
        self.add_edge(Arc::new(Edge::new(u, v)))
    }

    /// Adds edges to the graph one after the other, stopping at the first error.
    pub fn add_edges(&mut self, edges: Vec<Arc<Edge<A>>>) -> (r: Result<(), Error>)
        requires
            old(self).wf(),
        ensures
            final(self).wf(),
            final(self)@ == old(self)@.add_edges_outcome(arc_values(edges@)).0,
            match r {
                Ok(_) => old(self)@.add_edges_outcome(arc_values(edges@)).1.is_none(),
                Err(e) => old(self)@.add_edges_outcome(arc_values(edges@)).1 == Some(e.kind),
            },
    {
        let ghost es = arc_values(edges@);
        let ghost start = self@;
        assert(es.skip(0) == es);
        let mut i: usize = 0;
        while i < edges.len()
            invariant
                self.wf(),
                es == arc_values(edges@),
                i <= edges@.len(),
                start.add_edges_outcome(es) == self@.add_edges_outcome(es.skip(i as int)),
                start == old(self)@,
            decreases edges@.len() - i,
        {
            let ghost before = self@;
            proof {
                assert(es.skip(i as int)[0] == *edges@[i as int]);
                assert(es.skip(i as int).drop_first() == es.skip(i + 1));
            }
            let r = self.add_edge(arc_clone(&edges[i]));
            match r {
                Err(e) => {
                    assert(before.add_edges_outcome(es.skip(i as int)) == (self@, Some(e.kind)));
                    return Err(e);
                },
                Ok(_) => {
                    assert(before.add_edges_outcome(es.skip(i as int)) == self@.add_edges_outcome(es.skip(i + 1)));
                },
            }
            i = i + 1;
        }
        proof {
            assert(es.skip(i as int).len() == 0);
        }
        Ok(())
    }

    /// Adds edges, given as (u, v) pairs, to the graph one after the other,
    /// stopping at the first error.
    pub fn add_edge_tuples(&mut self, edges: Vec<(u64, u64)>) -> (r: Result<(), Error>)
        requires
            old(self).wf(),
        ensures
            final(self).wf(),
            ({
                let es = edges@.map_values(
                    |t: (u64, u64)| Edge { u: t.0, v: t.1, attributes: None, weight_bits: crate::NAN_BITS },
                );
                &&& final(self)@ == old(self)@.add_edges_outcome(es).0
                &&& match r {
                    Ok(_) => old(self)@.add_edges_outcome(es).1.is_none(),
                    Err(e) => old(self)@.add_edges_outcome(es).1 == Some(e.kind),
                }
            }),
    {
        let ghost es = edges@.map_values(
            |t: (u64, u64)| Edge::<A> { u: t.0, v: t.1, attributes: None, weight_bits: crate::NAN_BITS },
        );
        let ghost start = self@;
        assert(es.skip(0) == es);
        let mut i: usize = 0;
        while i < edges.len()
            invariant
                self.wf(),
                es == edges@.map_values(
                    |t: (u64, u64)| Edge::<A> { u: t.0, v: t.1, attributes: None, weight_bits: crate::NAN_BITS },
                ),
                i <= edges@.len(),
                start.add_edges_outcome(es) == self@.add_edges_outcome(es.skip(i as int)),
                start == old(self)@,
            decreases edges@.len() - i,
        {
            proof {
                assert(es.skip(i as int)[0] == es[i as int]);
                assert(es.skip(i as int).drop_first() == es.skip(i + 1));
            }
            let ghost before = self@;
            let (u, v) = edges[i];
            let r = self.add_edge_tuple(u, v);
            match r {
                Err(e) => {
                    assert(before.add_edges_outcome(es.skip(i as int)) == (self@, Some(e.kind)));
                    return Err(e);
                },
                Ok(_) => {
                    assert(before.add_edges_outcome(es.skip(i as int)) == self@.add_edges_outcome(es.skip(i + 1)));
                },
            }
            i = i + 1;
        }
        proof {
            assert(es.skip(i as int).len() == 0);
        }
        Ok(())
    }

    /// Adds nodes to the graph one after the other, replacing any node with the
    /// same name as a new one.
    pub fn add_nodes(&mut self, nodes: Vec<Arc<Node<A>>>)
        requires
            old(self).wf(),
        ensures
            final(self).wf(),
            final(self)@ == old(self)@.add_nodes_view(arc_values(nodes@)),
    {
        let ghost ns = arc_values(nodes@);
        let ghost start = self@;
        assert(ns.skip(0) == ns);
        let mut i: usize = 0;
        while i < nodes.len()
            invariant
                self.wf(),
                ns == arc_values(nodes@),
                i <= nodes@.len(),
                start.add_nodes_view(ns) == self@.add_nodes_view(ns.skip(i as int)),
            decreases nodes@.len() - i,
        {
            proof {
                assert(ns.skip(i as int)[0] == *nodes@[i as int]);
                assert(ns.skip(i as int).drop_first() == ns.skip(i + 1));
            }
            self.add_node(arc_clone(&nodes[i]));
            i = i + 1;
        }
        proof {
            assert(ns.skip(i as int).len() == 0);
        }
    }

    /// Creates a graph from nodes and edges: the nodes are added first, then
    /// the edges, and the first error stops the construction.
    pub fn new_from_nodes_and_edges(
        nodes: Vec<Arc<Node<A>>>,
        edges: Vec<Arc<Edge<A>>>,
        specs: GraphSpecs,
    ) -> (r: Result<Graph<A>, Error>)
        ensures
            ({
                let start = GraphView::<A> { specs, nodes: Seq::empty(), edges: Map::empty(), keys: Seq::empty() };
                let after_nodes = start.add_nodes_view(arc_values(nodes@));
                let outcome = after_nodes.add_edges_outcome(arc_values(edges@));
                match r {
                    Ok(g) => g.wf() && outcome.1.is_none() && g@ == outcome.0,
                    Err(e) => outcome.1 == Some(e.kind),
                }
            }),
    {
        let mut graph = Graph::new(specs);
        proof {
            assert(graph@ == GraphView::<A> { specs, nodes: Seq::empty(), edges: Map::empty(), keys: Seq::empty() });
        }
        graph.add_nodes(nodes);
        match graph.add_edges(edges) {
            Err(e) => Err(e),
            Ok(_) => Ok(graph),
        }
    }

    /// Adds a node to the graph, or replaces the node with the same name,
    /// which updates its attributes.
    pub fn add_node(&mut self, node: Arc<Node<A>>)
        requires
            old(self).wf(),
        ensures
            final(self).wf(),
            final(self)@ == old(self)@.spec_add_node(*node),
    {
        let ghost old_view = self@;
        let ghost old_buckets = self.buckets@;
        let name = node.name;
        match self.nodes_map.get(&name) {
            Some(idx) => {
                let i = *idx;
                proof {
                    assert(self.nodes_vec@[i as int].name == name);
                    assert(old_view.has_name(name));
                    assert(old_view.index_of(name) == i) by {
                        let j = old_view.index_of(name);
                        assert(old_view.nodes[j].name == name);
                        assert(old_view.nodes[i as int].name == name);
                    }
                }
                self.nodes_vec.set(i, node);
                proof {
                    assert(arc_values(self.nodes_vec@) =~= old_view.nodes.update(i as int, *node));
                    assert(self@.nodes =~= old_view.nodes.update(i as int, *node));
                    assert forall|x: u64| #[trigger] self.nodes_map@.contains_key(x) <==> self@.has_name(x) by {
                        if old_view.has_name(x) {
                            let j = choose|j: int| 0 <= j < old_view.nodes.len() && #[trigger] old_view.nodes[j].name == x;
                            assert(self@.nodes[j].name == x);
                        }
                        if self@.has_name(x) {
                            let j = choose|j: int| 0 <= j < self@.nodes.len() && #[trigger] self@.nodes[j].name == x;
                            assert(old_view.nodes[j].name == x);
                        }
                    }
                    assert forall|k: (int, int)| #[trigger] self@.edges.contains_key(k) implies {
                        &&& self@.valid_key(k)
                        &&& forall|m: int| 0 <= m < self@.edges[k].len() ==> self@.edge_fits(k, #[trigger] self@.edges[k][m])
                    } by {
                        assert(old_view.edges.contains_key(k));
                        assert forall|m: int| 0 <= m < self@.edges[k].len() implies self@.edge_fits(k, #[trigger] self@.edges[k][m]) by {
                            assert(old_view.edge_fits(k, old_view.edges[k][m]));
                        }
                    }
                    assert forall|j: int| 0 <= j < self.nodes_vec@.len() implies self.nodes_map@[#[trigger] self.nodes_vec@[j].name] == j by {
                        assert(old_view.nodes[j].name == self@.nodes[j].name);
                    }
                    assert(self@.well_formed());
                }
            },
            None => {
                let i = self.nodes_vec.len();
                self.nodes_map.insert(name, i);
                self.nodes_vec.push(node);
                self.buckets.push(Vec::new());
                self.successors_vec.push(Vec::new());
                self.predecessors_vec.push(Vec::new());
                proof {
                    assert(!old_view.has_name(name));
                    assert(arc_values(self.nodes_vec@) =~= old_view.nodes.push(*node));
                    assert(self@.nodes =~= old_view.nodes.push(*node));
                    assert forall|x: u64| #[trigger] self.nodes_map@.contains_key(x) <==> self@.has_name(x) by {
                        if old_view.has_name(x) {
                            let j = choose|j: int| 0 <= j < old_view.nodes.len() && #[trigger] old_view.nodes[j].name == x;
                            assert(self@.nodes[j].name == x);
                        }
                        if self@.has_name(x) && x != name {
                            let j = choose|j: int| 0 <= j < self@.nodes.len() && #[trigger] self@.nodes[j].name == x;
                            assert(j < old_view.nodes.len());
                            assert(old_view.nodes[j].name == x);
                        }
                        if x == name {
                            assert(self@.nodes[i as int].name == x);
                        }
                    }
                    assert forall|k: (int, int)| #[trigger] self@.edges.contains_key(k) implies {
                        &&& self@.valid_key(k)
                        &&& forall|m: int| 0 <= m < self@.edges[k].len() ==> self@.edge_fits(k, #[trigger] self@.edges[k][m])
                    } by {
                        assert(old_view.edges.contains_key(k));
                        assert forall|m: int| 0 <= m < self@.edges[k].len() implies self@.edge_fits(k, #[trigger] self@.edges[k][m]) by {
                            assert(old_view.edge_fits(k, old_view.edges[k][m]));
                        }
                    }
                    assert forall|u: int, x: usize|
                        0 <= u < self.successors_vec@.len() implies (#[trigger] self.successors_vec@[u]@.contains(x)
                            <==> (x < self.nodes_vec@.len() && self@.connected(u, x as int))) by {
                        if u < i {
                            if x == i {
                                if self@.connected(u, x as int) {
                                    assert(old_view.valid_key(old_view.key(u, x as int)));
                                }
                            }
                        } else {
                            if self@.connected(u, x as int) {
                                assert(old_view.valid_key(old_view.key(u, x as int)));
                            }
                        }
                    }
                    assert forall|v: int, x: usize|
                        0 <= v < self.predecessors_vec@.len() implies (#[trigger] self.predecessors_vec@[v]@.contains(x)
                            <==> (self.specs.directed && x < self.nodes_vec@.len() && self@.edges.contains_key((x as int, v)))) by {
                        if self@.edges.contains_key((x as int, v)) {
                            assert(old_view.valid_key((x as int, v)));
                        }
                    }
                    assert forall|k: (int, int)| #[trigger] self.edge_map@.contains_key(k) implies exists|b: int|
                        0 <= b < self.buckets@[k.0]@.len() && #[trigger] self.buckets@[k.0]@[b].target == k.1 by {
                        assert(old_view.valid_key(k));
                        let b = choose|b: int| 0 <= b < old_buckets[k.0]@.len() && #[trigger] old_buckets[k.0]@[b].target == k.1;
                        assert(self.buckets@[k.0]@[b].target == k.1);
                    }
                    assert forall|j: int| 0 <= j < self.nodes_vec@.len() implies self.nodes_map@[#[trigger] self.nodes_vec@[j].name] == j by {
                        if j < i {
                            assert(old_view.nodes[j].name != name);
                        }
                    }
                    assert(self@.well_formed());
                }
            },
        }
    }
}

} // verus!
