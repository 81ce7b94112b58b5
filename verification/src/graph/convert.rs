use super::rebuild::{
    build_outcome, distinct_names, distinct_pairs, lemma_all_edges_addable, lemma_build_ok,
    lemma_filter_keeps_distinct, same_pair,
};
use super::{arc_values, Graph, GraphView};
use crate::{Edge, Error, ErrorKind, GraphSpecs, NAN_BITS};
use std::sync::Arc;
use vstd::prelude::*;

verus! {

/// The edges `es`, each reversed.
pub open spec fn reversed_edges<A>(es: Seq<Edge<A>>) -> Seq<Edge<A>> {
    es.map_values(|e: Edge<A>| e.spec_reversed())
}

/// The edges `es`, each with the weight given by the bit pattern `w`.
pub open spec fn reweighted_edges<A>(es: Seq<Edge<A>>, w: u64) -> Seq<Edge<A>> {
    es.map_values(|e: Edge<A>| Edge { weight_bits: w, ..e })
}

/// How the weights of the edges between two nodes are combined when a
/// directed graph becomes undirected.
#[derive(Clone, Copy, Debug, PartialEq, Eq, Structural)]
pub enum ToUndirectedCollapseEdgeWeightsStrategy {
    Max,
    Min,
    Sum,
}

/// Whether key `k` of a directed graph stands for its pair of nodes in the
/// undirected graph: it runs from the smaller index, or its reverse is absent.
pub open spec fn keeps_pair<A>(g: GraphView<A>) -> spec_fn((int, int)) -> bool {
    |k: (int, int)| k.0 <= k.1 || !g.edges.contains_key((k.1, k.0))
}

/// The edge of the undirected graph for key `k`: between the two nodes, the
/// smaller name first, without attributes or weight.
pub open spec fn plain_edge<A>(g: GraphView<A>, k: (int, int)) -> Edge<A> {
    let a = g.name(k.0);
    let b = g.name(k.1);
    Edge {
        u: if a <= b { a } else { b },
        v: if a <= b { b } else { a },
        attributes: None,
        weight_bits: NAN_BITS,
    }
}

/// The edges of the undirected version of a directed graph: one for each
/// pair of nodes joined in either direction, in the order of the keys.
pub open spec fn undirected_edges<A>(g: GraphView<A>) -> Seq<Edge<A>> {
    g.keys.filter(keeps_pair(g)).map_values(|k: (int, int)| plain_edge(g, k))
}

/// The specs with `directed` set to false.
pub open spec fn undirected_specs(s: GraphSpecs) -> GraphSpecs {
    GraphSpecs { directed: false, ..s }
}

/// The edges of a well-formed directed graph, reversed, can all be added
/// to its nodes.
pub proof fn lemma_reversed_addable<A>(g: GraphView<A>)
    requires
        g.well_formed(),
    ensures
        distinct_names(g.nodes),
        (GraphView::<A> { specs: g.specs, nodes: g.nodes, edges: Map::empty(), keys: Seq::empty() }).can_add_all(
            reversed_edges(g.all_edges()),
        ),
{
    let res = reversed_edges(g.all_edges());
    let start = GraphView::<A> { specs: g.specs, nodes: g.nodes, edges: Map::empty(), keys: Seq::empty() };
    lemma_all_edges_addable(g);
    assert forall|k: int| 0 <= k < res.len() implies start.has_name(#[trigger] res[k].u) && start.has_name(
        res[k].v,
    ) by {
        assert(g.has_name(g.all_edges()[k].u));
    }
    if !g.specs.self_loops {
        assert forall|k: int| 0 <= k < res.len() implies (#[trigger] res[k]).u != res[k].v by {
            assert(g.has_name(g.all_edges()[k].u));
        }
    }
    if !g.specs.multi_edges {
        assert forall|x: int, y: int| 0 <= x < res.len() && 0 <= y < res.len() && x != y implies !same_pair(
            g.specs.directed,
            #[trigger] res[x],
            #[trigger] res[y],
        ) by {
            assert(!same_pair(g.specs.directed, g.all_edges()[x], g.all_edges()[y]));
        }
    }
}

/// The edges of a well-formed graph, with a new weight, can all be added to
/// its nodes.
pub proof fn lemma_reweighted_addable<A>(g: GraphView<A>, w: u64)
    requires
        g.well_formed(),
    ensures
        distinct_names(g.nodes),
        (GraphView::<A> { specs: g.specs, nodes: g.nodes, edges: Map::empty(), keys: Seq::empty() }).can_add_all(
            reweighted_edges(g.all_edges(), w),
        ),
{
    let res = reweighted_edges(g.all_edges(), w);
    let start = GraphView::<A> { specs: g.specs, nodes: g.nodes, edges: Map::empty(), keys: Seq::empty() };
    lemma_all_edges_addable(g);
    assert forall|k: int| 0 <= k < res.len() implies start.has_name(#[trigger] res[k].u) && start.has_name(
        res[k].v,
    ) by {
        assert(g.has_name(g.all_edges()[k].u));
    }
    if !g.specs.self_loops {
        assert forall|k: int| 0 <= k < res.len() implies (#[trigger] res[k]).u != res[k].v by {
            assert(g.has_name(g.all_edges()[k].u));
        }
    }
    if !g.specs.multi_edges {
        assert forall|x: int, y: int| 0 <= x < res.len() && 0 <= y < res.len() && x != y implies !same_pair(
            g.specs.directed,
            #[trigger] res[x],
            #[trigger] res[y],
        ) by {
            assert(!same_pair(g.specs.directed, g.all_edges()[x], g.all_edges()[y]));
        }
    }
}

/// The edges of the undirected version of a well-formed directed graph can
/// all be added to its nodes.
pub proof fn lemma_undirected_addable<A>(g: GraphView<A>)
    requires
        g.well_formed(),
    ensures
        distinct_names(g.nodes),
        (GraphView::<A> {
            specs: undirected_specs(g.specs),
            nodes: g.nodes,
            edges: Map::empty(),
            keys: Seq::empty(),
        }).can_add_all(undirected_edges(g)),
{
    let kp = keeps_pair(g);
    let res = undirected_edges(g);
    let ks = g.keys.filter(kp);
    let us = undirected_specs(g.specs);
    let start = GraphView::<A> { specs: us, nodes: g.nodes, edges: Map::empty(), keys: Seq::empty() };
    assert forall|x: int| 0 <= x < ks.len() implies g.edges.contains_key(#[trigger] ks[x]) && kp(ks[x]) by {
        assert(ks.contains(ks[x]));
        g.keys.lemma_filter_contains_rev(kp, ks[x]);
        g.keys.lemma_filter_pred(kp, x);
    }
    assert forall|x: int| 0 <= x < res.len() implies start.has_name(#[trigger] res[x].u) && start.has_name(
        res[x].v,
    ) && (!us.self_loops ==> res[x].u != res[x].v) by {
        let k = ks[x];
        assert(g.edges.contains_key(k));
        assert(g.valid_key(k));
        assert(g.nodes[k.0].name == g.name(k.0));
        assert(g.nodes[k.1].name == g.name(k.1));
    }
    if !us.multi_edges {
        lemma_filter_keeps_distinct(g.keys, kp, |a: (int, int), b: (int, int)| a == b);
        assert forall|x: int, y: int| 0 <= x < res.len() && 0 <= y < res.len() && x != y implies !same_pair(
            us.directed,
            #[trigger] res[x],
            #[trigger] res[y],
        ) by {
            let k1 = ks[x];
            let k2 = ks[y];
            assert(k1 != k2);
            assert(g.edges.contains_key(k1) && kp(k1));
            assert(g.edges.contains_key(k2) && kp(k2));
            assert(g.valid_key(k1));
            assert(g.valid_key(k2));
            assert(g.nodes[k1.0].name == g.name(k1.0));
            assert(g.nodes[k1.1].name == g.name(k1.1));
            assert(g.nodes[k2.0].name == g.name(k2.0));
            assert(g.nodes[k2.1].name == g.name(k2.1));
        }
    }
    assert(start.can_add_all(res));
}

impl<A: Copy> Graph<A> {
    /// A directed graph with the same nodes and every edge reversed.
    pub fn reverse(&self) -> (r: Result<Graph<A>, Error>)
        requires
            self.wf(),
        ensures
            match r {
                Ok(g) => {
                    &&& self@.specs.directed
                    &&& g.wf()
                    &&& g@ == build_outcome(self@.specs, self@.nodes, reversed_edges(self@.all_edges())).0
                },
                Err(e) => !self@.specs.directed && e.kind == ErrorKind::WrongMethod,
            },
    {
        if !self.specs.directed {
            return Err(
                Error::new(
                    ErrorKind::WrongMethod,
                    "The `reverse` method is not applicable to undirected graphs.",
                ),
            );
        }
        proof {
            self.lemma_view_specs();
            self.lemma_well_formed();
        }
        let nodes = self.get_all_nodes();
        let es = self.get_all_edges();
        let mut new_edges: Vec<Arc<Edge<A>>> = Vec::new();
        let mut i: usize = 0;
        while i < es.len()
            invariant
                i <= es@.len(),
                arc_values(new_edges@) == reversed_edges(arc_values(es@).take(i as int)),
            decreases es@.len() - i,
        {
            let ghost old_new = arc_values(new_edges@);
            let e: Edge<A> = *es[i];
            let a = Arc::new(e.reversed());
            new_edges.push(a);
            proof {
                assert(e == arc_values(es@)[i as int]);
                assert(arc_values(new_edges@) =~= old_new.push(e.spec_reversed()));
                assert(arc_values(es@).take(i + 1) == arc_values(es@).take(i as int).push(e));
                assert(arc_values(new_edges@) =~= reversed_edges(arc_values(es@).take(i + 1)));
            }
            i = i + 1;
        }
        proof {
            assert(arc_values(es@).take(i as int) == arc_values(es@));
            lemma_reversed_addable(self@);
            lemma_build_ok(self@.specs, self@.nodes, reversed_edges(self@.all_edges()));
        }
        Graph::new_from_nodes_and_edges(nodes, new_edges, self.specs)
    }

    /// A graph with the same nodes and edges, every edge weight set to the
    /// weight whose bit pattern is `weight_bits`.
    pub fn set_all_edge_weights(&self, weight_bits: u64) -> (r: Graph<A>)
        requires
            self.wf(),
        ensures
            r.wf(),
            build_outcome(self@.specs, self@.nodes, reweighted_edges(self@.all_edges(), weight_bits)).1.is_none(),
            r@ == build_outcome(self@.specs, self@.nodes, reweighted_edges(self@.all_edges(), weight_bits)).0,
    {
        proof {
            self.lemma_view_specs();
            self.lemma_well_formed();
        }
        let nodes = self.get_all_nodes();
        let es = self.get_all_edges();
        let mut new_edges: Vec<Arc<Edge<A>>> = Vec::new();
        let mut i: usize = 0;
        while i < es.len()
            invariant
                i <= es@.len(),
                arc_values(new_edges@) == reweighted_edges(arc_values(es@).take(i as int), weight_bits),
            decreases es@.len() - i,
        {
            let ghost old_new = arc_values(new_edges@);
            let e: Edge<A> = *es[i];
            let a = Arc::new(Edge { weight_bits, ..e });
            new_edges.push(a);
            proof {
                assert(e == arc_values(es@)[i as int]);
                assert(arc_values(new_edges@) =~= old_new.push(Edge { weight_bits, ..e }));
                assert(arc_values(es@).take(i + 1) == arc_values(es@).take(i as int).push(e));
                assert(arc_values(new_edges@) =~= reweighted_edges(arc_values(es@).take(i + 1), weight_bits));
            }
            i = i + 1;
        }
        proof {
            assert(arc_values(es@).take(i as int) == arc_values(es@));
            lemma_reweighted_addable(self@, weight_bits);
            lemma_build_ok(self@.specs, self@.nodes, reweighted_edges(self@.all_edges(), weight_bits));
        }
        match Graph::new_from_nodes_and_edges(nodes, new_edges, self.specs) {
            Ok(g) => g,
            Err(_) => {
                assert(false);
                Graph::new(self.specs)
            },
        }
    }

    /// The undirected version of a directed graph: the same nodes, and one
    /// edge, without attributes or weight, for each pair of nodes that an
    /// edge joins in either direction.
    pub fn to_undirected(&self) -> (r: Result<Graph<A>, Error>)
        requires
            self.wf(),
        ensures
            match r {
                Ok(g) => {
                    &&& self@.specs.directed
                    &&& g.wf()
                    &&& g@ == build_outcome(undirected_specs(self@.specs), self@.nodes, undirected_edges(self@)).0
                },
                Err(e) => !self@.specs.directed && e.kind == ErrorKind::WrongMethod,
            },
    {
        if !self.specs.directed {
            return Err(
                Error::new(
                    ErrorKind::WrongMethod,
                    "The `to_undirected` method is not applicable to undirected graphs.",
                ),
            );
        }
        proof {
            self.lemma_view_specs();
            self.lemma_well_formed();
        }
        let ghost g = self@;
        let ghost kp = keeps_pair(g);
        let nodes = self.get_all_nodes();
        let mut new_edges: Vec<Arc<Edge<A>>> = Vec::new();
        let mut j: usize = 0;
        while j < self.edge_keys.len()
            invariant
                self.wf(),
                g == self@,
                g.well_formed(),
                kp == keeps_pair(g),
                j <= self.edge_keys@.len(),
                arc_values(new_edges@) == g.keys.take(j as int).filter(kp).map_values(
                    |k: (int, int)| plain_edge(g, k),
                ),
            decreases self.edge_keys@.len() - j,
        {
            let (ku, kv) = self.edge_keys[j];
            let ghost k = (ku as int, kv as int);
            proof {
                assert(g.keys[j as int] == k);
                assert(g.keys.contains(k));
                assert(g.edges.contains_key(k));
                assert(g.valid_key(k));
                assert(g.keys.take(j + 1) == g.keys.take(j as int).push(k));
                g.keys.take(j as int).lemma_filter_push(k, kp);
            }
            let keep = ku <= kv || self.find_bucket(kv, ku).is_none();
            if keep {
                let a = self.name_at(ku);
                let b = self.name_at(kv);
                let e: Edge<A> = if a <= b {
                    Edge::with_weight_bits(a, b, NAN_BITS)
                } else {
                    Edge::with_weight_bits(b, a, NAN_BITS)
                };
                let ghost old_new = arc_values(new_edges@);
                new_edges.push(Arc::new(e));
                proof {
                    assert(e == plain_edge(g, k));
                    assert(arc_values(new_edges@) =~= old_new.push(e));
                    let f = g.keys.take(j as int).filter(kp);
                    assert(f.push(k).map_values(|k: (int, int)| plain_edge(g, k)) =~= f.map_values(
                        |k: (int, int)| plain_edge(g, k),
                    ).push(plain_edge(g, k)));
                }
            }
            j = j + 1;
        }
        proof {
            assert(g.keys.take(j as int) == g.keys);
            lemma_undirected_addable(g);
            lemma_build_ok(undirected_specs(g.specs), g.nodes, undirected_edges(g));
        }
        Graph::new_from_nodes_and_edges(nodes, new_edges, GraphSpecs { directed: false, ..self.specs })
    }
}

} // verus!
