use super::{arc_values, self_loop_at, Graph, GraphView};
use crate::{Edge, Error, ErrorKind};
use std::collections::HashMap;
use std::sync::Arc;
use vstd::prelude::*;

verus! {

broadcast use vstd::std_specs::hash::group_hash_axioms;

/// The number of self-loops at the node called `x` among `es`.
fn count_self_loops<A: Copy>(es: &Vec<Arc<Edge<A>>>, x: u64) -> (r: usize)
    ensures
        r == arc_values(es@).filter(self_loop_at(x)).len(),
        r <= es@.len(),
{
    let ghost p = self_loop_at::<A>(x);
    let mut count: usize = 0;
    let mut i: usize = 0;
    while i < es.len()
        invariant
            i <= es@.len(),
            p == self_loop_at::<A>(x),
            count == arc_values(es@).take(i as int).filter(p).len(),
            count <= i,
        decreases es@.len() - i,
    {
        proof {
            assert(arc_values(es@).take(i + 1) == arc_values(es@).take(i as int).push(*es@[i as int]));
            arc_values(es@).take(i as int).lemma_filter_push(*es@[i as int], p);
        }
        if es[i].u == x && es[i].v == x {
            count = count + 1;
        }
        i = i + 1;
    }
    proof {
        assert(arc_values(es@).take(i as int) == arc_values(es@));
    }
    count
}

/// The degrees of the named nodes, keyed by name.
pub open spec fn degree_map<A>(g: GraphView<A>, d: spec_fn(int) -> int) -> Map<u64, int> {
    Map::new(|x: u64| g.has_name(x), |x: u64| d(g.index_of(x)))
}

impl<A: Copy> Graph<A> {
    /// The degree of the node called `name`: the number of edges adjacent to
    /// it, where a self-loop counts twice.
    pub fn get_node_degree(&self, name: u64) -> (r: Option<usize>)
        requires
            self.wf(),
            self@.has_name(name) ==> 2 * self@.edges_for_node(self@.index_of(name)).len() <= usize::MAX,
        ensures
            match r {
                Some(d) => self@.has_name(name) && d == self@.degree(self@.index_of(name)),
                None => !self@.has_name(name),
            },
    {
        match self.get_edges_for_node(name) {
            Err(_) => None,
            Ok(edges) => {
                let total = edges.len();
                let loops = count_self_loops(&edges, name);
                proof {
                    let i = self@.index_of(name);
                    assert(self@.nodes[i].name == name);
                }
                Some(total + loops)
            },
        }
    }

    /// The in-degree of the node called `name` in a directed graph: the number
    /// of edges (u, v) where v is the node.
    pub fn get_node_in_degree(&self, name: u64) -> (r: Option<usize>)
        requires
            self.wf(),
        ensures
            match r {
                Some(d) => self@.specs.directed && self@.has_name(name) && d == self@.in_edges(
                    self@.index_of(name),
                ).len(),
                None => !self@.specs.directed || !self@.has_name(name),
            },
    {
        match self.get_in_edges_for_node(name) {
            Err(_) => None,
            Ok(edges) => Some(edges.len()),
        }
    }

    /// The out-degree of the node called `name` in a directed graph: the number
    /// of edges (u, v) where u is the node.
    pub fn get_node_out_degree(&self, name: u64) -> (r: Option<usize>)
        requires
            self.wf(),
        ensures
            match r {
                Some(d) => self@.specs.directed && self@.has_name(name) && d == self@.out_edges(
                    self@.index_of(name),
                ).len(),
                None => !self@.specs.directed || !self@.has_name(name),
            },
    {
        match self.get_out_edges_for_node(name) {
            Err(_) => None,
            Ok(edges) => Some(edges.len()),
        }
    }

    /// The degree of every node, keyed by name.
    pub fn get_degree_for_all_nodes(&self) -> (r: HashMap<u64, usize>)
        requires
            self.wf(),
            self@.degrees_fit(),
        ensures
            r@.dom() == degree_map(self@, |i: int| self@.degree(i)).dom(),
            forall|x: u64| #[trigger] r@.contains_key(x) ==> r@[x] == self@.degree(self@.index_of(x)),
    {
        let mut r: HashMap<u64, usize> = HashMap::new();
        let mut i: usize = 0;
        while i < self.nodes_vec.len()
            invariant
                self.wf(),
                self@.degrees_fit(),
                i <= self@.nodes.len(),
                forall|x: u64| #[trigger] r@.contains_key(x) <==> exists|j: int| 0 <= j < i && self@.nodes[j].name == x,
                forall|x: u64| #[trigger] r@.contains_key(x) ==> r@[x] == self@.degree(self@.index_of(x)),
            decreases self@.nodes.len() - i,
        {
            let name = self.nodes_vec[i].name;
            proof {
                assert(self@.nodes[i as int].name == name);
                assert(self@.has_name(name));
                assert(self@.index_of(name) == i) by {
                    let j = self@.index_of(name);
                    assert(self@.nodes[j].name == name);
                }
                assert(2 * self@.edges_for_node(i as int).len() <= usize::MAX);
            }
            let d = match self.get_node_degree(name) {
                Some(d) => d,
                None => 0,
            };
            r.insert(name, d);
            proof {
                assert forall|x: u64| #[trigger] r@.contains_key(x) <==> exists|j: int| 0 <= j < i + 1 && self@.nodes[j].name == x by {
                    if x == name {
                        assert(self@.nodes[i as int].name == x);
                    }
                }
            }
            i = i + 1;
        }
        proof {
            assert(r@.dom() =~= degree_map(self@, |i: int| self@.degree(i)).dom()) by {
                assert forall|x: u64| r@.contains_key(x) <==> self@.has_name(x) by {
                    if self@.has_name(x) {
                        let j = choose|j: int| 0 <= j < self@.nodes.len() && #[trigger] self@.nodes[j].name == x;
                        assert(exists|jj: int| 0 <= jj < i && self@.nodes[jj].name == x);
                    }
                }
            }
        }
        r
    }

    /// The in-degree of every node of a directed graph, keyed by name.
    pub fn get_in_degree_for_all_nodes(&self) -> (r: Result<HashMap<u64, usize>, Error>)
        requires
            self.wf(),
        ensures
            match r {
                Ok(m) => self@.specs.directed && (forall|x: u64| #[trigger] m@.contains_key(x) <==> self@.has_name(x))
                    && forall|x: u64| #[trigger] m@.contains_key(x) ==> m@[x] == self@.in_edges(self@.index_of(x)).len(),
                Err(e) => !self@.specs.directed && e.kind == ErrorKind::WrongMethod,
            },
    {
        self.degrees_by_direction(true)
    }

    /// The out-degree of every node of a directed graph, keyed by name.
    pub fn get_out_degree_for_all_nodes(&self) -> (r: Result<HashMap<u64, usize>, Error>)
        requires
            self.wf(),
        ensures
            match r {
                Ok(m) => self@.specs.directed && (forall|x: u64| #[trigger] m@.contains_key(x) <==> self@.has_name(x))
                    && forall|x: u64| #[trigger] m@.contains_key(x) ==> m@[x] == self@.out_edges(self@.index_of(x)).len(),
                Err(e) => !self@.specs.directed && e.kind == ErrorKind::WrongMethod,
            },
    {
        self.degrees_by_direction(false)
    }

    fn degrees_by_direction(&self, incoming: bool) -> (r: Result<HashMap<u64, usize>, Error>)
        requires
            self.wf(),
        ensures
            match r {
                Ok(m) => self@.specs.directed && (forall|x: u64| #[trigger] m@.contains_key(x) <==> self@.has_name(x))
                    && forall|x: u64| #[trigger] m@.contains_key(x) ==> m@[x] == (if incoming {
                        self@.in_edges(self@.index_of(x))
                    } else {
                        self@.out_edges(self@.index_of(x))
                    }).len(),
                Err(e) => !self@.specs.directed && e.kind == ErrorKind::WrongMethod,
            },
    {
        if !self.specs.directed {
            return Err(
                Error::new(
                    ErrorKind::WrongMethod,
                    "Use the `get_degree_for_all_nodes` method when `directed` is `false`",
                ),
            );
        }
        let mut r: HashMap<u64, usize> = HashMap::new();
        let mut i: usize = 0;
        while i < self.nodes_vec.len()
            invariant
                self.wf(),
                self@.specs.directed,
                i <= self@.nodes.len(),
                forall|x: u64| #[trigger] r@.contains_key(x) <==> exists|j: int| 0 <= j < i && self@.nodes[j].name == x,
                forall|x: u64| #[trigger] r@.contains_key(x) ==> r@[x] == (if incoming {
                    self@.in_edges(self@.index_of(x))
                } else {
                    self@.out_edges(self@.index_of(x))
                }).len(),
            decreases self@.nodes.len() - i,
        {
            let name = self.nodes_vec[i].name;
            proof {
                assert(self@.nodes[i as int].name == name);
                assert(self@.has_name(name));
            }
            let d = if incoming {
                self.get_node_in_degree(name)
            } else {
                self.get_node_out_degree(name)
            };
            let d = match d {
                Some(d) => d,
                None => 0,
            };
            r.insert(name, d);
            proof {
                assert forall|x: u64| #[trigger] r@.contains_key(x) <==> exists|j: int| 0 <= j < i + 1 && self@.nodes[j].name == x by {
                    if x == name {
                        assert(self@.nodes[i as int].name == x);
                    }
                }
            }
            i = i + 1;
        }
        proof {
            assert forall|x: u64| #[trigger] r@.contains_key(x) <==> self@.has_name(x) by {
                if self@.has_name(x) {
                    let j = choose|j: int| 0 <= j < self@.nodes.len() && #[trigger] self@.nodes[j].name == x;
                    assert(exists|jj: int| 0 <= jj < i && self@.nodes[jj].name == x);
                }
            }
        }
        Ok(r)
    }
}

} // verus!
