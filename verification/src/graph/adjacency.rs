use super::{arc_values, indices_where, Graph, GraphView};
use crate::shared::{arc_clone, lemma_push_contains};
use crate::{Edge, Error, ErrorKind, Node};
use std::collections::{HashMap, HashSet};
use std::sync::Arc;
use vstd::prelude::*;

verus! {

broadcast use vstd::std_specs::hash::group_hash_axioms;

/// Whether `j` is a predecessor (`preds`) or a successor of `i`.
pub open spec fn adjacency_test<A>(g: GraphView<A>, preds: bool, i: int) -> spec_fn(int) -> bool {
    if preds {
        g.pred_test(i)
    } else {
        g.succ_test(i)
    }
}

/// Whether node `i` has a predecessor (`preds`) or a successor.
pub open spec fn has_adjacent<A>(g: GraphView<A>, preds: bool, i: int) -> bool {
    exists|j: int| 0 <= j < g.nodes.len() && #[trigger] adjacency_test(g, preds, i)(j)
}

/// The names of the nodes at the indexes below `m` where `p` holds.
pub open spec fn names_where<A>(g: GraphView<A>, p: spec_fn(int) -> bool, m: int) -> Set<u64> {
    Set::new(|x: u64| exists|j: int| 0 <= j < m && j < g.nodes.len() && p(j) && #[trigger] g.nodes[j].name == x)
}

/// Marks the entries of `list` among the indexes below `n`.
fn marks_of(n: usize, list: &Vec<usize>) -> (r: Vec<bool>)
    ensures
        r@.len() == n,
        forall|j: int| 0 <= j < n ==> r@[j] == list@.contains(j as usize),
{
    let mut r: Vec<bool> = Vec::new();
    let mut j: usize = 0;
    while j < n
        invariant
            j <= n,
            r@.len() == j,
            forall|x: int| 0 <= x < j ==> r@[x] == false,
        decreases n - j,
    {
        r.push(false);
        j = j + 1;
    }
    let mut i: usize = 0;
    while i < list.len()
        invariant
            i <= list@.len(),
            r@.len() == n,
            forall|x: int| 0 <= x < n ==> r@[x] == list@.take(i as int).contains(x as usize),
        decreases list@.len() - i,
    {
        let x = list[i];
        if x < n {
            r.set(x, true);
        }
        proof {
            assert(list@.take(i + 1) == list@.take(i as int).push(x));
            assert forall|y: int| 0 <= y < n implies r@[y] == list@.take(i + 1).contains(y as usize) by {
                lemma_push_contains(list@.take(i as int), x, y as usize);
            }
        }
        i = i + 1;
    }
    proof {
        assert(list@.take(i as int) == list@);
    }
    r
}

/// The marked indexes, in increasing order.
pub(crate) fn marked_indexes(marks: &Vec<bool>, Ghost(p): Ghost<spec_fn(int) -> bool>) -> (r: Vec<usize>)
    requires
        forall|j: int| 0 <= j < marks@.len() ==> marks@[j] == p(j),
    ensures
        r@.map_values(|j: usize| j as int) == indices_where(marks@.len() as int, p),
        forall|m: int| 0 <= m < r@.len() ==> r@[m] < marks@.len(),
{
    let mut r: Vec<usize> = Vec::new();
    let mut j: usize = 0;
    while j < marks.len()
        invariant
            j <= marks@.len(),
            forall|x: int| 0 <= x < marks@.len() ==> marks@[x] == p(x),
            r@.map_values(|x: usize| x as int) == indices_where(j as int, p),
            forall|m: int| 0 <= m < r@.len() ==> r@[m] < j,
        decreases marks@.len() - j,
    {
        let ghost old_r = r@;
        if marks[j] {
            r.push(j);
            assert(r@.map_values(|x: usize| x as int) =~= old_r.map_values(|x: usize| x as int).push(j as int));
        }
        j = j + 1;
    }
    r
}

/// Whether any index is marked.
fn any_marked(marks: &Vec<bool>) -> (r: bool)
    ensures
        r == exists|j: int| 0 <= j < marks@.len() && marks@[j],
{
    let mut j: usize = 0;
    while j < marks.len()
        invariant
            j <= marks@.len(),
            forall|k: int| 0 <= k < j ==> !marks@[k],
        decreases marks@.len() - j,
    {
        if marks[j] {
            return true;
        }
        j = j + 1;
    }
    false
}

impl<A: Copy> Graph<A> {
    /// The nodes at the given indexes.
    fn nodes_at_indexes(&self, ix: &Vec<usize>) -> (r: Vec<Arc<Node<A>>>)
        requires
            self.wf(),
            forall|m: int| 0 <= m < ix@.len() ==> ix@[m] < self@.nodes.len(),
        ensures
            arc_values(r@) == self@.nodes_at(ix@.map_values(|j: usize| j as int)),
    {
        let ghost ixi = ix@.map_values(|j: usize| j as int);
        let mut r: Vec<Arc<Node<A>>> = Vec::new();
        let mut m: usize = 0;
        while m < ix.len()
            invariant
                self.wf(),
                m <= ix@.len(),
                ixi == ix@.map_values(|j: usize| j as int),
                forall|q: int| 0 <= q < ix@.len() ==> ix@[q] < self@.nodes.len(),
                arc_values(r@) == self@.nodes_at(ixi.take(m as int)),
            decreases ix@.len() - m,
        {
            let ghost old_r = r@;
            let x = arc_clone(&self.nodes_vec[ix[m]]);
            r.push(x);
            proof {
                assert(arc_values(r@) =~= arc_values(old_r).push(*x));
                assert(ixi.take(m + 1) == ixi.take(m as int).push(ixi[m as int]));
                assert(self@.nodes_at(ixi.take(m + 1)) =~= self@.nodes_at(ixi.take(m as int)).push(
                    self@.nodes[ixi[m as int]],
                ));
            }
            m = m + 1;
        }
        proof {
            assert(ixi.take(m as int) == ixi);
        }
        r
    }

    /// The names of the nodes at the given indexes.
    fn names_at_indexes(&self, ix: &Vec<usize>) -> (r: Vec<u64>)
        requires
            self.wf(),
            forall|m: int| 0 <= m < ix@.len() ==> ix@[m] < self@.nodes.len(),
        ensures
            r@ == self@.names_at(ix@.map_values(|j: usize| j as int)),
    {
        let ghost ixi = ix@.map_values(|j: usize| j as int);
        let mut r: Vec<u64> = Vec::new();
        let mut m: usize = 0;
        while m < ix.len()
            invariant
                self.wf(),
                m <= ix@.len(),
                ixi == ix@.map_values(|j: usize| j as int),
                forall|q: int| 0 <= q < ix@.len() ==> ix@[q] < self@.nodes.len(),
                r@ == self@.names_at(ixi.take(m as int)),
            decreases ix@.len() - m,
        {
            r.push(self.nodes_vec[ix[m]].name);
            proof {
                assert(ixi.take(m + 1) == ixi.take(m as int).push(ixi[m as int]));
                assert(self@.names_at(ixi.take(m + 1)) =~= self@.names_at(ixi.take(m as int)).push(
                    self@.nodes[ixi[m as int]].name,
                ));
            }
            m = m + 1;
        }
        proof {
            assert(ixi.take(m as int) == ixi);
        }
        r
    }

    /// The indexes of the successors of node `i`, in increasing order.
    pub(crate) fn successor_indexes(&self, i: usize) -> (r: Vec<usize>)
        requires
            self.wf(),
            i < self@.nodes.len(),
        ensures
            r@.map_values(|j: usize| j as int) == self@.successor_indices(i as int),
            forall|m: int| 0 <= m < r@.len() ==> r@[m] < self@.nodes.len(),
    {
        let marks = marks_of(self.nodes_vec.len(), &self.successors_vec[i]);
        marked_indexes(&marks, Ghost(self@.succ_test(i as int)))
    }

    /// The indexes of the predecessors of node `i`, in increasing order.
    pub(crate) fn predecessor_indexes(&self, i: usize) -> (r: Vec<usize>)
        requires
            self.wf(),
            i < self@.nodes.len(),
        ensures
            r@.map_values(|j: usize| j as int) == self@.predecessor_indices(i as int),
            forall|m: int| 0 <= m < r@.len() ==> r@[m] < self@.nodes.len(),
    {
        let marks = marks_of(self.nodes_vec.len(), &self.predecessors_vec[i]);
        marked_indexes(&marks, Ghost(self@.pred_test(i as int)))
    }

    /// Marks the successors of node `i` among all nodes.
    pub(crate) fn successor_marks(&self, i: usize) -> (r: Vec<bool>)
        requires
            self.wf(),
            i < self@.nodes.len(),
        ensures
            r@.len() == self@.nodes.len(),
            forall|x: int| 0 <= x < r@.len() ==> r@[x] == self@.succ_test(i as int)(x),
    {
        marks_of(self.nodes_vec.len(), &self.successors_vec[i])
    }

    /// Marks the predecessors of node `i` among all nodes.
    pub(crate) fn predecessor_marks(&self, i: usize) -> (r: Vec<bool>)
        requires
            self.wf(),
            i < self@.nodes.len(),
        ensures
            r@.len() == self@.nodes.len(),
            forall|x: int| 0 <= x < r@.len() ==> r@[x] == self@.pred_test(i as int)(x),
    {
        marks_of(self.nodes_vec.len(), &self.predecessors_vec[i])
    }

    /// Marks the neighbors of node `i` among all nodes.
    pub(crate) fn neighbor_marks(&self, i: usize) -> (r: Vec<bool>)
        requires
            self.wf(),
            i < self@.nodes.len(),
        ensures
            r@.len() == self@.nodes.len(),
            forall|x: int| 0 <= x < r@.len() ==> r@[x] == self@.neighbor_test(i as int)(x),
    {
        let n = self.nodes_vec.len();
        let succ = marks_of(n, &self.successors_vec[i]);
        let pred = marks_of(n, &self.predecessors_vec[i]);
        let mut marks: Vec<bool> = Vec::new();
        let mut j: usize = 0;
        while j < n
            invariant
                self.wf(),
                i < self@.nodes.len(),
                n == self@.nodes.len(),
                j <= n,
                succ@.len() == n,
                pred@.len() == n,
                forall|x: int| 0 <= x < n ==> succ@[x] == self.successors_vec@[i as int]@.contains(x as usize),
                forall|x: int| 0 <= x < n ==> pred@[x] == self.predecessors_vec@[i as int]@.contains(x as usize),
                marks@.len() == j,
                forall|x: int| 0 <= x < j ==> marks@[x] == self@.neighbor_test(i as int)(x),
            decreases n - j,
        {
            marks.push(succ[j] || pred[j]);
            j = j + 1;
        }
        marks
    }

    /// The indexes of the neighbors of node `i`, in increasing order.
    pub(crate) fn neighbor_indexes(&self, i: usize) -> (r: Vec<usize>)
        requires
            self.wf(),
            i < self@.nodes.len(),
        ensures
            r@.map_values(|j: usize| j as int) == self@.neighbor_indices(i as int),
            forall|m: int| 0 <= m < r@.len() ==> r@[m] < self@.nodes.len(),
    {
        let marks = self.neighbor_marks(i);
        marked_indexes(&marks, Ghost(self@.neighbor_test(i as int)))
    }

    /// All nodes joined by an edge to the node called `name`: in a directed
    /// graph its predecessors and successors, each once, by increasing index.
    pub fn get_neighbor_nodes(&self, name: u64) -> (r: Result<Vec<Arc<Node<A>>>, Error>)
        requires
            self.wf(),
        ensures
            match r {
                Ok(ns) => self@.has_name(name) && arc_values(ns@) == self@.nodes_at(
                    self@.neighbor_indices(self@.index_of(name)),
                ),
                Err(e) => e.kind == ErrorKind::NodeNotFound && !self@.has_name(name),
            },
    {
        match self.node_index(name) {
            Some(i) => {
                let ix = self.neighbor_indexes(i);
                Ok(self.nodes_at_indexes(&ix))
            },
            None => Err(
                Error::new(ErrorKind::NodeNotFound, "The requested node was not found in the graph."),
            ),
        }
    }

    /// The nodes u of the edges (u, v) of a directed graph where v is the node
    /// called `name`, each once, by increasing index.
    pub fn get_predecessor_nodes(&self, name: u64) -> (r: Result<Vec<Arc<Node<A>>>, Error>)
        requires
            self.wf(),
        ensures
            match r {
                Ok(ns) => self@.specs.directed && self@.has_name(name) && arc_values(ns@)
                    == self@.nodes_at(self@.predecessor_indices(self@.index_of(name))),
                Err(e) => if !self@.specs.directed {
                    e.kind == ErrorKind::WrongMethod
                } else {
                    e.kind == ErrorKind::NodeNotFound && !self@.has_name(name)
                },
            },
    {
        if !self.specs.directed {
            return Err(
                Error::new(
                    ErrorKind::WrongMethod,
                    "For undirected graphs use the `get_neighbor_nodes` method instead of `get_predecessor_nodes`",
                ),
            );
        }
        match self.node_index(name) {
            Some(i) => {
                let ix = self.predecessor_indexes(i);
                Ok(self.nodes_at_indexes(&ix))
            },
            None => Err(
                Error::new(ErrorKind::NodeNotFound, "The requested node was not found in the graph."),
            ),
        }
    }

    /// The names of the predecessors of the node called `name` in a directed graph.
    pub fn get_predecessor_node_names(&self, name: u64) -> (r: Result<Vec<u64>, Error>)
        requires
            self.wf(),
        ensures
            match r {
                Ok(ns) => self@.specs.directed && self@.has_name(name) && ns@ == self@.names_at(
                    self@.predecessor_indices(self@.index_of(name)),
                ),
                Err(e) => if !self@.specs.directed {
                    e.kind == ErrorKind::WrongMethod
                } else {
                    e.kind == ErrorKind::NodeNotFound && !self@.has_name(name)
                },
            },
    {
        if !self.specs.directed {
            return Err(
                Error::new(
                    ErrorKind::WrongMethod,
                    "For undirected graphs use the `get_neighbor_nodes` method instead of `get_predecessor_nodes`",
                ),
            );
        }
        match self.node_index(name) {
            Some(i) => {
                let ix = self.predecessor_indexes(i);
                Ok(self.names_at_indexes(&ix))
            },
            None => Err(
                Error::new(ErrorKind::NodeNotFound, "The requested node was not found in the graph."),
            ),
        }
    }

    /// The nodes v of the edges (u, v) of a directed graph where u is the node
    /// called `name`, each once, by increasing index.
    pub fn get_successor_nodes(&self, name: u64) -> (r: Result<Vec<Arc<Node<A>>>, Error>)
        requires
            self.wf(),
        ensures
            match r {
                Ok(ns) => self@.specs.directed && self@.has_name(name) && arc_values(ns@)
                    == self@.nodes_at(self@.successor_indices(self@.index_of(name))),
                Err(e) => if !self@.specs.directed {
                    e.kind == ErrorKind::WrongMethod
                } else {
                    e.kind == ErrorKind::NodeNotFound && !self@.has_name(name)
                },
            },
    {
        if !self.specs.directed {
            return Err(
                Error::new(
                    ErrorKind::WrongMethod,
                    "For undirected graphs use the `get_neighbor_nodes` method instead of `get_successor_nodes`",
                ),
            );
        }
        match self.node_index(name) {
            Some(i) => {
                let ix = self.successor_indexes(i);
                Ok(self.nodes_at_indexes(&ix))
            },
            None => Err(
                Error::new(ErrorKind::NodeNotFound, "The requested node was not found in the graph."),
            ),
        }
    }

    /// The names of the successors of the node called `name` in a directed graph.
    pub fn get_successor_node_names(&self, name: u64) -> (r: Result<Vec<u64>, Error>)
        requires
            self.wf(),
        ensures
            match r {
                Ok(ns) => self@.specs.directed && self@.has_name(name) && ns@ == self@.names_at(
                    self@.successor_indices(self@.index_of(name)),
                ),
                Err(e) => if !self@.specs.directed {
                    e.kind == ErrorKind::WrongMethod
                } else {
                    e.kind == ErrorKind::NodeNotFound && !self@.has_name(name)
                },
            },
    {
        if !self.specs.directed {
            return Err(
                Error::new(
                    ErrorKind::WrongMethod,
                    "For undirected graphs use the `get_neighbor_nodes` method instead of `get_successor_nodes`",
                ),
            );
        }
        match self.node_index(name) {
            Some(i) => {
                let ix = self.successor_indexes(i);
                Ok(self.names_at_indexes(&ix))
            },
            None => Err(
                Error::new(ErrorKind::NodeNotFound, "The requested node was not found in the graph."),
            ),
        }
    }

    /// The successors of the node called `name` in a directed graph, its
    /// neighbors in an undirected one.
    pub fn get_successors_or_neighbors(&self, name: u64) -> (r: Vec<Arc<Node<A>>>)
        requires
            self.wf(),
            self@.has_name(name),
        ensures
            arc_values(r@) == self@.nodes_at(
                if self@.specs.directed {
                    self@.successor_indices(self@.index_of(name))
                } else {
                    self@.neighbor_indices(self@.index_of(name))
                },
            ),
    {
        let i = match self.node_index(name) {
            Some(i) => i,
            None => {
                return Vec::new();
            },
        };
        if self.specs.directed {
            let ix = self.successor_indexes(i);
            self.nodes_at_indexes(&ix)
        } else {
            let ix = self.neighbor_indexes(i);
            self.nodes_at_indexes(&ix)
        }
    }

    /// The names of the nodes at the marked indexes.
    pub(crate) fn marked_names(&self, marks: &Vec<bool>, Ghost(p): Ghost<spec_fn(int) -> bool>) -> (r: HashSet<u64>)
        requires
            self.wf(),
            marks@.len() == self@.nodes.len(),
            forall|j: int| 0 <= j < marks@.len() ==> marks@[j] == p(j),
        ensures
            r@ == names_where(self@, p, self@.nodes.len() as int),
    {
        let ghost g = self@;
        let mut r: HashSet<u64> = HashSet::new();
        let mut j: usize = 0;
        while j < marks.len()
            invariant
                self.wf(),
                g == self@,
                marks@.len() == g.nodes.len(),
                forall|x: int| 0 <= x < marks@.len() ==> marks@[x] == p(x),
                j <= marks@.len(),
                r@ == names_where(g, p, j as int),
            decreases marks@.len() - j,
        {
            if marks[j] {
                let x = self.name_at(j);
                r.insert(x);
                proof {
                    assert(g.nodes[j as int].name == x);
                    assert(r@ =~= names_where(g, p, j + 1));
                }
            } else {
                assert(names_where(g, p, j as int) =~= names_where(g, p, j + 1));
            }
            j = j + 1;
        }
        r
    }

    /// For each node with a successor (a neighbor, in an undirected graph),
    /// the names of its successors.
    pub fn get_successors_map(&self) -> (r: HashMap<u64, HashSet<u64>>)
        requires
            self.wf(),
        ensures
            forall|x: u64| #[trigger]
                r@.contains_key(x) <==> self@.has_name(x) && exists|j: int|
                    0 <= j < self@.nodes.len() && #[trigger] self@.succ_test(self@.index_of(x))(j),
            forall|x: u64| #[trigger]
                r@.contains_key(x) ==> r@[x]@ == names_where(
                    self@,
                    self@.succ_test(self@.index_of(x)),
                    self@.nodes.len() as int,
                ),
    {
        let r = self.adjacency_map(false);
        proof {
            let g = self@;
            assert forall|x: u64| #[trigger]
                r@.contains_key(x) <==> g.has_name(x) && exists|j: int|
                    0 <= j < g.nodes.len() && #[trigger] g.succ_test(g.index_of(x))(j) by {
                if g.has_name(x) && exists|j: int| 0 <= j < g.nodes.len() && #[trigger] g.succ_test(g.index_of(x))(j) {
                    let j = choose|j: int| 0 <= j < g.nodes.len() && #[trigger] g.succ_test(g.index_of(x))(j);
                    assert(adjacency_test(g, false, g.index_of(x))(j));
                }
                if r@.contains_key(x) {
                    let j = choose|j: int| 0 <= j < g.nodes.len() && #[trigger] adjacency_test(g, false, g.index_of(x))(j);
                    assert(g.succ_test(g.index_of(x))(j));
                }
            }
        }
        r
    }

    /// For each node of a directed graph with a predecessor, the names of its
    /// predecessors; empty for an undirected graph.
    pub fn get_predecessors_map(&self) -> (r: HashMap<u64, HashSet<u64>>)
        requires
            self.wf(),
        ensures
            forall|x: u64| #[trigger]
                r@.contains_key(x) <==> self@.has_name(x) && exists|j: int|
                    0 <= j < self@.nodes.len() && #[trigger] self@.pred_test(self@.index_of(x))(j),
            forall|x: u64| #[trigger]
                r@.contains_key(x) ==> r@[x]@ == names_where(
                    self@,
                    self@.pred_test(self@.index_of(x)),
                    self@.nodes.len() as int,
                ),
    {
        let r = self.adjacency_map(true);
        proof {
            let g = self@;
            assert forall|x: u64| #[trigger]
                r@.contains_key(x) <==> g.has_name(x) && exists|j: int|
                    0 <= j < g.nodes.len() && #[trigger] g.pred_test(g.index_of(x))(j) by {
                if g.has_name(x) && exists|j: int| 0 <= j < g.nodes.len() && #[trigger] g.pred_test(g.index_of(x))(j) {
                    let j = choose|j: int| 0 <= j < g.nodes.len() && #[trigger] g.pred_test(g.index_of(x))(j);
                    assert(adjacency_test(g, true, g.index_of(x))(j));
                }
                if r@.contains_key(x) {
                    let j = choose|j: int| 0 <= j < g.nodes.len() && #[trigger] adjacency_test(g, true, g.index_of(x))(j);
                    assert(g.pred_test(g.index_of(x))(j));
                }
            }
        }
        r
    }

    /// The map of the predecessors (`preds`) or successors of the nodes that have any.
    fn adjacency_map(&self, preds: bool) -> (r: HashMap<u64, HashSet<u64>>)
        requires
            self.wf(),
        ensures
            forall|x: u64| #[trigger]
                r@.contains_key(x) <==> self@.has_name(x) && exists|j: int|
                    0 <= j < self@.nodes.len() && #[trigger] adjacency_test(self@, preds, self@.index_of(x))(j),
            forall|x: u64| #[trigger]
                r@.contains_key(x) ==> r@[x]@ == names_where(
                    self@,
                    adjacency_test(self@, preds, self@.index_of(x)),
                    self@.nodes.len() as int,
                ),
    {
        let ghost g = self@;
        proof {
            self.lemma_well_formed();
        }
        let n = self.nodes_vec.len();
        let mut r: HashMap<u64, HashSet<u64>> = HashMap::new();
        let mut i: usize = 0;
        while i < n
            invariant
                self.wf(),
                g == self@,
                g.well_formed(),
                n == g.nodes.len(),
                i <= n,
                forall|x: u64| #[trigger]
                    r@.contains_key(x) <==> exists|k: int|
                        0 <= k < i && g.nodes[k].name == x && has_adjacent(g, preds, k),
                forall|x: u64| #[trigger]
                    r@.contains_key(x) ==> r@[x]@ == names_where(g, adjacency_test(g, preds, g.index_of(x)), n as int),
            decreases n - i,
        {
            let marks = if preds {
                self.predecessor_marks(i)
            } else {
                self.successor_marks(i)
            };
            let set = self.marked_names(&marks, Ghost(adjacency_test(g, preds, i as int)));
            let any = any_marked(&marks);
            let name = self.name_at(i);
            proof {
                assert(g.nodes[i as int].name == name);
                assert(g.has_name(name));
                assert(g.index_of(name) == i as int);
            }
            if any {
                proof {
                    let j = choose|j: int| 0 <= j < marks@.len() && marks@[j];
                    assert(adjacency_test(g, preds, i as int)(j));
                    assert(has_adjacent(g, preds, i as int));
                }
                r.insert(name, set);
                proof {
                    assert forall|x: u64| #[trigger]
                        r@.contains_key(x) <==> exists|k: int| 0 <= k < i + 1 && g.nodes[k].name == x && has_adjacent(g, preds, k) by {
                        if x == name {
                            assert(g.nodes[i as int].name == x && has_adjacent(g, preds, i as int));
                        } else if exists|k: int| 0 <= k < i + 1 && g.nodes[k].name == x && has_adjacent(g, preds, k) {
                            let k = choose|k: int| 0 <= k < i + 1 && g.nodes[k].name == x && has_adjacent(g, preds, k);
                            assert(k != i);
                        }
                    }
                }
            } else {
                proof {
                    if has_adjacent(g, preds, i as int) {
                        let j = choose|j: int| 0 <= j < g.nodes.len() && #[trigger] adjacency_test(g, preds, i as int)(j);
                        assert(marks@[j]);
                    }
                    assert forall|x: u64| #[trigger]
                        r@.contains_key(x) <==> exists|k: int| 0 <= k < i + 1 && g.nodes[k].name == x && has_adjacent(g, preds, k) by {
                        if exists|k: int| 0 <= k < i + 1 && g.nodes[k].name == x && has_adjacent(g, preds, k) {
                            let k = choose|k: int| 0 <= k < i + 1 && g.nodes[k].name == x && has_adjacent(g, preds, k);
                            assert(k != i);
                        }
                    }
                }
            }
            i = i + 1;
        }
        proof {
            assert forall|x: u64| #[trigger] r@.contains_key(x) <==> g.has_name(x) && exists|j: int|
                0 <= j < g.nodes.len() && #[trigger] adjacency_test(g, preds, g.index_of(x))(j) by {
                if r@.contains_key(x) {
                    let k = choose|k: int| 0 <= k < i && g.nodes[k].name == x && has_adjacent(g, preds, k);
                    assert(g.index_of(x) == k);
                }
                if g.has_name(x) && exists|j: int| 0 <= j < g.nodes.len() && #[trigger] adjacency_test(g, preds, g.index_of(x))(j) {
                    let k = g.index_of(x);
                    assert(g.nodes[k].name == x);
                    assert(has_adjacent(g, preds, k));
                }
            }
        }
        r
    }
}

} // verus!
