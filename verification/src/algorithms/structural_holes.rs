use crate::shared::{lemma_indices_where_member, lemma_indices_where_witness};
use crate::Graph;
use vstd::prelude::*;

verus! {

/// Whether node `u` has no successors: no edge leads out of it (in an
/// undirected graph: no edge touches it), so that it constrains nothing.
pub fn is_isolated<A: Copy>(graph: &Graph<A>, u: usize) -> (r: bool)
    requires
        graph.wf(),
        u < graph@.nodes.len(),
    ensures
        r <==> forall|j: int| 0 <= j < graph@.nodes.len() ==> !#[trigger] graph@.connected(u as int, j),
{
    let ghost g = graph@;
    let succ = graph.successor_indexes(u);
    let none = succ.len() == 0;
    proof {
        let s = g.successor_indices(u as int);
        assert(succ@.map_values(|j: usize| j as int).len() == succ@.len());
        if none {
            assert forall|j: int| 0 <= j < g.nodes.len() implies !#[trigger] g.connected(u as int, j) by {
                if g.connected(u as int, j) {
                    lemma_indices_where_member(g.nodes.len() as int, g.succ_test(u as int), j);
                }
            }
        } else {
            lemma_indices_where_witness(g.nodes.len() as int, g.succ_test(u as int));
        }
    }
    none
}

} // verus!
