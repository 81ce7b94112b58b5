use crate::graph::slice_contains;
use crate::shared::arc_clone;
use crate::{arc_values, Edge, Error, ErrorKind, Graph};
use std::sync::Arc;
use vstd::prelude::*;

verus! {

/// Whether `x` belongs to the second set of nodes: those named in `nbunch2`,
/// or, when it is `None`, those not named in `nbunch1`.
pub open spec fn in_second_bunch(nbunch1: Seq<u64>, nbunch2: Option<&[u64]>, x: u64) -> bool {
    match nbunch2 {
        Some(ns) => ns@.contains(x),
        None => !nbunch1.contains(x),
    }
}

/// Whether edge `e` is on the boundary: it joins a node of the first set and
/// a node of the second, in either order, and it leaves a node of the first
/// set (directed) or touches one (undirected).
pub open spec fn on_boundary<A>(directed: bool, nbunch1: Seq<u64>, nbunch2: Option<&[u64]>) -> spec_fn(
    Edge<A>,
) -> bool {
    |e: Edge<A>|
        {
            &&& if directed {
                nbunch1.contains(e.u)
            } else {
                nbunch1.contains(e.u) || nbunch1.contains(e.v)
            }
            &&& (nbunch1.contains(e.u) && in_second_bunch(nbunch1, nbunch2, e.v)) || (in_second_bunch(
                nbunch1,
                nbunch2,
                e.u,
            ) && nbunch1.contains(e.v))
        }
}

/// Whether every name in `ns` names a node of `graph`.
pub open spec fn all_named<A>(graph: &Graph<A>, ns: &[u64]) -> bool {
    forall|i: int| 0 <= i < ns@.len() ==> graph@.has_name(#[trigger] ns@[i])
}

/// The edge boundary of the nodes named in `nbunch1` with respect to those
/// named in `nbunch2` (or, when it is `None`, all other nodes): the edges
/// that join the two sets, in the order in which the graph lists its edges.
pub fn edge_boundary<A: Copy>(graph: &Graph<A>, nbunch1: &[u64], nbunch2: Option<&[u64]>) -> (r: Result<
    Vec<Arc<Edge<A>>>,
    Error,
>)
    requires
        graph.wf(),
    ensures
        match r {
            Ok(es) => {
                &&& all_named(graph, nbunch1)
                &&& (nbunch2 matches Some(ns) ==> all_named(graph, ns))
                &&& arc_values(es@) == graph@.all_edges().filter(
                    on_boundary(graph@.specs.directed, nbunch1@, nbunch2),
                )
            },
            Err(e) => {
                &&& e.kind == ErrorKind::NodeNotFound
                &&& !all_named(graph, nbunch1) || (nbunch2 matches Some(ns) && !all_named(graph, ns))
            },
        },
{
    if !graph.has_nodes(nbunch1) {
        return Err(
            Error::new(ErrorKind::NodeNotFound, "One or more of `nbunch1` were not found in the graph."),
        );
    }
    match nbunch2 {
        Some(ns) => {
            if !graph.has_nodes(ns) {
                return Err(
                    Error::new(
                        ErrorKind::NodeNotFound,
                        "One or more of `nbunch2` were not found in the graph.",
                    ),
                );
            }
        },
        None => {},
    }
    let directed = graph.specs.directed;
    proof {
        graph.lemma_view_specs();
    }
    let ghost p = on_boundary::<A>(directed, nbunch1@, nbunch2);
    let es = graph.get_all_edges();
    let mut r: Vec<Arc<Edge<A>>> = Vec::new();
    let mut i: usize = 0;
    while i < es.len()
        invariant
            i <= es@.len(),
            p == on_boundary::<A>(directed, nbunch1@, nbunch2),
            arc_values(r@) == arc_values(es@).take(i as int).filter(p),
        decreases es@.len() - i,
    {
        let e = arc_clone(&es[i]);
        proof {
            assert(arc_values(es@).take(i + 1) == arc_values(es@).take(i as int).push(*e));
            arc_values(es@).take(i as int).lemma_filter_push(*e, p);
        }
        let u1 = slice_contains(nbunch1, e.u);
        let v1 = slice_contains(nbunch1, e.v);
        let (u2, v2) = match nbunch2 {
            Some(ns) => (slice_contains(ns, e.u), slice_contains(ns, e.v)),
            None => (!u1, !v1),
        };
        let leaves = if directed {
            u1
        } else {
            u1 || v1
        };
        if leaves && ((u1 && v2) || (u2 && v1)) {
            let ghost old_r = r@;
            r.push(e);
            proof {
                assert(arc_values(r@) =~= arc_values(old_r).push(*e));
            }
        }
        i = i + 1;
    }
    proof {
        assert(arc_values(es@).take(i as int) == arc_values(es@));
    }
    Ok(r)
}

/// In an undirected graph the edge boundary of `nbunch1` with respect to
/// `nbunch2` holds the same edges, in the same order, as that of `nbunch2`
/// with respect to `nbunch1`.
pub proof fn law_undirected_boundary_symmetric<A>(edges: Seq<Edge<A>>, nbunch1: &[u64], nbunch2: &[u64])
    ensures
        edges.filter(on_boundary::<A>(false, nbunch1@, Some(nbunch2))) == edges.filter(
            on_boundary::<A>(false, nbunch2@, Some(nbunch1)),
        ),
{
    let f = on_boundary::<A>(false, nbunch1@, Some(nbunch2));
    let g = on_boundary::<A>(false, nbunch2@, Some(nbunch1));
    assert(f =~= g);
}

} // verus!
