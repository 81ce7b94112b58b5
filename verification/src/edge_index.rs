use vstd::prelude::*;

verus! {

/// A pair of node indexes identifying an edge.
#[derive(Clone, Copy, Debug, PartialEq, Eq, Structural, Hash)]
pub struct EdgeIndex {
    u: usize,
    v: usize,
}

impl EdgeIndex {
    /// Creates a new `EdgeIndex` from the indexes of the edge's two nodes.
    pub fn new(u: usize, v: usize) -> (e: EdgeIndex)
        ensures
            e.u() == u,
            e.v() == v,
            forall|f: EdgeIndex| #![trigger f.u(), f.v()] f.u() == u && f.v() == v ==> f == e,
    {
        EdgeIndex { u, v }
    }

    /// The index of the first node of the edge.
    pub closed spec fn u(self) -> usize {
        self.u
    }

    /// The index of the second node of the edge.
    pub closed spec fn v(self) -> usize {
        self.v
    }
}

} // verus!
