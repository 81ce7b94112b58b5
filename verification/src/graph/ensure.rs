use super::Graph;
use crate::{Error, ErrorKind};
use vstd::prelude::*;

verus! {

impl<A: Copy> Graph<A> {
    /// Fails with `WrongMethod` unless the graph is directed.
    pub fn ensure_directed(&self) -> (r: Result<(), Error>)
        requires
            self.wf(),
        ensures
            match r {
                Ok(_) => self@.specs.directed,
                Err(e) => !self@.specs.directed && e.kind == ErrorKind::WrongMethod,
            },
    {
        if !self.specs.directed {
            return Err(
                Error::new(ErrorKind::WrongMethod, "This method is not applicable to undirected graphs."),
            );
        }
        Ok(())
    }

    /// Fails with `WrongMethod` unless the graph is undirected.
    pub fn ensure_undirected(&self) -> (r: Result<(), Error>)
        requires
            self.wf(),
        ensures
            match r {
                Ok(_) => !self@.specs.directed,
                Err(e) => self@.specs.directed && e.kind == ErrorKind::WrongMethod,
            },
    {
        if self.specs.directed {
            return Err(
                Error::new(ErrorKind::WrongMethod, "This method is not applicable to directed graphs."),
            );
        }
        Ok(())
    }

    /// Fails with `WrongMethod` if the graph allows multi-edges.
    pub fn ensure_not_multi_edges(&self) -> (r: Result<(), Error>)
        requires
            self.wf(),
        ensures
            match r {
                Ok(_) => !self@.specs.multi_edges,
                Err(e) => self@.specs.multi_edges && e.kind == ErrorKind::WrongMethod,
            },
    {
        if self.specs.multi_edges {
            return Err(
                Error::new(ErrorKind::WrongMethod, "This method is not applicable to multi-edge graphs."),
            );
        }
        Ok(())
    }

    /// Fails with `EdgeWeightNotSpecified` unless every edge has a weight.
    pub fn ensure_weighted(&self) -> (r: Result<(), Error>)
        requires
            self.wf(),
        ensures
            match r {
                Ok(_) => forall|m: int|
                    0 <= m < self@.all_edges().len() ==> !crate::is_nan_bits(
                        #[trigger] self@.all_edges()[m].weight_bits,
                    ),
                Err(e) => e.kind == ErrorKind::EdgeWeightNotSpecified && !(forall|m: int|
                    0 <= m < self@.all_edges().len() ==> !crate::is_nan_bits(
                        #[trigger] self@.all_edges()[m].weight_bits,
                    )),
            },
    {
        if !self.edges_have_weight() {
            return Err(
                Error::new(ErrorKind::EdgeWeightNotSpecified, "Not all edges in the graph have a weight."),
            );
        }
        Ok(())
    }
}

} // verus!
