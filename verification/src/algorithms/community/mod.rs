use vstd::prelude::*;

pub mod partitions;

verus! {

/// The quality function that the Leiden algorithm maximizes: modularity or
/// the Constant Potts Model.
#[derive(Clone, Copy, Debug, PartialEq, Eq, Structural)]
pub enum QualityFunction {
    Modularity,
    CPM,
}

} // verus!
