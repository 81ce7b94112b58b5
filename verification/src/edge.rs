use std::cmp::Ordering;
use vstd::prelude::*;
use vstd::std_specs::cmp::{PartialEqSpecImpl, PartialOrdSpecImpl};

verus! {

/// The bit pattern of the quiet not-a-number value that marks an edge
/// without a weight.
pub const NAN_BITS: u64 = 0x7ff8_0000_0000_0000u64;

/// Whether an IEEE-754 double bit pattern is a not-a-number value: every
/// exponent bit set and a nonzero fraction.
pub open spec fn is_nan_bits(bits: u64) -> bool {
    (bits & 0x7ff0_0000_0000_0000u64) == 0x7ff0_0000_0000_0000u64
        && (bits & 0x000f_ffff_ffff_ffffu64) != 0
}

/// Tests whether a weight bit pattern is a not-a-number value.
pub fn weight_is_nan(bits: u64) -> (r: bool)
    ensures
        r == is_nan_bits(bits),
{
    (bits & 0x7ff0_0000_0000_0000u64) == 0x7ff0_0000_0000_0000u64
        && (bits & 0x000f_ffff_ffff_ffffu64) != 0
}

/// A graph edge (`u`, `v`) with optional attributes and a weight.
///
/// The weight is held as the bit pattern of an IEEE-754 double; an edge
/// without a weight holds a not-a-number pattern.
#[derive(Clone, Copy, Debug)]
pub struct Edge<A> {
    /// The name of the first node of the edge.
    pub u: u64,
    /// The name of the second node of the edge.
    pub v: u64,
    /// Any attributes of the edge.
    pub attributes: Option<A>,
    /// The bit pattern of the edge weight.
    pub weight_bits: u64,
}

impl<A> Edge<A> {
    /// Creates an edge with no attributes and no weight.
    pub fn new(u: u64, v: u64) -> (e: Edge<A>)
        ensures
            e.u == u,
            e.v == v,
            e.attributes.is_none(),
            e.weight_bits == NAN_BITS,
            is_nan_bits(e.weight_bits),
    {
        assert(is_nan_bits(NAN_BITS)) by (bit_vector);
        Edge { u, v, attributes: None, weight_bits: NAN_BITS }
    }

    /// Creates an edge with the weight given by its bit pattern.
    pub fn with_weight_bits(u: u64, v: u64, weight_bits: u64) -> (e: Edge<A>)
        ensures
            e.u == u,
            e.v == v,
            e.attributes.is_none(),
            e.weight_bits == weight_bits,
    {
        Edge { u, v, attributes: None, weight_bits }
    }

    /// Reverses the edge: (u, v) becomes (v, u).
    pub fn reversed(self) -> (e: Edge<A>)
        ensures
            e == self.spec_reversed(),
    {
        Edge { u: self.v, v: self.u, attributes: self.attributes, weight_bits: self.weight_bits }
    }

    /// Returns the edge with `u <= v`, reversing it if `u > v`.
    pub fn ordered(self) -> (e: Edge<A>)
        ensures
            e == self.spec_ordered(),
            e.u <= e.v,
    {
        if self.u > self.v {
            self.reversed()
        } else {
            self
        }
    }

    pub open spec fn spec_reversed(self) -> Edge<A> {
        Edge { u: self.v, v: self.u, ..self }
    }

    pub open spec fn spec_ordered(self) -> Edge<A> {
        if self.u > self.v {
            self.spec_reversed()
        } else {
            self
        }
    }
}

/// Two edges are equal when they join the same nodes in the same order,
/// whatever their weights and attributes.
impl<A> PartialEq for Edge<A> {
    fn eq(&self, other: &Self) -> (r: bool) {
        self.u == other.u && self.v == other.v
    }
}

impl<A> PartialEqSpecImpl for Edge<A> {
    open spec fn obeys_eq_spec() -> bool {
        true
    }

    open spec fn eq_spec(&self, other: &Self) -> bool {
        self.u == other.u && self.v == other.v
    }
}

impl<A> Eq for Edge<A> {
}

/// Edges are ordered by their first node, then by their second.
impl<A> PartialOrd for Edge<A> {
    fn partial_cmp(&self, other: &Self) -> (r: Option<Ordering>) {
        if self.u < other.u {
            Some(Ordering::Less)
        } else if self.u > other.u {
            Some(Ordering::Greater)
        } else if self.v < other.v {
            Some(Ordering::Less)
        } else if self.v > other.v {
            Some(Ordering::Greater)
        } else {
            Some(Ordering::Equal)
        }
    }
}

impl<A> PartialOrdSpecImpl for Edge<A> {
    open spec fn obeys_partial_cmp_spec() -> bool {
        true
    }

    open spec fn partial_cmp_spec(&self, other: &Self) -> Option<Ordering> {
        if self.u < other.u {
            Some(Ordering::Less)
        } else if self.u > other.u {
            Some(Ordering::Greater)
        } else if self.v < other.v {
            Some(Ordering::Less)
        } else if self.v > other.v {
            Some(Ordering::Greater)
        } else {
            Some(Ordering::Equal)
        }
    }
}

} // verus!
