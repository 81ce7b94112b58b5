use std::collections::HashSet;
use std::hash::Hash;
use vstd::prelude::*;
use vstd::std_specs::hash::obeys_key_model;

verus! {

broadcast use vstd::std_specs::hash::group_hash_axioms;

/// Extends `Vec` with the `to_hashset` method.
pub trait VecExt<T> {
    /// Returns a `HashSet` holding the elements of the vector.
    fn to_hashset(&self) -> (r: HashSet<T>)
        requires
            obeys_key_model::<T>(),
        ensures
            r@ == self.seq_view().to_set(),
    ;

    spec fn seq_view(&self) -> Seq<T>;
}

impl<T: Copy + Eq + Hash> VecExt<T> for Vec<T> {
    open spec fn seq_view(&self) -> Seq<T> {
        self@
    }

    fn to_hashset(&self) -> (r: HashSet<T>) {
        let mut r: HashSet<T> = HashSet::new();
        let mut i: usize = 0;
        while i < self.len()
            invariant
                obeys_key_model::<T>(),
                i <= self@.len(),
                r@ == self@.take(i as int).to_set(),
            decreases self@.len() - i,
        {
            r.insert(self[i]);
            proof {
                assert(self@.take(i + 1) == self@.take(i as int).push(self@[i as int]));
                self@.take(i as int).lemma_push_to_set_commute(self@[i as int]);
            }
            i = i + 1;
        }
        assert(self@.take(i as int) == self@);
        r
    }
}

} // verus!
