use std::collections::HashSet;
use std::hash::Hash;
use vstd::prelude::*;
use vstd::std_specs::hash::obeys_key_model;

verus! {

broadcast use vstd::std_specs::hash::group_hash_axioms;

/// Extends `HashSet` with the `without` method.
pub trait HashSetExt<T> {
    /// Returns a copy of the set that doesn't contain `value`.
    fn without(&self, value: &T) -> (r: HashSet<T>)
        requires
            obeys_key_model::<T>(),
        ensures
            r@ == self.set_view().remove(*value),
    ;

    spec fn set_view(&self) -> Set<T>;
}

impl<T: Copy + Eq + Hash> HashSetExt<T> for HashSet<T> {
    open spec fn set_view(&self) -> Set<T> {
        self@
    }

    fn without(&self, value: &T) -> (r: HashSet<T>) {
        let mut r: HashSet<T> = HashSet::new();
        let mut skipped: HashSet<T> = HashSet::new();
        skipped.insert(*value);
        let ghost mut seen: Set<T> = Set::empty();
        for x in it: self.iter()
            invariant
                obeys_key_model::<T>(),
                skipped@ == set![*value],
                forall|y: T| #[trigger] r@.contains(y) <==> (y != *value
                    && seen.contains(y)),
                seen == it.seq().take(it.index()).unref().to_set(),
                it.seq().unref().to_set() == self@,
                (it.index() == it.seq().len() ==> seen == self@),
        {
            if !skipped.contains(x) {
                r.insert(*x);
            }
            proof {
                seen = seen.insert(*x);
            }
            proof {
                assert(it.seq().take(it.index() + 1).unref() == it.seq().take(
                    it.index(),
                ).unref().push(*x));
                it.seq().take(it.index()).unref().lemma_push_to_set_commute(*x);
                assert(it.index() + 1 == it.seq().len() ==> it.seq().take(it.index() + 1)
                    == it.seq());
            }
        }
        assert(r@ =~= self@.remove(*value));
        r
    }
}

} // verus!
