use std::collections::{HashMap, HashSet};
use vstd::prelude::*;

verus! {

broadcast use vstd::std_specs::hash::group_hash_axioms;

/// Which end of an edge keys an adjacency map: `U` maps each first node to
/// the second nodes (successors), `V` each second node to the first nodes
/// (predecessors).
#[derive(Clone, Copy, Debug, PartialEq, Eq, Structural)]
pub enum EdgeSide {
    U,
    V,
}

/// The key of pair `t` on the chosen side.
pub open spec fn side_key(t: (u64, u64), side: EdgeSide) -> u64 {
    match side {
        EdgeSide::U => t.0,
        EdgeSide::V => t.1,
    }
}

/// The value of pair `t` on the chosen side.
pub open spec fn side_value(t: (u64, u64), side: EdgeSide) -> u64 {
    match side {
        EdgeSide::U => t.1,
        EdgeSide::V => t.0,
    }
}

/// Whether some pair of `ts` has key `k` on the chosen side.
pub open spec fn has_key(ts: Seq<(u64, u64)>, side: EdgeSide, k: u64) -> bool {
    exists|i: int| 0 <= i < ts.len() && side_key(#[trigger] ts[i], side) == k
}

/// The values of the pairs of `ts` with key `k` on the chosen side.
pub open spec fn values_of(ts: Seq<(u64, u64)>, side: EdgeSide, k: u64) -> Set<u64> {
    Set::new(|v: u64| exists|i: int| 0 <= i < ts.len() && side_key(#[trigger] ts[i], side) == k && side_value(ts[i], side) == v)
}

/// Groups the pairs `tuples` by their key on the chosen side: each key maps
/// to the set of the values paired with it.
pub fn get_adjacency_hashmap(tuples: Vec<(u64, u64)>, side: EdgeSide) -> (r: HashMap<u64, HashSet<u64>>)
    ensures
        forall|k: u64| #[trigger] r@.contains_key(k) <==> has_key(tuples@, side, k),
        forall|k: u64| #[trigger] r@.contains_key(k) ==> r@[k]@ == values_of(tuples@, side, k),
{
    let mut r: HashMap<u64, HashSet<u64>> = HashMap::new();
    let mut i: usize = 0;
    while i < tuples.len()
        invariant
            i <= tuples@.len(),
            forall|k: u64| #[trigger] r@.contains_key(k) <==> has_key(tuples@.take(i as int), side, k),
            forall|k: u64| #[trigger] r@.contains_key(k) ==> r@[k]@ == values_of(tuples@.take(i as int), side, k),
        decreases tuples@.len() - i,
    {
        let t = tuples[i];
        let (k, v) = match side {
            EdgeSide::U => (t.0, t.1),
            EdgeSide::V => (t.1, t.0),
        };
        let ghost before = r@;
        let ghost pre = tuples@.take(i as int);
        let ghost post = tuples@.take(i + 1);
        proof {
            assert(post == pre.push(t));
        }
        let mut set = match r.remove(&k) {
            Some(s) => s,
            None => HashSet::new(),
        };
        let ghost old_set = set@;
        set.insert(v);
        r.insert(k, set);
        proof {
            assert(old_set == (if before.contains_key(k) { before[k]@ } else { Set::<u64>::empty() }));
            assert(post[i as int] == t);
            assert forall|k2: u64| #[trigger] r@.contains_key(k2) <==> has_key(post, side, k2) by {
                if k2 == k {
                    assert(side_key(post[i as int], side) == k2);
                } else {
                    if has_key(post, side, k2) {
                        let j = choose|j: int| 0 <= j < post.len() && side_key(#[trigger] post[j], side) == k2;
                        assert(j < i);
                        assert(pre[j] == post[j]);
                    }
                    if has_key(pre, side, k2) {
                        let j = choose|j: int| 0 <= j < pre.len() && side_key(#[trigger] pre[j], side) == k2;
                        assert(post[j] == pre[j]);
                    }
                }
            }
            assert forall|k2: u64| #[trigger] r@.contains_key(k2) implies r@[k2]@ == values_of(post, side, k2) by {
                assert forall|x: u64| r@[k2]@.contains(x) <==> values_of(post, side, k2).contains(x) by {
                    if values_of(post, side, k2).contains(x) {
                        let j = choose|j: int|
                            0 <= j < post.len() && side_key(#[trigger] post[j], side) == k2 && side_value(post[j], side)
                                == x;
                        if j < i {
                            assert(pre[j] == post[j]);
                            assert(values_of(pre, side, k2).contains(x));
                        }
                    }
                    if r@[k2]@.contains(x) {
                        if k2 == k && x == v {
                            assert(side_key(post[i as int], side) == k2 && side_value(post[i as int], side) == x);
                        } else {
                            assert(before.contains_key(k2));
                            assert(values_of(pre, side, k2).contains(x));
                            let j = choose|j: int|
                                0 <= j < pre.len() && side_key(#[trigger] pre[j], side) == k2 && side_value(pre[j], side)
                                    == x;
                            assert(post[j] == pre[j]);
                        }
                    }
                }
                assert(r@[k2]@ =~= values_of(post, side, k2));
            }
        }
        i = i + 1;
    }
    proof {
        assert(tuples@.take(i as int) == tuples@);
    }
    r
}

} // verus!
