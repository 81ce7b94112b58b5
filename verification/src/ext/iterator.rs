use vstd::prelude::*;
use vstd::std_specs::cmp::PartialEqSpec;

verus! {

/// The runs of equal consecutive items of `s`: each item with the number of
/// times it occurs in a row.
pub open spec fn runs<T>(s: Seq<T>) -> Seq<(T, nat)>
    decreases s.len(),
{
    if s.len() == 0 {
        Seq::empty()
    } else {
        let r = runs(s.drop_last());
        if r.len() > 0 && r.last().0 == s.last() {
            r.update(r.len() - 1, (s.last(), r.last().1 + 1))
        } else {
            r.push((s.last(), 1))
        }
    }
}

/// The counts as natural numbers.
pub open spec fn counted<T>(r: Seq<(T, usize)>) -> Seq<(T, nat)> {
    r.map_values(|p: (T, usize)| (p.0, p.1 as nat))
}

proof fn lemma_runs_counts_bounded<T>(s: Seq<T>)
    ensures
        forall|k: int| 0 <= k < runs(s).len() ==> #[trigger] runs(s)[k].1 <= s.len(),
        runs(s).len() <= s.len(),
    decreases s.len(),
{
    if s.len() > 0 {
        lemma_runs_counts_bounded(s.drop_last());
    }
}

/// Counts the runs of equal consecutive items: each item with the number of
/// times it occurs in a row, in order. On sorted items this counts each
/// distinct item.
pub fn chunk_by_count<T: Copy + PartialEq + PartialEqSpec>(items: &Vec<T>) -> (r: Vec<(T, usize)>)
    requires
        T::obeys_eq_spec(),
        forall|a: T, b: T| #[trigger] a.eq_spec(&b) <==> a == b,
    ensures
        counted(r@) == runs(items@),
{
    let mut r: Vec<(T, usize)> = Vec::new();
    let mut i: usize = 0;
    while i < items.len()
        invariant
            T::obeys_eq_spec(),
            forall|a: T, b: T| #[trigger] a.eq_spec(&b) <==> a == b,
            i <= items@.len(),
            counted(r@) == runs(items@.take(i as int)),
        decreases items@.len() - i,
    {
        let x = items[i];
        proof {
            assert(items@.take(i + 1).drop_last() == items@.take(i as int));
            assert(items@.take(i + 1).last() == x);
            lemma_runs_counts_bounded(items@.take(i as int));
        }
        let n = r.len();
        let ghost before = r@;
        if n > 0 && r[n - 1].0 == x {
            let c = r[n - 1].1;
            proof {
                assert(counted(before)[n - 1] == (before[n - 1].0, before[n - 1].1 as nat));
            }
            r.set(n - 1, (x, c + 1));
            proof {
                assert(counted(r@) =~= counted(before).update(n - 1, (x, (c + 1) as nat)));
            }
        } else {
            r.push((x, 1));
            proof {
                assert(counted(r@) =~= counted(before).push((x, 1nat)));
                if n > 0 {
                    assert(counted(before)[n - 1].0 == before[n - 1].0);
                }
            }
        }
        i = i + 1;
    }
    proof {
        assert(items@.take(i as int) == items@);
    }
    r
}

/// The items, keyed by `keys` (the key of `items[i]` is `keys[i]`), up to the
/// first item whose key has come before: at that item the iteration ends.
pub fn unique_by_no_hash<T: Copy>(items: &Vec<T>, keys: &Vec<u64>) -> (r: Vec<T>)
    requires
        items@.len() == keys@.len(),
    ensures
        r@ == items@.take(r@.len() as int),
        forall|i: int, j: int| 0 <= j < i < r@.len() ==> #[trigger] keys@[j] != #[trigger] keys@[i],
        r@.len() < items@.len() ==> exists|j: int| 0 <= j < r@.len() && #[trigger] keys@[j] == keys@[r@.len() as int],
{
    let mut seen: std::collections::HashSet<u64> = std::collections::HashSet::new();
    let mut r: Vec<T> = Vec::new();
    let mut i: usize = 0;
    while i < items.len()
        invariant
            items@.len() == keys@.len(),
            i <= items@.len(),
            r@ == items@.take(i as int),
            forall|x: u64| #[trigger] seen@.contains(x) <==> exists|j: int| 0 <= j < i && #[trigger] keys@[j] == x,
            forall|a: int, b: int| 0 <= b < a < i ==> #[trigger] keys@[b] != #[trigger] keys@[a],
        decreases items@.len() - i,
    {
        let k = keys[i];
        if seen.contains(&k) {
            proof {
                let j = choose|j: int| 0 <= j < i && keys@[j] == k;
                assert(r@.len() == i);
            }
            return r;
        }
        seen.insert(k);
        r.push(items[i]);
        proof {
            assert(items@.take(i + 1) == items@.take(i as int).push(items@[i as int]));
            assert forall|x: u64| #[trigger] seen@.contains(x) <==> exists|j: int| 0 <= j < i + 1 && keys@[j] == x by {
                if x == k {
                    assert(keys@[i as int] == x);
                }
            }
        }
        i = i + 1;
    }
    proof {
        assert(items@.take(i as int) == items@);
    }
    r
}

} // verus!
