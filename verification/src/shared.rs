use std::sync::Arc;
use vstd::prelude::*;

verus! {

/// Clones an `Arc` with `std::sync::Arc::clone`. The standard library documents
/// the result as a new pointer to the same allocation, so it holds the same value;
/// that is all this contract claims.
#[verifier::external_body]
pub(crate) fn arc_clone<T>(a: &Arc<T>) -> (r: Arc<T>)
    ensures
        *r == **a,
{
    Arc::clone(a)
}

} // verus!

verus! {

/// Membership in a sequence after a push.
pub proof fn lemma_push_contains<T>(s: Seq<T>, y: T, x: T)
    ensures
        s.push(y).contains(x) <==> (s.contains(x) || x == y),
{
    if s.push(y).contains(x) {
        let j = choose|j: int| 0 <= j < s.push(y).len() && s.push(y)[j] == x;
        if j < s.len() {
            assert(s[j] == x);
        }
    }
    if s.contains(x) {
        let j = choose|j: int| 0 <= j < s.len() && s[j] == x;
        assert(s.push(y)[j] == x);
    }
    if x == y {
        assert(s.push(y)[s.len() as int] == x);
    }
}

} // verus!

verus! {

/// A sequence of distinct indexes below `n` has at most `n` elements.
pub proof fn lemma_distinct_indexes_len(s: Seq<usize>, n: int)
    requires
        s.no_duplicates(),
        forall|k: int| 0 <= k < s.len() ==> s[k] < n,
        0 <= n,
    ensures
        s.len() <= n,
{
    let t = s.map_values(|x: usize| x as int);
    assert(t.no_duplicates()) by {
        assert forall|i: int, j: int| 0 <= i < t.len() && 0 <= j < t.len() && i != j implies t[i] != t[j] by {
            assert(s[i] != s[j]);
        }
    }
    t.unique_seq_to_set();
    vstd::set_lib::lemma_int_range(0, n);
    assert(t.to_set().subset_of(vstd::set_lib::set_int_range(0, n)));
    vstd::set_lib::lemma_len_subset(t.to_set(), vstd::set_lib::set_int_range(0, n));
}

} // verus!

verus! {

/// At most `n` indexes lie below `n`.
pub proof fn lemma_indices_where_len(n: int, p: spec_fn(int) -> bool)
    requires
        0 <= n,
    ensures
        crate::indices_where(n, p).len() <= n,
    decreases n,
{
    if n > 0 {
        lemma_indices_where_len(n - 1, p);
    }
}

/// An index at which `p` holds lies below `n` if any is listed.
pub proof fn lemma_indices_where_witness(n: int, p: spec_fn(int) -> bool)
    requires
        crate::indices_where(n, p).len() > 0,
    ensures
        exists|j: int| 0 <= j < n && #[trigger] p(j),
    decreases n,
{
    if n > 0 {
        if p(n - 1) {
        } else {
            lemma_indices_where_witness(n - 1, p);
        }
    }
}

} // verus!

verus! {

/// A copy of the names in `s`.
pub fn names_to_vec(s: &[u64]) -> (r: Vec<u64>)
    ensures
        r@ == s@,
{
    let mut r: Vec<u64> = Vec::new();
    let mut i: usize = 0;
    while i < s.len()
        invariant
            i <= s@.len(),
            r@ == s@.take(i as int),
        decreases s@.len() - i,
    {
        r.push(s[i]);
        proof {
            assert(s@.take(i + 1) == s@.take(i as int).push(s@[i as int]));
        }
        i = i + 1;
    }
    proof {
        assert(s@.take(i as int) == s@);
    }
    r
}

} // verus!

verus! {

/// Every listed index lies below `n`.
pub proof fn lemma_indices_where_bounds(n: int, p: spec_fn(int) -> bool)
    ensures
        forall|m: int|
            0 <= m < crate::indices_where(n, p).len() ==> 0 <= #[trigger] crate::indices_where(n, p)[m] < n
                && p(crate::indices_where(n, p)[m]),
    decreases n,
{
    if n > 0 {
        lemma_indices_where_bounds(n - 1, p);
        let s = crate::indices_where(n - 1, p);
        if p(n - 1) {
            assert forall|m: int| 0 <= m < s.push(n - 1).len() implies 0 <= #[trigger] s.push(n - 1)[m] < n && p(
                s.push(n - 1)[m],
            ) by {
                if m < s.len() {
                    assert(s.push(n - 1)[m] == s[m]);
                }
            }
        }
    }
}

} // verus!

verus! {

/// An index below `n` at which `p` holds is listed.
pub proof fn lemma_indices_where_member(n: int, p: spec_fn(int) -> bool, j: int)
    requires
        0 <= j < n,
        p(j),
    ensures
        crate::indices_where(n, p).contains(j),
    decreases n,
{
    if j < n - 1 {
        lemma_indices_where_member(n - 1, p, j);
        let s = crate::indices_where(n - 1, p);
        let k = choose|k: int| 0 <= k < s.len() && s[k] == j;
        if p(n - 1) {
            assert(s.push(n - 1)[k] == j);
        }
    } else {
        let s = crate::indices_where(n - 1, p);
        assert(s.push(n - 1)[s.len() as int] == j);
    }
}

} // verus!

verus! {

/// The listed indexes increase.
pub proof fn lemma_indices_where_increasing(n: int, p: spec_fn(int) -> bool)
    ensures
        forall|a: int, b: int|
            0 <= a < b < crate::indices_where(n, p).len() ==> #[trigger] crate::indices_where(n, p)[a]
                < #[trigger] crate::indices_where(n, p)[b],
    decreases n,
{
    if n > 0 {
        lemma_indices_where_increasing(n - 1, p);
        lemma_indices_where_bounds(n - 1, p);
        let s = crate::indices_where(n - 1, p);
        if p(n - 1) {
            assert forall|a: int, b: int| 0 <= a < b < s.push(n - 1).len() implies #[trigger] s.push(n - 1)[a]
                < #[trigger] s.push(n - 1)[b] by {
                assert(s.push(n - 1)[a] == s[a]);
                if b < s.len() {
                    assert(s.push(n - 1)[b] == s[b]);
                }
            }
        }
    }
}

} // verus!
