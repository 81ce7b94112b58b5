use crate::algorithms::cluster::{adjacent, common_count, common_neighbor, triangle_sum};
use crate::{indices_where, GraphView};
use vstd::prelude::*;

verus! {

/// One when `b` holds, else zero.
pub open spec fn one_if(b: bool) -> int {
    if b {
        1
    } else {
        0
    }
}

/// Whether nodes `w` and `x`, neighbors of each other and of `i`, close a
/// triangle with `i`.
pub open spec fn closes_triangle<A>(g: GraphView<A>, i: int, w: int, x: int) -> bool {
    adjacent(g, i)(w) && adjacent(g, i)(x) && adjacent(g, w)(x)
}

/// The indicator of a triangle at `i` through `w` and `x`.
pub open spec fn triangle_term<A>(g: GraphView<A>, i: int) -> spec_fn(int, int) -> int {
    |w: int, x: int| one_if(closes_triangle(g, i, w, x))
}

/// The sum of `f(w, x)` for `lo <= x < hi`.
pub open spec fn row_sum(f: spec_fn(int, int) -> int, w: int, lo: int, hi: int) -> int
    decreases hi - lo,
{
    if hi <= lo {
        0
    } else {
        row_sum(f, w, lo, hi - 1) + f(w, hi - 1)
    }
}

/// The sum of `f(w, x)` over the pairs `w < x < n` with `w < m`.
pub open spec fn upper_sum(f: spec_fn(int, int) -> int, m: int, n: int) -> int
    decreases m,
{
    if m <= 0 {
        0
    } else {
        upper_sum(f, m - 1, n) + row_sum(f, m - 1, m, n)
    }
}

/// The sum of `f(w, x)` over the pairs `x < w` with `w < m`.
pub open spec fn lower_sum(f: spec_fn(int, int) -> int, m: int) -> int
    decreases m,
{
    if m <= 0 {
        0
    } else {
        lower_sum(f, m - 1) + row_sum(f, m - 1, 0, m - 1)
    }
}

/// The sum of `f(w, x)` over all `w < m` and `x < n`.
pub open spec fn square_sum(f: spec_fn(int, int) -> int, m: int, n: int) -> int
    decreases m,
{
    if m <= 0 {
        0
    } else {
        square_sum(f, m - 1, n) + row_sum(f, m - 1, 0, n)
    }
}

/// The number of triangles at node `i`: the pairs of neighbors `w < x` of
/// `i` that are neighbors of each other.
pub open spec fn triangle_pairs<A>(g: GraphView<A>, i: int) -> int {
    upper_sum(triangle_term(g, i), g.nodes.len() as int, g.nodes.len() as int)
}

proof fn lemma_row_split(f: spec_fn(int, int) -> int, w: int, lo: int, mid: int, hi: int)
    requires
        lo <= mid <= hi,
    ensures
        row_sum(f, w, lo, hi) == row_sum(f, w, lo, mid) + row_sum(f, w, mid, hi),
    decreases hi - mid,
{
    if mid < hi {
        lemma_row_split(f, w, lo, mid, hi - 1);
    }
}

proof fn lemma_square_split(f: spec_fn(int, int) -> int, m: int, n: int)
    requires
        0 <= m <= n,
        forall|w: int| 0 <= w < m ==> #[trigger] f(w, w) == 0,
    ensures
        square_sum(f, m, n) == lower_sum(f, m) + upper_sum(f, m, n),
    decreases m,
{
    if m > 0 {
        lemma_square_split(f, m - 1, n);
        lemma_row_split(f, m - 1, 0, m - 1, n);
        lemma_row_split(f, m - 1, m - 1, m, n);
        assert(row_sum(f, m - 1, m - 1, m) == f(m - 1, m - 1)) by {
            assert(row_sum(f, m - 1, m - 1, m - 1) == 0);
        }
    }
}

/// Extending the columns by `n` adds the column `n` to the upper sum.
proof fn lemma_upper_extend(f: spec_fn(int, int) -> int, m: int, n: int)
    requires
        0 <= m <= n,
    ensures
        upper_sum(f, m, n + 1) == upper_sum(f, m, n) + row_sum(|w: int, x: int| f(x, w), n, 0, m),
    decreases m,
{
    if m > 0 {
        lemma_upper_extend(f, m - 1, n);
    }
}

proof fn lemma_lower_is_upper_transposed(f: spec_fn(int, int) -> int, t: spec_fn(int, int) -> int, n: int)
    requires
        0 <= n,
        forall|w: int, x: int| #[trigger] t(w, x) == f(x, w),
    ensures
        lower_sum(f, n) == upper_sum(t, n, n),
    decreases n,
{
    if n > 0 {
        lemma_lower_is_upper_transposed(f, t, n - 1);
        lemma_upper_extend(t, n - 1, n - 1);
        let tt = |w: int, x: int| t(x, w);
        assert(row_sum(tt, n - 1, 0, n - 1) == row_sum(f, n - 1, 0, n - 1)) by {
            lemma_row_pointwise(tt, f, n - 1, 0, n - 1);
        }
        assert(row_sum(t, n - 1, n, n) == 0);
    }
}

proof fn lemma_row_pointwise(f: spec_fn(int, int) -> int, h: spec_fn(int, int) -> int, w: int, lo: int, hi: int)
    requires
        forall|x: int| lo <= x < hi ==> #[trigger] f(w, x) == h(w, x),
    ensures
        row_sum(f, w, lo, hi) == row_sum(h, w, lo, hi),
    decreases hi - lo,
{
    if lo < hi {
        lemma_row_pointwise(f, h, w, lo, hi - 1);
    }
}

proof fn lemma_upper_pointwise(f: spec_fn(int, int) -> int, h: spec_fn(int, int) -> int, m: int, n: int)
    requires
        forall|w: int, x: int| #[trigger] f(w, x) == h(w, x),
    ensures
        upper_sum(f, m, n) == upper_sum(h, m, n),
    decreases m,
{
    if m > 0 {
        lemma_upper_pointwise(f, h, m - 1, n);
        lemma_row_pointwise(f, h, m - 1, m, n);
    }
}

/// A count of indexes is the sum of the indicators.
proof fn lemma_count_is_sum<A>(g: GraphView<A>, i: int, w: int, m: int)
    requires
        0 <= m,
    ensures
        indices_where(m, common_neighbor(g, i, w)).len() as int == row_sum(
            |w2: int, x: int| one_if(common_neighbor(g, i, w2)(x)),
            w,
            0,
            m,
        ),
    decreases m,
{
    if m > 0 {
        lemma_count_is_sum(g, i, w, m - 1);
    }
}

proof fn lemma_triangle_sum_is_square<A>(g: GraphView<A>, i: int, m: int)
    requires
        0 <= m,
    ensures
        triangle_sum(g, i, m) == square_sum(triangle_term(g, i), m, g.nodes.len() as int),
    decreases m,
{
    let n = g.nodes.len() as int;
    if m > 0 {
        lemma_triangle_sum_is_square(g, i, m - 1);
        let w = m - 1;
        let cn = |w2: int, x: int| one_if(common_neighbor(g, i, w2)(x));
        lemma_count_is_sum(g, i, w, n);
        if adjacent(g, i)(w) {
            lemma_row_pointwise(cn, triangle_term(g, i), w, 0, n);
        } else {
            lemma_row_zero(triangle_term(g, i), w, 0, n);
        }
        assert(common_count(g, i, w) == indices_where(n, common_neighbor(g, i, w)).len());
    }
}

proof fn lemma_row_zero(f: spec_fn(int, int) -> int, w: int, lo: int, hi: int)
    requires
        forall|x: int| lo <= x < hi ==> #[trigger] f(w, x) == 0,
    ensures
        row_sum(f, w, lo, hi) == 0,
    decreases hi - lo,
{
    if lo < hi {
        lemma_row_zero(f, w, lo, hi - 1);
    }
}

/// The double count of triangles at a node is twice the number of its
/// triangles: `triangle_sum`, which `get_triangles_and_degrees` reports and
/// `triangles` halves, counts each pair of neighbors that close a triangle
/// with the node once in each order.
pub proof fn law_triangles_counted_twice<A>(g: GraphView<A>, i: int)
    requires
        g.well_formed(),
    ensures
        triangle_sum(g, i, g.nodes.len() as int) == 2 * triangle_pairs(g, i),
{
    let n = g.nodes.len() as int;
    let f = triangle_term(g, i);
    lemma_triangle_sum_is_square(g, i, n);
    assert forall|w: int| 0 <= w < n implies #[trigger] f(w, w) == 0 by {}
    lemma_square_split(f, n, n);
    let t = |w: int, x: int| f(x, w);
    lemma_lower_is_upper_transposed(f, t, n);
    assert forall|w: int, x: int| #[trigger] t(w, x) == f(w, x) by {
        lemma_adjacent_symmetric(g, w, x);
    }
    lemma_upper_pointwise(t, f, n, n);
}

/// Adjacency, which looks along edges either way, is symmetric.
proof fn lemma_adjacent_symmetric<A>(g: GraphView<A>, w: int, x: int)
    ensures
        adjacent(g, w)(x) == adjacent(g, x)(w),
{
    if !g.specs.directed {
        assert(g.key(w, x) == g.key(x, w));
    }
}

} // verus!
