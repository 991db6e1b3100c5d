//! The integer geometry that grid contracts are written in.
//!
//! A point is a sequence of integers, one per axis. Axis `0` varies fastest
//! wherever points are put in order.
use vstd::arithmetic::div_mod::{
    lemma_div_denominator, lemma_div_pos_is_pos, lemma_fundamental_div_mod,
    lemma_fundamental_div_mod_converse, lemma_mod_bound,
};
use vstd::arithmetic::power::pow;
use vstd::arithmetic::power2::{lemma_pow2_pos, lemma_pow2_unfold, pow2};
use vstd::prelude::*;

verus! {

/// Product of all entries; the number of points in a box of these extents.
pub open spec fn product(sizes: Seq<int>) -> int
    decreases sizes.len(),
{
    if sizes.len() == 0 {
        1
    } else {
        sizes[0] * product(sizes.drop_first())
    }
}

/// Every partial product, taken axis by axis, fits in a `usize`.
pub open spec fn addressable(sizes: Seq<int>) -> bool {
    forall|k: int| 0 <= k <= sizes.len() ==> product(#[trigger] sizes.take(k)) <= usize::MAX
}

/// Same value on each of `dim` axes.
pub open spec fn splat(dim: nat, value: int) -> Seq<int> {
    Seq::new(dim, |a: int| value)
}

/// All entries are positive.
pub open spec fn positive(sizes: Seq<int>) -> bool {
    forall|a: int| 0 <= a < sizes.len() ==> 0 < #[trigger] sizes[a]
}

/// All entries are non-negative.
pub open spec fn nonnegative(sizes: Seq<int>) -> bool {
    forall|a: int| 0 <= a < sizes.len() ==> 0 <= #[trigger] sizes[a]
}

/// `point` lies in the box `0..size`.
pub open spec fn within(point: Seq<int>, size: Seq<int>) -> bool {
    &&& point.len() == size.len()
    &&& forall|a: int| 0 <= a < point.len() ==> 0 <= #[trigger] point[a] < size[a]
}

/// Row-major index of `point` in a box of `size`, axis `0` contiguous.
pub open spec fn linear(point: Seq<int>, size: Seq<int>) -> int
    decreases point.len(),
{
    if point.len() == 0 {
        0
    } else {
        point[0] + size[0] * linear(point.drop_first(), size.drop_first())
    }
}

/// The coordinate on axis `a` of the point with the given row-major index.
pub open spec fn digit(index: int, size: Seq<int>, a: int) -> int {
    (index / product(size.take(a))) % size[a]
}

/// The point with the given row-major index in a box of `size`.
pub open spec fn unlinear(index: int, size: Seq<int>) -> Seq<int> {
    Seq::new(size.len(), |a: int| digit(index, size, a))
}

/// Extents of the half-open box `lo..hi`; zero on an axis where it is empty.
pub open spec fn extent(lo: Seq<int>, hi: Seq<int>) -> Seq<int> {
    Seq::new(
        lo.len(),
        |a: int|
            if lo[a] < hi[a] {
                hi[a] - lo[a]
            } else {
                0
            },
    )
}

/// `point` lies in the half-open box `lo..hi`.
pub open spec fn in_box(point: Seq<int>, lo: Seq<int>, hi: Seq<int>) -> bool {
    &&& point.len() == lo.len()
    &&& forall|a: int| 0 <= a < point.len() ==> lo[a] <= #[trigger] point[a] < hi[a]
}

/// Componentwise sum.
pub open spec fn plus(a: Seq<int>, b: Seq<int>) -> Seq<int> {
    Seq::new(a.len(), |i: int| a[i] + b[i])
}

/// Componentwise difference.
pub open spec fn minus(a: Seq<int>, b: Seq<int>) -> Seq<int> {
    Seq::new(a.len(), |i: int| a[i] - b[i])
}

/// Each coordinate divided by `half`.
pub open spec fn halves(local: Seq<int>, half: int) -> Seq<int> {
    Seq::new(local.len(), |a: int| local[a] / half)
}

/// Position of `point` in the row-major order of the box `lo..hi`.
pub open spec fn rank(point: Seq<int>, lo: Seq<int>, hi: Seq<int>) -> int {
    linear(minus(point, lo), extent(lo, hi))
}

/// `p` comes before `q` in lexicographic order, axis `0` first.
pub open spec fn precedes(p: Seq<int>, q: Seq<int>) -> bool {
    exists|k: int|
        {
            &&& 0 <= k < p.len()
            &&& #[trigger] p[k] < q[k]
            &&& forall|j: int| 0 <= j < k ==> p[j] == q[j]
        }
}

/// All points of the half-open box `lo..hi` in row-major order.
pub open spec fn box_points(lo: Seq<int>, hi: Seq<int>) -> Seq<Seq<int>> {
    Seq::new(
        product(extent(lo, hi)) as nat,
        |k: int| plus(lo, unlinear(k, extent(lo, hi))),
    )
}

/// The cube of edge `size` at `corner` and the half-open box `lo..hi` share a
/// coordinate on every axis.
pub open spec fn overlapping(lo: Seq<int>, hi: Seq<int>, corner: Seq<int>, size: int) -> bool {
    forall|a: int|
        #![trigger lo[a]]
        #![trigger hi[a]]
        #![trigger corner[a]]
        0 <= a < corner.len() ==> shares_stretch(lo[a], hi[a], corner[a], size)
}

/// The stretches `lo..hi` and `start..start + size` share a coordinate: the
/// larger start lies below the smaller end.
pub open spec fn shares_stretch(lo: int, hi: int, start: int, size: int) -> bool {
    lo < hi && 0 < size && lo < start + size && start < hi
}

/// Extents of the intersection of the box `lo..hi` with the cube of edge `size`
/// at `corner`.
pub open spec fn overlap(lo: Seq<int>, hi: Seq<int>, corner: Seq<int>, size: int) -> Seq<int> {
    Seq::new(corner.len(), |a: int| overlap_on_axis(lo[a], hi[a], corner[a], size))
}

/// Length of the intersection of `lo..hi` with `start..start + size`.
pub open spec fn overlap_on_axis(lo: int, hi: int, start: int, size: int) -> int {
    let from = if start < lo {
        lo
    } else {
        start
    };
    let to = if start + size < hi {
        start + size
    } else {
        hi
    };
    if from < to {
        to - from
    } else {
        0
    }
}

pub proof fn lemma_product_push(s: Seq<int>, x: int)
    ensures
        product(s.push(x)) == product(s) * x,
    decreases s.len(),
{
    let t = s.push(x);
    assert(product(t) == t[0] * product(t.drop_first()));
    if s.len() == 0 {
        assert(t.drop_first() =~= s);
        assert(product(s) == 1);
        assert(x * 1 == 1 * x);
    } else {
        assert(s.push(x).drop_first() =~= s.drop_first().push(x));
        lemma_product_push(s.drop_first(), x);
        let q = product(s.drop_first());
        assert(s[0] * (q * x) == (s[0] * q) * x) by (nonlinear_arith);
    }
}

pub proof fn lemma_product_take_next(s: Seq<int>, k: int)
    requires
        0 <= k < s.len(),
    ensures
        product(s.take(k + 1)) == product(s.take(k)) * s[k],
{
    assert(s.take(k + 1) =~= s.take(k).push(s[k]));
    lemma_product_push(s.take(k), s[k]);
}

pub proof fn lemma_product_positive(s: Seq<int>)
    requires
        positive(s),
    ensures
        product(s) >= 1,
    decreases s.len(),
{
    if s.len() > 0 {
        assert forall|a: int| 0 <= a < s.drop_first().len() implies 0
            < #[trigger] s.drop_first()[a] by {
            assert(s.drop_first()[a] == s[a + 1]);
        }
        lemma_product_positive(s.drop_first());
        let q = product(s.drop_first());
        assert(s[0] * q >= 1) by (nonlinear_arith)
            requires
                s[0] >= 1,
                q >= 1,
        ;
    }
}

pub proof fn lemma_product_nonnegative(s: Seq<int>)
    requires
        nonnegative(s),
    ensures
        product(s) >= 0,
    decreases s.len(),
{
    if s.len() > 0 {
        assert forall|a: int| 0 <= a < s.drop_first().len() implies 0
            <= #[trigger] s.drop_first()[a] by {
            assert(s.drop_first()[a] == s[a + 1]);
        }
        lemma_product_nonnegative(s.drop_first());
        let q = product(s.drop_first());
        assert(s[0] * q >= 0) by (nonlinear_arith)
            requires
                s[0] >= 0,
                q >= 0,
        ;
    }
}

/// A positive product bounds each of its leading partial products.
pub proof fn lemma_product_take_le(s: Seq<int>, k: int)
    requires
        positive(s),
        0 <= k <= s.len(),
    ensures
        1 <= product(s.take(k)) <= product(s),
    decreases s.len() - k,
{
    assert(positive(s.take(k)));
    lemma_product_positive(s.take(k));
    if k == s.len() {
        assert(s.take(k) =~= s);
    } else {
        lemma_product_take_le(s, k + 1);
        lemma_product_take_next(s, k);
        let q = product(s.take(k));
        assert(q <= q * s[k]) by (nonlinear_arith)
            requires
                q >= 1,
                s[k] >= 1,
        ;
    }
}

/// Positive extents whose product fits are addressable.
pub proof fn lemma_addressable(s: Seq<int>)
    requires
        positive(s),
        product(s) <= usize::MAX,
    ensures
        addressable(s),
{
    assert forall|k: int| 0 <= k <= s.len() implies product(#[trigger] s.take(k))
        <= usize::MAX by {
        lemma_product_take_le(s, k);
    }
}

/// The product of equal extents is a power.
pub proof fn lemma_product_splat(dim: nat, value: int)
    ensures
        product(splat(dim, value)) == pow(value, dim),
    decreases dim,
{
    reveal(pow);
    if dim > 0 {
        lemma_product_splat((dim - 1) as nat, value);
        assert(splat(dim, value).drop_first() =~= splat((dim - 1) as nat, value));
    }
}

/// Smaller extents have the smaller product.
pub proof fn lemma_product_monotone(s: Seq<int>, t: Seq<int>)
    requires
        s.len() == t.len(),
        nonnegative(s),
        forall|a: int| 0 <= a < s.len() ==> #[trigger] s[a] <= t[a],
    ensures
        0 <= product(s) <= product(t),
    decreases s.len(),
{
    lemma_product_nonnegative(s);
    if s.len() > 0 {
        let s1 = s.drop_first();
        let t1 = t.drop_first();
        assert forall|a: int| 0 <= a < s1.len() implies 0 <= #[trigger] s1[a] && s1[a]
            <= t1[a] by {
            assert(s1[a] == s[a + 1]);
        }
        lemma_product_monotone(s1, t1);
        let p = product(s1);
        let q = product(t1);
        assert(s[0] * p <= t[0] * q) by (nonlinear_arith)
            requires
                0 <= s[0] <= t[0],
                0 <= p <= q,
        ;
    }
}

/// Extents below addressable ones are addressable.
pub proof fn lemma_addressable_monotone(s: Seq<int>, t: Seq<int>)
    requires
        s.len() == t.len(),
        nonnegative(s),
        forall|a: int| 0 <= a < s.len() ==> #[trigger] s[a] <= t[a],
        addressable(t),
    ensures
        addressable(s),
{
    assert forall|k: int| 0 <= k <= s.len() implies product(#[trigger] s.take(k))
        <= usize::MAX by {
        lemma_product_monotone(s.take(k), t.take(k));
        assert(product(t.take(k)) <= usize::MAX);
    }
}

pub proof fn lemma_linear_push(p: Seq<int>, s: Seq<int>, x: int, y: int)
    requires
        p.len() == s.len(),
    ensures
        linear(p.push(x), s.push(y)) == linear(p, s) + x * product(s),
    decreases p.len(),
{
    let p2 = p.push(x);
    let s2 = s.push(y);
    if p.len() == 0 {
        assert(linear(p2.drop_first(), s2.drop_first()) == 0);
        assert(product(s) == 1);
        assert(linear(p, s) == 0);
    } else {
        assert(p2.drop_first() =~= p.drop_first().push(x));
        assert(s2.drop_first() =~= s.drop_first().push(y));
        lemma_linear_push(p.drop_first(), s.drop_first(), x, y);
        let l = linear(p.drop_first(), s.drop_first());
        let q = product(s.drop_first());
        assert(s[0] * (l + x * q) == s[0] * l + x * (s[0] * q)) by (nonlinear_arith);
    }
}

pub proof fn lemma_linear_take_next(p: Seq<int>, s: Seq<int>, k: int)
    requires
        p.len() == s.len(),
        0 <= k < p.len(),
    ensures
        linear(p.take(k + 1), s.take(k + 1)) == linear(p.take(k), s.take(k)) + p[k] * product(
            s.take(k),
        ),
{
    assert(p.take(k + 1) =~= p.take(k).push(p[k]));
    assert(s.take(k + 1) =~= s.take(k).push(s[k]));
    lemma_linear_push(p.take(k), s.take(k), p[k], s[k]);
}

pub proof fn lemma_linear_nonnegative(p: Seq<int>, s: Seq<int>)
    requires
        p.len() == s.len(),
        nonnegative(p),
        nonnegative(s),
    ensures
        linear(p, s) >= 0,
    decreases p.len(),
{
    if p.len() > 0 {
        let p1 = p.drop_first();
        let s1 = s.drop_first();
        assert forall|a: int| 0 <= a < p1.len() implies 0 <= #[trigger] p1[a] by {
            assert(p1[a] == p[a + 1]);
        }
        assert forall|a: int| 0 <= a < s1.len() implies 0 <= #[trigger] s1[a] by {
            assert(s1[a] == s[a + 1]);
        }
        lemma_linear_nonnegative(p1, s1);
        let l = linear(p1, s1);
        assert(s[0] * l >= 0) by (nonlinear_arith)
            requires
                s[0] >= 0,
                l >= 0,
        ;
    }
}

/// Leading partial sums never exceed the whole index.
pub proof fn lemma_linear_take_le(p: Seq<int>, s: Seq<int>, k: int)
    requires
        p.len() == s.len(),
        nonnegative(p),
        nonnegative(s),
        0 <= k <= p.len(),
    ensures
        0 <= linear(p.take(k), s.take(k)) <= linear(p, s),
    decreases p.len() - k,
{
    assert(nonnegative(p.take(k)));
    assert(nonnegative(s.take(k)));
    lemma_linear_nonnegative(p.take(k), s.take(k));
    if k == p.len() {
        assert(p.take(k) =~= p);
        assert(s.take(k) =~= s);
    } else {
        lemma_linear_take_le(p, s, k + 1);
        lemma_linear_take_next(p, s, k);
        lemma_product_nonnegative(s.take(k));
        let q = product(s.take(k));
        assert(p[k] * q >= 0) by (nonlinear_arith)
            requires
                p[k] >= 0,
                q >= 0,
        ;
    }
}

/// A point inside the box has an index below the number of points.
pub proof fn lemma_linear_bound(p: Seq<int>, s: Seq<int>)
    requires
        within(p, s),
    ensures
        0 <= linear(p, s) < product(s),
    decreases p.len(),
{
    if p.len() > 0 {
        let p1 = p.drop_first();
        let s1 = s.drop_first();
        assert forall|a: int| 0 <= a < p1.len() implies 0 <= #[trigger] p1[a] < s1[a] by {
            assert(p1[a] == p[a + 1]);
        }
        lemma_linear_bound(p1, s1);
        let l = linear(p1, s1);
        let q = product(s1);
        assert(0 <= p[0] < s[0]);
        assert(0 <= p[0] + s[0] * l < s[0] * q) by (nonlinear_arith)
            requires
                0 <= p[0] < s[0],
                0 <= l < q,
        ;
    }
}

pub proof fn lemma_digit_shift(index: int, s: Seq<int>, a: int)
    requires
        positive(s),
        0 <= index,
        1 <= a < s.len(),
    ensures
        digit(index, s, a) == digit(index / s[0], s.drop_first(), a - 1),
{
    let t = s.take(a);
    let s1 = s.drop_first();
    assert(t.drop_first() =~= s1.take(a - 1));
    let q = product(s1.take(a - 1));
    assert(product(t) == s[0] * q);
    assert(positive(s1.take(a - 1))) by {
        assert forall|b: int| 0 <= b < s1.take(a - 1).len() implies 0 < #[trigger] s1.take(
            a - 1,
        )[b] by {
            assert(s1.take(a - 1)[b] == s[b + 1]);
        }
    }
    lemma_product_positive(s1.take(a - 1));
    lemma_div_denominator(index, s[0], q);
    assert(s1[a - 1] == s[a]);
}

/// Digits of a point's index are the point's coordinates.
pub proof fn lemma_unlinear_of_linear(p: Seq<int>, s: Seq<int>)
    requires
        within(p, s),
    ensures
        unlinear(linear(p, s), s) == p,
    decreases p.len(),
{
    let n = linear(p, s);
    if p.len() > 0 {
        let p1 = p.drop_first();
        let s1 = s.drop_first();
        assert forall|a: int| 0 <= a < p1.len() implies 0 <= #[trigger] p1[a] < s1[a] by {
            assert(p1[a] == p[a + 1]);
        }
        assert forall|a: int| 0 <= a < s.len() implies 0 < #[trigger] s[a] by {
            assert(p[a] < s[a]);
        }
        lemma_unlinear_of_linear(p1, s1);
        lemma_linear_bound(p, s);
        let l = linear(p1, s1);
        assert(s[0] * l == l * s[0]) by (nonlinear_arith);
        assert(0 <= p[0] < s[0]);
        lemma_fundamental_div_mod_converse(n, s[0], l, p[0]);
        assert forall|a: int| 0 <= a < s.len() implies digit(n, s, a) == #[trigger] p[a] by {
            if a == 0 {
                assert(s.take(0).len() == 0);
                assert(product(s.take(0)) == 1);
                assert(n / 1 == n);
            } else {
                lemma_digit_shift(n, s, a);
                assert(unlinear(l, s1)[a - 1] == p1[a - 1]);
            }
        }
    }
    assert(unlinear(n, s) =~= p);
}

/// The point with a given index lies in the box and has that index.
pub proof fn lemma_linear_of_unlinear(index: int, s: Seq<int>)
    requires
        positive(s),
        0 <= index < product(s),
    ensures
        within(unlinear(index, s), s),
        linear(unlinear(index, s), s) == index,
    decreases s.len(),
{
    let p = unlinear(index, s);
    if s.len() > 0 {
        let s1 = s.drop_first();
        assert forall|a: int| 0 <= a < s1.len() implies 0 < #[trigger] s1[a] by {
            assert(s1[a] == s[a + 1]);
        }
        let r = index / s[0];
        let q = product(s1);
        lemma_fundamental_div_mod(index, s[0]);
        lemma_mod_bound(index, s[0]);
        lemma_div_pos_is_pos(index, s[0]);
        assert(r < q) by (nonlinear_arith)
            requires
                index == s[0] * r + index % s[0],
                0 <= index % s[0],
                index < s[0] * q,
                s[0] > 0,
        ;
        lemma_linear_of_unlinear(r, s1);
        assert(s.take(0).len() == 0);
        assert(product(s.take(0)) == 1);
        assert(p[0] == index % s[0]);
        assert forall|a: int| 0 <= a < s1.len() implies #[trigger] p.drop_first()[a] == unlinear(
            r,
            s1,
        )[a] by {
            lemma_digit_shift(index, s, a + 1);
        }
        assert(p.drop_first() =~= unlinear(r, s1));
        assert forall|a: int| 0 <= a < p.len() implies 0 <= #[trigger] p[a] < s[a] by {
            if a > 0 {
                assert(p.drop_first()[a - 1] == p[a]);
                assert(0 <= unlinear(r, s1)[a - 1] < s1[a - 1]);
            }
        }
    }
}

/// Changing one coordinate moves the index by that axis's stride.
pub proof fn lemma_linear_update(p: Seq<int>, s: Seq<int>, a: int, v: int)
    requires
        p.len() == s.len(),
        0 <= a < p.len(),
    ensures
        linear(p.update(a, v), s) == linear(p, s) + (v - p[a]) * product(s.take(a)),
    decreases p.len(),
{
    let p2 = p.update(a, v);
    if a == 0 {
        assert(p2.drop_first() =~= p.drop_first());
        assert(product(s.take(0)) == 1);
        assert((v - p[a]) * 1 == v - p[a]);
    } else {
        assert(p2.drop_first() =~= p.drop_first().update(a - 1, v));
        lemma_linear_update(p.drop_first(), s.drop_first(), a - 1, v);
        assert(s.take(a).drop_first() =~= s.drop_first().take(a - 1));
        let q = product(s.drop_first().take(a - 1));
        let l = linear(p.drop_first(), s.drop_first());
        let d = v - p[a];
        assert(s[0] * (l + d * q) == s[0] * l + d * (s[0] * q)) by (nonlinear_arith);
    }
}

/// Points with the same index in a box are the same point.
pub proof fn lemma_linear_injective(p: Seq<int>, q: Seq<int>, s: Seq<int>)
    requires
        within(p, s),
        within(q, s),
        linear(p, s) == linear(q, s),
    ensures
        p == q,
{
    lemma_unlinear_of_linear(p, s);
    lemma_unlinear_of_linear(q, s);
}

/// No point comes before itself.
pub proof fn lemma_precedes_irreflexive(p: Seq<int>)
    ensures
        !precedes(p, p),
{
}

/// Lexicographic order is transitive.
pub proof fn lemma_precedes_transitive(p: Seq<int>, q: Seq<int>, r: Seq<int>)
    requires
        p.len() == q.len(),
        precedes(p, q),
        precedes(q, r),
    ensures
        precedes(p, r),
{
    let a = choose|k: int|
        {
            &&& 0 <= k < p.len()
            &&& #[trigger] p[k] < q[k]
            &&& forall|j: int| 0 <= j < k ==> p[j] == q[j]
        };
    let b = choose|k: int|
        {
            &&& 0 <= k < q.len()
            &&& #[trigger] q[k] < r[k]
            &&& forall|j: int| 0 <= j < k ==> q[j] == r[j]
        };
    let k = if a < b {
        a
    } else {
        b
    };
    assert forall|j: int| 0 <= j < k implies p[j] == r[j] by {
        assert(p[j] == q[j]);
        assert(q[j] == r[j]);
    }
    assert(p[k] < r[k]) by {
        assert(p[k] <= q[k]);
        assert(q[k] <= r[k]);
    }
}

/// Every point of a box is listed at its rank.
pub proof fn lemma_box_points(p: Seq<int>, lo: Seq<int>, hi: Seq<int>)
    requires
        in_box(p, lo, hi),
        lo.len() == hi.len(),
    ensures
        within(minus(p, lo), extent(lo, hi)),
        0 <= rank(p, lo, hi) < product(extent(lo, hi)),
        box_points(lo, hi)[rank(p, lo, hi)] == p,
{
    let d = minus(p, lo);
    let e = extent(lo, hi);
    assert forall|a: int| 0 <= a < d.len() implies 0 <= #[trigger] d[a] < e[a] by {
        assert(lo[a] <= p[a] < hi[a]);
    }
    lemma_linear_bound(d, e);
    lemma_unlinear_of_linear(d, e);
    assert(box_points(lo, hi)[rank(p, lo, hi)] =~= p);
}

/// A box starts at rank zero.
pub proof fn lemma_rank_of_start(lo: Seq<int>, hi: Seq<int>)
    ensures
        rank(lo, lo, hi) == 0,
{
    assert(minus(lo, lo) =~= splat(lo.len(), 0));
    lemma_linear_of_zero(lo.len(), extent(lo, hi));
}

pub proof fn lemma_linear_of_zero(dim: nat, s: Seq<int>)
    requires
        s.len() == dim,
    ensures
        linear(splat(dim, 0), s) == 0,
    decreases dim,
{
    if dim > 0 {
        assert(splat(dim, 0).drop_first() =~= splat((dim - 1) as nat, 0));
        lemma_linear_of_zero((dim - 1) as nat, s.drop_first());
        assert(s[0] * 0 == 0);
    }
}

/// What is listed at position `k` of a box is a point of it with that rank.
pub proof fn lemma_box_points_at(k: int, lo: Seq<int>, hi: Seq<int>)
    requires
        lo.len() == hi.len(),
        0 <= k < product(extent(lo, hi)),
    ensures
        in_box(box_points(lo, hi)[k], lo, hi),
        rank(box_points(lo, hi)[k], lo, hi) == k,
{
    let e = extent(lo, hi);
    let p = box_points(lo, hi)[k];
    lemma_product_zero(e);
    assert(positive(e));
    lemma_linear_of_unlinear(k, e);
    assert(minus(p, lo) =~= unlinear(k, e));
    assert forall|a: int| 0 <= a < p.len() implies lo[a] <= #[trigger] p[a] < hi[a] by {
        assert(0 <= unlinear(k, e)[a] < e[a]);
    }
}

/// A product of non-negative entries is positive only if all of them are.
pub proof fn lemma_product_zero(s: Seq<int>)
    requires
        nonnegative(s),
    ensures
        product(s) > 0 <==> positive(s),
    decreases s.len(),
{
    if positive(s) {
        lemma_product_positive(s);
    } else {
        let a = choose|a: int| 0 <= a < s.len() && !(0 < #[trigger] s[a]);
        let s1 = s.drop_first();
        let q = product(s1);
        assert forall|b: int| 0 <= b < s1.len() implies 0 <= #[trigger] s1[b] by {
            assert(s1[b] == s[b + 1]);
        }
        lemma_product_zero(s1);
        if a == 0 {
            assert(s[0] * q == 0) by (nonlinear_arith)
                requires
                    s[0] == 0,
            ;
        } else {
            assert(!(0 < s1[a - 1]));
            lemma_product_nonnegative(s1);
            assert(s[0] * q == 0) by (nonlinear_arith)
                requires
                    q == 0,
            ;
        }
    }
}

pub proof fn lemma_product_twos(dim: nat, k: nat)
    requires
        k <= dim,
    ensures
        product(splat(dim, 2).take(k as int)) == pow2(k),
    decreases k,
{
    let s = splat(dim, 2);
    if k == 0 {
        assert(product(s.take(0)) == 1);
        vstd::arithmetic::power2::lemma2_to64();
    } else {
        lemma_product_twos(dim, (k - 1) as nat);
        let q = product(s.take(k - 1));
        lemma_product_take_next(s, k - 1);
        assert(s[k - 1] == 2);
        assert(product(s.take(k - 1 + 1)) == q * 2);
        lemma_pow2_unfold(k);
    }
}

/// There are `2^dim` corners of a `dim`-dimensional cube.
pub proof fn lemma_corner_count(dim: nat)
    ensures
        product(splat(dim, 2)) == pow2(dim),
        positive(splat(dim, 2)),
        pow2(dim) >= 1,
{
    lemma_product_twos(dim, dim);
    assert(splat(dim, 2).take(dim as int) =~= splat(dim, 2));
    lemma_pow2_pos(dim);
}

} // verus!
