//! Points, boxes and their order.
use crate::geometry::{
    box_points, digit, extent, in_box, lemma_box_points, lemma_box_points_at,
    lemma_linear_injective, linear, minus, overlap, overlapping, plus, precedes,
    product, rank, shares_stretch, splat, unlinear, within,
};
use crate::topology::{part_end, part_start, Topology};
use crate::tree::Cube;
use core::ops::Range;
use vstd::arithmetic::power2::{lemma_pow2_unfold, pow2};
use vstd::prelude::*;

verus! {

/// The volume of a box is the product of its extents.
pub proof fn lemma_volume(x: int, y: int, z: int)
    ensures
        product(seq![x, y]) == x * y,
        product(seq![x, y, z]) == x * y * z,
{
    assert(seq![x, y].drop_first() =~= seq![y]);
    assert(seq![y].drop_first() =~= Seq::<int>::empty());
    assert(seq![x, y, z].drop_first() =~= seq![y, z]);
    assert(seq![y, z].drop_first() =~= seq![z]);
    assert(seq![z].drop_first() =~= Seq::<int>::empty());
    reveal_with_fuel(product, 5);
    assert(x * (y * (z * 1)) == x * y * z) by (nonlinear_arith);
    assert(x * (y * 1) == x * y) by (nonlinear_arith);
}

/// In row-major order, axis zero runs fastest.
pub proof fn lemma_row_major(x: int, y: int, z: int, width: int, height: int, depth: int)
    ensures
        linear(seq![x, y], seq![width, height]) == x + width * y,
        linear(seq![x, y, z], seq![width, height, depth]) == x + width * (y + height * z),
{
    assert(seq![x, y].drop_first() =~= seq![y]);
    assert(seq![y].drop_first() =~= Seq::<int>::empty());
    assert(seq![x, y, z].drop_first() =~= seq![y, z]);
    assert(seq![y, z].drop_first() =~= seq![z]);
    assert(seq![z].drop_first() =~= Seq::<int>::empty());
    assert(seq![width, height].drop_first() =~= seq![height]);
    assert(seq![width, height, depth].drop_first() =~= seq![height, depth]);
    assert(seq![height, depth].drop_first() =~= seq![depth]);
    reveal_with_fuel(linear, 5);
    assert(depth * 0 == 0 && height * 0 == 0) by (nonlinear_arith);
}

/// Moving a point along an axis moves its index by as many steps as the boxes of
/// the axes below it hold points.
pub proof fn lemma_stride(point: Seq<int>, size: Seq<int>, a: int, value: int)
    requires
        point.len() == size.len(),
        0 <= a < point.len(),
    ensures
        linear(point.update(a, value), size) - linear(point, size) == (value - point[a])
            * product(size.take(a)),
    decreases point.len(),
{
    let moved = point.update(a, value);
    if a == 0 {
        assert(moved.drop_first() =~= point.drop_first());
        assert(size.take(0) =~= Seq::<int>::empty());
        assert((value - point[0]) * 1 == value - point[0]);
    } else {
        let rest = point.drop_first();
        let below = size.drop_first();
        assert(moved.drop_first() =~= rest.update(a - 1, value));
        lemma_stride(rest, below, a - 1, value);
        assert(size.take(a).drop_first() =~= below.take(a - 1));
        assert(size.take(a)[0] == size[0]);
        let q = product(below.take(a - 1));
        let l = linear(rest, below);
        let m = linear(rest.update(a - 1, value), below);
        assert(size[0] * m - size[0] * l == (value - point[a]) * (size[0] * q))
            by (nonlinear_arith)
            requires
                m - l == (value - point[a]) * q,
        ;
    }
}

/// Of two points of a box, the one with the smaller index has the smaller
/// coordinate on the last axis on which they differ.
pub proof fn lemma_index_order(p: Seq<int>, q: Seq<int>, size: Seq<int>) -> (a: int)
    requires
        p.len() == size.len(),
        q.len() == size.len(),
        forall|b: int| 0 <= b < p.len() ==> 0 <= #[trigger] p[b] < size[b],
        forall|b: int| 0 <= b < q.len() ==> 0 <= #[trigger] q[b] < size[b],
        linear(p, size) < linear(q, size),
    ensures
        0 <= a < p.len(),
        p[a] < q[a],
        forall|b: int| a < b < p.len() ==> #[trigger] p[b] == q[b],
    decreases p.len(),
{
    let p1 = p.drop_first();
    let q1 = q.drop_first();
    let s1 = size.drop_first();
    assert forall|b: int| 0 <= b < p1.len() implies 0 <= #[trigger] p1[b] < s1[b] by {
        assert(p1[b] == p[b + 1]);
    }
    assert forall|b: int| 0 <= b < q1.len() implies 0 <= #[trigger] q1[b] < s1[b] by {
        assert(q1[b] == q[b + 1]);
    }
    let l = linear(p1, s1);
    let m = linear(q1, s1);
    assert(0 <= p[0] < size[0]);
    assert(0 <= q[0] < size[0]);
    if l < m {
        let a = lemma_index_order(p1, q1, s1);
        assert(p1[a] == p[a + 1] && q1[a] == q[a + 1]);
        assert forall|b: int| a + 1 < b < p.len() implies #[trigger] p[b] == q[b] by {
            assert(p1[b - 1] == q1[b - 1]);
        }
        a + 1
    } else {
        assert(l <= m) by {
            if l > m {
                assert(size[0] * l >= size[0] * m + size[0]) by (nonlinear_arith)
                    requires
                        l >= m + 1,
                        size[0] > 0,
                ;
            }
        }
        assert(within(p1, s1) && within(q1, s1));
        lemma_linear_injective(p1, q1, s1);
        assert forall|b: int| 0 < b < p.len() implies #[trigger] p[b] == q[b] by {
            assert(p1[b - 1] == q1[b - 1]);
        }
        0
    }
}

/// Counting on by one moves to the next point as an odometer does: on some axis
/// the coordinate grows by one, on the axes below it the highest gives way to
/// zero, and on the axes above it nothing changes.
pub proof fn lemma_index_successor(p: Seq<int>, q: Seq<int>, size: Seq<int>) -> (a: int)
    requires
        p.len() == size.len(),
        q.len() == size.len(),
        forall|b: int| 0 <= b < p.len() ==> 0 <= #[trigger] p[b] < size[b],
        forall|b: int| 0 <= b < q.len() ==> 0 <= #[trigger] q[b] < size[b],
        linear(q, size) == linear(p, size) + 1,
    ensures
        0 <= a < p.len(),
        q[a] == p[a] + 1,
        forall|b: int| 0 <= b < a ==> #[trigger] p[b] == size[b] - 1 && q[b] == 0,
        forall|b: int| a < b < p.len() ==> #[trigger] p[b] == q[b],
    decreases p.len(),
{
    let p1 = p.drop_first();
    let q1 = q.drop_first();
    let s1 = size.drop_first();
    assert forall|b: int| 0 <= b < p1.len() implies 0 <= #[trigger] p1[b] < s1[b] by {
        assert(p1[b] == p[b + 1]);
    }
    assert forall|b: int| 0 <= b < q1.len() implies 0 <= #[trigger] q1[b] < s1[b] by {
        assert(q1[b] == q[b + 1]);
    }
    let l = linear(p1, s1);
    let m = linear(q1, s1);
    let s = size[0];
    assert(0 <= p[0] < s);
    assert(0 <= q[0] < s);
    assert(q[0] + s * m == p[0] + s * l + 1);
    if p[0] + 1 < s {
        assert(m == l) by (nonlinear_arith)
            requires
                q[0] + s * m == p[0] + s * l + 1,
                0 <= q[0] < s,
                0 <= p[0],
                p[0] + 1 < s,
        ;
        assert(within(p1, s1) && within(q1, s1));
        lemma_linear_injective(p1, q1, s1);
        assert forall|b: int| 0 < b < p.len() implies #[trigger] p[b] == q[b] by {
            assert(p1[b - 1] == q1[b - 1]);
        }
        0
    } else {
        assert(m == l + 1) by (nonlinear_arith)
            requires
                q[0] + s * m == s * l + s,
                0 <= q[0] < s,
        ;
        assert(q[0] == 0) by (nonlinear_arith)
            requires
                q[0] + s * m == s * l + s,
                m == l + 1,
        ;
        let a = lemma_index_successor(p1, q1, s1);
        assert(p1[a] == p[a + 1] && q1[a] == q[a + 1]);
        assert forall|b: int| 0 <= b < a + 1 implies #[trigger] p[b] == size[b] - 1 && q[b]
            == 0 by {
            if b > 0 {
                assert(p1[b - 1] == s1[b - 1] - 1);
            }
        }
        assert forall|b: int| a + 1 < b < p.len() implies #[trigger] p[b] == q[b] by {
            assert(p1[b - 1] == q1[b - 1]);
        }
        a + 1
    }
}

/// The successor of a point in the row-major order of a box.
pub proof fn lemma_next_in_box<Topo: Topology>(
    range: &Range<Topo::Coord>,
    coord: Topo::Coord,
    next: Option<Topo::Coord>,
) -> (a: int)
    requires
        ({
            let (p, lo, hi) = (
                Topo::point(coord),
                Topo::point(range.start),
                Topo::point(range.end),
            );
            forall|b: int|
                0 <= b < Topo::DIMENSIONS ==> lo[b] <= #[trigger] p[b] && p[b] < hi[b]
        }),
        call_ensures(Topo::next_coord, (range, coord), next),
    ensures
        ({
            let (p, lo, hi) = (
                Topo::point(coord),
                Topo::point(range.start),
                Topo::point(range.end),
            );
            match next {
                Some(after) => {
                    let q = Topo::point(after);
                    &&& 0 <= a < Topo::DIMENSIONS
                    &&& q[a] == p[a] + 1
                    &&& q[a] < hi[a]
                    &&& forall|b: int|
                        0 <= b < a ==> #[trigger] p[b] == hi[b] - 1 && q[b] == lo[b]
                    &&& forall|b: int| a < b < Topo::DIMENSIONS ==> #[trigger] p[b] == q[b]
                },
                None => forall|b: int|
                    0 <= b < Topo::DIMENSIONS ==> #[trigger] p[b] == hi[b] - 1,
            }
        }),
{
    let (p, lo, hi) = (Topo::point(coord), Topo::point(range.start), Topo::point(range.end));
    Topo::lemma_point(coord);
    Topo::lemma_point(range.start);
    Topo::lemma_point(range.end);
    assert(in_box(p, lo, hi));
    let e = extent(lo, hi);
    let d = minus(p, lo);
    lemma_box_points(p, lo, hi);
    match next {
        Some(after) => {
            let q = Topo::point(after);
            Topo::lemma_point(after);
            lemma_box_points(q, lo, hi);
            let f = minus(q, lo);
            let a = lemma_index_successor(d, f, e);
            assert forall|b: int| 0 <= b < a implies #[trigger] p[b] == hi[b] - 1 && q[b]
                == lo[b] by {
                assert(d[b] == e[b] - 1 && f[b] == 0);
                assert(lo[b] <= p[b]);
            }
            assert forall|b: int| a < b < Topo::DIMENSIONS implies #[trigger] p[b] == q[b] by {
                assert(d[b] == f[b]);
            }
            assert(f[a] == d[a] + 1);
            assert(lo[a] <= q[a] < hi[a]);
            a
        },
        None => {
            let top = Seq::new(lo.len(), |b: int| hi[b] - 1);
            assert forall|b: int| 0 <= b < top.len() implies lo[b] <= #[trigger] top[b]
                < hi[b] by {
                assert(lo[b] <= p[b] < hi[b]);
            }
            assert(in_box(top, lo, hi));
            lemma_box_points(top, lo, hi);
            let t = minus(top, lo);
            if rank(top, lo, hi) < rank(p, lo, hi) {
                let a = lemma_index_order(t, d, e);
                assert(t[a] < d[a]);
                assert(p[a] < hi[a]);
            } else {
                assert(rank(top, lo, hi) == rank(p, lo, hi));
                assert(top == p);
            }
            0
        },
    }
}

/// Halving a region on every axis: part `index` takes the upper half on axis `a`
/// exactly if the binary digit `a` of `index` is one. An odd extent leaves its last
/// coordinate to no part.
pub proof fn lemma_halved(lo: Seq<int>, hi: Seq<int>, index: int, a: int)
    requires
        lo.len() == hi.len(),
        0 <= a < lo.len(),
        index >= 0,
    ensures
        ({
            let half = (hi[a] - lo[a]) / 2;
            let (from, to) = (part_start(lo, hi, index)[a], part_end(lo, hi, index)[a]);
            &&& (index / pow2(a as nat) as int) % 2 == 0 ==> from == lo[a] && to == lo[a] + half
            &&& (index / pow2(a as nat) as int) % 2 == 1 ==> from == lo[a] + half && to == lo[a]
                + half + half
        }),
{
    let twos = splat(lo.len(), 2);
    lemma_twos(a as nat);
    assert(twos.take(a) =~= splat(a as nat, 2));
    assert(unlinear(index, twos)[a] == digit(index, twos, a));
    let half = (hi[a] - lo[a]) / 2;
    assert(half * 0 == 0 && half * 1 == half && half * (0 + 1) == half && half * (1 + 1) == half
        + half) by (nonlinear_arith);
}

/// The slot that a point of a cube falls into has, as its binary digits, for each
/// axis whether the point lies in the upper half.
pub proof fn lemma_slot_halves(cube: Cube, p: Seq<int>, a: int)
    requires
        cube.size >= 2,
        cube.size % 2 == 0,
        cube.contains(p),
        0 <= a < cube.dim(),
    ensures
        (cube.slot_of(p) / pow2(a as nat) as int) % 2 == (if p[a] >= cube.corner[a] + cube.size
            / 2 {
            1int
        } else {
            0
        }),
{
    cube.lemma_slot_of(p);
    let slot = cube.slot_of(p);
    lemma_octant_bits(cube, slot, a);
    let o = cube.octant(slot);
    assert(o.corner[a] <= p[a] < o.corner[a] + o.size);
}

/// The points of a box that are listed are exactly those that are within its
/// bounds on every axis.
pub proof fn lemma_listed_points(lo: Seq<int>, hi: Seq<int>)
    requires
        lo.len() == hi.len(),
    ensures
        forall|p: Seq<int>| #[trigger]
            box_points(lo, hi).contains(p) <==> p.len() == lo.len() && forall|a: int|
                0 <= a < lo.len() ==> lo[a] <= #[trigger] p[a] < hi[a],
{
    let all = box_points(lo, hi);
    crate::geometry::lemma_product_nonnegative(extent(lo, hi));
    assert forall|p: Seq<int>| #[trigger] all.contains(p) <==> p.len() == lo.len() && forall|a: int|
        0 <= a < lo.len() ==> lo[a] <= #[trigger] p[a] < hi[a] by {
        if all.contains(p) {
            let k = choose|k: int| 0 <= k < all.len() && all[k] == p;
            lemma_box_points_at(k, lo, hi);
        }
        if p.len() == lo.len() && forall|a: int|
            0 <= a < lo.len() ==> lo[a] <= #[trigger] p[a] < hi[a] {
            assert(in_box(p, lo, hi));
            lemma_box_points(p, lo, hi);
            assert(all[rank(p, lo, hi)] == p);
        }
    }
}

/// The points of a box are listed once each, the last axis running slowest: of two
/// of them, the one listed first has the smaller coordinate on the last axis on
/// which they differ.
pub proof fn lemma_listed_order(lo: Seq<int>, hi: Seq<int>, i: int, j: int) -> (a: int)
    requires
        lo.len() == hi.len(),
        0 <= i < j < box_points(lo, hi).len(),
    ensures
        0 <= a < lo.len(),
        box_points(lo, hi)[i][a] < box_points(lo, hi)[j][a],
        forall|b: int|
            a < b < lo.len() ==> #[trigger] box_points(lo, hi)[i][b] == box_points(lo, hi)[j][b],
{
    let all = box_points(lo, hi);
    let e = extent(lo, hi);
    crate::geometry::lemma_product_nonnegative(e);
    lemma_box_points_at(i, lo, hi);
    lemma_box_points_at(j, lo, hi);
    let p = minus(all[i], lo);
    let q = minus(all[j], lo);
    assert forall|b: int| 0 <= b < p.len() implies 0 <= #[trigger] p[b] < e[b] by {
        assert(lo[b] <= all[i][b] < hi[b]);
    }
    assert forall|b: int| 0 <= b < q.len() implies 0 <= #[trigger] q[b] < e[b] by {
        assert(lo[b] <= all[j][b] < hi[b]);
    }
    let a = lemma_index_order(p, q, e);
    assert(p[a] == all[i][a] - lo[a]);
    assert forall|b: int| a < b < lo.len() implies #[trigger] all[i][b] == all[j][b] by {
        assert(p[b] == q[b]);
    }
    a
}

/// A box and a cube overlap exactly if some point lies in both.
pub proof fn lemma_common_point(lo: Seq<int>, hi: Seq<int>, corner: Seq<int>, size: int)
    requires
        lo.len() == corner.len(),
        hi.len() == corner.len(),
    ensures
        overlapping(lo, hi, corner, size) <==> exists|p: Seq<int>|
            p.len() == corner.len() && forall|a: int|
                0 <= a < corner.len() ==> lo[a] <= #[trigger] p[a] < hi[a] && corner[a] <= p[a]
                    < corner[a] + size,
{
    if overlapping(lo, hi, corner, size) {
        let p = Seq::new(
            corner.len(),
            |a: int|
                if lo[a] < corner[a] {
                    corner[a]
                } else {
                    lo[a]
                },
        );
        assert forall|a: int| 0 <= a < corner.len() implies lo[a] <= #[trigger] p[a] < hi[a]
            && corner[a] <= p[a] < corner[a] + size by {
            assert(shares_stretch(lo[a], hi[a], corner[a], size));
        }
        assert(p.len() == corner.len());
    }
    if exists|p: Seq<int>|
        p.len() == corner.len() && forall|a: int|
            0 <= a < corner.len() ==> lo[a] <= #[trigger] p[a] < hi[a] && corner[a] <= p[a]
                < corner[a] + size {
        let p = choose|p: Seq<int>|
            p.len() == corner.len() && forall|a: int|
                0 <= a < corner.len() ==> lo[a] <= #[trigger] p[a] < hi[a] && corner[a] <= p[a]
                    < corner[a] + size;
        assert forall|a: int|
            #![trigger lo[a]]
            #![trigger hi[a]]
            #![trigger corner[a]]
            0 <= a < corner.len() implies shares_stretch(lo[a], hi[a], corner[a], size) by {
            assert(lo[a] <= p[a] < hi[a]);
        }
    }
}

/// The extents of an overlap are those of a box, and a point lies in that box
/// exactly if it lies in both the region and the cube.
pub proof fn lemma_common_box(lo: Seq<int>, hi: Seq<int>, corner: Seq<int>, size: int) -> (start:
    Seq<int>)
    requires
        lo.len() == corner.len(),
        hi.len() == corner.len(),
    ensures
        start.len() == corner.len(),
        overlap(lo, hi, corner, size).len() == corner.len(),
        forall|a: int| 0 <= a < corner.len() ==> 0 <= #[trigger] overlap(lo, hi, corner, size)[a],
        forall|p: Seq<int>, a: int|
            0 <= a < corner.len() ==> (start[a] <= #[trigger] p[a] < start[a] + overlap(
                lo,
                hi,
                corner,
                size,
            )[a] <==> lo[a] <= p[a] < hi[a] && corner[a] <= p[a] < corner[a] + size),
{
    let start = Seq::new(
        corner.len(),
        |a: int|
            if lo[a] < corner[a] {
                corner[a]
            } else {
                lo[a]
            },
    );
    start
}

/// Offsets of octants: on axis `a`, slot `index` lies in the upper half exactly if
/// the binary digit `a` of `index` is one.
pub proof fn lemma_octant_bits(cube: Cube, index: int, a: int)
    requires
        0 <= a < cube.dim(),
        index >= 0,
    ensures
        cube.octant(index).size == cube.size / 2,
        (index / pow2(a as nat) as int) % 2 == 0 ==> cube.octant(index).corner[a]
            == cube.corner[a],
        (index / pow2(a as nat) as int) % 2 == 1 ==> cube.octant(index).corner[a]
            == cube.corner[a] + cube.size / 2,
{
    let twos = splat(cube.dim(), 2);
    lemma_twos(a as nat);
    assert(twos.take(a) =~= splat(a as nat, 2));
    assert(unlinear(index, twos)[a] == digit(index, twos, a));
    let half = cube.size / 2;
    assert(half * 0 == 0 && half * 1 == half);
}

proof fn lemma_twos(count: nat)
    ensures
        product(splat(count, 2)) == pow2(count),
    decreases count,
{
    if count > 0 {
        lemma_twos((count - 1) as nat);
        assert(splat(count, 2).drop_first() =~= splat((count - 1) as nat, 2));
        lemma_pow2_unfold(count);
    } else {
        vstd::arithmetic::power2::lemma2_to64();
    }
}

/// Sums and differences are taken axis by axis.
pub proof fn lemma_axiswise(p: Seq<int>, q: Seq<int>, a: int)
    requires
        p.len() == q.len(),
        0 <= a < p.len(),
    ensures
        plus(p, q).len() == p.len() && minus(p, q).len() == p.len(),
        plus(p, q)[a] == p[a] + q[a],
        minus(p, q)[a] == p[a] - q[a],
        minus(plus(p, q), q) == p,
{
    assert(minus(plus(p, q), q) =~= p);
}

/// Lexicographic order compares the first axis on which two points differ: of two
/// different points exactly one comes first.
pub proof fn lemma_lexicographic(p: Seq<int>, q: Seq<int>, a: int)
    requires
        p.len() == q.len(),
        0 <= a < p.len(),
        p[a] != q[a],
        forall|b: int| 0 <= b < a ==> #[trigger] p[b] == q[b],
    ensures
        precedes(p, q) <==> p[a] < q[a],
        precedes(q, p) <==> q[a] < p[a],
{
    if precedes(p, q) {
        let k = choose|k: int|
            {
                &&& 0 <= k < p.len()
                &&& #[trigger] p[k] < q[k]
                &&& forall|j: int| 0 <= j < k ==> p[j] == q[j]
            };
        assert(k == a);
    }
    if precedes(q, p) {
        let k = choose|k: int|
            {
                &&& 0 <= k < q.len()
                &&& #[trigger] q[k] < p[k]
                &&& forall|j: int| 0 <= j < k ==> q[j] == p[j]
            };
        assert(k == a);
    }
    assert(p[a] < q[a] ==> precedes(p, q));
    assert(q[a] < p[a] ==> precedes(q, p));
}

} // verus!
