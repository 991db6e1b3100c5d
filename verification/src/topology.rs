//! Dimensionality: coordinates, branch fan-out and the arithmetic on both.
use crate::allocator::Address;
use crate::geometry::{
    addressable, digit, extent, halves, in_box, linear, minus, nonnegative, overlap,
    overlap_on_axis, overlapping, positive, product, rank, shares_stretch, splat, unlinear,
    within,
    lemma_box_points, lemma_linear_take_le, lemma_linear_take_next, lemma_linear_update,
    lemma_product_nonnegative, lemma_product_take_next, lemma_product_twos,
};
use crate::tree::Cube;
use core::ops::Range;
use vstd::arithmetic::power::pow;
use vstd::arithmetic::power2::pow2;
use vstd::prelude::*;

verus! {

/// Describes the dimensionality of a grid and all the coordinate arithmetic
/// that depends on it.
///
/// A topology decides the coordinate type, the branch fan-out and the maps
/// between coordinates, row-major indices and child slots. Contracts speak of a
/// coordinate as its [`point`](Topology::point), one integer per axis.
pub trait Topology: Copy + core::fmt::Debug + 'static {
    /// Integer coordinate, e.g. `[usize; 2]` or `[usize; 3]`.
    type Coord: Copy + Ord + core::hash::Hash + core::fmt::Debug;

    /// Fixed-size container with one cell address per child of a branch.
    type Children: Copy + core::fmt::Debug;

    /// Number of axes (2 for a quadtree, 3 for an octree).
    const DIMENSIONS: usize;

    /// Number of children per branch (`2.pow(DIMENSIONS)`).
    const CHILDREN: usize;

    /// The coordinate as a sequence of integers, axis `0` first.
    spec fn point(coord: Self::Coord) -> Seq<int>;

    /// The child addresses in slot order.
    spec fn slots(children: Self::Children) -> Seq<Address>;

    /// A branch has one child per corner of a cube.
    proof fn lemma_shape()
        ensures
            Self::CHILDREN == pow2(Self::DIMENSIONS as nat),
    ;

    /// A coordinate has `DIMENSIONS` entries, each a `usize`.
    proof fn lemma_point(coord: Self::Coord)
        ensures
            Self::point(coord).len() == Self::DIMENSIONS,
            forall|a: int|
                0 <= a < Self::DIMENSIONS ==> 0 <= #[trigger] Self::point(coord)[a] <= usize::MAX,
    ;

    /// A coordinate is determined by its entries.
    proof fn lemma_point_injective(left: Self::Coord, right: Self::Coord)
        requires
            Self::point(left) == Self::point(right),
        ensures
            left == right,
    ;

    /// There is one slot per child.
    proof fn lemma_slots(children: Self::Children)
        ensures
            Self::slots(children).len() == Self::CHILDREN,
    ;

    /// Read a single axis of a coordinate (`0` is the fastest-varying axis).
    fn axis(coord: Self::Coord, axis: usize) -> (value: usize)
        requires
            axis < Self::DIMENSIONS,
        ensures
            value == Self::point(coord)[axis as int],
    ;

    /// Build a coordinate from a per-axis function (`0..DIMENSIONS`).
    fn from_axes<F: FnMut(usize) -> usize>(f: F) -> (coord: Self::Coord)
        requires
            forall|a: usize| a < Self::DIMENSIONS ==> call_requires(f, (a,)),
        ensures
            forall|a: int|
                0 <= a < Self::DIMENSIONS ==> call_ensures(
                    f,
                    (a as usize,),
                    #[trigger] Self::point(coord)[a] as usize,
                ),
    ;

    /// Build the children from a per-slot function (`0..CHILDREN`).
    fn children_from_fn<F: FnMut(usize) -> Address>(f: F) -> (children: Self::Children)
        requires
            forall|i: usize| i < Self::CHILDREN ==> call_requires(f, (i,)),
        ensures
            forall|i: int|
                0 <= i < Self::CHILDREN ==> call_ensures(
                    f,
                    (i as usize,),
                    #[trigger] Self::slots(children)[i],
                ),
    ;

    /// Borrow the children as a slice for iteration.
    fn children_as_slice(children: &Self::Children) -> (slice: &[Address])
        ensures
            slice@ == Self::slots(*children),
    ;

    /// Coordinate with the same `value` on every axis.
    fn splat(value: usize) -> (coord: Self::Coord)
        ensures
            Self::point(coord) == splat(Self::DIMENSIONS as nat, value as int),
    {
        let per_axis = |axis: usize| -> (r: usize)
                ensures
                    r == value,
                { value };
        let coord = Self::from_axes(per_axis);
        proof {
            Self::lemma_point(coord);
            assert(Self::point(coord) =~= splat(Self::DIMENSIONS as nat, value as int));
        }
        coord
    }

    /// Coordinate with the given `values`, axis `0` first.
    fn from_values(values: &Vec<usize>) -> (coord: Self::Coord)
        requires
            values@.len() == Self::DIMENSIONS,
        ensures
            Self::point(coord) == Seq::new(Self::DIMENSIONS as nat, |a: int| values@[a] as int),
    {
        let per_axis = |axis: usize| -> (r: usize)
                requires
                    axis < values@.len(),
                ensures
                    r == values@[axis as int],
                { values[axis] };
        let coord = Self::from_axes(per_axis);
        proof {
            Self::lemma_point(coord);
            assert(Self::point(coord) =~= Seq::new(
                Self::DIMENSIONS as nat,
                |a: int| values@[a] as int,
            ));
        }
        coord
    }

    /// Map every axis of a coordinate through `f`.
    fn map<F: FnMut(usize) -> usize>(coord: Self::Coord, f: F) -> (mapped: Self::Coord)
        requires
            forall|a: int|
                0 <= a < Self::DIMENSIONS ==> call_requires(
                    f,
                    (#[trigger] Self::point(coord)[a] as usize,),
                ),
        ensures
            forall|a: int|
                0 <= a < Self::DIMENSIONS ==> call_ensures(
                    f,
                    (Self::point(coord)[a] as usize,),
                    #[trigger] Self::point(mapped)[a] as usize,
                ),
    {
        proof {
            Self::lemma_point(coord);
        }
        let mut convert = f;
        let mut values: Vec<usize> = Vec::with_capacity(Self::DIMENSIONS);
        let mut axis: usize = 0;
        while axis < Self::DIMENSIONS
            invariant
                axis <= Self::DIMENSIONS,
                convert == f,
                forall|a: int|
                    0 <= a < Self::DIMENSIONS ==> call_requires(
                        f,
                        (#[trigger] Self::point(coord)[a] as usize,),
                    ),
                values@.len() == axis,
                forall|a: int|
                    0 <= a < axis ==> call_ensures(
                        f,
                        (Self::point(coord)[a] as usize,),
                        #[trigger] values@[a],
                    ),
            decreases Self::DIMENSIONS - axis,
        {
            let value = Self::axis(coord, axis);
            assert(value == Self::point(coord)[axis as int]);
            values.push(convert(value));
            axis = axis + 1;
        }
        let mapped = Self::from_values(&values);
        proof {
            assert forall|a: int| 0 <= a < Self::DIMENSIONS implies call_ensures(
                f,
                (Self::point(coord)[a] as usize,),
                #[trigger] Self::point(mapped)[a] as usize,
            ) by {
                assert(Self::point(mapped)[a] == values@[a]);
            }
        }
        mapped
    }

    /// Product of all axes (number of cells contained in a box of this size).
    fn volume(coord: Self::Coord) -> (volume: usize)
        requires
            addressable(Self::point(coord)),
        ensures
            volume == product(Self::point(coord)),
    {
        let ghost p = Self::point(coord);
        proof {
            Self::lemma_point(coord);
            assert(product(p.take(0)) == 1);
        }
        let mut acc: usize = 1;
        let mut axis: usize = 0;
        while axis < Self::DIMENSIONS
            invariant
                axis <= Self::DIMENSIONS,
                p == Self::point(coord),
                p.len() == Self::DIMENSIONS,
                addressable(p),
                forall|a: int| 0 <= a < Self::DIMENSIONS ==> 0 <= #[trigger] p[a] <= usize::MAX,
                acc == product(p.take(axis as int)),
            decreases Self::DIMENSIONS - axis,
        {
            proof {
                lemma_product_take_next(p, axis as int);
                assert(product(p.take(axis + 1)) <= usize::MAX);
                assert(nonnegative(p.take(axis + 1)));
                lemma_product_nonnegative(p.take(axis + 1));
            }
            acc = acc * Self::axis(coord, axis);
            axis = axis + 1;
        }
        assert(p.take(p.len() as int) =~= p);
        acc
    }

    /// Volume of a cube cell with the given edge length (`size.pow(DIMENSIONS)`).
    fn cell_volume(size: usize) -> (volume: usize)
        requires
            pow(size as int, Self::DIMENSIONS as nat) <= usize::MAX,
        ensures
            volume == pow(size as int, Self::DIMENSIONS as nat),
    {
        let mut acc: usize = 1;
        let mut axis: usize = 0;
        proof {
            vstd::arithmetic::power::lemma_pow0(size as int);
        }
        while axis < Self::DIMENSIONS
            invariant
                axis <= Self::DIMENSIONS,
                pow(size as int, Self::DIMENSIONS as nat) <= usize::MAX,
                acc == pow(size as int, axis as nat),
            decreases Self::DIMENSIONS - axis,
        {
            proof {
                let k = (axis + 1) as nat;
                reveal(pow);
                assert(pow(size as int, k) == size * pow(size as int, axis as nat));
                assert(size * acc == acc * size) by (nonlinear_arith);
                if size == 0 {
                    assert(acc * size == 0) by (nonlinear_arith)
                        requires
                            size == 0,
                    ;
                } else {
                    vstd::arithmetic::power::lemma_pow_increases(
                        size as nat,
                        k,
                        Self::DIMENSIONS as nat,
                    );
                    assert(acc * size >= 0) by (nonlinear_arith)
                        requires
                            acc >= 0,
                            size >= 0,
                    ;
                }
            }
            acc = acc * size;
            axis = axis + 1;
        }
        acc
    }

    /// Flatten a coordinate into a row-major index within a box of `size`
    /// (axis `0` is contiguous / fastest-varying).
    fn linear_index(coord: Self::Coord, size: Self::Coord) -> (index: usize)
        requires
            addressable(Self::point(size)),
            linear(Self::point(coord), Self::point(size)) <= usize::MAX,
        ensures
            index == linear(Self::point(coord), Self::point(size)),
    {
        let ghost p = Self::point(coord);
        let ghost s = Self::point(size);
        proof {
            Self::lemma_point(coord);
            Self::lemma_point(size);
            assert(product(s.take(0)) == 1);
        }
        let mut index: usize = 0;
        let mut stride: usize = 1;
        let mut axis: usize = 0;
        while axis < Self::DIMENSIONS
            invariant
                axis <= Self::DIMENSIONS,
                p == Self::point(coord),
                s == Self::point(size),
                p.len() == Self::DIMENSIONS,
                s.len() == Self::DIMENSIONS,
                addressable(s),
                linear(p, s) <= usize::MAX,
                nonnegative(p),
                nonnegative(s),
                index == linear(p.take(axis as int), s.take(axis as int)),
                stride == product(s.take(axis as int)),
            decreases Self::DIMENSIONS - axis,
        {
            proof {
                lemma_product_take_next(s, axis as int);
                assert(product(s.take(axis + 1)) <= usize::MAX);
                assert(nonnegative(s.take(axis + 1)));
                lemma_product_nonnegative(s.take(axis + 1));
                lemma_linear_take_next(p, s, axis as int);
                lemma_linear_take_le(p, s, axis + 1);
                assert(p[axis as int] * stride >= 0) by (nonlinear_arith)
                    requires
                        p[axis as int] >= 0,
                        stride >= 0,
                ;
            }
            index = index + Self::axis(coord, axis) * stride;
            stride = stride * Self::axis(size, axis);
            axis = axis + 1;
        }
        assert(p.take(p.len() as int) =~= p);
        assert(s.take(s.len() as int) =~= s);
        index
    }

    /// Inverse of [`Topology::linear_index`].
    fn from_linear_index(index: usize, size: Self::Coord) -> (coord: Self::Coord)
        requires
            positive(Self::point(size)),
            forall|k: int|
                0 <= k < Self::DIMENSIONS ==> product(#[trigger] Self::point(size).take(k))
                    <= usize::MAX,
        ensures
            Self::point(coord) == unlinear(index as int, Self::point(size)),
    {
        let ghost s = Self::point(size);
        proof {
            Self::lemma_point(size);
            assert(product(s.take(0)) == 1);
        }
        let mut values: Vec<usize> = Vec::with_capacity(Self::DIMENSIONS);
        let mut stride: usize = 1;
        let mut axis: usize = 0;
        while axis < Self::DIMENSIONS
            invariant
                axis <= Self::DIMENSIONS,
                s == Self::point(size),
                s.len() == Self::DIMENSIONS,
                positive(s),
                forall|k: int|
                    0 <= k < Self::DIMENSIONS ==> product(#[trigger] s.take(k)) <= usize::MAX,
                axis < Self::DIMENSIONS ==> stride == product(s.take(axis as int)),
                values@.len() == axis,
                forall|a: int| 0 <= a < axis ==> #[trigger] values@[a] == digit(index as int, s, a),
            decreases Self::DIMENSIONS - axis,
        {
            proof {
                assert(positive(s.take(axis as int)));
                crate::geometry::lemma_product_positive(s.take(axis as int));
            }
            let side = Self::axis(size, axis);
            assert(side == s[axis as int]);
            values.push((index / stride) % side);
            axis = axis + 1;
            if axis < Self::DIMENSIONS {
                proof {
                    lemma_product_take_next(s, axis - 1);
                    assert(product(s.take(axis as int)) <= usize::MAX);
                    assert(nonnegative(s.take(axis as int)));
                    lemma_product_nonnegative(s.take(axis as int));
                }
                stride = stride * side;
            }
        }
        let coord = Self::from_values(&values);
        assert(Self::point(coord) =~= unlinear(index as int, s));
        coord
    }

    /// The `0`/`1`-per-axis offset of child `index` within its parent.
    fn child_offset(index: usize) -> (offset: Self::Coord)
        ensures
            Self::point(offset) == unlinear(index as int, splat(Self::DIMENSIONS as nat, 2)),
    {
        proof {
            Self::lemma_shape();
            lemma_few_axes(Self::DIMENSIONS, Self::CHILDREN);
        }
        let per_axis = |axis: usize| -> (r: usize)
                requires
                    axis < usize::BITS,
                ensures
                    r == (index >> axis) & 1,
                { (index >> axis) & 1 };
        let offset = Self::from_axes(per_axis);
        proof {
            Self::lemma_point(offset);
            let twos = splat(Self::DIMENSIONS as nat, 2);
            assert forall|a: int| 0 <= a < Self::DIMENSIONS implies Self::point(offset)[a]
                == #[trigger] unlinear(index as int, twos)[a] by {
                lemma_bit_is_digit(index, a as usize);
                lemma_product_twos(Self::DIMENSIONS as nat, a as nat);
                assert(Self::point(offset)[a] as usize == (index >> (a as usize)) & 1);
            }
            assert(Self::point(offset) =~= unlinear(index as int, twos));
        }
        offset
    }

    /// The child slot containing `local` coordinates, where `half` is the
    /// half-size (child edge length) of the parent cell.
    fn child_index(local: Self::Coord, half: usize) -> (slot: usize)
        requires
            half > 0,
        ensures
            slot == slot_bits(Self::point(local), half as int, Self::DIMENSIONS as nat),
            within(Self::point(local), splat(Self::DIMENSIONS as nat, 2 * half)) ==> {
                &&& slot == linear(
                    halves(Self::point(local), half as int),
                    splat(Self::DIMENSIONS as nat, 2),
                )
                &&& slot < Self::CHILDREN
            },
    {
        let ghost p = Self::point(local);
        proof {
            Self::lemma_point(local);
            Self::lemma_shape();
            lemma_few_axes(Self::DIMENSIONS, Self::CHILDREN);
        }
        let mut slot: usize = 0;
        let mut axis: usize = 0;
        while axis < Self::DIMENSIONS
            invariant
                axis <= Self::DIMENSIONS,
                Self::DIMENSIONS < usize::BITS,
                half > 0,
                p == Self::point(local),
                slot == slot_bits(p, half as int, axis as nat),
            decreases Self::DIMENSIONS - axis,
        {
            slot = slot | ((Self::axis(local, axis) / half) << axis);
            axis = axis + 1;
        }
        proof {
            if within(p, splat(Self::DIMENSIONS as nat, 2 * half)) {
                lemma_slot_bits(p, half as int, Self::DIMENSIONS as nat);
                assert(halves(p, half as int).take(p.len() as int) =~= halves(p, half as int));
                assert(splat(Self::DIMENSIONS as nat, 2).take(p.len() as int) =~= splat(
                    Self::DIMENSIONS as nat,
                    2,
                ));
            }
        }
        slot
    }

    /// Whether the axis-aligned box `offset..offset + size` overlaps `region`:
    /// whether there is a coordinate in both.
    fn overlaps(region: &Range<Self::Coord>, offset: Self::Coord, size: usize) -> (overlaps: bool)
        ensures
            overlaps == overlapping(
                Self::point(region.start),
                Self::point(region.end),
                Self::point(offset),
                size as int,
            ),
    {
        let ghost lo = Self::point(region.start);
        let ghost hi = Self::point(region.end);
        let ghost c = Self::point(offset);
        proof {
            Self::lemma_point(offset);
        }
        let mut axis: usize = 0;
        while axis < Self::DIMENSIONS
            invariant
                axis <= Self::DIMENSIONS,
                lo == Self::point(region.start),
                hi == Self::point(region.end),
                c == Self::point(offset),
                c.len() == Self::DIMENSIONS,
                forall|a: int|
                    #![trigger lo[a]]
                    #![trigger hi[a]]
                    #![trigger c[a]]
                    0 <= a < axis ==> shares_stretch(lo[a], hi[a], c[a], size as int),
            decreases Self::DIMENSIONS - axis,
        {
            let off = Self::axis(offset, axis);
            let start = Self::axis(region.start, axis);
            let end = Self::axis(region.end, axis);
            if start >= end || size == 0 {
                assert(!(lo[axis as int] < hi[axis as int] && 0 < size));
                return false;
            }
            if start >= off && start - off >= size {
                assert(!(lo[axis as int] < c[axis as int] + size));
                return false;
            }
            if end <= off {
                assert(!(c[axis as int] < hi[axis as int]));
                return false;
            }
            axis = axis + 1;
        }
        true
    }

    /// Volume of the intersection between `region` and `offset..offset + size`.
    fn overlap_volume(region: &Range<Self::Coord>, offset: Self::Coord, size: usize) -> (volume:
        usize)
        requires
            addressable(
                overlap(
                    Self::point(region.start),
                    Self::point(region.end),
                    Self::point(offset),
                    size as int,
                ),
            ),
        ensures
            volume == product(
                overlap(
                    Self::point(region.start),
                    Self::point(region.end),
                    Self::point(offset),
                    size as int,
                ),
            ),
    {
        let ghost lo = Self::point(region.start);
        let ghost hi = Self::point(region.end);
        let ghost c = Self::point(offset);
        let ghost o = overlap(lo, hi, c, size as int);
        proof {
            Self::lemma_point(offset);
            assert(product(o.take(0)) == 1);
        }
        let mut volume: usize = 1;
        let mut axis: usize = 0;
        while axis < Self::DIMENSIONS
            invariant
                axis <= Self::DIMENSIONS,
                lo == Self::point(region.start),
                hi == Self::point(region.end),
                c == Self::point(offset),
                c.len() == Self::DIMENSIONS,
                o == overlap(lo, hi, c, size as int),
                addressable(o),
                volume == product(o.take(axis as int)),
            decreases Self::DIMENSIONS - axis,
        {
            let off = Self::axis(offset, axis);
            let lower = Self::axis(region.start, axis);
            let upper = Self::axis(region.end, axis);
            let start = if off < lower {
                lower
            } else {
                off
            };
            let length: usize = if upper <= start || (start > off && start - off >= size) {
                0
            } else if upper - off <= size {
                upper - start
            } else {
                size - (start - off)
            };
            proof {
                assert(length == overlap_on_axis(
                    lower as int,
                    upper as int,
                    off as int,
                    size as int,
                ));
                assert(length == o[axis as int]);
                lemma_product_take_next(o, axis as int);
                assert(product(o.take(axis + 1)) <= usize::MAX);
                assert(nonnegative(o.take(axis + 1)));
                lemma_product_nonnegative(o.take(axis + 1));
            }
            volume = volume * length;
            axis = axis + 1;
        }
        assert(o.take(o.len() as int) =~= o);
        volume
    }

    /// The coordinate after `coord` in the row-major order of the half-open box
    /// `range`, or `None` after the last one.
    fn next_coord(range: &Range<Self::Coord>, coord: Self::Coord) -> (next: Option<Self::Coord>)
        requires
            in_box(Self::point(coord), Self::point(range.start), Self::point(range.end)),
        ensures
            match next {
                Some(after) => {
                    &&& in_box(Self::point(after), Self::point(range.start), Self::point(range.end))
                    &&& rank(Self::point(after), Self::point(range.start), Self::point(range.end))
                        == rank(
                        Self::point(coord),
                        Self::point(range.start),
                        Self::point(range.end),
                    ) + 1
                },
                None => rank(
                    Self::point(coord),
                    Self::point(range.start),
                    Self::point(range.end),
                ) + 1 == product(extent(Self::point(range.start), Self::point(range.end))),
            },
    {
        let ghost lo = Self::point(range.start);
        let ghost hi = Self::point(range.end);
        let ghost e = extent(lo, hi);
        let ghost n = rank(Self::point(coord), lo, hi);
        let mut counter: Vec<usize> = Vec::with_capacity(Self::DIMENSIONS);
        let mut axis: usize = 0;
        proof {
            Self::lemma_point(coord);
            Self::lemma_point(range.start);
            Self::lemma_point(range.end);
        }
        while axis < Self::DIMENSIONS
            invariant
                axis <= Self::DIMENSIONS,
                counter@.len() == axis,
                forall|a: int| 0 <= a < axis ==> #[trigger] counter@[a] == Self::point(coord)[a],
            decreases Self::DIMENSIONS - axis,
        {
            counter.push(Self::axis(coord, axis));
            axis = axis + 1;
        }
        let ghost mut at = Self::point(coord);
        axis = 0;
        proof {
            assert(product(e.take(0)) == 1);
        }
        while axis < Self::DIMENSIONS
            invariant
                axis <= Self::DIMENSIONS,
                lo == Self::point(range.start),
                hi == Self::point(range.end),
                lo.len() == Self::DIMENSIONS,
                hi.len() == Self::DIMENSIONS,
                e == extent(lo, hi),
                n == rank(Self::point(coord), lo, hi),
                in_box(at, lo, hi),
                counter@.len() == Self::DIMENSIONS,
                at == Seq::new(Self::DIMENSIONS as nat, |a: int| counter@[a] as int),
                forall|a: int| 0 <= a < Self::DIMENSIONS ==> #[trigger] lo[a] >= 0,
                forall|a: int| 0 <= a < Self::DIMENSIONS ==> #[trigger] hi[a] <= usize::MAX,
                rank(at, lo, hi) == n - (product(e.take(axis as int)) - 1),
            decreases Self::DIMENSIONS - axis,
        {
            let ghost d = minus(at, lo);
            let ghost q = product(e.take(axis as int));
            proof {
                assert(lo[axis as int] <= at[axis as int] < hi[axis as int]);
                assert(counter@[axis as int] == at[axis as int]);
                lemma_product_take_next(e, axis as int);
            }
            let value = counter[axis] + 1;
            if value < Self::axis(range.end, axis) {
                counter[axis] = value;
                let after = Self::from_values(&counter);
                proof {
                    let next = at.update(axis as int, value as int);
                    assert(Self::point(after) =~= next);
                    assert(minus(next, lo) =~= d.update(axis as int, d[axis as int] + 1));
                    lemma_linear_update(d, e, axis as int, d[axis as int] + 1);
                    assert((d[axis as int] + 1 - d[axis as int]) * q == q) by (nonlinear_arith);
                }
                return Some(after);
            }
            let start = Self::axis(range.start, axis);
            counter[axis] = start;
            proof {
                let back = at.update(axis as int, start as int);
                assert(back =~= Seq::new(Self::DIMENSIONS as nat, |a: int| counter@[a] as int));
                assert(minus(back, lo) =~= d.update(axis as int, 0));
                lemma_linear_update(d, e, axis as int, 0);
                let w = d[axis as int];
                assert(e[axis as int] == w + 1);
                assert((0 - w) * q == -(w * q)) by (nonlinear_arith);
                assert(q * (w + 1) == w * q + q) by (nonlinear_arith);
                at = back;
            }
            axis = axis + 1;
        }
        proof {
            assert(e.take(e.len() as int) =~= e);
            lemma_box_points(at, lo, hi);
            lemma_box_points(Self::point(coord), lo, hi);
        }
        None
    }

    /// Invoke `f` for every coordinate in the half-open box `range`.
    fn for_each_coord<F: FnMut(Self::Coord)>(range: &Range<Self::Coord>, f: F)
        requires
            forall|coord: Self::Coord|
                in_box(Self::point(coord), Self::point(range.start), Self::point(range.end))
                    ==> call_requires(f, (coord,)),
        ensures
            forall|coord: Self::Coord|
                #![trigger call_ensures(f, (coord,), ())]
                in_box(Self::point(coord), Self::point(range.start), Self::point(range.end))
                    ==> call_ensures(f, (coord,), ()),
    {
        let mut visit = f;
        let ghost lo = Self::point(range.start);
        let ghost hi = Self::point(range.end);
        proof {
            Self::lemma_point(range.start);
            Self::lemma_point(range.end);
        }
        let mut axis: usize = 0;
        while axis < Self::DIMENSIONS
            invariant
                axis <= Self::DIMENSIONS,
                lo == Self::point(range.start),
                hi == Self::point(range.end),
                lo.len() == Self::DIMENSIONS,
                forall|a: int| 0 <= a < axis ==> #[trigger] lo[a] < hi[a],
            decreases Self::DIMENSIONS - axis,
        {
            if Self::axis(range.start, axis) >= Self::axis(range.end, axis) {
                proof {
                    assert forall|coord: Self::Coord| !in_box(Self::point(coord), lo, hi) by {
                        Self::lemma_point(coord);
                        assert(!(lo[axis as int] <= Self::point(coord)[axis as int]
                            < hi[axis as int]));
                    }
                }
                return;
            }
            axis = axis + 1;
        }
        let mut coord = range.start;
        proof {
            lemma_box_points(lo, lo, hi);
            assert forall|before: Self::Coord|
                in_box(Self::point(before), lo, hi) && rank(Self::point(before), lo, hi) < rank(
                    lo,
                    lo,
                    hi,
                ) implies call_ensures(f, (before,), ()) by {
                Self::lemma_point(before);
                lemma_box_points(Self::point(before), lo, hi);
                crate::geometry::lemma_rank_of_start(lo, hi);
            }
        }
        loop
            invariant
                visit == f,
                lo == Self::point(range.start),
                hi == Self::point(range.end),
                lo.len() == Self::DIMENSIONS,
                hi.len() == Self::DIMENSIONS,
                in_box(Self::point(coord), lo, hi),
                forall|c: Self::Coord|
                    in_box(Self::point(c), lo, hi) ==> call_requires(f, (c,)),
                forall|c: Self::Coord|
                    #![trigger call_ensures(f, (c,), ())]
                    in_box(Self::point(c), lo, hi) && rank(Self::point(c), lo, hi) < rank(
                        Self::point(coord),
                        lo,
                        hi,
                    ) ==> call_ensures(f, (c,), ()),
            decreases product(extent(lo, hi)) - rank(Self::point(coord), lo, hi),
        {
            visit(coord);
            proof {
                lemma_box_points(Self::point(coord), lo, hi);
                assert forall|c: Self::Coord|
                    #![trigger call_ensures(f, (c,), ())]
                    in_box(Self::point(c), lo, hi) && rank(Self::point(c), lo, hi) <= rank(
                        Self::point(coord),
                        lo,
                        hi,
                    ) implies call_ensures(f, (c,), ()) by {
                    if rank(Self::point(c), lo, hi) == rank(Self::point(coord), lo, hi) {
                        lemma_box_points(Self::point(c), lo, hi);
                        Self::lemma_point_injective(c, coord);
                    }
                }
            }
            match Self::next_coord(range, coord) {
                None => {
                    proof {
                        assert forall|c: Self::Coord|
                            #![trigger call_ensures(f, (c,), ())]
                            in_box(Self::point(c), lo, hi) implies call_ensures(f, (c,), ()) by {
                            lemma_box_points(Self::point(c), lo, hi);
                        }
                    }
                    return;
                },
                Some(next) => {
                    coord = next;
                },
            }
        }
    }
}

/// The first coordinate in the row-major order of the half-open box `range`, or
/// `None` if the box is empty.
pub fn first_coord<Topo: Topology>(range: &Range<Topo::Coord>) -> (first: Option<Topo::Coord>)
    ensures
        match first {
            Some(coord) => {
                &&& coord == range.start
                &&& in_box(Topo::point(coord), Topo::point(range.start), Topo::point(range.end))
                &&& rank(Topo::point(coord), Topo::point(range.start), Topo::point(range.end)) == 0
            },
            None => product(extent(Topo::point(range.start), Topo::point(range.end))) == 0,
        },
{
    let ghost lo = Topo::point(range.start);
    let ghost hi = Topo::point(range.end);
    let ghost e = extent(lo, hi);
    proof {
        Topo::lemma_point(range.start);
        Topo::lemma_point(range.end);
        assert(nonnegative(e));
    }
    let mut axis: usize = 0;
    while axis < Topo::DIMENSIONS
        invariant
            axis <= Topo::DIMENSIONS,
            lo == Topo::point(range.start),
            hi == Topo::point(range.end),
            lo.len() == Topo::DIMENSIONS,
            e == extent(lo, hi),
            nonnegative(e),
            forall|a: int| 0 <= a < axis ==> #[trigger] lo[a] < hi[a],
        decreases Topo::DIMENSIONS - axis,
    {
        if Topo::axis(range.start, axis) >= Topo::axis(range.end, axis) {
            proof {
                assert(e[axis as int] == 0);
                lemma_product_nonnegative(e);
                crate::geometry::lemma_product_zero(e);
            }
            return None;
        }
        axis = axis + 1;
    }
    proof {
        crate::geometry::lemma_rank_of_start(lo, hi);
    }
    Some(range.start)
}

/// Lowest point of the `index`-th of the equal parts that halving the box
/// `lo..hi` on every axis leaves, in row-major order.
pub open spec fn part_start(lo: Seq<int>, hi: Seq<int>, index: int) -> Seq<int> {
    Seq::new(
        lo.len(),
        |a: int| lo[a] + ((hi[a] - lo[a]) / 2) * unlinear(index, splat(lo.len(), 2))[a],
    )
}

/// Upper end of the part that starts at [`part_start`].
pub open spec fn part_end(lo: Seq<int>, hi: Seq<int>, index: int) -> Seq<int> {
    Seq::new(
        lo.len(),
        |a: int| lo[a] + ((hi[a] - lo[a]) / 2) * (unlinear(index, splat(lo.len(), 2))[a] + 1),
    )
}

/// Halving a cube's box yields the boxes of its octants.
pub proof fn lemma_parts_of_cube(cube: Cube, index: int)
    ensures
        part_start(cube.corner, cube.upper(), index) == cube.octant(index).corner,
        part_end(cube.corner, cube.upper(), index) == cube.octant(index).upper(),
{
    let half = cube.size / 2;
    let o = unlinear(index, splat(cube.dim(), 2));
    assert(part_start(cube.corner, cube.upper(), index) =~= cube.octant(index).corner);
    assert forall|a: int| 0 <= a < cube.dim() implies #[trigger] part_end(
        cube.corner,
        cube.upper(),
        index,
    )[a] == cube.octant(index).upper()[a] by {
        let b = o[a];
        assert(half * (b + 1) == half * b + half) by (nonlinear_arith);
    }
    assert(part_end(cube.corner, cube.upper(), index) =~= cube.octant(index).upper());
}

proof fn lemma_half_step(span: int, bit: int)
    requires
        span >= 0,
        0 <= bit < 2,
    ensures
        0 <= (span / 2) * bit <= span,
        0 <= (span / 2) * (bit + 1) <= span,
        (span / 2) * (bit + 1) == (span / 2) * bit + span / 2,
{
    let h = span / 2;
    assert(0 <= 2 * h <= span);
    assert(bit == 0 ==> h * bit == 0) by (nonlinear_arith);
    assert(bit == 1 ==> h * bit == h) by (nonlinear_arith);
    assert(h * (bit + 1) == h * bit + h) by (nonlinear_arith);
}

/// The `index`-th of the equal parts that halving `region` on every axis leaves.
pub fn subregion<Topo: Topology>(region: &Range<Topo::Coord>, index: usize) -> (part: Range<
    Topo::Coord,
>)
    requires
        forall|a: int|
            0 <= a < Topo::DIMENSIONS ==> #[trigger] Topo::point(region.start)[a] <= Topo::point(
                region.end,
            )[a],
    ensures
        Topo::point(part.start) == part_start(
            Topo::point(region.start),
            Topo::point(region.end),
            index as int,
        ),
        Topo::point(part.end) == part_end(
            Topo::point(region.start),
            Topo::point(region.end),
            index as int,
        ),
{
    let ghost lo = Topo::point(region.start);
    let ghost hi = Topo::point(region.end);
    let ghost o = unlinear(index as int, splat(Topo::DIMENSIONS as nat, 2));
    let offset = Topo::child_offset(index);
    let mut from: Vec<usize> = Vec::with_capacity(Topo::DIMENSIONS);
    let mut to: Vec<usize> = Vec::with_capacity(Topo::DIMENSIONS);
    let mut axis: usize = 0;
    proof {
        Topo::lemma_point(region.start);
        Topo::lemma_point(region.end);
    }
    while axis < Topo::DIMENSIONS
        invariant
            axis <= Topo::DIMENSIONS,
            lo == Topo::point(region.start),
            hi == Topo::point(region.end),
            lo.len() == Topo::DIMENSIONS,
            hi.len() == Topo::DIMENSIONS,
            o == unlinear(index as int, splat(Topo::DIMENSIONS as nat, 2)),
            o == Topo::point(offset),
            forall|a: int| 0 <= a < Topo::DIMENSIONS ==> 0 <= #[trigger] lo[a] <= hi[a],
            from@.len() == axis,
            to@.len() == axis,
            forall|a: int|
                0 <= a < axis ==> #[trigger] from@[a] == part_start(lo, hi, index as int)[a],
            forall|a: int|
                0 <= a < axis ==> #[trigger] to@[a] == part_end(lo, hi, index as int)[a],
        decreases Topo::DIMENSIONS - axis,
    {
        let start = Topo::axis(region.start, axis);
        let end = Topo::axis(region.end, axis);
        proof {
            assert(start == lo[axis as int]);
            assert(o[axis as int] == digit(
                index as int,
                splat(Topo::DIMENSIONS as nat, 2),
                axis as int,
            ));
            lemma_half_step(end - start, o[axis as int]);
        }
        let half = (end - start) / 2;
        let bit = Topo::axis(offset, axis);
        from.push(start + half * bit);
        to.push(start + half * (bit + 1));
        axis = axis + 1;
    }
    let part = Range { start: Topo::from_values(&from), end: Topo::from_values(&to) };
    assert(Topo::point(part.start) =~= part_start(lo, hi, index as int));
    assert(Topo::point(part.end) =~= part_end(lo, hi, index as int));
    part
}

/// Lowest point of the `index`-th child of the cube of edge `2 * half` at
/// `offset`.
pub fn child_corner<Topo: Topology>(offset: Topo::Coord, half: usize, index: usize) -> (corner:
    Topo::Coord)
    requires
        forall|a: int|
            0 <= a < Topo::DIMENSIONS ==> #[trigger] Topo::point(offset)[a] + half <= usize::MAX,
    ensures
        Topo::point(corner) == (Cube {
            corner: Topo::point(offset),
            size: 2 * half,
        }).octant(index as int).corner,
{
    let ghost cube = Cube { corner: Topo::point(offset), size: 2 * half };
    let ghost o = unlinear(index as int, splat(Topo::DIMENSIONS as nat, 2));
    let step = Topo::child_offset(index);
    let mut values: Vec<usize> = Vec::with_capacity(Topo::DIMENSIONS);
    let mut axis: usize = 0;
    proof {
        Topo::lemma_point(offset);
    }
    while axis < Topo::DIMENSIONS
        invariant
            axis <= Topo::DIMENSIONS,
            cube.corner == Topo::point(offset),
            cube.size == 2 * half,
            cube.corner.len() == Topo::DIMENSIONS,
            o == unlinear(index as int, splat(Topo::DIMENSIONS as nat, 2)),
            o == Topo::point(step),
            forall|a: int|
                0 <= a < Topo::DIMENSIONS ==> 0 <= #[trigger] cube.corner[a] && cube.corner[a]
                    + half <= usize::MAX,
            values@.len() == axis,
            forall|a: int|
                0 <= a < axis ==> #[trigger] values@[a] == cube.octant(index as int).corner[a],
        decreases Topo::DIMENSIONS - axis,
    {
        let start = Topo::axis(offset, axis);
        let bit = Topo::axis(step, axis);
        proof {
            assert(start == cube.corner[axis as int]);
            assert(o[axis as int] == digit(
                index as int,
                splat(Topo::DIMENSIONS as nat, 2),
                axis as int,
            ));
            lemma_half_step(2 * half, o[axis as int]);
            assert(half * bit <= half) by (nonlinear_arith)
                requires
                    0 <= bit < 2,
                    half >= 0,
            ;
        }
        values.push(start + half * bit);
        axis = axis + 1;
    }
    let corner = Topo::from_values(&values);
    assert(Topo::point(corner) =~= cube.octant(index as int).corner);
    corner
}

/// Bitwise combination of the first `axes` halved coordinates, axis `a` shifted
/// left by `a` bits.
pub open spec fn slot_bits(local: Seq<int>, half: int, axes: nat) -> usize
    decreases axes,
{
    if axes == 0 {
        0
    } else {
        slot_bits(local, half, (axes - 1) as nat) | (((local[axes - 1] / half) as usize) << ((axes
            - 1) as usize))
    }
}

proof fn lemma_few_axes(dimensions: usize, children: usize)
    requires
        children == pow2(dimensions as nat),
    ensures
        dimensions < usize::BITS,
{
    vstd::arithmetic::power2::lemma2_to64();
    if dimensions >= usize::BITS {
        if dimensions > usize::BITS {
            vstd::arithmetic::power2::lemma_pow2_strictly_increases(
                usize::BITS as nat,
                dimensions as nat,
            );
        }
        vstd::arithmetic::power2::lemma2_to64_rest();
        assert(pow2(usize::BITS as nat) > usize::MAX);
    }
}

proof fn lemma_bit_is_digit(index: usize, axis: usize)
    requires
        axis < usize::BITS,
    ensures
        (index >> axis) & 1 == (index as int / pow2(axis as nat) as int) % 2,
{
    vstd::bits::lemma_usize_shr_is_div(index, axis);
    let shifted = index >> axis;
    assert(shifted & 1 == shifted % 2) by (bit_vector);
}

proof fn lemma_slot_bits(local: Seq<int>, half: int, axes: nat)
    requires
        half > 0,
        axes <= local.len(),
        local.len() < usize::BITS,
        within(local, splat(local.len(), 2 * half)),
    ensures
        slot_bits(local, half, axes) == linear(
            halves(local, half).take(axes as int),
            splat(local.len(), 2).take(axes as int),
        ),
        slot_bits(local, half, axes) < pow2(axes),
    decreases axes,
{
    let bits = halves(local, half);
    let twos = splat(local.len(), 2);
    vstd::arithmetic::power2::lemma2_to64();
    if axes > 0 {
        let k = (axes - 1) as nat;
        lemma_slot_bits(local, half, k);
        lemma_linear_take_next(bits, twos, k as int);
        lemma_product_twos(local.len(), k);
        let b = local[k as int] / half;
        assert(0 <= local[k as int] < 2 * half);
        assert(b == 0 || b == 1) by (nonlinear_arith)
            requires
                b == local[k as int] / half,
                0 <= local[k as int] < 2 * half,
                half > 0,
        ;
        let low = slot_bits(local, half, k);
        let shift = k as usize;
        let bit = b as usize;
        vstd::arithmetic::power2::lemma_pow2_unfold(axes);
        vstd::bits::lemma_usize_pow2_no_overflow(k);
        vstd::bits::lemma_usize_shl_is_mul(1, shift);
        assert(low < 1usize << shift);
        if b == 0 {
            assert(low | (0usize << shift) == low) by (bit_vector);
            assert(b * pow2(k) == 0) by (nonlinear_arith)
                requires
                    b == 0,
            ;
        } else {
            assert(low | (1usize << shift) == low + (1usize << shift)) by (bit_vector)
                requires
                    low < 1usize << shift,
                    shift < usize::BITS,
            ;
            assert(b * pow2(k) == pow2(k)) by (nonlinear_arith)
                requires
                    b == 1,
            ;
        }
    }
}

/// Two-dimensional topology: `[usize; 2]` coordinates, quadtree subdivision.
#[derive(Debug, Clone, Copy, PartialEq, Eq, PartialOrd, Ord, Hash)]
pub struct Topology2d;

impl Topology2d {
    /// A quadtree has two axes and four children per branch.
    pub proof fn lemma_constants()
        ensures
            <Self as Topology>::DIMENSIONS == 2,
            <Self as Topology>::CHILDREN == 4,
    {
    }
}

impl Topology for Topology2d {
    type Coord = [usize; 2];

    type Children = [Address; 4];

    const DIMENSIONS: usize = 2;

    const CHILDREN: usize = 4;

    open spec fn point(coord: [usize; 2]) -> Seq<int> {
        Seq::new(2, |a: int| coord@[a] as int)
    }

    open spec fn slots(children: [Address; 4]) -> Seq<Address> {
        children@
    }

    proof fn lemma_shape() {
        vstd::arithmetic::power2::lemma2_to64();
        assert(Self::CHILDREN == pow2(Self::DIMENSIONS as nat));
    }

    proof fn lemma_point(coord: [usize; 2]) {
    }

    proof fn lemma_point_injective(left: [usize; 2], right: [usize; 2]) {
        assert forall|a: int| 0 <= a < 2 implies left@[a] == right@[a] by {
            assert(Self::point(left)[a] == left@[a] as int);
            assert(Self::point(right)[a] == right@[a] as int);
        }
        assert(left@ =~= right@);
        assert(left =~= right);
    }

    proof fn lemma_slots(children: [Address; 4]) {
    }

    fn axis(coord: [usize; 2], axis: usize) -> (value: usize) {
        coord[axis]
    }

    fn from_axes<F: FnMut(usize) -> usize>(f: F) -> (coord: [usize; 2]) {
        let mut f = f;
        [f(0), f(1)]
    }

    fn children_from_fn<F: FnMut(usize) -> Address>(f: F) -> (children: [Address; 4]) {
        let mut f = f;
        [f(0), f(1), f(2), f(3)]
    }

    fn children_as_slice(children: &[Address; 4]) -> (slice: &[Address]) {
        children
    }
}

/// Three-dimensional topology: `[usize; 3]` coordinates, octree subdivision.
#[derive(Debug, Clone, Copy, PartialEq, Eq, PartialOrd, Ord, Hash)]
pub struct Topology3d;

impl Topology3d {
    /// An octree has three axes and eight children per branch.
    pub proof fn lemma_constants()
        ensures
            <Self as Topology>::DIMENSIONS == 3,
            <Self as Topology>::CHILDREN == 8,
    {
    }
}

impl Topology for Topology3d {
    type Coord = [usize; 3];

    type Children = [Address; 8];

    const DIMENSIONS: usize = 3;

    const CHILDREN: usize = 8;

    open spec fn point(coord: [usize; 3]) -> Seq<int> {
        Seq::new(3, |a: int| coord@[a] as int)
    }

    open spec fn slots(children: [Address; 8]) -> Seq<Address> {
        children@
    }

    proof fn lemma_shape() {
        vstd::arithmetic::power2::lemma2_to64();
        assert(Self::CHILDREN == pow2(Self::DIMENSIONS as nat));
    }

    proof fn lemma_point(coord: [usize; 3]) {
    }

    proof fn lemma_point_injective(left: [usize; 3], right: [usize; 3]) {
        assert forall|a: int| 0 <= a < 3 implies left@[a] == right@[a] by {
            assert(Self::point(left)[a] == left@[a] as int);
            assert(Self::point(right)[a] == right@[a] as int);
        }
        assert(left@ =~= right@);
        assert(left =~= right);
    }

    proof fn lemma_slots(children: [Address; 8]) {
    }

    fn axis(coord: [usize; 3], axis: usize) -> (value: usize) {
        coord[axis]
    }

    fn from_axes<F: FnMut(usize) -> usize>(f: F) -> (coord: [usize; 3]) {
        let mut f = f;
        [f(0), f(1), f(2)]
    }

    fn children_from_fn<F: FnMut(usize) -> Address>(f: F) -> (children: [Address; 8]) {
        let mut f = f;
        [f(0), f(1), f(2), f(3), f(4), f(5), f(6), f(7)]
    }

    fn children_as_slice(children: &[Address; 8]) -> (slice: &[Address]) {
        children
    }
}

} // verus!
