//! Coordinates, indices and volumes.
use crate::geometry::{
    addressable, box_points, digit, extent, halves, lemma_linear_of_unlinear, linear, overlap,
    positive, product, splat, within,
};
use crate::laws::boxes::{
    lemma_common_point, lemma_octant_bits, lemma_row_major, lemma_slot_halves, lemma_volume,
};
use crate::laws::volume::lemma_overlap_counts;
use crate::topology::{first_coord, slot_bits, subregion, Topology, Topology2d, Topology3d};
use crate::tree::Cube;
use core::ops::Range;
use vstd::arithmetic::power2::pow2;
use vstd::prelude::*;

verus! {

/// The index of a cell in a plane, and the number of cells there.
pub proof fn lemma_plane(coord: [usize; 2], size: [usize; 2], index: usize, volume: usize)
    requires
        addressable(Topology2d::point(size)),
        linear(Topology2d::point(coord), Topology2d::point(size)) <= usize::MAX,
        call_ensures(Topology2d::linear_index, (coord, size), index),
        call_ensures(Topology2d::volume, (size,), volume),
    ensures
        index == coord@[0] + size@[0] * coord@[1],
        volume == size@[0] * size@[1],
{
    let (p, s) = (Topology2d::point(coord), Topology2d::point(size));
    assert(p =~= seq![coord@[0] as int, coord@[1] as int]);
    assert(s =~= seq![size@[0] as int, size@[1] as int]);
    lemma_row_major(p[0], p[1], 0, s[0], s[1], 0);
    lemma_volume(s[0], s[1], 0);
}

/// The index of a cell in space, and the number of cells there.
pub proof fn lemma_space(coord: [usize; 3], size: [usize; 3], index: usize, volume: usize)
    requires
        addressable(Topology3d::point(size)),
        linear(Topology3d::point(coord), Topology3d::point(size)) <= usize::MAX,
        call_ensures(Topology3d::linear_index, (coord, size), index),
        call_ensures(Topology3d::volume, (size,), volume),
    ensures
        index == coord@[0] + size@[0] * (coord@[1] + size@[1] * coord@[2]),
        volume == size@[0] * size@[1] * size@[2],
{
    let (p, s) = (Topology3d::point(coord), Topology3d::point(size));
    assert(p =~= seq![coord@[0] as int, coord@[1] as int, coord@[2] as int]);
    assert(s =~= seq![size@[0] as int, size@[1] as int, size@[2] as int]);
    lemma_row_major(p[0], p[1], p[2], s[0], s[1], s[2]);
    lemma_volume(s[0], s[1], s[2]);
}

/// From coordinate to index and back again.
pub proof fn lemma_there_and_back<Topo: Topology>(
    coord: Topo::Coord,
    size: Topo::Coord,
    index: usize,
    back: Topo::Coord,
)
    requires
        addressable(Topo::point(size)),
        forall|a: int|
            0 <= a < Topo::DIMENSIONS ==> 0 <= #[trigger] Topo::point(coord)[a] < Topo::point(
                size,
            )[a],
        linear(Topo::point(coord), Topo::point(size)) <= usize::MAX,
        call_ensures(Topo::linear_index, (coord, size), index),
        call_ensures(Topo::from_linear_index, (index, size), back),
    ensures
        back == coord,
{
    Topo::lemma_point(coord);
    Topo::lemma_point(size);
    let (p, s) = (Topo::point(coord), Topo::point(size));
    assert(within(p, s));
    assert forall|a: int| 0 <= a < s.len() implies 0 < #[trigger] s[a] by {
        assert(p[a] < s[a]);
    }
    assert(positive(s));
    assert forall|k: int| 0 <= k < Topo::DIMENSIONS implies product(#[trigger] s.take(k))
        <= usize::MAX by {}
    crate::geometry::lemma_unlinear_of_linear(p, s);
    Topo::lemma_point_injective(back, coord);
}

/// From index to coordinate and back again.
pub proof fn lemma_back_and_there<Topo: Topology>(
    index: usize,
    size: Topo::Coord,
    coord: Topo::Coord,
    again: usize,
)
    requires
        addressable(Topo::point(size)),
        positive(Topo::point(size)),
        index < product(Topo::point(size)),
        call_ensures(Topo::from_linear_index, (index, size), coord),
        call_ensures(Topo::linear_index, (coord, size), again),
    ensures
        again == index,
        forall|a: int|
            0 <= a < Topo::DIMENSIONS ==> 0 <= #[trigger] Topo::point(coord)[a] < Topo::point(
                size,
            )[a],
{
    Topo::lemma_point(size);
    let s = Topo::point(size);
    assert forall|k: int| 0 <= k < Topo::DIMENSIONS implies product(#[trigger] s.take(k))
        <= usize::MAX by {}
    lemma_linear_of_unlinear(index as int, s);
}

/// A region and a cube overlap exactly if some point lies in both.
pub proof fn lemma_overlaps<Topo: Topology>(
    region: &Range<Topo::Coord>,
    offset: Topo::Coord,
    size: usize,
    answer: bool,
)
    requires
        call_ensures(Topo::overlaps, (region, offset, size), answer),
    ensures
        ({
            let (lo, hi) = (Topo::point(region.start), Topo::point(region.end));
            let corner = Topo::point(offset);
            answer <==> exists|p: Seq<int>|
                p.len() == corner.len() && forall|a: int|
                    0 <= a < corner.len() ==> lo[a] <= #[trigger] p[a] < hi[a] && corner[a]
                        <= p[a] < corner[a] + size
        }),
{
    Topo::lemma_point(region.start);
    Topo::lemma_point(region.end);
    Topo::lemma_point(offset);
    lemma_common_point(
        Topo::point(region.start),
        Topo::point(region.end),
        Topo::point(offset),
        size as int,
    );
}

/// The overlap of a region with a cube is the number of points of the region that
/// lie in the cube.
pub proof fn lemma_overlap_volume<Topo: Topology>(
    region: &Range<Topo::Coord>,
    offset: Topo::Coord,
    size: usize,
    volume: usize,
)
    requires
        addressable(
            overlap(
                Topo::point(region.start),
                Topo::point(region.end),
                Topo::point(offset),
                size as int,
            ),
        ),
        call_ensures(Topo::overlap_volume, (region, offset, size), volume),
    ensures
        volume == box_points(Topo::point(region.start), Topo::point(region.end)).filter(
            |p: Seq<int>|
                p.len() == Topo::point(offset).len() && forall|a: int|
                    0 <= a < Topo::point(offset).len() ==> Topo::point(offset)[a]
                        <= #[trigger] p[a] < Topo::point(offset)[a] + size,
        ).len(),
{
    Topo::lemma_point(region.start);
    Topo::lemma_point(region.end);
    Topo::lemma_point(offset);
    let cube = Cube { corner: Topo::point(offset), size: size as int };
    let (lo, hi) = (Topo::point(region.start), Topo::point(region.end));
    lemma_overlap_counts(lo, hi, cube);
    let f = |p: Seq<int>|
        p.len() == cube.dim() && forall|a: int|
            0 <= a < cube.dim() ==> cube.corner[a] <= #[trigger] p[a] < cube.corner[a] + cube.size;
    let g = |p: Seq<int>|
        p.len() == Topo::point(offset).len() && forall|a: int|
            0 <= a < Topo::point(offset).len() ==> Topo::point(offset)[a] <= #[trigger] p[a]
                < Topo::point(offset)[a] + size;
    assert forall|p: Seq<int>| #[trigger] f(p) == g(p) by {}
    assert(f =~= g);
}

/// The offset of a child is the binary form of its slot, and the slot of a point is
/// that of the child in whose half it lies on each axis.
pub proof fn lemma_child_slot<Topo: Topology>(
    local: Topo::Coord,
    half: usize,
    slot: usize,
    offset: Topo::Coord,
    a: int,
)
    requires
        half > 0,
        forall|b: int|
            0 <= b < Topo::DIMENSIONS ==> 0 <= #[trigger] Topo::point(local)[b] < 2 * half,
        call_ensures(Topo::child_index, (local, half), slot),
        call_ensures(Topo::child_offset, (slot,), offset),
        0 <= a < Topo::DIMENSIONS,
    ensures
        (slot as int / pow2(a as nat) as int) % 2 == (if Topo::point(local)[a] >= half {
            1int
        } else {
            0
        }),
        Topo::point(offset)[a] == (if Topo::point(local)[a] >= half {
            1int
        } else {
            0
        }),
{
    let dim = Topo::DIMENSIONS as nat;
    let p = Topo::point(local);
    Topo::lemma_point(local);
    assert(within(p, splat(dim, 2 * half)));
    let cube = Cube { corner: Seq::new(dim, |b: int| 0int), size: 2 * half };
    assert(crate::geometry::minus(p, cube.corner) =~= p);
    assert(cube.contains(p));
    assert(cube.size / 2 == half);
    assert(cube.slot_of(p) == linear(halves(p, half as int), splat(dim, 2)));
    lemma_slot_halves(cube, p, a);
    let unit = Cube { corner: Seq::new(dim, |b: int| 0int), size: 2 };
    lemma_octant_bits(unit, slot as int, a);
    let bit = crate::geometry::unlinear(slot as int, splat(dim, 2))[a];
    assert(unit.octant(slot as int).corner[a] == 0 + 1 * bit);
}

/// A walk over a box starts at its lowest point, unless the box is empty on some
/// axis.
pub proof fn lemma_walk_start<Topo: Topology>(
    range: &Range<Topo::Coord>,
    first: Option<Topo::Coord>,
)
    requires
        call_ensures(first_coord::<Topo>, (range,), first),
    ensures
        first is Some ==> first->0 == range.start,
        first is Some <==> forall|a: int|
            0 <= a < Topo::DIMENSIONS ==> #[trigger] Topo::point(range.start)[a] < Topo::point(
                range.end,
            )[a],
{
    Topo::lemma_point(range.start);
    Topo::lemma_point(range.end);
    let (lo, hi) = (Topo::point(range.start), Topo::point(range.end));
    match first {
        Some(coord) => {
            assert forall|a: int| 0 <= a < Topo::DIMENSIONS implies #[trigger] lo[a] < hi[a] by {
                assert(lo[a] <= lo[a] < hi[a]);
            }
        },
        None => {
            if forall|a: int| 0 <= a < Topo::DIMENSIONS ==> #[trigger] lo[a] < hi[a] {
                assert(positive(extent(lo, hi)));
                crate::geometry::lemma_product_positive(extent(lo, hi));
            }
        },
    }
}

/// Part `index` of a region takes the upper half on axis `a` exactly if the binary
/// digit `a` of `index` is one.
pub proof fn lemma_subregion<Topo: Topology>(
    region: &Range<Topo::Coord>,
    index: usize,
    part: Range<Topo::Coord>,
    a: int,
)
    requires
        forall|b: int|
            0 <= b < Topo::DIMENSIONS ==> #[trigger] Topo::point(region.start)[b] <= Topo::point(
                region.end,
            )[b],
        call_ensures(subregion::<Topo>, (region, index), part),
        0 <= a < Topo::DIMENSIONS,
    ensures
        ({
            let (lo, hi) = (Topo::point(region.start)[a], Topo::point(region.end)[a]);
            let (from, to) = (Topo::point(part.start)[a], Topo::point(part.end)[a]);
            let upper = (index as int / pow2(a as nat) as int) % 2 == 1;
            &&& to - from == (hi - lo) / 2
            &&& !upper ==> from == lo
            &&& upper ==> from == lo + (hi - lo) / 2
        }),
{
    Topo::lemma_point(region.start);
    Topo::lemma_point(region.end);
    crate::laws::boxes::lemma_halved(
        Topo::point(region.start),
        Topo::point(region.end),
        index as int,
        a,
    );
}

/// An index in a plane counts whole rows first; what lies beyond the last row wraps
/// around.
pub proof fn lemma_plane_coordinate(index: usize, size: [usize; 2], coord: [usize; 2])
    requires
        size@[0] > 0 && size@[1] > 0,
        call_ensures(Topology2d::from_linear_index, (index, size), coord),
    ensures
        coord@[0] == index as int % size@[0] as int,
        coord@[1] == (index as int / size@[0] as int) % size@[1] as int,
{
    Topology2d::lemma_constants();
    let s = Topology2d::point(size);
    assert(s =~= seq![size@[0] as int, size@[1] as int]);
    assert(s.take(0) =~= Seq::<int>::empty());
    assert(s.take(1) =~= seq![s[0]]);
    assert(seq![s[0]].drop_first() =~= Seq::<int>::empty());
    reveal_with_fuel(product, 3);
    assert(positive(s));
    assert forall|k: int| 0 <= k < Topology2d::DIMENSIONS implies product(#[trigger] s.take(k))
        <= usize::MAX by {
        if k == 0 {
            assert(product(s.take(0)) == 1);
        }
        if k == 1 {
            assert(product(s.take(1)) == s[0] * 1);
        }
    }
    let p = Topology2d::point(coord);
    assert(p[0] == digit(index as int, s, 0));
    assert(p[1] == digit(index as int, s, 1));
    assert(s[0] * 1 == s[0]);
    vstd::arithmetic::div_mod::lemma_div_basics(index as int);
}

/// An index in space counts whole layers first, then rows; what lies beyond the
/// last layer wraps around.
pub proof fn lemma_space_coordinate(index: usize, size: [usize; 3], coord: [usize; 3])
    requires
        size@[0] > 0 && size@[1] > 0 && size@[2] > 0,
        size@[0] * size@[1] <= usize::MAX,
        call_ensures(Topology3d::from_linear_index, (index, size), coord),
    ensures
        coord@[0] == index as int % size@[0] as int,
        coord@[1] == (index as int / size@[0] as int) % size@[1] as int,
        coord@[2] == (index as int / (size@[0] * size@[1])) % size@[2] as int,
{
    Topology3d::lemma_constants();
    let s = Topology3d::point(size);
    assert(s =~= seq![size@[0] as int, size@[1] as int, size@[2] as int]);
    assert(s.take(0) =~= Seq::<int>::empty());
    assert(s.take(1) =~= seq![s[0]]);
    assert(seq![s[0]].drop_first() =~= Seq::<int>::empty());
    assert(s.take(2) =~= seq![s[0], s[1]]);
    lemma_volume(s[0], s[1], 0);
    reveal_with_fuel(product, 3);
    assert(s[0] * 1 == s[0]);
    assert(positive(s));
    assert forall|k: int| 0 <= k < Topology3d::DIMENSIONS implies product(#[trigger] s.take(k))
        <= usize::MAX by {
        if k == 0 {
            assert(product(s.take(0)) == 1);
        }
        if k == 1 {
            assert(product(s.take(1)) == s[0] * 1);
        }
        if k == 2 {
            assert(product(s.take(2)) == s[0] * s[1]);
        }
    }
    let p = Topology3d::point(coord);
    assert(p[0] == digit(index as int, s, 0));
    assert(p[1] == digit(index as int, s, 1));
    assert(p[2] == digit(index as int, s, 2));
    vstd::arithmetic::div_mod::lemma_div_basics(index as int);
}

/// The slot of any point, inside the parent or not, combines how many halves it
/// lies from the start on each axis, each shifted by the number of its axis.
pub proof fn lemma_slot_of_any(
    flat: [usize; 2],
    solid: [usize; 3],
    half: usize,
    quarter: usize,
    eighth: usize,
)
    requires
        half > 0,
        call_ensures(Topology2d::child_index, (flat, half), quarter),
        call_ensures(Topology3d::child_index, (solid, half), eighth),
    ensures
        ({
            let halves_in = |n: usize| (n as int / half as int) as usize;
            &&& quarter == halves_in(flat@[0]) | (halves_in(flat@[1]) << 1usize)
            &&& eighth == halves_in(solid@[0]) | (halves_in(solid@[1]) << 1usize) | (halves_in(
                solid@[2],
            ) << 2usize)
        }),
{
    Topology2d::lemma_constants();
    Topology3d::lemma_constants();
    let halves_in = |n: usize| (n as int / half as int) as usize;
    let (p, q) = (Topology2d::point(flat), Topology3d::point(solid));
    let h = half as int;
    assert(slot_bits(p, h, 0) == 0);
    assert(slot_bits(p, h, 1) == slot_bits(p, h, 0) | (halves_in(flat@[0]) << 0usize));
    assert(slot_bits(p, h, 2) == slot_bits(p, h, 1) | (halves_in(flat@[1]) << 1usize));
    assert(slot_bits(q, h, 0) == 0);
    assert(slot_bits(q, h, 1) == slot_bits(q, h, 0) | (halves_in(solid@[0]) << 0usize));
    assert(slot_bits(q, h, 2) == slot_bits(q, h, 1) | (halves_in(solid@[1]) << 1usize));
    assert(slot_bits(q, h, 3) == slot_bits(q, h, 2) | (halves_in(solid@[2]) << 2usize));
    lemma_lowest_bits(halves_in(flat@[0]));
    lemma_lowest_bits(halves_in(solid@[0]));
}

proof fn lemma_lowest_bits(bits: usize)
    ensures
        0usize | (bits << 0usize) == bits,
{
    assert(0usize | (bits << 0usize) == bits) by (bit_vector);
}

} // verus!
