//! How a cell falls into parts.
use crate::grid::CellData;
use crate::laws::boxes::lemma_octant_bits;
use crate::quantizer::context::{CellContext, ContextSubRegion};
use crate::topology::{lemma_parts_of_cube, Topology, Topology2d, Topology3d};
use crate::tree::Cube;
use vstd::arithmetic::power::pow;
use vstd::arithmetic::power2::{lemma_pow2_adds, pow2};
use vstd::prelude::*;

verus! {

/// Coordinates are points axis by axis, and the slots of a branch are its children
/// in order.
pub proof fn lemma_coordinates(
    flat: [usize; 2],
    solid: [usize; 3],
    quarters: [crate::allocator::Address; 4],
    eighths: [crate::allocator::Address; 8],
)
    ensures
        Topology2d::point(flat) == seq![flat@[0] as int, flat@[1] as int],
        Topology3d::point(solid) == seq![solid@[0] as int, solid@[1] as int, solid@[2] as int],
        Topology2d::slots(quarters) == quarters@,
        Topology3d::slots(eighths) == eighths@,
{
    assert(Topology2d::point(flat) =~= seq![flat@[0] as int, flat@[1] as int]);
    assert(Topology3d::point(solid) =~= seq![
        solid@[0] as int,
        solid@[1] as int,
        solid@[2] as int,
    ]);
}

/// The parts of a cell: half its edge, one deeper, and on each axis in the upper
/// half exactly if the binary digit of that axis is set in the part's number.
pub proof fn lemma_cell_part<'a, 'g, T: CellData, Topo: Topology>(
    context: &CellContext<'a, 'g, T, Topo>,
    part: ContextSubRegion<Topo>,
    index: usize,
    a: int,
)
    requires
        context.wf(),
        context.part(part, index as int),
        0 <= a < Topo::DIMENSIONS,
    ensures
        part.index == index,
        part.cell_size == context.cell_size / 2,
        part.depth == context.depth + 1,
        ({
            let upper = (index as int / pow2(a as nat) as int) % 2 == 1;
            let from = Topo::point(part.region.start)[a];
            let low = Topo::point(context.region.start)[a];
            &&& Topo::point(part.region_coord)[a] == (if upper {
                1int
            } else {
                0
            })
            &&& from == (if upper {
                low + context.cell_size / 2
            } else {
                low
            })
            &&& Topo::point(part.region.end)[a] == from + context.cell_size / 2
        }),
{
    let cube = context.cube();
    Topo::lemma_point(context.region.start);
    lemma_parts_of_cube(cube, index as int);
    lemma_octant_bits(cube, index as int, a);
    let unit = Cube { corner: Seq::new(Topo::DIMENSIONS as nat, |b: int| 0int), size: 2 };
    lemma_octant_bits(unit, index as int, a);
    let bit = crate::geometry::unlinear(
        index as int,
        crate::geometry::splat(Topo::DIMENSIONS as nat, 2),
    )[a];
    assert(unit.octant(index as int).corner[a] == 0 + 1 * bit);
}

/// A child's context covers the part of its slot and carries on the cell's value.
pub proof fn lemma_cell_child<'a, 'b, 'g, T: CellData, Topo: Topology>(
    context: &CellContext<'a, 'g, T, Topo>,
    child: CellContext<'b, 'g, T, Topo>,
    index: usize,
    a: int,
)
    requires
        context.wf(),
        context.child(child, index as int),
        0 <= a < Topo::DIMENSIONS,
    ensures
        child.cell_size == context.cell_size / 2,
        child.depth == context.depth + 1,
        *child.cell_data == *context.cell_data,
        ({
            let upper = (index as int / pow2(a as nat) as int) % 2 == 1;
            let from = Topo::point(child.region.start)[a];
            let low = Topo::point(context.region.start)[a];
            &&& from == (if upper {
                low + context.cell_size / 2
            } else {
                low
            })
            &&& Topo::point(child.region.end)[a] == from + context.cell_size / 2
        }),
{
    let cube = context.cube();
    Topo::lemma_point(context.region.start);
    lemma_parts_of_cube(cube, index as int);
    lemma_octant_bits(cube, index as int, a);
}

/// At every depth, the edge of a cell is that of its chunk halved once per level,
/// and its area is what that edge spans on every axis.
pub proof fn lemma_cell_measures<'a, 'g, T: CellData, Topo: Topology>(
    context: &CellContext<'a, 'g, T, Topo>,
    size: usize,
    area: usize,
)
    requires
        context.wf(),
        context.depth < usize::BITS,
        pow(context.cell_size as int, Topo::DIMENSIONS as nat) <= usize::MAX,
        call_ensures(CellContext::<'a, 'g, T, Topo>::depth_size, (context,), size),
        call_ensures(CellContext::<'a, 'g, T, Topo>::area, (context,), area),
    ensures
        size == context.cell_size,
        size * pow2(context.depth as nat) == context.source().edge(),
        Topo::DIMENSIONS == 2 ==> area == size * size,
        Topo::DIMENSIONS == 3 ==> area == size * size * size,
{
    let n = size as int;
    reveal(pow);
    reveal_with_fuel(pow, 4);
    assert(n * (n * 1) == n * n && n * (n * (n * 1)) == n * n * n) by (nonlinear_arith);
    lemma_pow2_adds((context.source().levels - context.depth) as nat, context.depth as nat);
}

} // verus!
