//! The cell that a rule is asked about.
use crate::allocator::Address;
use crate::geometry::{splat, unlinear};
use crate::grid::{CellData, GridSampler};
use crate::quantizer::emitter::CellEmitter;
use crate::topology::{lemma_parts_of_cube, part_end, part_start, subregion, Topology};
use crate::tree::{lemma_edge, Cube, GridModel};
use core::ops::Range;
use vstd::arithmetic::power::pow;
use vstd::arithmetic::power2::pow2;
use vstd::prelude::*;

verus! {

/// Describes one child slot when subdividing a [`CellContext`].
#[derive(Debug)]
pub struct ContextSubRegion<Topo: Topology> {
    /// Child index within the parent (`0..CHILDREN`).
    pub index: usize,
    /// The child's `0`/`1`-per-axis offset within the parent.
    pub region_coord: Topo::Coord,
    /// Half-open region of grid coordinates the child covers.
    pub region: Range<Topo::Coord>,
    /// Edge length of the child cell in cells (half the parent's).
    pub cell_size: usize,
    /// Depth of the child (one deeper than the parent).
    pub depth: usize,
}

impl<Topo: Topology> Clone for ContextSubRegion<Topo> {
    fn clone(&self) -> (copy: Self)
        ensures
            copy == *self,
    {
        Self {
            index: self.index,
            region_coord: self.region_coord,
            region: Range { start: self.region.start, end: self.region.end },
            cell_size: self.cell_size,
            depth: self.depth,
        }
    }
}

/// The cell currently being processed by a [`Quantizer`], plus everything
/// needed to read neighbours and emit the replacement cell.
pub struct CellContext<'a, 'g, T: CellData, Topo: Topology> {
    /// Half-open region of grid coordinates this cell covers.
    pub region: Range<Topo::Coord>,
    /// Edge length of this cell in cells (`chunk_size >> depth`).
    pub cell_size: usize,
    /// Depth of this cell below its chunk root (`0` = whole chunk).
    pub depth: usize,
    /// This cell's current data value.
    pub cell_data: &'a T,
    /// Sampler over the *source* grid, for reading neighbours.
    pub sampler: &'a mut GridSampler<'g, T, Topo>,
    /// Emitter into the *destination* grid, for writing the replacement cell.
    pub emitter: &'a mut CellEmitter<T, Topo>,
}

/// A cell of edge `cell_size` at `depth` that covers `region` is one of the
/// cells that subdividing a chunk of `sampler`'s grid leads to.
pub open spec fn placed<'g, T: CellData, Topo: Topology>(
    sampler: GridSampler<'g, T, Topo>,
    region: Range<Topo::Coord>,
    cell_size: usize,
    depth: usize,
) -> bool {
    let model = sampler.source()@;
    &&& depth <= model.levels
    &&& cell_size == pow2((model.levels - depth) as nat)
    &&& Topo::point(region.end) == cube_of::<Topo>(region, cell_size).upper()
    &&& forall|a: int|
        0 <= a < Topo::DIMENSIONS ==> #[trigger] Topo::point(region.start)[a] + cell_size
            <= model.size()[a]
}

/// The cube of edge `cell_size` at the lower end of `region`.
pub open spec fn cube_of<Topo: Topology>(region: Range<Topo::Coord>, cell_size: usize) -> Cube {
    Cube { corner: Topo::point(region.start), size: cell_size as int }
}

impl<'a, 'g, T: CellData, Topo: Topology> CellContext<'a, 'g, T, Topo> {
    /// The cube this cell covers.
    pub open spec fn cube(&self) -> Cube {
        cube_of::<Topo>(self.region, self.cell_size)
    }

    /// The grid that is transformed.
    pub open spec fn source(&self) -> GridModel<T> {
        self.sampler.source()@
    }

    /// Number of times this cell can be subdivided.
    pub open spec fn levels(&self) -> nat {
        (self.source().levels - self.depth) as nat
    }

    /// Sampler and emitter are well-formed, and the cell is one of the cells
    /// that subdividing a chunk of the source grid leads to.
    pub open spec fn wf(&self) -> bool {
        &&& self.sampler.wf()
        &&& self.emitter.wf()
        &&& placed(*self.sampler, self.region, self.cell_size, self.depth)
    }

    /// The edge length of a cell at this depth (`chunk_size >> depth`).
    ///
    /// Equivalently [`cell_size`](CellContext::cell_size).
    pub fn depth_size(&self) -> (size: usize)
        requires
            self.sampler.wf(),
            self.depth < usize::BITS,
        ensures
            size == self.source().edge() / pow2(self.depth as nat) as int,
            self.wf() ==> size == self.cell_size,
    {
        let edge = self.sampler.grid_chunk_size();
        proof {
            vstd::bits::lemma_usize_shr_is_div(edge, self.depth);
            if self.wf() {
                let d = self.depth as nat;
                let n = self.levels();
                vstd::arithmetic::power2::lemma_pow2_adds(d, n);
                vstd::arithmetic::power2::lemma_pow2_pos(d);
                vstd::arithmetic::div_mod::lemma_div_multiples_vanish(
                    pow2(n) as int,
                    pow2(d) as int,
                );
                assert(pow2(d) * pow2(n) == pow2(n) * pow2(d)) by (nonlinear_arith);
            }
        }
        edge >> self.depth
    }

    /// Number of unit cells this cell covers (`cell_size.pow(DIMENSIONS)`).
    pub fn area(&self) -> (area: usize)
        requires
            pow(self.cell_size as int, Topo::DIMENSIONS as nat) <= usize::MAX,
        ensures
            area == pow(self.cell_size as int, Topo::DIMENSIONS as nat),
    {
        Topo::cell_volume(self.cell_size)
    }

    /// `part` describes child `index` of this cell.
    pub open spec fn part(&self, part: ContextSubRegion<Topo>, index: int) -> bool {
        &&& part.index == index
        &&& Topo::point(part.region_coord) == unlinear(index, splat(Topo::DIMENSIONS as nat, 2))
        &&& Topo::point(part.region.start) == part_start(
            Topo::point(self.region.start),
            Topo::point(self.region.end),
            index,
        )
        &&& Topo::point(part.region.end) == part_end(
            Topo::point(self.region.start),
            Topo::point(self.region.end),
            index,
        )
        &&& part.cell_size == self.cell_size / 2
        &&& part.depth == self.depth + 1
    }

    /// The region does not end before it starts, and its children have a depth.
    pub open spec fn divisible(&self) -> bool {
        &&& self.depth < usize::MAX
        &&& forall|a: int|
            0 <= a < Topo::DIMENSIONS ==> #[trigger] Topo::point(self.region.start)[a]
                <= Topo::point(self.region.end)[a]
    }

    /// Compute the descriptor of the `index`-th child subregion.
    pub fn subregion_at(&self, index: usize) -> (child: ContextSubRegion<Topo>)
        requires
            self.divisible(),
        ensures
            self.part(child, index as int),
    {
        let region = subregion::<Topo>(&self.region, index);
        ContextSubRegion {
            index,
            region_coord: Topo::child_offset(index),
            region,
            cell_size: self.cell_size / 2,
            depth: self.depth + 1,
        }
    }

    /// All child subregions of this cell, in child-index order.
    pub fn subdivide_region(&self) -> (parts: Vec<ContextSubRegion<Topo>>)
        requires
            self.divisible(),
        ensures
            parts@.len() == Topo::CHILDREN,
            forall|i: int| 0 <= i < Topo::CHILDREN ==> self.part(#[trigger] parts@[i], i),
    {
        let mut parts: Vec<ContextSubRegion<Topo>> = Vec::with_capacity(Topo::CHILDREN);
        let mut index: usize = 0;
        while index < Topo::CHILDREN
            invariant
                index <= Topo::CHILDREN,
                self.divisible(),
                parts@.len() == index,
                forall|i: int| 0 <= i < index ==> self.part(#[trigger] parts@[i], i),
            decreases Topo::CHILDREN - index,
        {
            parts.push(self.subregion_at(index));
            index = index + 1;
        }
        parts
    }

    /// The context of one child, with the same data, sampler and emitter.
    ///
    /// Sampler and emitter are lent to the child until it is done with them.
    pub fn subregion<'b>(&'b mut self, subregion: &ContextSubRegion<Topo>) -> (child: CellContext<
        'b,
        'g,
        T,
        Topo,
    >)
        ensures
            child.region == subregion.region,
            child.cell_size == subregion.cell_size,
            child.depth == subregion.depth,
            child.cell_data == old(self).cell_data,
            *child.sampler == *old(self).sampler,
            *child.emitter == *old(self).emitter,
            final(self).region == old(self).region,
            final(self).cell_size == old(self).cell_size,
            final(self).depth == old(self).depth,
            final(self).cell_data == old(self).cell_data,
            *final(self).sampler == *final(child.sampler),
            *final(self).emitter == *final(child.emitter),
            *final(final(self).sampler) == *final(old(self).sampler),
            *final(final(self).emitter) == *final(old(self).emitter),
    {
        CellContext {
            region: Range { start: subregion.region.start, end: subregion.region.end },
            cell_size: subregion.cell_size,
            depth: subregion.depth,
            cell_data: self.cell_data,
            sampler: &mut *self.sampler,
            emitter: &mut *self.emitter,
        }
    }

    /// `child` is a context for child `index` of this cell.
    pub open spec fn child(&self, child: CellContext<'_, 'g, T, Topo>, index: int) -> bool {
        &&& Topo::point(child.region.start) == part_start(
            Topo::point(self.region.start),
            Topo::point(self.region.end),
            index,
        )
        &&& Topo::point(child.region.end) == part_end(
            Topo::point(self.region.start),
            Topo::point(self.region.end),
            index,
        )
        &&& child.cell_size == self.cell_size / 2
        &&& child.depth == self.depth + 1
        &&& *child.cell_data == *self.cell_data
    }

    /// Subdivide this cell, invoking `f` with a child context per slot and
    /// collecting the emitted addresses into a topology-shaped children array.
    ///
    /// The calls run in slot order. Each finds sampler and emitter as the one
    /// before it left them.
    #[verifier::loop_isolation(false)]
    pub fn subdivide<F: for<'b> FnMut(CellContext<'b, 'g, T, Topo>) -> Address>(
        &mut self,
        f: F,
    ) -> (children: Topo::Children)
        requires
            old(self).divisible(),
            forall|
                runs: Seq<CellContext<'_, 'g, T, Topo>>,
                addresses: Seq<Address>,
                next: CellContext<'_, 'g, T, Topo>,
            |
                #![trigger runs.len(), addresses.len(), call_requires(f, (next,))]
                {
                    &&& runs.len() == addresses.len() < Topo::CHILDREN
                    &&& forall|i: int|
                        #![trigger runs[i]]
                        0 <= i < runs.len() ==> {
                            &&& old(self).child(runs[i], i)
                            &&& call_ensures(f, (runs[i],), addresses[i])
                            &&& *runs[i].sampler == (if i == 0 {
                                *old(self).sampler
                            } else {
                                *final(runs[i - 1].sampler)
                            })
                            &&& *runs[i].emitter == (if i == 0 {
                                *old(self).emitter
                            } else {
                                *final(runs[i - 1].emitter)
                            })
                        }
                    &&& old(self).child(next, runs.len() as int)
                    &&& *next.sampler == (if runs.len() == 0 {
                        *old(self).sampler
                    } else {
                        *final(runs.last().sampler)
                    })
                    &&& *next.emitter == (if runs.len() == 0 {
                        *old(self).emitter
                    } else {
                        *final(runs.last().emitter)
                    })
                } ==> call_requires(f, (next,)),
        ensures
            exists|runs: Seq<CellContext<'_, 'g, T, Topo>>|
                #![trigger runs.len()]
                {
                    &&& runs.len() == Topo::CHILDREN
                    &&& forall|i: int|
                        #![trigger runs[i]]
                        0 <= i < runs.len() ==> {
                            &&& old(self).child(runs[i], i)
                            &&& call_ensures(f, (runs[i],), Topo::slots(children)[i])
                            &&& *runs[i].sampler == (if i == 0 {
                                *old(self).sampler
                            } else {
                                *final(runs[i - 1].sampler)
                            })
                            &&& *runs[i].emitter == (if i == 0 {
                                *old(self).emitter
                            } else {
                                *final(runs[i - 1].emitter)
                            })
                        }
                    &&& *final(self).sampler == *final(runs.last().sampler)
                    &&& *final(self).emitter == *final(runs.last().emitter)
                },
            final(self).region == old(self).region,
            final(self).cell_size == old(self).cell_size,
            final(self).depth == old(self).depth,
            final(self).cell_data == old(self).cell_data,
            *final(final(self).sampler) == *final(old(self).sampler),
            *final(final(self).emitter) == *final(old(self).emitter),
    {
        let mut visit = f;
        let parts = self.subdivide_region();
        let mut addresses: Vec<Address> = Vec::with_capacity(Topo::CHILDREN);
        let ghost mut runs: Seq<CellContext<'_, 'g, T, Topo>> = Seq::empty();
        let mut index: usize = 0;
        while index < Topo::CHILDREN
            invariant
                index <= Topo::CHILDREN,
                visit == f,
                parts@.len() == Topo::CHILDREN,
                forall|i: int| 0 <= i < Topo::CHILDREN ==> old(self).part(#[trigger] parts@[i], i),
                self.region == old(self).region,
                self.cell_size == old(self).cell_size,
                self.depth == old(self).depth,
                self.cell_data == old(self).cell_data,
                *final(self.sampler) == *final(old(self).sampler),
                *final(self.emitter) == *final(old(self).emitter),
                runs.len() == index,
                addresses@.len() == index,
                forall|i: int|
                    #![trigger runs[i]]
                    0 <= i < runs.len() ==> {
                        &&& old(self).child(runs[i], i)
                        &&& call_ensures(f, (runs[i],), addresses@[i])
                        &&& *runs[i].sampler == (if i == 0 {
                            *old(self).sampler
                        } else {
                            *final(runs[i - 1].sampler)
                        })
                        &&& *runs[i].emitter == (if i == 0 {
                            *old(self).emitter
                        } else {
                            *final(runs[i - 1].emitter)
                        })
                    },
                *self.sampler == (if runs.len() == 0 {
                    *old(self).sampler
                } else {
                    *final(runs.last().sampler)
                }),
                *self.emitter == (if runs.len() == 0 {
                    *old(self).emitter
                } else {
                    *final(runs.last().emitter)
                }),
            decreases Topo::CHILDREN - index,
        {
            assert(old(self).part(parts@[index as int], index as int));
            let context = self.subregion(&parts[index]);
            let ghost run = context;
            assert(addresses@.len() == runs.len());
            let address = visit(context);
            addresses.push(address);
            proof {
                runs = runs.push(run);
            }
            index = index + 1;
        }
        let from_list = |slot: usize| -> (r: Address)
            requires
                slot < addresses@.len(),
            ensures
                r == addresses@[slot as int],
            { addresses[slot] };
        let children = Topo::children_from_fn(from_list);
        proof {
            Topo::lemma_shape();
            vstd::arithmetic::power2::lemma_pow2_pos(Topo::DIMENSIONS as nat);
        }
        children
    }
}

/// The region of a placed cell does not end before it starts.
pub proof fn lemma_placed_region<'g, T: CellData, Topo: Topology>(
    sampler: GridSampler<'g, T, Topo>,
    region: Range<Topo::Coord>,
    cell_size: usize,
    depth: usize,
)
    requires
        placed(sampler, region, cell_size, depth),
    ensures
        forall|a: int|
            0 <= a < Topo::DIMENSIONS ==> #[trigger] Topo::point(region.start)[a] <= Topo::point(
                region.end,
            )[a],
{
    Topo::lemma_point(region.start);
}

/// A child of a placed cell is placed, and covers an octant of the cell's cube.
pub proof fn lemma_child_placed<'g, T: CellData, Topo: Topology>(
    sampler: GridSampler<'g, T, Topo>,
    region: Range<Topo::Coord>,
    cell_size: usize,
    depth: usize,
    part: Range<Topo::Coord>,
    index: int,
)
    requires
        sampler.wf(),
        placed(sampler, region, cell_size, depth),
        depth < sampler.source()@.levels,
        0 <= index < Topo::CHILDREN,
        Topo::point(part.start) == part_start(
            Topo::point(region.start),
            Topo::point(region.end),
            index,
        ),
        Topo::point(part.end) == part_end(
            Topo::point(region.start),
            Topo::point(region.end),
            index,
        ),
    ensures
        placed(sampler, part, (cell_size / 2) as usize, (depth + 1) as usize),
        cube_of::<Topo>(part, (cell_size / 2) as usize) == cube_of::<Topo>(
            region,
            cell_size,
        ).octant(index),
{
    let cube = cube_of::<Topo>(region, cell_size);
    let half = (cell_size / 2) as usize;
    let levels = (sampler.source()@.levels - depth) as nat;
    lemma_edge(levels);
    lemma_parts_of_cube(cube, index);
    sampler.source().lemma_model();
    Topo::lemma_shape();
    Topo::lemma_point(region.start);
    assert(cube_of::<Topo>(part, half) == cube.octant(index));
    assert forall|a: int| 0 <= a < Topo::DIMENSIONS implies #[trigger] Topo::point(part.start)[a]
        + half <= sampler.source()@.size()[a] by {
        cube.lemma_octant_inside(index, a);
        assert(Topo::point(region.start)[a] + cell_size <= sampler.source()@.size()[a]);
    }
}

} // verus!
