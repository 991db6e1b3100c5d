//! Matches a cell's resolution to its neighbourhood.
use crate::allocator::Address;
use crate::grid::{tree_of, CellData, GridSample};
use crate::quantizer::context::CellContext;
use crate::quantizer::refine::{refine, refine_caches, refine_emits, refine_fits, refined};
use crate::quantizer::{added, grown, Quantizer};
use crate::topology::Topology;
use crate::tree::{larger, Cube, GridModel, Tree};
use core::ops::Range;
use vstd::prelude::*;

verus! {

/// Adapter that runs the wrapped quantizer at the resolution of a cell's
/// neighbourhood.
///
/// A cell is subdivided until it is as fine as the finest leaf within
/// `tile_margin` cells of it, and the inner quantizer runs on each part;
/// homogeneous results are merged on the way back up.
pub struct NeighborsQuantizer<Q> {
    /// How far the neighbourhood reaches beyond the cell; at least `1`.
    pub tile_margin: usize,
    /// The inner quantizer.
    pub quantizer: Q,
}

/// `point` moved down by `margin` on every axis, stopping at zero.
pub open spec fn margin_below(point: Seq<int>, margin: int) -> Seq<int> {
    Seq::new(
        point.len(),
        |a: int|
            if point[a] < margin {
                0
            } else {
                point[a] - margin
            },
    )
}

/// `point` moved up by `margin` on every axis, stopping at the largest `usize`.
pub open spec fn margin_above(point: Seq<int>, margin: int) -> Seq<int> {
    Seq::new(
        point.len(),
        |a: int|
            if point[a] + margin > usize::MAX {
                usize::MAX as int
            } else {
                point[a] + margin
            },
    )
}

impl<Q: Quantizer> NeighborsQuantizer<Q> {
    /// How far the neighbourhood reaches.
    pub open spec fn margin(&self) -> int {
        if self.tile_margin < 1 {
            1
        } else {
            self.tile_margin as int
        }
    }

    /// Depth down to which a cell is subdivided: that of the finest leaf in its
    /// neighbourhood, but no less than its own.
    pub open spec fn desired_depth(
        &self,
        source: GridModel<Q::CellData>,
        cube: Cube,
        depth: nat,
    ) -> nat {
        if depth >= source.levels {
            depth
        } else {
            larger(
                source.granularity(
                    margin_below(cube.corner, self.margin()),
                    margin_above(cube.upper(), self.margin()),
                ),
                depth,
            )
        }
    }

    /// Runs the inner quantizer on the parts of a cell at `desired_depth`.
    fn subquantize<'a, 'g>(
        &self,
        context: CellContext<'a, 'g, Q::CellData, Q::Topology>,
        desired_depth: usize,
    ) -> (root: Address)
        requires
            self.quantizer.ready(),
            context.wf(),
            desired_depth <= context.source().levels,
            refine_fits(
                &self.quantizer,
                context.source(),
                context.cube(),
                context.depth as nat,
                *context.cell_data,
                desired_depth as nat,
                context.emitter.room(),
            ),
        ensures
            final(context.sampler).wf(),
            final(context.sampler).source() == old(context.sampler).source(),
            final(context.sampler).cache_limit() == old(context.sampler).cache_limit(),
            grown(
                old(context.emitter).arena(),
                final(context.emitter).arena(),
                root,
                context.levels(),
            ),
            refined(
                &self.quantizer,
                context.source(),
                context.cube(),
                context.depth as nat,
                *context.cell_data,
                desired_depth as nat,
                tree_of(final(context.emitter).arena(), root, context.levels()),
            ),
            refine_emits(
                &self.quantizer,
                context.source(),
                context.cube(),
                context.depth as nat,
                *context.cell_data,
                desired_depth as nat,
                tree_of(final(context.emitter).arena(), root, context.levels()),
                added(old(context.emitter).arena(), final(context.emitter).arena()),
            ),
            refine_caches(
                &self.quantizer,
                context.source(),
                context.cube(),
                context.depth as nat,
                *context.cell_data,
                desired_depth as nat,
                old(context.sampler).cache_limit(),
                old(context.sampler).cached(),
                final(context.sampler).cached(),
            ),
    {
        refine(
            &self.quantizer,
            context.region,
            context.cell_size,
            context.depth,
            context.cell_data,
            desired_depth,
            context.sampler,
            context.emitter,
        )
    }
}

impl<Q: Quantizer> Quantizer for NeighborsQuantizer<Q> {
    type CellData = Q::CellData;

    type Topology = Q::Topology;

    open spec fn ready(&self) -> bool {
        self.quantizer.ready()
    }

    open spec fn yields(
        &self,
        source: GridModel<Q::CellData>,
        cube: Cube,
        depth: nat,
        data: Q::CellData,
        out: Tree<Q::CellData>,
    ) -> bool {
        refined(
            &self.quantizer,
            source,
            cube,
            depth,
            data,
            self.desired_depth(source, cube, depth),
            out,
        )
    }

    open spec fn spends(
        &self,
        source: GridModel<Q::CellData>,
        cube: Cube,
        depth: nat,
        data: Q::CellData,
        out: Tree<Q::CellData>,
        cells: nat,
    ) -> bool {
        refine_emits(
            &self.quantizer,
            source,
            cube,
            depth,
            data,
            self.desired_depth(source, cube, depth),
            out,
            cells,
        )
    }

    open spec fn fits(
        &self,
        source: GridModel<Q::CellData>,
        cube: Cube,
        depth: nat,
        data: Q::CellData,
        room: int,
    ) -> bool {
        refine_fits(
            &self.quantizer,
            source,
            cube,
            depth,
            data,
            self.desired_depth(source, cube, depth),
            room,
        )
    }

    open spec fn caches<'g>(
        &self,
        source: GridModel<Q::CellData>,
        cube: Cube,
        depth: nat,
        data: Q::CellData,
        limit: usize,
        before: Seq<GridSample<'g, Q::CellData, Q::Topology>>,
        after: Seq<GridSample<'g, Q::CellData, Q::Topology>>,
    ) -> bool {
        refine_caches(
            &self.quantizer,
            source,
            cube,
            depth,
            data,
            self.desired_depth(source, cube, depth),
            limit,
            before,
            after,
        )
    }

    fn quantize<'a, 'g>(&self, context: CellContext<'a, 'g, Q::CellData, Q::Topology>) -> (root:
        Address) {
        proof {
            context.sampler.source().lemma_model();
        }
        if context.depth >= context.sampler.grid_config().chunk_max_depth {
            return self.quantizer.quantize(context);
        }
        let margin = if self.tile_margin < 1 {
            1
        } else {
            self.tile_margin
        };
        let lower = |coord: usize| -> (r: usize)
            ensures
                r == (if coord < margin {
                    0
                } else {
                    coord - margin
                }),
            { coord.saturating_sub(margin) };
        let upper = |coord: usize| -> (r: usize)
            ensures
                r == (if coord + margin > usize::MAX {
                    usize::MAX as int
                } else {
                    coord + margin
                }),
            { coord.saturating_add(margin) };
        let coords_from = Q::Topology::map(context.region.start, lower);
        let coords_to = Q::Topology::map(context.region.end, upper);
        proof {
            Q::Topology::lemma_point(context.region.start);
            Q::Topology::lemma_point(context.region.end);
            Q::Topology::lemma_point(coords_from);
            Q::Topology::lemma_point(coords_to);
            assert(Q::Topology::point(coords_from) =~= margin_below(
                context.cube().corner,
                self.margin(),
            ));
            assert(Q::Topology::point(coords_to) =~= margin_above(
                context.cube().upper(),
                self.margin(),
            ));
        }
        let granularity = context.sampler.region_granularity_depth(
            Range { start: coords_from, end: coords_to },
        );
        let desired_depth = if granularity < context.depth {
            context.depth
        } else {
            granularity
        };
        self.subquantize(context, desired_depth)
    }

    fn merge(&self, cells: &[&Q::CellData]) -> (merged: Q::CellData)
        ensures
            call_ensures(Q::merge, (&self.quantizer, cells), merged),
    {
        self.quantizer.merge(cells)
    }
}

} // verus!
