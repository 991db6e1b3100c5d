//! Forces a quantizer to run at unit resolution.
use crate::allocator::Address;
use crate::grid::{CellData, GridSample};
use crate::quantizer::context::CellContext;
use crate::quantizer::refine::{refine, refine_caches, refine_emits, refine_fits, refined};
use crate::quantizer::Quantizer;
use crate::tree::{lemma_edge, Cube, GridModel, Tree};
use vstd::prelude::*;

verus! {

/// Adapter that forces the wrapped quantizer to run at the *finest* resolution.
///
/// It recursively subdivides every cell down to size `1` before delegating to
/// the inner quantizer, re-merging homogeneous results on the way back up. Use
/// it for rules that must see individual unit cells (e.g. per-cell stencils)
/// regardless of how coarse the source grid is.
pub struct KernelQuantizer<Q> {
    /// The inner per-cell quantizer.
    pub quantizer: Q,
}

impl<Q: Quantizer> Quantizer for KernelQuantizer<Q> {
    type CellData = Q::CellData;

    type Topology = Q::Topology;

    open spec fn ready(&self) -> bool {
        self.quantizer.ready()
    }

    open spec fn yields(
        &self,
        source: GridModel<Q::CellData>,
        cube: Cube,
        depth: nat,
        data: Q::CellData,
        out: Tree<Q::CellData>,
    ) -> bool {
        refined(&self.quantizer, source, cube, depth, data, source.levels, out)
    }

    open spec fn spends(
        &self,
        source: GridModel<Q::CellData>,
        cube: Cube,
        depth: nat,
        data: Q::CellData,
        out: Tree<Q::CellData>,
        cells: nat,
    ) -> bool {
        refine_emits(
            &self.quantizer,
            source,
            cube,
            depth,
            data,
            source.levels,
            out,
            cells,
        )
    }

    open spec fn fits(
        &self,
        source: GridModel<Q::CellData>,
        cube: Cube,
        depth: nat,
        data: Q::CellData,
        room: int,
    ) -> bool {
        refine_fits(
            &self.quantizer,
            source,
            cube,
            depth,
            data,
            source.levels,
            room,
        )
    }

    open spec fn caches<'g>(
        &self,
        source: GridModel<Q::CellData>,
        cube: Cube,
        depth: nat,
        data: Q::CellData,
        limit: usize,
        before: Seq<GridSample<'g, Q::CellData, Q::Topology>>,
        after: Seq<GridSample<'g, Q::CellData, Q::Topology>>,
    ) -> bool {
        refine_caches(
            &self.quantizer,
            source,
            cube,
            depth,
            data,
            source.levels,
            limit,
            before,
            after,
        )
    }

    fn quantize<'a, 'g>(&self, context: CellContext<'a, 'g, Q::CellData, Q::Topology>) -> (root:
        Address) {
        proof {
            context.sampler.source().lemma_model();
            if context.levels() > 0 {
                lemma_edge(context.levels());
            }
            vstd::arithmetic::power2::lemma2_to64();
        }
        if context.cell_size <= 1 {
            self.quantizer.quantize(context)
        } else {
            let unit_depth = context.sampler.grid_config().chunk_max_depth;
            refine(
                &self.quantizer,
                context.region,
                context.cell_size,
                context.depth,
                context.cell_data,
                unit_depth,
                context.sampler,
                context.emitter,
            )
        }
    }

    fn merge(&self, cells: &[&Q::CellData]) -> (merged: Q::CellData)
        ensures
            call_ensures(Q::merge, (&self.quantizer, cells), merged),
    {
        self.quantizer.merge(cells)
    }
}

} // verus!
