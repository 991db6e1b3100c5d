//! What a new grid is.
use crate::allocator::arena_limit;
use crate::changes::Changes;
use crate::geometry::{addressable, halves, product};
use crate::grid::{Cell, CellData, Grid, GridConfig};
use crate::laws::boxes::lemma_row_major;
use crate::pipeline::Transformer;
use crate::quantizer::Quantizer;
use crate::topology::Topology;
use crate::tree::GridModel;
use vstd::arithmetic::power2::pow2;
use vstd::prelude::*;

verus! {

/// A new grid keeps the configuration it is built from: every number of chunks and
/// every capacity stays as it is, and zero becomes one. On each axis it extends
/// over as many cells as its chunks have along it, two to the power of the depth
/// each, and every point of it holds the value it was filled with.
pub proof fn lemma_new_grid<T: CellData, Topo: Topology>(
    config: GridConfig<Topo>,
    fill_data: T,
    grid: Grid<T, Topo>,
)
    requires
        config.buildable::<T>(),
        call_ensures(Grid::<T, Topo>::new, (config, fill_data), grid),
    ensures
        forall|a: int|
            0 <= a < Topo::DIMENSIONS && Topo::point(config.chunks_num)[a] >= 1 ==> {
                &&& #[trigger] Topo::point(grid.settings().chunks_num)[a] == Topo::point(
                    config.chunks_num,
                )[a]
                &&& grid@.size()[a] == Topo::point(config.chunks_num)[a] * pow2(
                    config.chunk_max_depth as nat,
                )
            },
        forall|a: int|
            0 <= a < Topo::DIMENSIONS && Topo::point(config.chunks_num)[a] == 0 ==> {
                &&& #[trigger] Topo::point(grid.settings().chunks_num)[a] == 1
                &&& grid@.size()[a] == pow2(config.chunk_max_depth as nat)
            },
        grid.settings().chunk_max_depth == config.chunk_max_depth,
        config.page_capacity >= 1 ==> grid.settings().page_capacity == config.page_capacity,
        config.page_capacity == 0 ==> grid.settings().page_capacity == 1,
        config.pages_capacity >= 1 ==> grid.settings().pages_capacity == config.pages_capacity,
        config.pages_capacity == 0 ==> grid.settings().pages_capacity == 1,
        grid.settings().sampler_cache_limit == config.sampler_cache_limit,
        forall|p: Seq<int>|
            p.len() == Topo::DIMENSIONS && (forall|a: int|
                0 <= a < p.len() ==> 0 <= #[trigger] p[a] < grid@.size()[a])
                ==> #[trigger] grid@.at(p) == fill_data,
{
    Topo::lemma_point(config.chunks_num);
    Topo::lemma_point(grid.settings().chunks_num);
    grid.lemma_model();
    assert forall|a: int| 0 <= a < Topo::DIMENSIONS implies #[trigger] grid@.size()[a]
        == Topo::point(grid.settings().chunks_num)[a] * pow2(config.chunk_max_depth as nat) by {}
    assert forall|p: Seq<int>|
        p.len() == Topo::DIMENSIONS && (forall|a: int|
            0 <= a < p.len() ==> 0 <= #[trigger] p[a]
                < grid@.size()[a]) implies #[trigger] grid@.at(p) == fill_data by {
        assert(grid@.in_bounds(p));
    }
}

/// Every configuration whose extents and number of chunks a machine word can
/// count, and whose chunks have room in the arena, describes a grid.
pub proof fn lemma_buildable<T: CellData, Topo: Topology>(
    config: GridConfig<Topo>,
    counts: Seq<int>,
)
    requires
        config.chunk_max_depth < usize::BITS,
        counts.len() == Topo::DIMENSIONS,
        forall|a: int|
            0 <= a < counts.len() ==> #[trigger] counts[a] == (if Topo::point(
                config.chunks_num,
            )[a] == 0 {
                1
            } else {
                Topo::point(config.chunks_num)[a]
            }),
        forall|a: int|
            0 <= a < counts.len() ==> #[trigger] counts[a] * pow2(config.chunk_max_depth as nat)
                <= usize::MAX,
        product(counts) <= usize::MAX,
        product(counts) <= arena_limit::<Cell<T, Topo>>(config.page_capacity),
    ensures
        config.buildable::<T>(),
{
    Topo::lemma_point(config.chunks_num);
    assert(config.counts() =~= counts);
    crate::geometry::lemma_addressable(counts);
    assert(addressable(config.counts()));
    assert forall|a: int| 0 <= a < Topo::DIMENSIONS implies (#[trigger] config.counts()[a]) * pow2(
        config.chunk_max_depth as nat,
    ) <= usize::MAX by {
        assert(counts[a] * pow2(config.chunk_max_depth as nat) <= usize::MAX);
    }
}

/// A grid extends over two to the power of the depth cells per chunk on each axis.
/// A point lies in it exactly if on each axis it lies between zero and that extent.
pub proof fn lemma_extent<T: CellData, Topo: Topology>(
    grid: &Grid<T, Topo>,
    size: Topo::Coord,
    edge: usize,
    p: Seq<int>,
)
    requires
        grid.wf(),
        call_ensures(Grid::<T, Topo>::size, (grid,), size),
        call_ensures(Grid::<T, Topo>::chunk_size, (grid,), edge),
    ensures
        edge == pow2(grid.settings().chunk_max_depth as nat),
        forall|a: int|
            0 <= a < Topo::DIMENSIONS ==> #[trigger] Topo::point(size)[a] == Topo::point(
                grid.settings().chunks_num,
            )[a] * edge,
        grid@.in_bounds(p) <==> p.len() == Topo::DIMENSIONS && forall|a: int|
            0 <= a < p.len() ==> 0 <= #[trigger] p[a] < Topo::point(size)[a],
{
    grid.lemma_model();
    Topo::lemma_point(size);
    Topo::lemma_point(grid.settings().chunks_num);
}

/// Chunks are cubes side by side: on each axis a point falls into the chunk whose
/// number is its coordinate divided by the edge, and chunks are numbered with axis
/// zero running fastest.
pub proof fn lemma_chunk_number<T>(model: GridModel<T>, p: Seq<int>)
    requires
        model.valid(),
        model.in_bounds(p),
    ensures
        0 <= model.chunk_of(p) < model.chunks.len(),
        model.dim() == 2 ==> model.chunk_of(p) == p[0] / model.edge() + model.chunks_num[0] * (p[1]
            / model.edge()),
        model.dim() == 3 ==> model.chunk_of(p) == p[0] / model.edge() + model.chunks_num[0] * (p[1]
            / model.edge() + model.chunks_num[1] * (p[2] / model.edge())),
        forall|a: int|
            0 <= a < model.dim() ==> #[trigger] model.chunk_cube(model.chunk_of(p)).corner[a] == (
            p[a] / model.edge()) * model.edge(),
        model.chunk_cube(model.chunk_of(p)).size == model.edge(),
{
    model.lemma_chunk_of(p);
    let e = model.edge();
    let q = halves(p, e);
    let n = model.chunks_num;
    if model.dim() == 2 {
        assert(q =~= seq![q[0], q[1]]);
        assert(n =~= seq![n[0], n[1]]);
        lemma_row_major(q[0], q[1], 0, n[0], n[1], 0);
    }
    if model.dim() == 3 {
        assert(q =~= seq![q[0], q[1], q[2]]);
        assert(n =~= seq![n[0], n[1], n[2]]);
        lemma_row_major(q[0], q[1], q[2], n[0], n[1], n[2]);
    }
}

/// What is configured when nothing else is asked for: a single undivided chunk, in
/// pages of 1024 cells, without a cache; edits staged in cubes of edge 32; and a
/// cache that is trimmed at every fourth depth.
pub proof fn lemma_defaults<'a, T: CellData, Q: Quantizer>(
    config: GridConfig<Q::Topology>,
    changes: Changes<T, Q::Topology>,
    rule: &'a Q,
    grid: &'a Grid<Q::CellData, Q::Topology>,
    transformer: Transformer<'a, Q>,
)
    requires
        call_ensures(<GridConfig<Q::Topology> as Default>::default, (), config),
        call_ensures(<Changes<T, Q::Topology> as Default>::default, (), changes),
        call_ensures(Transformer::<'a, Q>::new, (rule, grid), transformer),
    ensures
        forall|a: int|
            0 <= a < Q::Topology::DIMENSIONS ==> #[trigger] Q::Topology::point(
                config.chunks_num,
            )[a] == 1,
        config.chunk_max_depth == 0,
        config.page_capacity == 1024,
        config.pages_capacity == 32,
        config.sampler_cache_limit is None,
        changes.bucket_edge() == 32,
        forall|p: Seq<int>| !#[trigger] changes@.contains_key(p),
        transformer.evicting_depth() == 4,
{
}

} // verus!
