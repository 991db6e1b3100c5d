//! What whole queries and whole runs give back.
use crate::changes::Changes;
use crate::geometry::box_points;
use crate::grid::{
    CellData, Grid, GridIter, GridSample, GridSampleIter, GridSampleView, GridSampler,
};
use crate::laws::leaves::lemma_leaves_once;
use crate::laws::sampling::{lemma_found_leaf, lemma_region_leaves};
use crate::laws::values::lemma_applied_exactly;
use crate::laws::volume::lemma_overlap_counts;
use crate::life::{lemma_game_of_life, Conway};
use crate::pipeline::{transformable, Transformer};
use crate::quantizer::kernel::KernelQuantizer;
use crate::topology::{Topology, Topology2d};
use crate::tree::{lemma_grid_leaf, touching, LeafCell};
use core::ops::Range;
use vstd::arithmetic::power::pow;
use vstd::prelude::*;

verus! {

/// Walking over a grid hands out regions with values. Every point of the grid lies
/// in exactly one of them, and its value is the one found there.
pub proof fn lemma_walk<'a, T: CellData, Topo: Topology>(
    grid: &'a Grid<T, Topo>,
    leaves: GridIter<'a, T, Topo>,
    items: Vec<(Range<Topo::Coord>, &'a T)>,
    p: Seq<int>,
) -> (i: int)
    requires
        grid.wf(),
        call_ensures(Grid::<T, Topo>::iter, (grid,), leaves),
        call_ensures(GridIter::<'a, T, Topo>::collect, (leaves,), items),
        p.len() == Topo::DIMENSIONS,
        forall|a: int| 0 <= a < p.len() ==> 0 <= #[trigger] p[a] < grid@.size()[a],
    ensures
        0 <= i < items@.len(),
        forall|a: int|
            0 <= a < p.len() ==> Topo::point(items@[i].0.start)[a] <= #[trigger] p[a]
                < Topo::point(items@[i].0.end)[a],
        *items@[i].1 == grid@.at(p),
        forall|j: int|
            #![trigger items@[j]]
            0 <= j < items@.len() && (forall|a: int|
                0 <= a < p.len() ==> Topo::point(items@[j].0.start)[a] <= #[trigger] p[a]
                    < Topo::point(items@[j].0.end)[a]) ==> j == i,
        items@.len() == grid@.leaves().len(),
        forall|j: int|
            0 <= j < items@.len() ==> Topo::point((#[trigger] items@[j]).0.start)
                == grid@.leaves()[j].cube.corner,
{
    grid.lemma_model();
    let all = grid@.leaves();
    lemma_found_leaf(grid@, p);
    lemma_leaves_once(grid@);
    let leaf = grid@.leaf_at(p);
    let i = choose|i: int| 0 <= i < all.len() && all[i] == leaf;
    lemma_grid_leaf(grid@, leaf);
    assert(all[i] == leaf);
    assert forall|a: int| 0 <= a < p.len() implies Topo::point(items@[i].0.start)[a]
        <= #[trigger] p[a] < Topo::point(items@[i].0.end)[a] by {}
    assert forall|j: int|
        #![trigger items@[j]]
        0 <= j < items@.len() && (forall|a: int|
            0 <= a < p.len() ==> Topo::point(items@[j].0.start)[a] <= #[trigger] p[a]
                < Topo::point(items@[j].0.end)[a]) implies j == i by {
        assert(all.contains(all[j]));
        lemma_grid_leaf(grid@, all[j]);
        assert forall|a: int| 0 <= a < p.len() implies all[j].cube.corner[a] <= #[trigger] p[a]
            < all[j].cube.corner[a] + all[j].cube.size by {
            assert(Topo::point(items@[j].0.start)[a] <= p[a] < Topo::point(items@[j].0.end)[a]);
        }
        assert(all[j].cube.contains(p));
        assert(all[j] == leaf);
    }
    i
}

/// A region query hands out leaves of the grid, each with the number of points of
/// the region that it covers, and every leaf that covers a point of the region.
pub proof fn lemma_region_query<'a, T: CellData, Topo: Topology>(
    sampler: &GridSampler<'a, T, Topo>,
    region: Range<Topo::Coord>,
    leaves: GridSampleIter<'a, T, Topo>,
    items: Vec<GridSampleView<'a, T, Topo>>,
)
    requires
        sampler.wf(),
        call_ensures(GridSampler::<'a, T, Topo>::sample_region, (sampler, region), leaves),
        forall|i: int| 0 <= i < leaves@.len() ==> leaves.countable(#[trigger] leaves@[i]),
        call_ensures(GridSampleIter::<'a, T, Topo>::collect, (leaves,), items),
    ensures
        forall|i: int|
            0 <= i < items@.len() ==> sampler.source()@.leaves().contains(
                (#[trigger] items@[i]).sample@,
            ),
        forall|i: int|
            0 <= i < items@.len() ==> (#[trigger] items@[i]).overlap_area == box_points(
                Topo::point(region.start),
                Topo::point(region.end),
            ).filter(|p: Seq<int>| items@[i].sample@.cube.contains(p)).len(),
        forall|leaf: LeafCell<T>, p: Seq<int>|
            #![trigger sampler.source()@.leaves().contains(leaf), leaf.cube.contains(p)]
            {
                &&& sampler.source()@.leaves().contains(leaf)
                &&& leaf.cube.contains(p)
                &&& forall|a: int|
                    0 <= a < p.len() ==> Topo::point(region.start)[a] <= #[trigger] p[a]
                        < Topo::point(region.end)[a]
            } ==> exists|i: int| 0 <= i < items@.len() && (#[trigger] items@[i]).sample@ == leaf,
{
    let grid = sampler.source();
    grid.lemma_model();
    let model = grid@;
    let (lo, hi) = (Topo::point(region.start), Topo::point(region.end));
    Topo::lemma_point(region.start);
    Topo::lemma_point(region.end);
    let t = touching::<T>(lo, hi);
    let met = model.leaves().filter(t);
    assert forall|i: int| 0 <= i < items@.len() implies model.leaves().contains(
        (#[trigger] items@[i]).sample@,
    ) && items@[i].overlap_area == box_points(lo, hi).filter(
        |p: Seq<int>| items@[i].sample@.cube.contains(p),
    ).len() by {
        let leaf = met[i];
        assert(items@[i].sample@ == leaf);
        assert(met.contains(leaf));
        model.leaves().lemma_filter_contains_rev(t, leaf);
        lemma_grid_leaf(model, leaf);
        lemma_overlap_counts(lo, hi, leaf.cube);
        let f = |p: Seq<int>|
            p.len() == leaf.cube.dim() && forall|a: int|
                0 <= a < leaf.cube.dim() ==> leaf.cube.corner[a] <= #[trigger] p[a]
                    < leaf.cube.corner[a] + leaf.cube.size;
        let g = |p: Seq<int>| items@[i].sample@.cube.contains(p);
        assert forall|p: Seq<int>| #[trigger] f(p) == g(p) by {}
        assert(f =~= g);
    }
    assert forall|leaf: LeafCell<T>, p: Seq<int>|
        #![trigger model.leaves().contains(leaf), leaf.cube.contains(p)]
        {
            &&& model.leaves().contains(leaf)
            &&& leaf.cube.contains(p)
            &&& forall|a: int| 0 <= a < p.len() ==> lo[a] <= #[trigger] p[a] < hi[a]
        } implies exists|i: int|
        0 <= i < items@.len() && (#[trigger] items@[i]).sample@ == leaf by {
        lemma_grid_leaf(model, leaf);
        lemma_region_leaves(model, lo, hi, leaf);
        assert(p.len() == model.dim() && forall|a: int|
            0 <= a < model.dim() ==> lo[a] <= #[trigger] p[a] < hi[a] && leaf.cube.corner[a] <= p[a]
                < leaf.cube.corner[a] + leaf.cube.size);
        assert(met.contains(leaf));
        let i = choose|i: int| 0 <= i < met.len() && met[i] == leaf;
        assert(items@[i].sample@ == leaf);
    }
}

/// A region query hands out leaves in the order in which the grid lists them.
pub proof fn lemma_region_order<'a, T: CellData, Topo: Topology>(
    sampler: &GridSampler<'a, T, Topo>,
    region: Range<Topo::Coord>,
    leaves: GridSampleIter<'a, T, Topo>,
    items: Vec<GridSampleView<'a, T, Topo>>,
    i: int,
    j: int,
) -> (places: (int, int))
    requires
        sampler.wf(),
        call_ensures(GridSampler::<'a, T, Topo>::sample_region, (sampler, region), leaves),
        forall|i: int| 0 <= i < leaves@.len() ==> leaves.countable(#[trigger] leaves@[i]),
        call_ensures(GridSampleIter::<'a, T, Topo>::collect, (leaves,), items),
        0 <= i < j < items@.len(),
    ensures
        0 <= places.0 < places.1 < sampler.source()@.leaves().len(),
        sampler.source()@.leaves()[places.0] == items@[i].sample@,
        sampler.source()@.leaves()[places.1] == items@[j].sample@,
{
    let t = touching::<T>(Topo::point(region.start), Topo::point(region.end));
    lemma_filter_order(sampler.source()@.leaves(), t, i, j)
}

proof fn lemma_filter_order<A>(s: Seq<A>, f: spec_fn(A) -> bool, i: int, j: int) -> (places: (
    int,
    int,
))
    requires
        0 <= i < j < s.filter(f).len(),
    ensures
        0 <= places.0 < places.1 < s.len(),
        s[places.0] == s.filter(f)[i],
        s[places.1] == s.filter(f)[j],
    decreases s.len(),
{
    reveal(Seq::filter);
    let rest = s.drop_last();
    let kept = rest.filter(f);
    if j < kept.len() {
        let (k, l) = lemma_filter_order(rest, f, i, j);
        (k, l)
    } else {
        assert(kept.contains(kept[i]));
        rest.lemma_filter_contains_rev(f, kept[i]);
        let k = choose|k: int| 0 <= k < rest.len() && rest[k] == kept[i];
        (k, s.len() - 1)
    }
}

/// A leaf spans its size on each axis, and its value is scaled by the number of
/// cells it covers.
pub proof fn lemma_leaf_measures<'a, T: CellData, Topo: Topology>(
    sample: &GridSample<'a, T, Topo>,
    range: Range<Topo::Coord>,
    area: usize,
    scaled: T,
)
    requires
        forall|a: int|
            0 <= a < Topo::DIMENSIONS ==> #[trigger] Topo::point(sample.offset)[a] + sample.size
                <= usize::MAX,
        pow(sample.size as int, Topo::DIMENSIONS as nat) <= usize::MAX,
        call_ensures(GridSample::<'a, T, Topo>::range, (sample,), range),
        call_ensures(GridSample::<'a, T, Topo>::area, (sample,), area),
        call_ensures(GridSample::<'a, T, Topo>::data_scaled, (sample,), scaled),
    ensures
        range.start == sample.offset,
        forall|a: int|
            0 <= a < Topo::DIMENSIONS ==> #[trigger] Topo::point(range.end)[a] == Topo::point(
                sample.offset,
            )[a] + sample.size,
        Topo::DIMENSIONS == 2 ==> area == sample.size * sample.size,
        Topo::DIMENSIONS == 3 ==> area == sample.size * sample.size * sample.size,
        scaled == sample.data.scaled(area),
{
    Topo::lemma_point(sample.offset);
    Topo::lemma_point(range.end);
    let n = sample.size as int;
    reveal(pow);
    reveal_with_fuel(pow, 4);
    assert(n * (n * 1) == n * n && n * (n * (n * 1)) == n * n * n) by (nonlinear_arith);
}

/// The value of a leaf that a region meets is scaled by what lies in the region.
pub proof fn lemma_share_scaled<'a, T: CellData, Topo: Topology>(
    view: &GridSampleView<'a, T, Topo>,
    scaled: T,
)
    requires
        call_ensures(GridSampleView::<'a, T, Topo>::data_scaled, (view,), scaled),
    ensures
        scaled == view.sample.data.scaled(view.overlap_area),
{
}

/// A sampler starts with an empty cache. Its limit is the configured one, and zero
/// if there is none.
pub proof fn lemma_fresh_sampler<'a, T: CellData, Topo: Topology>(
    grid: &'a Grid<T, Topo>,
    sampler: GridSampler<'a, T, Topo>,
)
    requires
        grid.wf(),
        call_ensures(Grid::<T, Topo>::sampler, (grid,), sampler),
    ensures
        sampler.source() == *grid,
        sampler.cached().len() == 0,
        grid.settings().sampler_cache_limit is None ==> sampler.cache_limit() == 0,
        grid.settings().sampler_cache_limit is Some ==> sampler.cache_limit()
            == grid.settings().sampler_cache_limit->0,
{
}

/// Applying staged edits to a grid gives a grid of the same extent. Where
/// homogeneous values are equal, it holds at every point what is staged there, or
/// else what the grid held.
pub proof fn lemma_apply<T: CellData, Topo: Topology>(
    changes: Changes<T, Topo>,
    grid: &Grid<T, Topo>,
    result: Grid<T, Topo>,
    p: Seq<int>,
)
    requires
        changes.wf(),
        changes.usable(),
        grid.wf(),
        transformable(&changes, grid@, grid.settings().room::<T>()),
        call_ensures(Changes::<T, Topo>::apply, (changes, grid), result),
        forall|a: T, b: T| #[trigger] a.homogeneous(&b) ==> a == b,
        p.len() == Topo::DIMENSIONS,
        forall|a: int| 0 <= a < p.len() ==> 0 <= #[trigger] p[a] < grid@.size()[a],
    ensures
        result.settings() == grid.settings(),
        result@.size() == grid@.size(),
        changes@.contains_key(p) ==> result@.at(p) == changes@[p],
        !changes@.contains_key(p) ==> result@.at(p) == grid@.at(p),
{
    grid.lemma_model();
    assert(grid@.in_bounds(p));
    lemma_applied_exactly(&changes, grid@, result@, p);
    assert(result@.size() =~= grid@.size());
}

/// A run of the game's rule behind the kernel adapter gives the next generation: a
/// cell is alive in it if and only if three of the eight cells around it are alive,
/// or two of them are and it was alive itself. Cells beyond the borders are dead.
pub proof fn lemma_run_generation<'a>(
    kernel: &'a KernelQuantizer<Conway>,
    grid: &'a Grid<crate::life::Cell, Topology2d>,
    transformer: Transformer<'a, KernelQuantizer<Conway>>,
    result: Grid<crate::life::Cell, Topology2d>,
    x: int,
    y: int,
)
    requires
        grid.wf(),
        transformable(kernel, grid@, grid.settings().room::<crate::life::Cell>()),
        call_ensures(
            Transformer::<'a, KernelQuantizer<Conway>>::new,
            (kernel, grid),
            transformer,
        ),
        call_ensures(
            Transformer::<'a, KernelQuantizer<Conway>>::execute,
            (transformer,),
            result,
        ),
        0 <= x < grid@.size()[0],
        0 <= y < grid@.size()[1],
    ensures
        ({
            let one = |nx: int, ny: int|
                if 0 <= nx < grid@.size()[0] && 0 <= ny < grid@.size()[1] && grid@.at(
                    seq![nx, ny],
                ).0 {
                    1int
                } else {
                    0int
                };
            let around = one(x - 1, y - 1) + one(x, y - 1) + one(x + 1, y - 1) + one(x - 1, y)
                + one(x + 1, y) + one(x - 1, y + 1) + one(x, y + 1) + one(x + 1, y + 1);
            result@.at(seq![x, y]).0 <==> around == 3 || (around == 2 && grid@.at(seq![x, y]).0)
        }),
{
    grid.lemma_model();
    Topology2d::lemma_constants();
    let p = seq![x, y];
    assert(p[0] == x && p[1] == y);
    assert(grid@.in_bounds(p));
    lemma_game_of_life(kernel, grid@, result@, p);
}

} // verus!
