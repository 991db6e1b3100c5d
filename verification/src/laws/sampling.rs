//! What queries find, and what they leave in the cache.
use crate::geometry::linear;
use crate::grid::sampler::{cache_after, newest_covering, trimmed};
use crate::grid::{CellData, Grid, GridFlat, GridPreviewCell, GridSample};
use crate::laws::boxes::{lemma_common_point, lemma_row_major, lemma_volume};
use crate::pipeline::{trims_at, walked};
use crate::quantizer::refine::refine_caches;
use crate::quantizer::{joined, mergeable, Quantizer};
use crate::topology::{Topology, Topology2d, Topology3d};
use crate::tree::{
    lemma_grid_leaf, lemma_leaves_cover, lemma_leaves_disjoint, touching, Cube, GridModel, LeafCell,
    Tree,
};
use vstd::arithmetic::power2::pow2;
use vstd::prelude::*;

verus! {

/// A cached leaf is found by scanning from the newest end: it covers the point,
/// and no newer one does. If none is found, none covers the point.
pub proof fn lemma_newest_covering<'a, T: CellData, Topo: Topology>(
    cache: Seq<GridSample<'a, T, Topo>>,
    p: Seq<int>,
)
    ensures
        ({
            let hit = newest_covering(cache, p);
            &&& hit < cache.len()
            &&& hit >= 0 ==> cache[hit]@.cube.contains(p)
            &&& forall|j: int|
                0 <= j < cache.len() && hit < j ==> !(#[trigger] cache[j])@.cube.contains(p)
        }),
    decreases cache.len(),
{
    if cache.len() > 0 && !cache.last()@.cube.contains(p) {
        let rest = cache.drop_last();
        lemma_newest_covering(rest, p);
        let hit = newest_covering(rest, p);
        assert forall|j: int| 0 <= j < cache.len() && hit < j implies !(
        #[trigger] cache[j])@.cube.contains(p) by {
            if j < rest.len() {
                assert(rest[j] == cache[j]);
            }
        }
    }
}

/// A lookup that finds nothing in the cache adds what it found at the newest end.
/// One that finds a cached leaf swaps it with the next newer one, if there is one,
/// and leaves all others in place. Without a cache nothing is kept.
pub proof fn lemma_cache_after<'a, T: CellData, Topo: Topology>(
    cache: Seq<GridSample<'a, T, Topo>>,
    limit: usize,
    p: Seq<int>,
    sample: GridSample<'a, T, Topo>,
)
    ensures
        ({
            let after = cache_after(cache, limit, p, sample);
            let cold = forall|j: int|
                0 <= j < cache.len() ==> !(#[trigger] cache[j])@.cube.contains(p);
            &&& limit == 0 ==> after == cache
            &&& limit > 0 && cold ==> after == cache.push(sample)
            &&& limit > 0 ==> forall|hit: int|
                0 <= hit < cache.len() && (#[trigger] cache[hit])@.cube.contains(p) && (forall|
                    j: int,
                |
                    hit < j < cache.len() ==> !(#[trigger] cache[j])@.cube.contains(p)) ==> {
                    &&& after.len() == cache.len()
                    &&& hit + 1 == cache.len() ==> after == cache
                    &&& hit + 1 < cache.len() ==> after[hit + 1] == cache[hit] && after[hit]
                        == cache[hit + 1]
                    &&& forall|j: int|
                        0 <= j < cache.len() && j != hit && j != hit + 1 ==> #[trigger] after[j]
                            == cache[j]
                }
        }),
{
    lemma_newest_covering(cache, p);
    let found = newest_covering(cache, p);
    let after = cache_after(cache, limit, p, sample);
    if limit > 0 {
        assert forall|hit: int|
            0 <= hit < cache.len() && (#[trigger] cache[hit])@.cube.contains(p) && (forall|j: int|
                hit < j < cache.len() ==> !(#[trigger] cache[j])@.cube.contains(p)) implies {
            &&& after.len() == cache.len()
            &&& hit + 1 == cache.len() ==> after == cache
            &&& hit + 1 < cache.len() ==> after[hit + 1] == cache[hit] && after[hit] == cache[hit
                + 1]
            &&& forall|j: int|
                0 <= j < cache.len() && j != hit && j != hit + 1 ==> #[trigger] after[j]
                    == cache[j]
        } by {
            assert(found == hit);
        }
    }
}

/// Trimming keeps the newest leaves, in order, and as many as the limit allows.
pub proof fn lemma_trimmed<'a, T: CellData, Topo: Topology>(
    cache: Seq<GridSample<'a, T, Topo>>,
    limit: usize,
)
    ensures
        trimmed(cache, limit).len() <= limit,
        trimmed(cache, limit).len() == cache.len() || trimmed(cache, limit).len() == limit,
        trimmed(cache, limit).len() <= cache.len(),
        forall|j: int|
            0 <= j < trimmed(cache, limit).len() ==> #[trigger] trimmed(cache, limit)[j]
                == cache[j + cache.len() - trimmed(cache, limit).len()],
{
}

/// The leaf that covers a point is listed among the leaves of the grid, reaches
/// over the point, and is the only one that does.
pub proof fn lemma_found_leaf<T>(model: GridModel<T>, p: Seq<int>)
    requires
        model.valid(),
        p.len() == model.dim(),
        forall|a: int| 0 <= a < p.len() ==> 0 <= #[trigger] p[a] < model.size()[a],
    ensures
        model.leaves().contains(model.leaf_at(p)),
        forall|a: int|
            0 <= a < p.len() ==> model.leaf_at(p).cube.corner[a] <= #[trigger] p[a]
                < model.leaf_at(p).cube.corner[a] + model.leaf_at(p).cube.size,
        model.at(p) == model.leaf_at(p).data,
        forall|leaf: LeafCell<T>| #[trigger]
            model.leaves().contains(leaf) && leaf.cube.contains(p) ==> leaf == model.leaf_at(p),
{
    assert(model.in_bounds(p));
    lemma_leaves_cover(model, p);
    assert forall|leaf: LeafCell<T>| #[trigger]
        model.leaves().contains(leaf) && leaf.cube.contains(p) implies leaf == model.leaf_at(
        p,
    ) by {
        lemma_leaves_disjoint(model, leaf, p);
    }
}

/// The cache is trimmed after branches at every depth that is a multiple of the
/// interval, and at no other.
pub proof fn lemma_trim_depths(depth: int, interval: int)
    requires
        depth >= 0,
        interval >= 0,
    ensures
        trims_at(depth, interval) <==> exists|n: int| #[trigger] (n * interval) == depth,
{
    if trims_at(depth, interval) {
        let n = if interval == 0 {
            0
        } else {
            depth / interval
        };
        if interval > 0 {
            vstd::arithmetic::div_mod::lemma_fundamental_div_mod(depth, interval);
            assert(n * interval == interval * n) by (nonlinear_arith);
        }
        assert(n * interval == depth);
    }
    if exists|n: int| #[trigger] (n * interval) == depth {
        let n = choose|n: int| #[trigger] (n * interval) == depth;
        if interval > 0 {
            vstd::arithmetic::div_mod::lemma_mod_multiples_basic(n, interval);
        } else {
            assert(n * 0 == 0);
        }
    }
}

/// A dense copy of a grid, reshaped into layers of rows, holds at every place what
/// the grid holds at the point.
pub proof fn lemma_layers<T: CellData>(
    grid: &Grid<T, Topology3d>,
    default_value: T,
    flat: GridFlat<T, Topology3d>,
    layers: Vec<Vec<Vec<T>>>,
    x: int,
    y: int,
    z: int,
)
    requires
        grid.wf(),
        crate::geometry::addressable(grid@.size()),
        call_ensures(Grid::<T, Topology3d>::flatten, (grid, default_value), flat),
        call_ensures(GridFlat::<T, Topology3d>::into_3d, (flat,), layers),
        0 <= x < grid@.size()[0],
        0 <= y < grid@.size()[1],
        0 <= z < grid@.size()[2],
    ensures
        layers@.len() == grid@.size()[2],
        layers@[z]@.len() == grid@.size()[1],
        layers@[z]@[y]@.len() == grid@.size()[0],
        layers@[z]@[y]@[x] == grid@.at(seq![x, y, z]),
        flat.values()[x + grid@.size()[0] * (y + grid@.size()[1] * z)] == grid@.at(seq![x, y, z]),
{
    grid.lemma_model();
    let size = grid@.size();
    Topology3d::lemma_constants();
    assert(size =~= seq![size[0], size[1], size[2]]);
    lemma_row_major(x, y, z, size[0], size[1], size[2]);
    let p = seq![x, y, z];
    assert(p[0] == x && p[1] == y && p[2] == z);
    assert(grid@.in_bounds(p));
    assert(flat.values()[linear(p, size)] == grid@.at(p));
    assert(layers@[z]@[y]@[x] == flat.value_at(x, y, z));
}

/// A preview shows the tree as it is: leaves with their values, and branches with
/// their children in slot order.
pub proof fn lemma_preview<T: CellData>(shown: GridPreviewCell<T>, tree: Tree<T>)
    requires
        shown.tree() == tree,
    ensures
        match shown {
            GridPreviewCell::Leaf(data) => tree == Tree::Leaf(data),
            GridPreviewCell::Branch(children) => {
                &&& tree is Branch
                &&& tree->Branch_0.len() == children@.len()
                &&& forall|i: int|
                    0 <= i < children@.len() ==> (#[trigger] children@[i]).tree()
                        == tree->Branch_0[i]
            },
        },
{
    match shown {
        GridPreviewCell::Leaf(data) => {},
        GridPreviewCell::Branch(children) => {
            assert forall|i: int| 0 <= i < children@.len() implies (
            #[trigger] children@[i]).tree() == tree->Branch_0[i] by {}
        },
    }
}

/// A region query finds exactly the leaves that share a point with the region.
pub proof fn lemma_region_leaves<T>(
    model: GridModel<T>,
    lo: Seq<int>,
    hi: Seq<int>,
    leaf: LeafCell<T>,
)
    requires
        model.valid(),
        lo.len() == model.dim(),
        hi.len() == model.dim(),
    ensures
        model.leaves().filter(touching(lo, hi)).contains(leaf) <==> model.leaves().contains(leaf)
            && exists|p: Seq<int>|
            p.len() == model.dim() && forall|a: int|
                0 <= a < model.dim() ==> lo[a] <= #[trigger] p[a] < hi[a] && leaf.cube.corner[a]
                    <= p[a] < leaf.cube.corner[a] + leaf.cube.size,
{
    let all = model.leaves();
    let t = touching::<T>(lo, hi);
    if all.contains(leaf) {
        lemma_grid_leaf(model, leaf);
        lemma_common_point(lo, hi, leaf.cube.corner, leaf.cube.size);
        if t(leaf) {
            let k = choose|k: int| 0 <= k < all.len() && all[k] == leaf;
            all.lemma_filter_contains(t, k);
        }
    }
    if all.filter(t).contains(leaf) {
        all.lemma_filter_contains_rev(t, leaf);
        let i = choose|i: int| 0 <= i < all.filter(t).len() && all.filter(t)[i] == leaf;
        all.lemma_filter_pred(t, i);
    }
}

/// After a branch at a depth that is a multiple of the interval, the cache is no
/// larger than its limit, unless the branch was merged away.
pub proof fn lemma_walk_trims<'g, Q: Quantizer>(
    rule: &Q,
    source: GridModel<Q::CellData>,
    cube: Cube,
    depth: nat,
    interval: int,
    limit: usize,
    kids: Seq<Tree<Q::CellData>>,
    out: Tree<Q::CellData>,
    before: Seq<GridSample<'g, Q::CellData, Q::Topology>>,
    after: Seq<GridSample<'g, Q::CellData, Q::Topology>>,
    n: int,
)
    requires
        interval >= 0,
        depth == n * interval,
        walked(
            rule,
            source,
            cube,
            depth,
            interval,
            limit,
            Tree::Branch(kids),
            out,
            before,
            after,
        ),
        out is Branch,
    ensures
        after.len() <= limit,
{
    lemma_trim_depths(depth as int, interval);
    assert(Tree::<Q::CellData>::Branch(kids)->Branch_0 == kids);
}

/// A walk over a branch visits its octants in slot order: each finds the cache as
/// the one before left it, and what came out for them is put together. What the
/// last one leaves stays, or its newest leaves if the cache is trimmed.
pub proof fn lemma_walk_steps<'g, Q: Quantizer>(
    rule: &Q,
    source: GridModel<Q::CellData>,
    cube: Cube,
    depth: nat,
    interval: int,
    limit: usize,
    kids: Seq<Tree<Q::CellData>>,
    out: Tree<Q::CellData>,
    before: Seq<GridSample<'g, Q::CellData, Q::Topology>>,
    after: Seq<GridSample<'g, Q::CellData, Q::Topology>>,
) -> (result: (
    Seq<Tree<Q::CellData>>,
    Seq<Seq<GridSample<'g, Q::CellData, Q::Topology>>>,
))
    requires
        interval >= 0,
        walked(
            rule,
            source,
            cube,
            depth,
            interval,
            limit,
            Tree::Branch(kids),
            out,
            before,
            after,
        ),
    ensures
        ({
            let (parts, steps) = result;
            &&& parts.len() == kids.len()
            &&& steps.len() == kids.len() + 1
            &&& steps[0] == before
            &&& forall|i: int|
                #![trigger parts[i]]
                0 <= i < kids.len() ==> walked(
                    rule,
                    source,
                    cube.octant(i),
                    depth + 1,
                    interval,
                    limit,
                    kids[i],
                    parts[i],
                    steps[i],
                    steps[i + 1],
                )
            &&& joined(rule, parts, out)
            &&& after.len() <= steps[kids.len() as int].len()
            &&& forall|j: int|
                0 <= j < after.len() ==> #[trigger] after[j] == steps[kids.len() as int][j
                    + steps[kids.len() as int].len() - after.len()]
            &&& after.len() < steps[kids.len() as int].len() ==> {
                &&& after.len() == limit
                &&& out is Branch
                &&& exists|n: int| #[trigger] (n * interval) == depth
            }
        }),
{
    assert(Tree::<Q::CellData>::Branch(kids)->Branch_0 == kids);
    lemma_trim_depths(depth as int, interval);
    choose|
        parts: Seq<Tree<Q::CellData>>,
        steps: Seq<Seq<GridSample<'g, Q::CellData, Q::Topology>>>,
    |
        {
            &&& parts.len() == kids.len()
            &&& #[trigger] steps.len() == kids.len() + 1
            &&& steps.first() == before
            &&& forall|i: int|
                #![trigger parts[i]]
                0 <= i < kids.len() ==> walked(
                    rule,
                    source,
                    cube.octant(i),
                    depth + 1,
                    interval,
                    limit,
                    kids[i],
                    parts[i],
                    steps[i],
                    steps[i + 1],
                )
            &&& #[trigger] joined(rule, parts, out)
            &&& after == (if !mergeable(parts) && trims_at(depth as int, interval) {
                trimmed(steps.last(), limit)
            } else {
                steps.last()
            })
        }
}

/// An adapter visits the parts of a cell in slot order: each finds the cache as the
/// one before left it.
pub proof fn lemma_refine_steps<'g, Q: Quantizer>(
    rule: &Q,
    source: GridModel<Q::CellData>,
    cube: Cube,
    depth: nat,
    data: Q::CellData,
    until: nat,
    limit: usize,
    before: Seq<GridSample<'g, Q::CellData, Q::Topology>>,
    after: Seq<GridSample<'g, Q::CellData, Q::Topology>>,
) -> (steps: Seq<Seq<GridSample<'g, Q::CellData, Q::Topology>>>)
    requires
        depth < until,
        refine_caches(rule, source, cube, depth, data, until, limit, before, after),
    ensures
        steps.len() == pow2(source.dim()) + 1,
        steps[0] == before,
        steps[steps.len() - 1] == after,
        forall|i: int|
            #![trigger steps[i]]
            0 <= i < steps.len() - 1 ==> refine_caches(
                rule,
                source,
                cube.octant(i),
                depth + 1,
                data,
                until,
                limit,
                steps[i],
                steps[i + 1],
            ),
{
    choose|steps: Seq<Seq<GridSample<'g, Q::CellData, Q::Topology>>>|
        {
            &&& #[trigger] steps.len() == source.fan() + 1
            &&& steps.first() == before
            &&& steps.last() == after
            &&& forall|i: int|
                #![trigger steps[i]]
                0 <= i < source.fan() ==> refine_caches(
                    rule,
                    source,
                    cube.octant(i),
                    depth + 1,
                    data,
                    until,
                    limit,
                    steps[i],
                    steps[i + 1],
                )
        }
}

/// A dense copy of a plane holds its rows one after the other.
pub proof fn lemma_rows<T: CellData>(
    grid: &Grid<T, Topology2d>,
    default_value: T,
    flat: GridFlat<T, Topology2d>,
    x: int,
    y: int,
)
    requires
        grid.wf(),
        crate::geometry::addressable(grid@.size()),
        call_ensures(Grid::<T, Topology2d>::flatten, (grid, default_value), flat),
        0 <= x < grid@.size()[0],
        0 <= y < grid@.size()[1],
    ensures
        flat.values().len() == grid@.size()[0] * grid@.size()[1],
        flat.values()[x + grid@.size()[0] * y] == grid@.at(seq![x, y]),
{
    grid.lemma_model();
    let size = grid@.size();
    Topology2d::lemma_constants();
    assert(size =~= seq![size[0], size[1]]);
    lemma_row_major(x, y, 0, size[0], size[1], 0);
    lemma_volume(size[0], size[1], 0);
    let p = seq![x, y];
    assert(p[0] == x && p[1] == y);
    assert(grid@.in_bounds(p));
    assert(flat.values()[linear(p, size)] == grid@.at(p));
}

/// Mapping a dense grid while reshaping it applies the function to the value of
/// each point, and puts the result in its layer, row and place.
pub proof fn lemma_mapped_layers<T: CellData, U, F: Fn(&T) -> U>(
    flat: GridFlat<T, Topology3d>,
    f: &F,
    layers: Vec<Vec<Vec<U>>>,
    g: spec_fn(T) -> U,
    x: int,
    y: int,
    z: int,
)
    requires
        flat.wf(),
        forall|i: int|
            0 <= i < flat.values().len() ==> call_requires(f, (&#[trigger] flat.values()[i],)),
        call_ensures(GridFlat::<T, Topology3d>::map_into_3d::<U, F>, (flat, f), layers),
        forall|value: &T, result: U| #[trigger]
            call_ensures(f, (value,), result) ==> result == g(*value),
        0 <= x < flat.extents()[0],
        0 <= y < flat.extents()[1],
        0 <= z < flat.extents()[2],
    ensures
        layers@.len() == flat.extents()[2],
        layers@[z]@.len() == flat.extents()[1],
        layers@[z]@[y]@.len() == flat.extents()[0],
        layers@[z]@[y]@[x] == g(
            flat.values()[x + flat.extents()[0] * (y + flat.extents()[1] * z)],
        ),
{
    Topology3d::lemma_constants();
    let size = flat.extents();
    assert(size =~= seq![size[0], size[1], size[2]]);
    lemma_row_major(x, y, z, size[0], size[1], size[2]);
    let result = layers@[z]@[y]@[x];
    assert(flat.value_at(x, y, z) == flat.values()[x + size[0] * (y + size[1] * z)]);
}

} // verus!
