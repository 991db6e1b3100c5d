//! What rules become when an adapter runs them on parts of a cell.
use crate::laws::normal::{is_cell, lemma_refined_normal, normal, yields_normal};
use crate::laws::resolution::{
    deepest, lemma_granularity, lemma_granularity_bound, lemma_granularity_points,
};
use crate::laws::room::{
    frugal, lemma_refine_frugal, lemma_refine_leaves_few, lemma_refine_tidy, lemma_steady_fits,
    lemma_steady_leaf, lemma_steady_parts, steady, tidy,
};
use crate::laws::values::{
    coarsens, lemma_refined_point, lemma_transformed_point, merges_within, part_at,
};
use crate::pipeline::{chunk_prefix, transformable, transformed, tree_fits};
use crate::quantizer::kernel::KernelQuantizer;
use crate::quantizer::neighbors::{margin_above, margin_below, NeighborsQuantizer};
use crate::quantizer::refine::refined;
use crate::quantizer::{may_merge, mergeable, settles, Quantizer};
use crate::tree::{
    full_nodes, larger, lemma_edge, lemma_grid_leaf, lemma_leaves_cover, sum_of, touching, Cube,
    GridModel, LeafCell, Tree,
};
use vstd::arithmetic::power2::pow2;
use vstd::prelude::*;

verus! {

/// The part of a cell at some depth that covers a point has the edge of that
/// depth.
pub proof fn lemma_part_at(cube: Cube, depth: nat, levels: nat, until: nat, p: Seq<int>)
    requires
        depth <= until <= depth + levels,
        cube.size == pow2(levels),
        cube.contains(p),
    ensures
        part_at(cube, depth, until, p).contains(p),
        part_at(cube, depth, until, p).size == pow2((depth + levels - until) as nat),
    decreases until - depth,
{
    if depth < until {
        lemma_edge(levels);
        cube.lemma_slot_of(p);
        lemma_part_at(
            cube.octant(cube.slot_of(p)),
            depth + 1,
            (levels - 1) as nat,
            until,
            p,
        );
    }
}

/// The kernel adapter merges as the wrapped rule does.
pub proof fn lemma_kernel_merges_within<Q: Quantizer>(
    kernel: &KernelQuantizer<Q>,
    same: spec_fn(Q::CellData, Q::CellData) -> bool,
)
    requires
        merges_within(&kernel.quantizer, same),
    ensures
        merges_within(kernel, same),
{
    assert forall|trees: Seq<Tree<Q::CellData>>, merged: Q::CellData|
        trees.len() > 0 && mergeable(trees) && #[trigger] may_merge(
            kernel,
            trees,
            merged,
        ) implies same(merged, trees[0]->Leaf_0) by {
        let values = choose|values: &[&Q::CellData]|
            {
                &&& values@.len() == trees.len()
                &&& forall|i: int|
                    0 <= i < trees.len() ==> *values@[i] == (#[trigger] trees[i])->Leaf_0
                &&& #[trigger] call_ensures(KernelQuantizer::<Q>::merge, (kernel, values), merged)
            };
        assert(call_ensures(Q::merge, (&kernel.quantizer, values), merged));
        assert(may_merge(&kernel.quantizer, trees, merged));
    }
}

/// The neighbourhood adapter merges as the wrapped rule does.
pub proof fn lemma_neighbors_merge_within<Q: Quantizer>(
    neighbors: &NeighborsQuantizer<Q>,
    same: spec_fn(Q::CellData, Q::CellData) -> bool,
)
    requires
        merges_within(&neighbors.quantizer, same),
    ensures
        merges_within(neighbors, same),
{
    assert forall|trees: Seq<Tree<Q::CellData>>, merged: Q::CellData|
        trees.len() > 0 && mergeable(trees) && #[trigger] may_merge(
            neighbors,
            trees,
            merged,
        ) implies same(merged, trees[0]->Leaf_0) by {
        let values = choose|values: &[&Q::CellData]|
            {
                &&& values@.len() == trees.len()
                &&& forall|i: int|
                    0 <= i < trees.len() ==> *values@[i] == (#[trigger] trees[i])->Leaf_0
                &&& #[trigger] call_ensures(
                    NeighborsQuantizer::<Q>::merge,
                    (neighbors, values),
                    merged,
                )
            };
        assert(call_ensures(Q::merge, (&neighbors.quantizer, values), merged));
        assert(may_merge(&neighbors.quantizer, trees, merged));
    }
}

/// A rule behind the kernel adapter sees unit cells: what the transformed grid
/// holds at a point is what the rule yields for the unit cell there.
pub proof fn lemma_kernel_point<Q: Quantizer>(
    kernel: &KernelQuantizer<Q>,
    source: GridModel<Q::CellData>,
    result: GridModel<Q::CellData>,
    same: spec_fn(Q::CellData, Q::CellData) -> bool,
    p: Seq<int>,
) -> (part: Tree<Q::CellData>)
    requires
        coarsens(same),
        merges_within(&kernel.quantizer, same),
        source.valid(),
        transformed(kernel, source, result),
        source.in_bounds(p),
    ensures
        kernel.quantizer.yields(
            source,
            (Cube { corner: p, size: 1 }),
            source.levels,
            source.at(p),
            part,
        ),
        same(
            result.at(p),
            part.leaf_at((Cube { corner: p, size: 1 }), source.levels, p).data,
        ),
{
    lemma_kernel_merges_within(kernel, same);
    let whole = lemma_transformed_point(kernel, source, result, same, p);
    let leaf = source.leaf_at(p);
    lemma_leaves_cover(source, p);
    let part = lemma_refined_point(
        &kernel.quantizer,
        source,
        leaf.cube,
        leaf.depth,
        leaf.data,
        source.levels,
        whole,
        same,
        p,
    );
    let unit = part_at(leaf.cube, leaf.depth, source.levels, p);
    lemma_part_at(
        leaf.cube,
        leaf.depth,
        (source.levels - leaf.depth) as nat,
        source.levels,
        p,
    );
    vstd::arithmetic::power2::lemma2_to64();
    assert(unit.corner =~= p);
    assert(unit == (Cube { corner: p, size: 1 }));
    let first = result.at(p);
    let second = whole.leaf_at(leaf.cube, leaf.depth, p).data;
    let third = part.leaf_at(unit, source.levels, p).data;
    assert(same(first, second) && same(second, third));
    part
}

/// The neighbourhood adapter subdivides a cell down to the depth of the finest
/// leaf in its neighbourhood, and leaves it whole where it is at least as fine.
pub proof fn lemma_neighbors_depth<Q: Quantizer>(
    neighbors: &NeighborsQuantizer<Q>,
    source: GridModel<Q::CellData>,
    cube: Cube,
    depth: nat,
)
    requires
        source.valid(),
        is_cell(source, cube, depth),
    ensures
        neighbors.desired_depth(source, cube, depth) == larger(
            deepest(
                source.leaves().filter(
                    touching(
                        margin_below(cube.corner, neighbors.margin()),
                        margin_above(cube.upper(), neighbors.margin()),
                    ),
                ),
            ),
            depth,
        ),
{
    let lo = margin_below(cube.corner, neighbors.margin());
    let hi = margin_above(cube.upper(), neighbors.margin());
    lemma_granularity(source, lo, hi);
    lemma_granularity_bound(source, lo, hi);
}

/// The neighbourhood of a cell is its box grown by `tile_margin` cells, and by at
/// least one, on every side. A rule behind the adapter runs on the parts of the
/// cell at a depth that no leaf of the neighbourhood exceeds, and which is either
/// the cell's own or that of a leaf of the neighbourhood.
pub proof fn lemma_neighborhood<Q: Quantizer>(
    neighbors: &NeighborsQuantizer<Q>,
    source: GridModel<Q::CellData>,
    cube: Cube,
    depth: nat,
    data: Q::CellData,
    out: Tree<Q::CellData>,
) -> (until: nat)
    requires
        source.valid(),
        forall|a: int| 0 <= a < source.dim() ==> #[trigger] source.size()[a] <= usize::MAX,
        is_cell(source, cube, depth),
        neighbors.yields(source, cube, depth, data, out),
    ensures
        depth <= until <= source.levels,
        refined(&neighbors.quantizer, source, cube, depth, data, until, out),
        until == neighbors.desired_depth(source, cube, depth),
        forall|leaf: LeafCell<Q::CellData>, q: Seq<int>|
            #![trigger source.leaves().contains(leaf), leaf.cube.contains(q)]
            {
                let reach = if neighbors.tile_margin == 0 {
                    1
                } else {
                    neighbors.tile_margin as int
                };
                &&& source.leaves().contains(leaf)
                &&& leaf.cube.contains(q)
                &&& forall|a: int|
                    0 <= a < q.len() ==> cube.corner[a] - reach <= #[trigger] q[a]
                        < cube.corner[a] + cube.size + reach
            } ==> leaf.depth <= until,
        until == depth || exists|leaf: LeafCell<Q::CellData>, q: Seq<int>|
            #![trigger source.leaves().contains(leaf), leaf.cube.contains(q)]
            {
                let reach = if neighbors.tile_margin == 0 {
                    1
                } else {
                    neighbors.tile_margin as int
                };
                &&& source.leaves().contains(leaf)
                &&& leaf.cube.contains(q)
                &&& forall|a: int|
                    0 <= a < q.len() ==> cube.corner[a] - reach <= #[trigger] q[a]
                        < cube.corner[a] + cube.size + reach
                &&& leaf.depth == until
            },
{
    let until = neighbors.desired_depth(source, cube, depth);
    let reach = neighbors.margin();
    let lo = margin_below(cube.corner, reach);
    let hi = margin_above(cube.upper(), reach);
    lemma_granularity_points(source, lo, hi);
    lemma_granularity_bound(source, lo, hi);
    assert forall|leaf: LeafCell<Q::CellData>, q: Seq<int>|
        #![trigger source.leaves().contains(leaf), leaf.cube.contains(q)]
        {
            &&& source.leaves().contains(leaf)
            &&& leaf.cube.contains(q)
            &&& forall|a: int|
                0 <= a < q.len() ==> cube.corner[a] - reach <= #[trigger] q[a] < cube.corner[a]
                    + cube.size + reach
        } implies leaf.depth <= until by {
        lemma_grid_leaf(source, leaf);
        assert forall|a: int| 0 <= a < q.len() implies lo[a] <= #[trigger] q[a] < hi[a] by {
            assert(leaf.cube.corner[a] <= q[a]);
            assert(source.size()[a] <= usize::MAX);
        }
    }
    if until != depth {
        let (leaf, q) = choose|leaf: LeafCell<Q::CellData>, q: Seq<int>|
            #![trigger source.leaves().contains(leaf), leaf.cube.contains(q)]
            {
                &&& source.leaves().contains(leaf)
                &&& leaf.cube.contains(q)
                &&& forall|a: int| 0 <= a < q.len() ==> lo[a] <= #[trigger] q[a] < hi[a]
                &&& leaf.depth == source.granularity(lo, hi)
            };
        lemma_grid_leaf(source, leaf);
        assert forall|a: int| 0 <= a < q.len() implies cube.corner[a] - reach <= #[trigger] q[a]
            < cube.corner[a] + cube.size + reach by {
            assert(lo[a] <= q[a] < hi[a]);
        }
    }
    until
}

/// A rule behind the neighbourhood adapter sees cells as fine as their
/// neighbourhood: what the transformed grid holds at a point is what the rule
/// yields for the cell there at the desired depth.
pub proof fn lemma_neighbors_point<Q: Quantizer>(
    neighbors: &NeighborsQuantizer<Q>,
    source: GridModel<Q::CellData>,
    result: GridModel<Q::CellData>,
    same: spec_fn(Q::CellData, Q::CellData) -> bool,
    p: Seq<int>,
) -> (part: Tree<Q::CellData>)
    requires
        coarsens(same),
        merges_within(&neighbors.quantizer, same),
        source.valid(),
        transformed(neighbors, source, result),
        source.in_bounds(p),
    ensures
        ({
            let leaf = source.leaf_at(p);
            let depth = neighbors.desired_depth(source, leaf.cube, leaf.depth);
            let cube = part_at(leaf.cube, leaf.depth, depth, p);
            &&& neighbors.quantizer.yields(source, cube, depth, leaf.data, part)
            &&& same(result.at(p), part.leaf_at(cube, depth, p).data)
        }),
{
    lemma_neighbors_merge_within(neighbors, same);
    let whole = lemma_transformed_point(neighbors, source, result, same, p);
    let leaf = source.leaf_at(p);
    lemma_leaves_cover(source, p);
    let depth = neighbors.desired_depth(source, leaf.cube, leaf.depth);
    lemma_granularity_bound(
        source,
        margin_below(leaf.cube.corner, neighbors.margin()),
        margin_above(leaf.cube.upper(), neighbors.margin()),
    );
    let part = lemma_refined_point(
        &neighbors.quantizer,
        source,
        leaf.cube,
        leaf.depth,
        leaf.data,
        depth,
        whole,
        same,
        p,
    );
    let cube = part_at(leaf.cube, leaf.depth, depth, p);
    let first = result.at(p);
    let second = whole.leaf_at(leaf.cube, leaf.depth, p).data;
    let third = part.leaf_at(cube, depth, p).data;
    assert(same(first, second) && same(second, third));
    part
}

/// The kernel adapter yields the normal form, if the wrapped rule does.
pub proof fn lemma_kernel_normal<Q: Quantizer>(
    kernel: &KernelQuantizer<Q>,
    source: GridModel<Q::CellData>,
)
    requires
        yields_normal(&kernel.quantizer, source),
    ensures
        yields_normal(kernel, source),
{
    assert forall|cube: Cube, depth: nat, data: Q::CellData, out: Tree<Q::CellData>|
        is_cell(source, cube, depth) && #[trigger] kernel.yields(
            source,
            cube,
            depth,
            data,
            out,
        ) implies normal(out) by {
        lemma_refined_normal(
            &kernel.quantizer,
            source,
            cube,
            depth,
            data,
            source.levels,
            out,
        );
    }
}

/// The neighbourhood adapter yields the normal form, if the wrapped rule does.
pub proof fn lemma_neighbors_normal<Q: Quantizer>(
    neighbors: &NeighborsQuantizer<Q>,
    source: GridModel<Q::CellData>,
)
    requires
        source.valid(),
        yields_normal(&neighbors.quantizer, source),
    ensures
        yields_normal(neighbors, source),
{
    assert forall|cube: Cube, depth: nat, data: Q::CellData, out: Tree<Q::CellData>|
        is_cell(source, cube, depth) && #[trigger] neighbors.yields(
            source,
            cube,
            depth,
            data,
            out,
        ) implies normal(out) by {
        lemma_granularity_bound(
            source,
            margin_below(cube.corner, neighbors.margin()),
            margin_above(cube.upper(), neighbors.margin()),
        );
        lemma_refined_normal(
            &neighbors.quantizer,
            source,
            cube,
            depth,
            data,
            neighbors.desired_depth(source, cube, depth),
            out,
        );
    }
}

/// The kernel adapter is frugal, if the wrapped rule is.
pub proof fn lemma_kernel_frugal<Q: Quantizer>(
    kernel: &KernelQuantizer<Q>,
    source: GridModel<Q::CellData>,
)
    requires
        frugal(&kernel.quantizer, source),
    ensures
        frugal(kernel, source),
{
    assert forall|cube: Cube, depth: nat, data: Q::CellData, room: int|
        is_cell(source, cube, depth) && full_nodes(source.fan(), (source.levels - depth) as nat)
            <= room implies #[trigger] kernel.fits(source, cube, depth, data, room) by {
        lemma_refine_frugal(
            &kernel.quantizer,
            source,
            cube,
            depth,
            data,
            source.levels,
            room,
        );
    }
    assert forall|
        cube: Cube,
        depth: nat,
        data: Q::CellData,
        out: Tree<Q::CellData>,
        cells: nat,
    |
        is_cell(source, cube, depth) && #[trigger] settles(
            kernel,
            source,
            cube,
            depth,
            data,
            out,
            cells,
        ) implies cells <= full_nodes(source.fan(), (source.levels - depth) as nat) by {
        lemma_refine_leaves_few(
            &kernel.quantizer,
            source,
            cube,
            depth,
            data,
            source.levels,
            out,
            cells,
        );
    }
}

/// The neighbourhood adapter is frugal, if the wrapped rule is.
pub proof fn lemma_neighbors_frugal<Q: Quantizer>(
    neighbors: &NeighborsQuantizer<Q>,
    source: GridModel<Q::CellData>,
)
    requires
        source.valid(),
        frugal(&neighbors.quantizer, source),
    ensures
        frugal(neighbors, source),
{
    assert forall|cube: Cube, depth: nat, data: Q::CellData, room: int|
        is_cell(source, cube, depth) && full_nodes(source.fan(), (source.levels - depth) as nat)
            <= room implies #[trigger] neighbors.fits(source, cube, depth, data, room) by {
        lemma_granularity_bound(
            source,
            margin_below(cube.corner, neighbors.margin()),
            margin_above(cube.upper(), neighbors.margin()),
        );
        lemma_refine_frugal(
            &neighbors.quantizer,
            source,
            cube,
            depth,
            data,
            neighbors.desired_depth(source, cube, depth),
            room,
        );
    }
    assert forall|
        cube: Cube,
        depth: nat,
        data: Q::CellData,
        out: Tree<Q::CellData>,
        cells: nat,
    |
        is_cell(source, cube, depth) && #[trigger] settles(
            neighbors,
            source,
            cube,
            depth,
            data,
            out,
            cells,
        ) implies cells <= full_nodes(source.fan(), (source.levels - depth) as nat) by {
        lemma_granularity_bound(
            source,
            margin_below(cube.corner, neighbors.margin()),
            margin_above(cube.upper(), neighbors.margin()),
        );
        lemma_refine_leaves_few(
            &neighbors.quantizer,
            source,
            cube,
            depth,
            data,
            neighbors.desired_depth(source, cube, depth),
            out,
            cells,
        );
    }
}

/// Over a uniform grid, a rule behind the kernel adapter that yields homogeneous
/// leaves takes room for one cell per chunk and for one path of subdivision, not
/// for all the unit cells it visits.
pub proof fn lemma_kernel_steady_room<Q: Quantizer>(
    kernel: &KernelQuantizer<Q>,
    source: GridModel<Q::CellData>,
    data: Q::CellData,
    class: spec_fn(Q::CellData) -> bool,
    room: int,
)
    requires
        steady(&kernel.quantizer, source, data, class),
        forall|k: int|
            0 <= k < source.chunks.len() ==> #[trigger] source.chunks[k] == Tree::Leaf(data),
        source.chunks.len() + (source.fan() - 1) * source.levels <= room,
    ensures
        transformable(kernel, source, room),
{
    assert forall|parts: Seq<Tree<Q::CellData>>, counts: Seq<nat>| #[trigger]
        chunk_prefix(kernel, source, parts, counts) && parts.len() < source.chunks.len() implies
        tree_fits(
        kernel,
        source,
        source.chunk_cube(parts.len() as int),
        0,
        source.chunks[parts.len() as int],
        room - sum_of(counts),
    ) by {
        assert forall|k: int| 0 <= k < parts.len() implies (#[trigger] parts[k]) is Leaf && class(
            parts[k]->Leaf_0,
        ) && counts[k] == 1 by {
            let cube = source.chunk_cube(k);
            assert(source.chunks[k] == Tree::Leaf(data));
            assert(settles(kernel, source, cube, 0, data, parts[k], counts[k]));
            lemma_steady_leaf(
                &kernel.quantizer,
                source,
                cube,
                0,
                data,
                source.levels,
                class,
                parts[k],
                counts[k],
            );
        }
        lemma_steady_parts(parts, counts, class);
        let n = parts.len() as int;
        assert(source.chunks[n] == Tree::Leaf(data));
        lemma_steady_fits(
            &kernel.quantizer,
            source,
            source.chunk_cube(n),
            0,
            data,
            source.levels,
            class,
            room - sum_of(counts),
        );
    }
}

/// The kernel adapter is tidy, if the wrapped rule is.
pub proof fn lemma_kernel_tidy<Q: Quantizer>(
    kernel: &KernelQuantizer<Q>,
    source: GridModel<Q::CellData>,
)
    requires
        tidy(&kernel.quantizer, source),
    ensures
        tidy(kernel, source),
{
    assert forall|
        cube: Cube,
        depth: nat,
        data: Q::CellData,
        out: Tree<Q::CellData>,
        cells: nat,
    | #[trigger]
        settles(kernel, source, cube, depth, data, out, cells) implies cells == out.nodes() by {
        lemma_refine_tidy(
            &kernel.quantizer,
            source,
            cube,
            depth,
            data,
            source.levels,
            out,
            cells,
        );
    }
}

/// The neighbourhood adapter is tidy, if the wrapped rule is.
pub proof fn lemma_neighbors_tidy<Q: Quantizer>(
    neighbors: &NeighborsQuantizer<Q>,
    source: GridModel<Q::CellData>,
)
    requires
        tidy(&neighbors.quantizer, source),
    ensures
        tidy(neighbors, source),
{
    assert forall|
        cube: Cube,
        depth: nat,
        data: Q::CellData,
        out: Tree<Q::CellData>,
        cells: nat,
    | #[trigger]
        settles(neighbors, source, cube, depth, data, out, cells) implies cells == out.nodes() by {
        lemma_refine_tidy(
            &neighbors.quantizer,
            source,
            cube,
            depth,
            data,
            neighbors.desired_depth(source, cube, depth),
            out,
            cells,
        );
    }
}

} // verus!
