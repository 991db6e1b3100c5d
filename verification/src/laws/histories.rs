//! What a result does not depend on.
//!
//! The contracts of transformations do not speak of the sampler's cache. So
//! neither the cache limit nor the interval at which the cache is trimmed shows
//! in a result that is determined at all.
use crate::changes::Changes;
use crate::grid::{CellData, GridSample};
use crate::laws::normal::is_cell;
use crate::laws::resolution::lemma_granularity_bound;
use crate::pipeline::{derives, transformed};
use crate::quantizer::kernel::KernelQuantizer;
use crate::quantizer::neighbors::{margin_above, margin_below, NeighborsQuantizer};
use crate::quantizer::refine::refined;
use crate::quantizer::{joined, may_merge, mergeable, Quantizer};
use crate::topology::Topology;
use crate::tree::{lemma_edge, Cube, GridModel, Tree};
use vstd::prelude::*;

verus! {

/// Whatever either rule yields for a cell, or merges leaves to, is what the other
/// does. A rule that agrees with itself allows one outcome only.
pub open spec fn agree<Q: Quantizer>(left: &Q, right: &Q, source: GridModel<Q::CellData>) -> bool {
    &&& forall|
        cube: Cube,
        depth: nat,
        data: Q::CellData,
        a: Tree<Q::CellData>,
        b: Tree<Q::CellData>,
    |
        is_cell(source, cube, depth) && #[trigger] left.yields(source, cube, depth, data, a)
            && #[trigger] right.yields(source, cube, depth, data, b) ==> a == b
    &&& forall|trees: Seq<Tree<Q::CellData>>, a: Q::CellData, b: Q::CellData|
        trees.len() > 0 && mergeable(trees) && #[trigger] may_merge(left, trees, a)
            && #[trigger] may_merge(right, trees, b) ==> a == b
}

/// Rules that agree make the same of a tree.
pub proof fn lemma_derived_same<Q: Quantizer>(
    left: &Q,
    right: &Q,
    source: GridModel<Q::CellData>,
    cube: Cube,
    depth: nat,
    tree: Tree<Q::CellData>,
    a: Tree<Q::CellData>,
    b: Tree<Q::CellData>,
)
    requires
        agree(left, right, source),
        is_cell(source, cube, depth),
        tree.shaped(source.fan(), (source.levels - depth) as nat),
        derives(left, source, cube, depth, tree, a),
        derives(right, source, cube, depth, tree, b),
    ensures
        a == b,
    decreases source.levels - depth,
{
    match tree {
        Tree::Leaf(data) => {
            assert(left.yields(source, cube, depth, data, a));
            assert(right.yields(source, cube, depth, data, b));
        },
        Tree::Branch(kids) => {
            let parts = choose|parts: Seq<Tree<Q::CellData>>|
                {
                    &&& parts.len() == kids.len()
                    &&& forall|i: int|
                        0 <= i < kids.len() ==> derives(
                            left,
                            source,
                            cube.octant(i),
                            depth + 1,
                            kids[i],
                            #[trigger] parts[i],
                        )
                    &&& #[trigger] joined(left, parts, a)
                };
            let others = choose|others: Seq<Tree<Q::CellData>>|
                {
                    &&& others.len() == kids.len()
                    &&& forall|i: int|
                        0 <= i < kids.len() ==> derives(
                            right,
                            source,
                            cube.octant(i),
                            depth + 1,
                            kids[i],
                            #[trigger] others[i],
                        )
                    &&& #[trigger] joined(right, others, b)
                };
            lemma_edge((source.levels - depth) as nat);
            vstd::arithmetic::power2::lemma_pow2_pos(source.dim());
            assert forall|i: int| 0 <= i < kids.len() implies parts[i] == others[i] by {
                assert(derives(left, source, cube.octant(i), depth + 1, kids[i], parts[i]));
                assert(derives(right, source, cube.octant(i), depth + 1, kids[i], others[i]));
                assert(kids[i].shaped(source.fan(), (source.levels - depth - 1) as nat));
                lemma_derived_same(
                    left,
                    right,
                    source,
                    cube.octant(i),
                    depth + 1,
                    kids[i],
                    parts[i],
                    others[i],
                );
            }
            assert(parts =~= others);
            if mergeable(parts) {
                assert(may_merge(left, parts, a->Leaf_0));
                assert(may_merge(right, parts, b->Leaf_0));
            }
        },
    }
}

/// Rules that agree make the same of a grid.
pub proof fn lemma_transformed_same<Q: Quantizer>(
    left: &Q,
    right: &Q,
    source: GridModel<Q::CellData>,
    a: GridModel<Q::CellData>,
    b: GridModel<Q::CellData>,
)
    requires
        agree(left, right, source),
        source.valid(),
        transformed(left, source, a),
        transformed(right, source, b),
    ensures
        a == b,
{
    assert forall|k: int| 0 <= k < a.chunks.len() implies a.chunks[k] == b.chunks[k] by {
        assert(source.chunks[k].shaped(source.fan(), source.levels));
        assert(derives(left, source, source.chunk_cube(k), 0, source.chunks[k], a.chunks[k]));
        assert(derives(right, source, source.chunk_cube(k), 0, source.chunks[k], b.chunks[k]));
        lemma_derived_same(
            left,
            right,
            source,
            source.chunk_cube(k),
            0,
            source.chunks[k],
            a.chunks[k],
            b.chunks[k],
        );
    }
    assert(a.chunks =~= b.chunks);
}

/// A rule that allows one outcome only has one result for a grid: two runs over
/// it, whatever the interval at which each trims its cache, give the same grid.
pub proof fn lemma_one_result<Q: Quantizer>(
    rule: &Q,
    source: GridModel<Q::CellData>,
    a: GridModel<Q::CellData>,
    b: GridModel<Q::CellData>,
)
    requires
        agree(rule, rule, source),
        source.valid(),
        transformed(rule, source, a),
        transformed(rule, source, b),
    ensures
        a == b,
{
    lemma_transformed_same(rule, rule, source, a, b);
}

/// Rules that agree make the same of the parts of a cell.
pub proof fn lemma_refined_same<Q: Quantizer>(
    left: &Q,
    right: &Q,
    source: GridModel<Q::CellData>,
    cube: Cube,
    depth: nat,
    data: Q::CellData,
    until: nat,
    a: Tree<Q::CellData>,
    b: Tree<Q::CellData>,
)
    requires
        agree(left, right, source),
        is_cell(source, cube, depth),
        until <= source.levels,
        refined(left, source, cube, depth, data, until, a),
        refined(right, source, cube, depth, data, until, b),
    ensures
        a == b,
    decreases until - depth,
{
    if depth >= until {
        assert(left.yields(source, cube, depth, data, a));
        assert(right.yields(source, cube, depth, data, b));
    } else {
        let parts = choose|parts: Seq<Tree<Q::CellData>>|
            {
                &&& parts.len() == source.fan()
                &&& forall|i: int|
                    0 <= i < parts.len() ==> refined(
                        left,
                        source,
                        cube.octant(i),
                        depth + 1,
                        data,
                        until,
                        #[trigger] parts[i],
                    )
                &&& #[trigger] joined(left, parts, a)
            };
        let others = choose|others: Seq<Tree<Q::CellData>>|
            {
                &&& others.len() == source.fan()
                &&& forall|i: int|
                    0 <= i < others.len() ==> refined(
                        right,
                        source,
                        cube.octant(i),
                        depth + 1,
                        data,
                        until,
                        #[trigger] others[i],
                    )
                &&& #[trigger] joined(right, others, b)
            };
        lemma_edge((source.levels - depth) as nat);
        vstd::arithmetic::power2::lemma_pow2_pos(source.dim());
        assert forall|i: int| 0 <= i < parts.len() implies parts[i] == others[i] by {
            assert(refined(left, source, cube.octant(i), depth + 1, data, until, parts[i]));
            assert(refined(right, source, cube.octant(i), depth + 1, data, until, others[i]));
            lemma_refined_same(
                left,
                right,
                source,
                cube.octant(i),
                depth + 1,
                data,
                until,
                parts[i],
                others[i],
            );
        }
        assert(parts =~= others);
        if mergeable(parts) {
            assert(may_merge(left, parts, a->Leaf_0));
            assert(may_merge(right, parts, b->Leaf_0));
        }
    }
}

/// The kernel adapter allows one outcome only, if the wrapped rule does.
pub proof fn lemma_kernel_agrees<Q: Quantizer>(
    kernel: &KernelQuantizer<Q>,
    source: GridModel<Q::CellData>,
)
    requires
        agree(&kernel.quantizer, &kernel.quantizer, source),
    ensures
        agree(kernel, kernel, source),
{
    let rule = &kernel.quantizer;
    assert forall|
        cube: Cube,
        depth: nat,
        data: Q::CellData,
        a: Tree<Q::CellData>,
        b: Tree<Q::CellData>,
    |
        is_cell(source, cube, depth) && #[trigger] kernel.yields(source, cube, depth, data, a)
            && #[trigger] kernel.yields(source, cube, depth, data, b) implies a == b by {
        lemma_refined_same(rule, rule, source, cube, depth, data, source.levels, a, b);
    }
    assert forall|trees: Seq<Tree<Q::CellData>>, merged: Q::CellData| #[trigger]
        may_merge(kernel, trees, merged) implies may_merge(rule, trees, merged) by {
        let values = choose|values: &[&Q::CellData]|
            {
                &&& values@.len() == trees.len()
                &&& forall|i: int|
                    0 <= i < trees.len() ==> *values@[i] == (#[trigger] trees[i])->Leaf_0
                &&& #[trigger] call_ensures(KernelQuantizer::<Q>::merge, (kernel, values), merged)
            };
        assert(call_ensures(Q::merge, (rule, values), merged));
    }
}

/// The neighbourhood adapter allows one outcome only, if the wrapped rule does.
pub proof fn lemma_neighbors_agree<Q: Quantizer>(
    neighbors: &NeighborsQuantizer<Q>,
    source: GridModel<Q::CellData>,
)
    requires
        source.valid(),
        agree(&neighbors.quantizer, &neighbors.quantizer, source),
    ensures
        agree(neighbors, neighbors, source),
{
    let rule = &neighbors.quantizer;
    assert forall|
        cube: Cube,
        depth: nat,
        data: Q::CellData,
        a: Tree<Q::CellData>,
        b: Tree<Q::CellData>,
    |
        is_cell(source, cube, depth) && #[trigger] neighbors.yields(source, cube, depth, data, a)
            && #[trigger] neighbors.yields(source, cube, depth, data, b) implies a == b by {
        let until = neighbors.desired_depth(source, cube, depth);
        lemma_granularity_bound(
            source,
            margin_below(cube.corner, neighbors.margin()),
            margin_above(cube.upper(), neighbors.margin()),
        );
        lemma_refined_same(rule, rule, source, cube, depth, data, until, a, b);
    }
    assert forall|trees: Seq<Tree<Q::CellData>>, merged: Q::CellData| #[trigger]
        may_merge(neighbors, trees, merged) implies may_merge(rule, trees, merged) by {
        let values = choose|values: &[&Q::CellData]|
            {
                &&& values@.len() == trees.len()
                &&& forall|i: int|
                    0 <= i < trees.len() ==> *values@[i] == (#[trigger] trees[i])->Leaf_0
                &&& #[trigger] call_ensures(
                    NeighborsQuantizer::<Q>::merge,
                    (neighbors, values),
                    merged,
                )
            };
        assert(call_ensures(Q::merge, (rule, values), merged));
    }
}

/// Change sets that stage the same edits agree.
pub proof fn lemma_edits_agree<T: CellData, Topo: Topology>(
    left: &Changes<T, Topo>,
    right: &Changes<T, Topo>,
    source: GridModel<T>,
)
    requires
        left@ == right@,
    ensures
        agree(left, right, source),
{
    assert forall|trees: Seq<Tree<T>>, a: T, b: T|
        trees.len() > 0 && mergeable(trees) && #[trigger] may_merge(left, trees, a)
            && #[trigger] may_merge(right, trees, b) implies a == b by {
        assert(trees[0] is Leaf);
    }
}

/// Applying the same edits to grids with equal models, whatever their settings,
/// gives grids with equal models.
pub proof fn lemma_applied_same<T: CellData, Topo: Topology>(
    left: &Changes<T, Topo>,
    right: &Changes<T, Topo>,
    source: GridModel<T>,
    a: GridModel<T>,
    b: GridModel<T>,
)
    requires
        left@ == right@,
        source.valid(),
        transformed(left, source, a),
        transformed(right, source, b),
    ensures
        a == b,
{
    lemma_edits_agree(left, right, source);
    lemma_transformed_same(left, right, source, a, b);
}

/// Samples of one leaf are the same in all their parts. Since a sample shows the
/// leaf of the grid's model that covers the point, samplers over grids with equal
/// models give equal samples, whatever is in their caches.
pub proof fn lemma_same_sample<'a, 'b, T: CellData, Topo: Topology>(
    left: GridSample<'a, T, Topo>,
    right: GridSample<'b, T, Topo>,
)
    requires
        left@ == right@,
    ensures
        left.offset == right.offset,
        left.depth == right.depth,
        left.size == right.size,
        *left.data == *right.data,
{
    Topo::lemma_point_injective(left.offset, right.offset);
}

} // verus!
