//! What a transformation leaves at a point.
//!
//! Merging replaces values by homogeneous ones, so what comes out of a
//! transformation is exact only up to homogeneity. Laws about values are
//! therefore stated for an arbitrary equivalence that homogeneous values are
//! in. Where homogeneous values are equal, equality is such an equivalence.
use crate::changes::apply::{edited, lemma_cube_points};
use crate::changes::{alike, resolved, resolved_values, Changes};
use crate::geometry::{box_points, in_box, lemma_box_points, lemma_box_points_at, rank};
use crate::grid::CellData;
use crate::pipeline::{derives, transformed};
use crate::quantizer::refine::refined;
use crate::quantizer::{joined, may_merge, mergeable, Quantizer};
use crate::topology::Topology;
use crate::tree::{lemma_edge, lemma_leaves_cover, Cube, GridModel, Tree};
use vstd::arithmetic::power2::{lemma_pow2_pos, pow2};
use vstd::prelude::*;

verus! {

/// `same` is an equivalence, and homogeneous values are in it.
pub open spec fn coarsens<T: CellData>(same: spec_fn(T, T) -> bool) -> bool {
    &&& forall|a: T| #[trigger] same(a, a)
    &&& forall|a: T, b: T| #[trigger] same(a, b) ==> same(b, a)
    &&& forall|a: T, b: T, c: T| #[trigger] same(a, b) && #[trigger] same(b, c) ==> same(a, c)
    &&& forall|a: T, b: T| #[trigger] a.homogeneous(&b) ==> same(a, b)
}

/// The rule merges homogeneous leaves to a value in the same class.
pub open spec fn merges_within<Q: Quantizer>(
    rule: &Q,
    same: spec_fn(Q::CellData, Q::CellData) -> bool,
) -> bool {
    forall|trees: Seq<Tree<Q::CellData>>, merged: Q::CellData|
        trees.len() > 0 && mergeable(trees) && #[trigger] may_merge(rule, trees, merged) ==> same(
            merged,
            trees[0]->Leaf_0,
        )
}

/// Every leaf that applying edits to a cell produces holds, or is homogeneous
/// with, what is staged at each of its points, or else what the cell held.
pub proof fn lemma_edited_leaf<T: CellData>(
    staged: Map<Seq<int>, T>,
    cube: Cube,
    depth: nat,
    levels: nat,
    data: T,
    p: Seq<int>,
)
    requires
        cube.size == pow2(levels),
        cube.contains(p),
    ensures
        ({
            let value = edited(staged, cube, levels, data).leaf_at(cube, depth, p).data;
            let wanted = if staged.contains_key(p) {
                staged[p]
            } else {
                data
            };
            value == wanted || value.homogeneous(&wanted)
        }),
    decreases levels,
{
    let values = resolved_values(staged, cube.corner, cube.upper(), data);
    lemma_pow2_pos(levels);
    if levels == 0 || alike(values) {
        lemma_cube_points(cube);
        vstd::arithmetic::power2::lemma2_to64();
        assert(in_box(p, cube.corner, cube.upper()));
        lemma_box_points(p, cube.corner, cube.upper());
        let k = rank(p, cube.corner, cube.upper());
        assert(values[k] == resolved(staged, p, data));
        assert(alike(values));
        if k < values.len() - 1 {
            assert(values[values.len() - 1].homogeneous(&values[k]));
        }
    } else {
        lemma_edge(levels);
        cube.lemma_slot_of(p);
        let slot = cube.slot_of(p);
        lemma_edited_leaf(staged, cube.octant(slot), depth + 1, (levels - 1) as nat, data, p);
    }
}

/// What applying edits to a cell leaves at a point is what is staged there, or
/// else what the cell held.
pub proof fn lemma_edited_point<T: CellData>(
    staged: Map<Seq<int>, T>,
    cube: Cube,
    depth: nat,
    levels: nat,
    data: T,
    same: spec_fn(T, T) -> bool,
    p: Seq<int>,
)
    requires
        coarsens(same),
        cube.size == pow2(levels),
        cube.contains(p),
    ensures
        same(
            edited(staged, cube, levels, data).leaf_at(cube, depth, p).data,
            if staged.contains_key(p) {
                staged[p]
            } else {
                data
            },
        ),
{
    lemma_edited_leaf(staged, cube, depth, levels, data, p);
    let value = edited(staged, cube, levels, data).leaf_at(cube, depth, p).data;
    assert(same(value, value));
}

/// A cell that no edit reaches stays a single leaf.
pub proof fn lemma_untouched<T: CellData>(
    staged: Map<Seq<int>, T>,
    cube: Cube,
    levels: nat,
    data: T,
)
    requires
        cube.size == pow2(levels),
        levels > 0 ==> data.homogeneous(&data),
        forall|p: Seq<int>| cube.contains(p) ==> !#[trigger] staged.contains_key(p),
    ensures
        edited(staged, cube, levels, data) == Tree::Leaf(data),
{
    let values = resolved_values(staged, cube.corner, cube.upper(), data);
    lemma_pow2_pos(levels);
    lemma_cube_points(cube);
    assert forall|k: int| 0 <= k < values.len() implies #[trigger] values[k] == data by {
        lemma_box_points_at(k, cube.corner, cube.upper());
        assert(cube.contains(box_points(cube.corner, cube.upper())[k]));
    }
    vstd::arithmetic::power2::lemma2_to64();
    assert(alike(values));
}

/// The cube at depth `until` that covers `p`, below a cell that covers `cube`.
pub open spec fn part_at(cube: Cube, depth: nat, until: nat, p: Seq<int>) -> Cube
    decreases until - depth,
{
    if depth >= until {
        cube
    } else {
        part_at(cube.octant(cube.slot_of(p)), depth + 1, until, p)
    }
}

/// What putting parts together leaves at a point is what the part there left.
proof fn lemma_joined_point<Q: Quantizer>(
    rule: &Q,
    parts: Seq<Tree<Q::CellData>>,
    out: Tree<Q::CellData>,
    cube: Cube,
    depth: nat,
    same: spec_fn(Q::CellData, Q::CellData) -> bool,
    p: Seq<int>,
)
    requires
        coarsens(same),
        merges_within(rule, same),
        joined(rule, parts, out),
        0 <= cube.slot_of(p) < parts.len(),
    ensures
        same(
            out.leaf_at(cube, depth, p).data,
            parts[cube.slot_of(p)].leaf_at(cube.octant(cube.slot_of(p)), depth + 1, p).data,
        ),
{
    let slot = cube.slot_of(p);
    if mergeable(parts) {
        let merged = out->Leaf_0;
        assert(may_merge(rule, parts, merged));
        assert(same(merged, parts[0]->Leaf_0));
        assert(parts[slot] is Leaf);
        if slot > 0 {
            assert(parts[0]->Leaf_0.homogeneous(&parts[slot]->Leaf_0));
            assert(same(parts[0]->Leaf_0, parts[slot]->Leaf_0));
        }
    } else {
        let part = parts[slot].leaf_at(cube.octant(slot), depth + 1, p).data;
        assert(same(part, part));
    }
}

/// What running a rule on the parts of a cell leaves at a point is what the rule
/// yields for the part there.
pub proof fn lemma_refined_point<Q: Quantizer>(
    rule: &Q,
    source: GridModel<Q::CellData>,
    cube: Cube,
    depth: nat,
    data: Q::CellData,
    until: nat,
    out: Tree<Q::CellData>,
    same: spec_fn(Q::CellData, Q::CellData) -> bool,
    p: Seq<int>,
) -> (part: Tree<Q::CellData>)
    requires
        coarsens(same),
        merges_within(rule, same),
        depth <= until <= source.levels,
        source.dim() == cube.dim(),
        cube.size == pow2((source.levels - depth) as nat),
        cube.contains(p),
        refined(rule, source, cube, depth, data, until, out),
    ensures
        rule.yields(source, part_at(cube, depth, until, p), until, data, part),
        same(
            out.leaf_at(cube, depth, p).data,
            part.leaf_at(part_at(cube, depth, until, p), until, p).data,
        ),
    decreases until - depth,
{
    if depth >= until {
        let here = out.leaf_at(cube, depth, p).data;
        assert(same(here, here));
        out
    } else {
        let parts = choose|parts: Seq<Tree<Q::CellData>>|
            {
                &&& parts.len() == source.fan()
                &&& forall|i: int|
                    0 <= i < parts.len() ==> refined(
                        rule,
                        source,
                        cube.octant(i),
                        depth + 1,
                        data,
                        until,
                        #[trigger] parts[i],
                    )
                &&& #[trigger] joined(rule, parts, out)
            };
        lemma_edge((source.levels - depth) as nat);
        cube.lemma_slot_of(p);
        let slot = cube.slot_of(p);
        lemma_joined_point(rule, parts, out, cube, depth, same, p);
        assert(refined(rule, source, cube.octant(slot), depth + 1, data, until, parts[slot]));
        lemma_refined_point(
            rule,
            source,
            cube.octant(slot),
            depth + 1,
            data,
            until,
            parts[slot],
            same,
            p,
        )
    }
}

/// What a rule leaves at a point of a tree is what it yields for the leaf there.
pub proof fn lemma_derived_point<Q: Quantizer>(
    rule: &Q,
    source: GridModel<Q::CellData>,
    cube: Cube,
    depth: nat,
    levels: nat,
    tree: Tree<Q::CellData>,
    out: Tree<Q::CellData>,
    same: spec_fn(Q::CellData, Q::CellData) -> bool,
    p: Seq<int>,
) -> (part: Tree<Q::CellData>)
    requires
        coarsens(same),
        merges_within(rule, same),
        tree.shaped(pow2(cube.dim()), levels),
        cube.size == pow2(levels),
        cube.contains(p),
        derives(rule, source, cube, depth, tree, out),
    ensures
        ({
            let leaf = tree.leaf_at(cube, depth, p);
            &&& rule.yields(source, leaf.cube, leaf.depth, leaf.data, part)
            &&& same(
                out.leaf_at(cube, depth, p).data,
                part.leaf_at(leaf.cube, leaf.depth, p).data,
            )
        }),
    decreases levels,
{
    match tree {
        Tree::Leaf(data) => {
            let here = out.leaf_at(cube, depth, p).data;
            assert(same(here, here));
            out
        },
        Tree::Branch(kids) => {
            let parts = choose|parts: Seq<Tree<Q::CellData>>|
                {
                    &&& parts.len() == kids.len()
                    &&& forall|i: int|
                        0 <= i < kids.len() ==> derives(
                            rule,
                            source,
                            cube.octant(i),
                            depth + 1,
                            kids[i],
                            #[trigger] parts[i],
                        )
                    &&& #[trigger] joined(rule, parts, out)
                };
            lemma_edge(levels);
            cube.lemma_slot_of(p);
            let slot = cube.slot_of(p);
            lemma_joined_point(rule, parts, out, cube, depth, same, p);
            assert(derives(rule, source, cube.octant(slot), depth + 1, kids[slot], parts[slot]));
            assert(kids[slot].shaped(pow2(cube.dim()), (levels - 1) as nat));
            lemma_derived_point(
                rule,
                source,
                cube.octant(slot),
                depth + 1,
                (levels - 1) as nat,
                kids[slot],
                parts[slot],
                same,
                p,
            )
        },
    }
}

/// What a transformed grid holds at a point is what the rule yields for the leaf
/// of the source grid that covers the point.
pub proof fn lemma_transformed_point<Q: Quantizer>(
    rule: &Q,
    source: GridModel<Q::CellData>,
    result: GridModel<Q::CellData>,
    same: spec_fn(Q::CellData, Q::CellData) -> bool,
    p: Seq<int>,
) -> (part: Tree<Q::CellData>)
    requires
        coarsens(same),
        merges_within(rule, same),
        source.valid(),
        transformed(rule, source, result),
        source.in_bounds(p),
    ensures
        ({
            let leaf = source.leaf_at(p);
            &&& rule.yields(source, leaf.cube, leaf.depth, leaf.data, part)
            &&& same(result.at(p), part.leaf_at(leaf.cube, leaf.depth, p).data)
        }),
{
    source.lemma_chunk_of(p);
    let k = source.chunk_of(p);
    assert(source.chunks[k].shaped(source.fan(), source.levels));
    assert(result.chunk_cube(k) == source.chunk_cube(k));
    assert(result.chunk_of(p) == k);
    assert(derives(
        rule,
        source,
        source.chunk_cube(k),
        0,
        source.chunks[k],
        result.chunks[k],
    ));
    lemma_derived_point(
        rule,
        source,
        source.chunk_cube(k),
        0,
        source.levels,
        source.chunks[k],
        result.chunks[k],
        same,
        p,
    )
}

/// Edits merge homogeneous leaves to the first of them.
pub proof fn lemma_edits_merge_within<T: CellData, Topo: Topology>(
    changes: &Changes<T, Topo>,
    same: spec_fn(T, T) -> bool,
)
    requires
        coarsens(same),
    ensures
        merges_within(changes, same),
{
    assert forall|trees: Seq<Tree<T>>, merged: T|
        trees.len() > 0 && mergeable(trees) && #[trigger] may_merge(
            changes,
            trees,
            merged,
        ) implies same(merged, trees[0]->Leaf_0) by {
        assert(trees[0] is Leaf);
        assert(same(trees[0]->Leaf_0, trees[0]->Leaf_0));
    }
}

/// Applying staged edits gives a grid that holds, at every point, what is staged
/// there, or else what it held before.
pub proof fn lemma_applied<T: CellData, Topo: Topology>(
    changes: &Changes<T, Topo>,
    source: GridModel<T>,
    result: GridModel<T>,
    same: spec_fn(T, T) -> bool,
    p: Seq<int>,
)
    requires
        coarsens(same),
        source.valid(),
        transformed(changes, source, result),
        source.in_bounds(p),
    ensures
        changes@.contains_key(p) ==> same(result.at(p), changes@[p]),
        !changes@.contains_key(p) ==> same(result.at(p), source.at(p)),
{
    lemma_edits_merge_within(changes, same);
    let part = lemma_transformed_point(changes, source, result, same, p);
    let leaf = source.leaf_at(p);
    lemma_leaves_cover(source, p);
    lemma_edited_point(
        changes@,
        leaf.cube,
        leaf.depth,
        (source.levels - leaf.depth) as nat,
        leaf.data,
        same,
        p,
    );
    assert(same(
        result.at(p),
        part.leaf_at(leaf.cube, leaf.depth, p).data,
    ));
}

/// Where a chunk was a single leaf, what applying staged edits leaves at a point
/// of it is, or is homogeneous with, what is staged there, or else what the
/// chunk held.
pub proof fn lemma_applied_leaf<T: CellData, Topo: Topology>(
    changes: &Changes<T, Topo>,
    source: GridModel<T>,
    result: GridModel<T>,
    p: Seq<int>,
)
    requires
        source.valid(),
        transformed(changes, source, result),
        source.in_bounds(p),
        source.chunks[source.chunk_of(p)] is Leaf,
    ensures
        ({
            let wanted = if changes@.contains_key(p) {
                changes@[p]
            } else {
                source.at(p)
            };
            result.at(p) == wanted || result.at(p).homogeneous(&wanted)
        }),
{
    source.lemma_chunk_of(p);
    let k = source.chunk_of(p);
    let cube = source.chunk_cube(k);
    assert(result.chunk_cube(k) == cube);
    assert(result.chunk_of(p) == k);
    assert(derives(changes, source, cube, 0, source.chunks[k], result.chunks[k]));
    lemma_edited_leaf(changes@, cube, 0, source.levels, source.chunks[k]->Leaf_0, p);
}

/// Where homogeneous values are equal, applying staged edits is exact.
pub proof fn lemma_applied_exactly<T: CellData, Topo: Topology>(
    changes: &Changes<T, Topo>,
    source: GridModel<T>,
    result: GridModel<T>,
    p: Seq<int>,
)
    requires
        forall|a: T, b: T| #[trigger] a.homogeneous(&b) ==> a == b,
        source.valid(),
        transformed(changes, source, result),
        source.in_bounds(p),
    ensures
        result.at(p) == (if changes@.contains_key(p) {
            changes@[p]
        } else {
            source.at(p)
        }),
{
    let same = |a: T, b: T| a == b;
    assert(coarsens(same));
    lemma_applied(changes, source, result, same, p);
}

/// A grid of uniform chunks holds their value everywhere.
pub proof fn lemma_uniform<T>(model: GridModel<T>, data: T, p: Seq<int>)
    requires
        model.valid(),
        forall|k: int|
            0 <= k < model.chunks.len() ==> #[trigger] model.chunks[k] == Tree::Leaf(data),
        model.in_bounds(p),
    ensures
        model.at(p) == data,
        model.leaf_at(p).cube.size == model.edge(),
{
    model.lemma_chunk_of(p);
}

} // verus!
