//! That a grid in normal form is determined by its values, and is the coarsest.
use crate::changes::Changes;
use crate::grid::CellData;
use crate::laws::normal::{homogeneity_groups, lemma_applied_normal, normal};
use crate::pipeline::transformed;
use crate::quantizer::mergeable;
use crate::topology::Topology;
use crate::tree::{chunk_leaves, lemma_edge, octant_leaves, Cube, GridModel, Tree};
use vstd::arithmetic::power2::{lemma_pow2_pos, pow2};
use vstd::prelude::*;

verus! {

/// Values are homogeneous exactly if they are equal.
pub open spec fn homogeneity_is_equality<T: CellData>() -> bool {
    forall|a: T, b: T| #[trigger] a.homogeneous(&b) <==> a == b
}

/// Two trees over a cube hold the same value at each of its points.
pub open spec fn same_values<T>(left: Tree<T>, right: Tree<T>, cube: Cube) -> bool {
    forall|p: Seq<int>| #[trigger]
        cube.contains(p) ==> left.leaf_at(cube, 0, p).data == right.leaf_at(cube, 0, p).data
}

/// What a tree holds at a point does not depend on the depth it is said to lie at.
proof fn lemma_value_at<T>(
    tree: Tree<T>,
    cube: Cube,
    levels: nat,
    left: nat,
    right: nat,
    p: Seq<int>,
)
    requires
        tree.shaped(pow2(cube.dim()), levels),
        cube.size == pow2(levels),
        cube.contains(p),
    ensures
        tree.leaf_at(cube, left, p).data == tree.leaf_at(cube, right, p).data,
    decreases levels,
{
    match tree {
        Tree::Leaf(data) => {},
        Tree::Branch(kids) => {
            lemma_edge(levels);
            cube.lemma_slot_of(p);
            let slot = cube.slot_of(p);
            assert(kids[slot].shaped(pow2(cube.dim()), (levels - 1) as nat));
            lemma_value_at(
                kids[slot],
                cube.octant(slot),
                (levels - 1) as nat,
                left + 1,
                right + 1,
                p,
            );
        },
    }
}

/// At a point of an octant, a branch holds what its subtree there holds.
proof fn lemma_octant_value<T>(
    kids: Seq<Tree<T>>,
    cube: Cube,
    levels: nat,
    slot: int,
    p: Seq<int>,
)
    requires
        Tree::Branch(kids).shaped(pow2(cube.dim()), levels),
        cube.size == pow2(levels),
        0 <= slot < kids.len(),
        cube.octant(slot).contains(p),
    ensures
        cube.contains(p),
        Tree::Branch(kids).leaf_at(cube, 0, p).data == kids[slot].leaf_at(
            cube.octant(slot),
            0,
            p,
        ).data,
{
    lemma_edge(levels);
    cube.lemma_octant(slot, p);
    assert(kids[slot].shaped(pow2(cube.dim()), (levels - 1) as nat));
    lemma_value_at(kids[slot], cube.octant(slot), (levels - 1) as nat, 1, 0, p);
}

/// A tree in normal form that holds one value everywhere is a leaf.
proof fn lemma_constant<T: CellData>(tree: Tree<T>, cube: Cube, levels: nat, data: T)
    requires
        homogeneity_is_equality::<T>(),
        tree.shaped(pow2(cube.dim()), levels),
        cube.size == pow2(levels),
        normal(tree),
        same_values(tree, Tree::Leaf(data), cube),
    ensures
        tree == Tree::Leaf(data),
    decreases levels,
{
    match tree {
        Tree::Leaf(value) => {
            lemma_pow2_pos(levels);
            assert(cube.contains(cube.corner));
        },
        Tree::Branch(kids) => {
            let below = (levels - 1) as nat;
            lemma_edge(levels);
            assert forall|i: int| 0 <= i < kids.len() implies #[trigger] kids[i] == Tree::Leaf(
                data,
            ) by {
                let part = cube.octant(i);
                assert forall|p: Seq<int>| #[trigger] part.contains(p) implies kids[i].leaf_at(
                    part,
                    0,
                    p,
                ).data == Tree::Leaf(data).leaf_at(part, 0, p).data by {
                    lemma_octant_value(kids, cube, levels, i, p);
                }
                assert(kids[i].shaped(pow2(cube.dim()), below));
                assert(normal(kids[i]));
                lemma_constant(kids[i], part, below, data);
            }
            assert(mergeable(kids));
        },
    }
}

/// Trees in normal form that hold the same values are the same tree.
pub proof fn lemma_same_tree<T: CellData>(
    left: Tree<T>,
    right: Tree<T>,
    cube: Cube,
    levels: nat,
)
    requires
        homogeneity_is_equality::<T>(),
        left.shaped(pow2(cube.dim()), levels),
        right.shaped(pow2(cube.dim()), levels),
        cube.size == pow2(levels),
        normal(left),
        normal(right),
        same_values(left, right, cube),
    ensures
        left == right,
    decreases levels,
{
    match (left, right) {
        (Tree::Leaf(data), _) => {
            lemma_constant(right, cube, levels, data);
        },
        (_, Tree::Leaf(data)) => {
            lemma_constant(left, cube, levels, data);
        },
        (Tree::Branch(kids), Tree::Branch(others)) => {
            let below = (levels - 1) as nat;
            lemma_edge(levels);
            assert forall|i: int| 0 <= i < kids.len() implies kids[i] == others[i] by {
                let part = cube.octant(i);
                assert forall|p: Seq<int>| #[trigger] part.contains(p) implies kids[i].leaf_at(
                    part,
                    0,
                    p,
                ).data == others[i].leaf_at(part, 0, p).data by {
                    lemma_octant_value(kids, cube, levels, i, p);
                    lemma_octant_value(others, cube, levels, i, p);
                }
                assert(kids[i].shaped(pow2(cube.dim()), below));
                assert(others[i].shaped(pow2(cube.dim()), below));
                assert(normal(kids[i]) && normal(others[i]));
                lemma_same_tree(kids[i], others[i], part, below);
            }
            assert(kids =~= others);
        },
    }
}

/// Every tree has a leaf.
proof fn lemma_some_leaf<T>(tree: Tree<T>, cube: Cube, depth: nat, levels: nat)
    requires
        tree.shaped(pow2(cube.dim()), levels),
    ensures
        tree.leaves(cube, depth).len() >= 1,
    decreases levels,
{
    match tree {
        Tree::Leaf(data) => {},
        Tree::Branch(kids) => {
            lemma_pow2_pos(cube.dim());
            let n = kids.len() - 1;
            assert(kids[n].shaped(pow2(cube.dim()), (levels - 1) as nat));
            lemma_some_leaf(kids[n], cube.octant(n), depth + 1, (levels - 1) as nat);
        },
    }
}

/// Subtrees with no more leaves each have no more leaves together.
proof fn lemma_fewer_leaves<T>(
    kids: Seq<Tree<T>>,
    others: Seq<Tree<T>>,
    cube: Cube,
    depth: nat,
)
    requires
        kids.len() == others.len(),
        forall|i: int|
            0 <= i < kids.len() ==> (#[trigger] kids[i]).leaves(cube.octant(i), depth).len()
                <= others[i].leaves(cube.octant(i), depth).len(),
    ensures
        octant_leaves(kids, cube, depth).len() <= octant_leaves(others, cube, depth).len(),
    decreases kids.len(),
{
    if kids.len() > 0 {
        let n = kids.len() - 1;
        assert forall|i: int| 0 <= i < n implies (#[trigger] kids.drop_last()[i]).leaves(
            cube.octant(i),
            depth,
        ).len() <= others.drop_last()[i].leaves(cube.octant(i), depth).len() by {
            assert(kids[i].leaves(cube.octant(i), depth).len() <= others[i].leaves(
                cube.octant(i),
                depth,
            ).len());
        }
        lemma_fewer_leaves(kids.drop_last(), others.drop_last(), cube, depth);
        assert(kids[n].leaves(cube.octant(n), depth).len() <= others[n].leaves(
            cube.octant(n),
            depth,
        ).len());
    }
}

/// No tree holds the same values in fewer leaves than one in normal form.
pub proof fn lemma_fewest_leaves<T: CellData>(
    tree: Tree<T>,
    other: Tree<T>,
    cube: Cube,
    depth: nat,
    levels: nat,
)
    requires
        homogeneity_is_equality::<T>(),
        tree.shaped(pow2(cube.dim()), levels),
        other.shaped(pow2(cube.dim()), levels),
        cube.size == pow2(levels),
        normal(tree),
        same_values(tree, other, cube),
    ensures
        tree.leaves(cube, depth).len() <= other.leaves(cube, depth).len(),
    decreases levels,
{
    match (tree, other) {
        (Tree::Leaf(data), _) => {
            lemma_some_leaf(other, cube, depth, levels);
        },
        (_, Tree::Leaf(data)) => {
            lemma_constant(tree, cube, levels, data);
        },
        (Tree::Branch(kids), Tree::Branch(others)) => {
            let below = (levels - 1) as nat;
            lemma_edge(levels);
            assert forall|i: int| 0 <= i < kids.len() implies (#[trigger] kids[i]).leaves(
                cube.octant(i),
                depth + 1,
            ).len() <= others[i].leaves(cube.octant(i), depth + 1).len() by {
                let part = cube.octant(i);
                assert forall|p: Seq<int>| #[trigger] part.contains(p) implies kids[i].leaf_at(
                    part,
                    0,
                    p,
                ).data == others[i].leaf_at(part, 0, p).data by {
                    lemma_octant_value(kids, cube, levels, i, p);
                    lemma_octant_value(others, cube, levels, i, p);
                }
                assert(kids[i].shaped(pow2(cube.dim()), below));
                assert(others[i].shaped(pow2(cube.dim()), below));
                assert(normal(kids[i]));
                lemma_fewest_leaves(kids[i], others[i], part, depth + 1, below);
            }
            lemma_fewer_leaves(kids, others, cube, depth + 1);
        },
    }
}

/// Two grids have the same chunks and depth, and hold the same value at every
/// point.
pub open spec fn same_grid<T>(left: GridModel<T>, right: GridModel<T>) -> bool {
    &&& left.chunks_num == right.chunks_num
    &&& left.levels == right.levels
    &&& forall|p: Seq<int>| #[trigger] left.in_bounds(p) ==> left.at(p) == right.at(p)
}

/// Grids that hold the same values hold the same values in each chunk.
proof fn lemma_same_chunk<T>(left: GridModel<T>, right: GridModel<T>, k: int)
    requires
        left.valid(),
        right.valid(),
        same_grid(left, right),
        0 <= k < left.chunks.len(),
    ensures
        right.chunks.len() == left.chunks.len(),
        right.chunk_cube(k) == left.chunk_cube(k),
        same_values(left.chunks[k], right.chunks[k], left.chunk_cube(k)),
{
    let cube = left.chunk_cube(k);
    assert forall|p: Seq<int>| #[trigger] cube.contains(p) implies left.chunks[k].leaf_at(
        cube,
        0,
        p,
    ).data == right.chunks[k].leaf_at(cube, 0, p).data by {
        left.lemma_chunk_cube(k, p);
        assert(left.in_bounds(p));
        assert(right.chunk_of(p) == k);
    }
}

/// A grid in normal form is determined by its values: two of one shape that hold
/// the same value at every point consist of the same trees.
pub proof fn lemma_canonical<T: CellData>(left: GridModel<T>, right: GridModel<T>)
    requires
        homogeneity_is_equality::<T>(),
        left.valid(),
        right.valid(),
        same_grid(left, right),
        forall|k: int| 0 <= k < left.chunks.len() ==> normal(#[trigger] left.chunks[k]),
        forall|k: int| 0 <= k < right.chunks.len() ==> normal(#[trigger] right.chunks[k]),
    ensures
        left.chunks == right.chunks,
{
    assert forall|k: int| 0 <= k < left.chunks.len() implies left.chunks[k]
        == right.chunks[k] by {
        lemma_same_chunk(left, right, k);
        assert(left.chunks[k].shaped(left.fan(), left.levels));
        assert(right.chunks[k].shaped(right.fan(), right.levels));
        lemma_same_tree(left.chunks[k], right.chunks[k], left.chunk_cube(k), left.levels);
    }
    assert(left.chunks =~= right.chunks);
}

proof fn lemma_fewer_chunk_leaves<T>(
    left: GridModel<T>,
    right: GridModel<T>,
    trees: Seq<Tree<T>>,
    others: Seq<Tree<T>>,
)
    requires
        trees.len() == others.len(),
        forall|k: int|
            0 <= k < trees.len() ==> (#[trigger] trees[k]).leaves(left.chunk_cube(k), 0).len()
                <= others[k].leaves(right.chunk_cube(k), 0).len(),
    ensures
        chunk_leaves(left, trees).len() <= chunk_leaves(right, others).len(),
    decreases trees.len(),
{
    if trees.len() > 0 {
        let n = trees.len() - 1;
        assert forall|k: int| 0 <= k < n implies (#[trigger] trees.drop_last()[k]).leaves(
            left.chunk_cube(k),
            0,
        ).len() <= others.drop_last()[k].leaves(right.chunk_cube(k), 0).len() by {
            assert(trees[k].leaves(left.chunk_cube(k), 0).len() <= others[k].leaves(
                right.chunk_cube(k),
                0,
            ).len());
        }
        lemma_fewer_chunk_leaves(left, right, trees.drop_last(), others.drop_last());
        assert(trees[n].leaves(left.chunk_cube(n), 0).len() <= others[n].leaves(
            right.chunk_cube(n),
            0,
        ).len());
    }
}

/// A grid in normal form has the fewest leaves of all grids of its shape that
/// hold the same values.
pub proof fn lemma_coarsest<T: CellData>(model: GridModel<T>, other: GridModel<T>)
    requires
        homogeneity_is_equality::<T>(),
        model.valid(),
        other.valid(),
        same_grid(model, other),
        forall|k: int| 0 <= k < model.chunks.len() ==> normal(#[trigger] model.chunks[k]),
    ensures
        model.leaves().len() <= other.leaves().len(),
{
    assert forall|k: int| 0 <= k < model.chunks.len() implies (#[trigger] model.chunks[k]).leaves(
        model.chunk_cube(k),
        0,
    ).len() <= other.chunks[k].leaves(other.chunk_cube(k), 0).len() by {
        lemma_same_chunk(model, other, k);
        assert(model.chunks[k].shaped(model.fan(), model.levels));
        assert(other.chunks[k].shaped(other.fan(), other.levels));
        lemma_fewest_leaves(
            model.chunks[k],
            other.chunks[k],
            model.chunk_cube(k),
            0,
            model.levels,
        );
    }
    lemma_fewer_chunk_leaves(model, other, model.chunks, other.chunks);
}

/// What applying edits gives depends on the resulting values alone: two results
/// of one shape that hold the same values consist of the same trees, and no grid
/// of that shape holds these values in fewer leaves.
pub proof fn lemma_applied_canonical<T: CellData, Topo: Topology>(
    changes: &Changes<T, Topo>,
    source: GridModel<T>,
    result: GridModel<T>,
    other_changes: &Changes<T, Topo>,
    other_source: GridModel<T>,
    other_result: GridModel<T>,
    any: GridModel<T>,
)
    requires
        homogeneity_is_equality::<T>(),
        source.valid(),
        result.valid(),
        transformed(changes, source, result),
        other_source.valid(),
        other_result.valid(),
        transformed(other_changes, other_source, other_result),
        same_grid(result, other_result),
        any.valid(),
        same_grid(result, any),
    ensures
        result.chunks == other_result.chunks,
        result.leaves().len() <= any.leaves().len(),
{
    assert(homogeneity_groups::<T>());
    lemma_applied_normal(changes, source, result);
    lemma_applied_normal(other_changes, other_source, other_result);
    lemma_canonical(result, other_result);
    lemma_coarsest(result, any);
}

} // verus!
