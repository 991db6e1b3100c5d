//! How the leaves of a grid lie.
//!
//! That they cover the grid without overlap is shown in
//! [`lemma_leaves_cover`](crate::tree::lemma_leaves_cover) and
//! [`lemma_leaves_disjoint`](crate::tree::lemma_leaves_disjoint).
use crate::geometry::unlinear;
use crate::tree::{
    aligned, chunk_leaves, lemma_chunk_leaves, lemma_edge, lemma_listed_leaf, lemma_octant_aligned,
    lemma_octant_leaves, octant_leaves, total_nodes, Cube, GridModel, LeafCell, Tree,
};
use vstd::arithmetic::power2::{lemma_pow2_pos, pow2};
use vstd::prelude::*;

verus! {

/// A leaf of a tree covers its own corner, which lies in the tree's cube.
proof fn lemma_corner_inside<T>(
    tree: Tree<T>,
    cube: Cube,
    depth: nat,
    levels: nat,
    leaf: LeafCell<T>,
)
    requires
        tree.shaped(pow2(cube.dim()), levels),
        cube.size == pow2(levels),
        tree.leaves(cube, depth).contains(leaf),
    ensures
        cube.contains(leaf.cube.corner),
{
    lemma_listed_leaf(tree, cube, depth, levels, leaf);
    lemma_pow2_pos((levels - (leaf.depth - depth)) as nat);
    assert forall|a: int| 0 <= a < cube.dim() implies cube.corner[a]
        <= #[trigger] leaf.cube.corner[a] < cube.corner[a] + cube.size by {}
}

proof fn lemma_octants_once<T>(
    trees: Seq<Tree<T>>,
    cube: Cube,
    depth: nat,
    levels: nat,
)
    requires
        cube.size == 2 * pow2(levels),
        trees.len() <= pow2(cube.dim()),
        forall|i: int|
            0 <= i < trees.len() ==> (#[trigger] trees[i]).shaped(pow2(cube.dim()), levels),
    ensures
        octant_leaves(trees, cube, depth).no_duplicates(),
    decreases levels, trees.len() + 1,
{
    if trees.len() > 0 {
        let n = trees.len() - 1;
        let rest = trees.drop_last();
        let first = trees.last().leaves(cube.octant(n), depth);
        let others = octant_leaves(rest, cube, depth);
        lemma_pow2_pos(levels);
        assert forall|i: int| 0 <= i < rest.len() implies (#[trigger] rest[i]).shaped(
            pow2(cube.dim()),
            levels,
        ) by {
            assert(rest[i] == trees[i]);
        }
        lemma_octants_once(rest, cube, depth, levels);
        assert(trees[n].shaped(pow2(cube.dim()), levels));
        lemma_tree_once(trees[n], cube.octant(n), depth, levels);
        assert forall|i: int, j: int| 0 <= i < first.len() && 0 <= j < others.len() implies first[i]
            != others[j] by {
            let leaf = first[i];
            if leaf == others[j] {
                assert(first.contains(leaf));
                assert(others.contains(leaf));
                lemma_octant_leaves(rest, cube, depth, leaf);
                let m = choose|m: int|
                    0 <= m < rest.len() && (#[trigger] rest[m]).leaves(
                        cube.octant(m),
                        depth,
                    ).contains(leaf);
                let p = leaf.cube.corner;
                lemma_corner_inside(trees[n], cube.octant(n), depth, levels, leaf);
                lemma_corner_inside(rest[m], cube.octant(m), depth, levels, leaf);
                cube.lemma_octant(n, p);
                cube.lemma_octant(m, p);
            }
        }
        vstd::seq_lib::lemma_no_dup_in_concat(first, others);
    }
}

proof fn lemma_tree_once<T>(tree: Tree<T>, cube: Cube, depth: nat, levels: nat)
    requires
        tree.shaped(pow2(cube.dim()), levels),
        cube.size == pow2(levels),
    ensures
        tree.leaves(cube, depth).no_duplicates(),
    decreases levels, 0nat,
{
    match tree {
        Tree::Leaf(data) => {},
        Tree::Branch(kids) => {
            lemma_edge(levels);
            lemma_octants_once(kids, cube, depth + 1, (levels - 1) as nat);
        },
    }
}

proof fn lemma_chunks_once<T>(model: GridModel<T>, trees: Seq<Tree<T>>)
    requires
        model.valid(),
        trees.len() <= model.chunks.len(),
        forall|k: int|
            0 <= k < trees.len() ==> (#[trigger] trees[k]).shaped(model.fan(), model.levels),
    ensures
        chunk_leaves(model, trees).no_duplicates(),
    decreases trees.len(),
{
    if trees.len() > 0 {
        let n = trees.len() - 1;
        let rest = trees.drop_last();
        let first = trees.last().leaves(model.chunk_cube(n), 0);
        let others = chunk_leaves(model, rest);
        assert forall|k: int| 0 <= k < rest.len() implies (#[trigger] rest[k]).shaped(
            model.fan(),
            model.levels,
        ) by {
            assert(rest[k] == trees[k]);
        }
        lemma_chunks_once(model, rest);
        assert(trees[n].shaped(model.fan(), model.levels));
        lemma_tree_once(trees[n], model.chunk_cube(n), 0, model.levels);
        assert forall|i: int, j: int| 0 <= i < first.len() && 0 <= j < others.len() implies first[i]
            != others[j] by {
            let leaf = first[i];
            if leaf == others[j] {
                assert(first.contains(leaf));
                assert(others.contains(leaf));
                lemma_chunk_leaves(model, rest, leaf);
                let m = choose|m: int|
                    0 <= m < rest.len() && (#[trigger] rest[m]).leaves(
                        model.chunk_cube(m),
                        0,
                    ).contains(leaf);
                let p = leaf.cube.corner;
                lemma_corner_inside(trees[n], model.chunk_cube(n), 0, model.levels, leaf);
                lemma_corner_inside(rest[m], model.chunk_cube(m), 0, model.levels, leaf);
                model.lemma_chunk_cube(n, p);
                model.lemma_chunk_cube(m, p);
            }
        }
        vstd::seq_lib::lemma_no_dup_in_concat(first, others);
    }
}

/// A grid lists each of its leaves once.
pub proof fn lemma_leaves_once<T>(model: GridModel<T>)
    requires
        model.valid(),
    ensures
        model.leaves().no_duplicates(),
{
    lemma_chunks_once(model, model.chunks);
}

/// Cells and leaves of a tree in which every branch has `fan` children.
proof fn lemma_tree_cells<T>(tree: Tree<T>, cube: Cube, depth: nat, fan: nat, levels: nat)
    requires
        tree.shaped(fan, levels),
    ensures
        (fan - 1) * tree.nodes() + 1 == fan * tree.leaves(cube, depth).len(),
    decreases levels, 0nat,
{
    match tree {
        Tree::Leaf(data) => {
            assert(tree.nodes() == 1 && tree.leaves(cube, depth).len() == 1);
            assert((fan - 1) * 1 == fan - 1 && fan * 1 == fan) by (nonlinear_arith);
        },
        Tree::Branch(kids) => {
            lemma_octants_cells(kids, cube, depth + 1, fan, (levels - 1) as nat);
            let n = total_nodes(kids) as int;
            assert((fan - 1) * (n + 1) == (fan - 1) * n + (fan - 1)) by (nonlinear_arith);
        },
    }
}

proof fn lemma_octants_cells<T>(
    trees: Seq<Tree<T>>,
    cube: Cube,
    depth: nat,
    fan: nat,
    levels: nat,
)
    requires
        forall|i: int| 0 <= i < trees.len() ==> (#[trigger] trees[i]).shaped(fan, levels),
    ensures
        (fan - 1) * total_nodes(trees) + trees.len() == fan * octant_leaves(
            trees,
            cube,
            depth,
        ).len(),
    decreases levels, trees.len() + 1,
{
    if trees.len() == 0 {
        assert((fan - 1) * 0 == 0 && fan * 0 == 0) by (nonlinear_arith);
    } else {
        let n = trees.len() - 1;
        let rest = trees.drop_last();
        assert forall|i: int| 0 <= i < rest.len() implies (#[trigger] rest[i]).shaped(
            fan,
            levels,
        ) by {
            assert(rest[i] == trees[i]);
        }
        lemma_octants_cells(rest, cube, depth, fan, levels);
        assert(trees[n].shaped(fan, levels));
        lemma_tree_cells(trees[n], cube.octant(n), depth, fan, levels);
        let x = total_nodes(rest) as int;
        let y = trees.last().nodes() as int;
        let u = octant_leaves(rest, cube, depth).len() as int;
        let v = trees.last().leaves(cube.octant(n), depth).len() as int;
        assert((fan - 1) * (x + y) == (fan - 1) * x + (fan - 1) * y) by (nonlinear_arith);
        assert(fan * (v + u) == fan * v + fan * u) by (nonlinear_arith);
    }
}

proof fn lemma_chunks_cells<T>(model: GridModel<T>, trees: Seq<Tree<T>>)
    requires
        forall|k: int|
            0 <= k < trees.len() ==> (#[trigger] trees[k]).shaped(model.fan(), model.levels),
    ensures
        (model.fan() - 1) * total_nodes(trees) + trees.len() == model.fan() * chunk_leaves(
            model,
            trees,
        ).len(),
    decreases trees.len(),
{
    let fan = model.fan() as int;
    if trees.len() == 0 {
        assert((fan - 1) * 0 == 0 && fan * 0 == 0) by (nonlinear_arith);
    } else {
        let n = trees.len() - 1;
        let rest = trees.drop_last();
        assert forall|k: int| 0 <= k < rest.len() implies (#[trigger] rest[k]).shaped(
            model.fan(),
            model.levels,
        ) by {
            assert(rest[k] == trees[k]);
        }
        lemma_chunks_cells(model, rest);
        assert(trees[n].shaped(model.fan(), model.levels));
        lemma_tree_cells(trees[n], model.chunk_cube(n), 0, model.fan(), model.levels);
        let x = total_nodes(rest) as int;
        let y = trees.last().nodes() as int;
        let u = chunk_leaves(model, rest).len() as int;
        let v = trees.last().leaves(model.chunk_cube(n), 0).len() as int;
        assert((fan - 1) * (x + y) == (fan - 1) * x + (fan - 1) * y) by (nonlinear_arith);
        assert(fan * (v + u) == fan * v + fan * u) by (nonlinear_arith);
    }
}

/// The number of cells of a grid is governed by its number of leaves, not by its
/// extent: there are fewer than twice as many.
pub proof fn lemma_cells_follow_leaves<T>(model: GridModel<T>)
    requires
        model.valid(),
        model.dim() > 0,
        model.chunks.len() > 0,
    ensures
        (model.fan() - 1) * total_nodes(model.chunks) + model.chunks.len() == model.fan()
            * model.leaves().len(),
        total_nodes(model.chunks) < 2 * model.leaves().len(),
{
    lemma_chunks_cells(model, model.chunks);
    lemma_edge(model.dim());
    let fan = model.fan() as int;
    let cells = total_nodes(model.chunks) as int;
    let leaves = model.leaves().len() as int;
    let chunks = model.chunks.len() as int;
    assert(cells < 2 * leaves) by (nonlinear_arith)
        requires
            fan >= 2,
            cells >= 0,
            chunks > 0,
            (fan - 1) * cells + chunks == fan * leaves,
    ;
}

/// Of two leaves of a tree, the one that is listed first lies in the higher slot of
/// the smallest cell that they share.
proof fn lemma_tree_order<T>(
    tree: Tree<T>,
    cube: Cube,
    depth: nat,
    levels: nat,
    i: int,
    j: int,
) -> (shared: Cube)
    requires
        tree.shaped(pow2(cube.dim()), levels),
        cube.size == pow2(levels),
        aligned(cube),
        0 <= i < j < tree.leaves(cube, depth).len(),
    ensures
        ({
            let p = tree.leaves(cube, depth)[i].cube.corner;
            let q = tree.leaves(cube, depth)[j].cube.corner;
            &&& shared.contains(p) && shared.contains(q)
            &&& aligned(shared)
            &&& exists|n: nat| n > 0 && shared.size == #[trigger] pow2(n)
            &&& shared.slot_of(p) > shared.slot_of(q)
        }),
    decreases levels, 0nat,
{
    match tree {
        Tree::Leaf(data) => cube,
        Tree::Branch(kids) => {
            lemma_edge(levels);
            assert(cube.size == #[trigger] pow2(levels));
            lemma_octants_order(kids, cube, depth + 1, (levels - 1) as nat, i, j)
        },
    }
}

proof fn lemma_octants_order<T>(
    trees: Seq<Tree<T>>,
    cube: Cube,
    depth: nat,
    levels: nat,
    i: int,
    j: int,
) -> (shared: Cube)
    requires
        cube.size == 2 * pow2(levels),
        cube.size == pow2(levels + 1),
        aligned(cube),
        trees.len() <= pow2(cube.dim()),
        forall|k: int|
            0 <= k < trees.len() ==> (#[trigger] trees[k]).shaped(pow2(cube.dim()), levels),
        0 <= i < j < octant_leaves(trees, cube, depth).len(),
    ensures
        ({
            let p = octant_leaves(trees, cube, depth)[i].cube.corner;
            let q = octant_leaves(trees, cube, depth)[j].cube.corner;
            &&& shared.contains(p) && shared.contains(q)
            &&& aligned(shared)
            &&& exists|n: nat| n > 0 && shared.size == #[trigger] pow2(n)
            &&& shared.slot_of(p) > shared.slot_of(q)
        }),
    decreases levels, trees.len() + 1,
{
    let all = octant_leaves(trees, cube, depth);
    let n = trees.len() - 1;
    let rest = trees.drop_last();
    let first = trees.last().leaves(cube.octant(n), depth);
    let others = octant_leaves(rest, cube, depth);
    lemma_pow2_pos(levels);
    assert(trees[n].shaped(pow2(cube.dim()), levels));
    assert forall|k: int| 0 <= k < rest.len() implies (#[trigger] rest[k]).shaped(
        pow2(cube.dim()),
        levels,
    ) by {
        assert(rest[k] == trees[k]);
    }
    if j < first.len() {
        assert(all[i] == first[i] && all[j] == first[j]);
        lemma_octant_aligned(cube, n);
        lemma_tree_order(trees[n], cube.octant(n), depth, levels, i, j)
    } else if i >= first.len() {
        assert(all[i] == others[i - first.len()] && all[j] == others[j - first.len()]);
        lemma_octants_order(rest, cube, depth, levels, i - first.len(), j - first.len())
    } else {
        let (here, there) = (first[i], others[j - first.len()]);
        assert(all[i] == here && all[j] == there);
        assert(first.contains(here));
        assert(others.contains(there));
        lemma_octant_leaves(rest, cube, depth, there);
        let m = choose|m: int|
            0 <= m < rest.len() && (#[trigger] rest[m]).leaves(cube.octant(m), depth).contains(
                there,
            );
        lemma_corner_inside(trees[n], cube.octant(n), depth, levels, here);
        lemma_corner_inside(rest[m], cube.octant(m), depth, levels, there);
        cube.lemma_octant(n, here.cube.corner);
        cube.lemma_octant(m, there.cube.corner);
        assert(cube.size == #[trigger] pow2(levels + 1));
        cube
    }
}

proof fn lemma_chunks_order<T>(model: GridModel<T>, trees: Seq<Tree<T>>, i: int, j: int) -> (shared:
    Cube)
    requires
        model.valid(),
        trees.len() <= model.chunks.len(),
        forall|k: int|
            0 <= k < trees.len() ==> (#[trigger] trees[k]).shaped(model.fan(), model.levels),
        0 <= i < j < chunk_leaves(model, trees).len(),
    ensures
        ({
            let p = chunk_leaves(model, trees)[i].cube.corner;
            let q = chunk_leaves(model, trees)[j].cube.corner;
            ||| model.chunk_of(p) > model.chunk_of(q)
            ||| {
                &&& model.chunk_of(p) == model.chunk_of(q)
                &&& shared.contains(p) && shared.contains(q)
                &&& aligned(shared)
                &&& exists|n: nat| n > 0 && shared.size == #[trigger] pow2(n)
                &&& shared.slot_of(p) > shared.slot_of(q)
            }
        }),
    decreases trees.len(),
{
    let all = chunk_leaves(model, trees);
    let n = trees.len() - 1;
    let rest = trees.drop_last();
    let first = trees.last().leaves(model.chunk_cube(n), 0);
    let others = chunk_leaves(model, rest);
    assert(trees[n].shaped(model.fan(), model.levels));
    assert forall|k: int| 0 <= k < rest.len() implies (#[trigger] rest[k]).shaped(
        model.fan(),
        model.levels,
    ) by {
        assert(rest[k] == trees[k]);
    }
    if j < first.len() {
        assert(all[i] == first[i] && all[j] == first[j]);
        assert(first.contains(first[i]) && first.contains(first[j]));
        let chunk = model.chunk_cube(n);
        lemma_pow2_pos(model.levels);
        assert forall|a: int| 0 <= a < chunk.dim() implies (#[trigger] chunk.corner[a])
            % chunk.size == 0 by {
            let c = unlinear(n, model.chunks_num)[a];
            vstd::arithmetic::div_mod::lemma_mod_multiples_basic(c, model.edge());
        }
        lemma_corner_inside(trees[n], chunk, 0, model.levels, first[i]);
        lemma_corner_inside(trees[n], chunk, 0, model.levels, first[j]);
        model.lemma_chunk_cube(n, first[i].cube.corner);
        model.lemma_chunk_cube(n, first[j].cube.corner);
        lemma_tree_order(trees[n], chunk, 0, model.levels, i, j)
    } else if i >= first.len() {
        assert(all[i] == others[i - first.len()] && all[j] == others[j - first.len()]);
        lemma_chunks_order(model, rest, i - first.len(), j - first.len())
    } else {
        let (here, there) = (first[i], others[j - first.len()]);
        assert(all[i] == here && all[j] == there);
        assert(first.contains(here));
        assert(others.contains(there));
        lemma_chunk_leaves(model, rest, there);
        let m = choose|m: int|
            0 <= m < rest.len() && (#[trigger] rest[m]).leaves(model.chunk_cube(m), 0).contains(
                there,
            );
        lemma_corner_inside(trees[n], model.chunk_cube(n), 0, model.levels, here);
        lemma_corner_inside(rest[m], model.chunk_cube(m), 0, model.levels, there);
        model.lemma_chunk_cube(n, here.cube.corner);
        model.lemma_chunk_cube(m, there.cube.corner);
        model.chunk_cube(n)
    }
}

/// A grid lists its leaves backwards: of two leaves, the one in the chunk with the
/// higher number comes first, and within a chunk the one in the higher slot of the
/// smallest cell that they share.
pub proof fn lemma_leaf_order<T>(model: GridModel<T>, i: int, j: int) -> (shared: Cube)
    requires
        model.valid(),
        0 <= i < j < model.leaves().len(),
    ensures
        ({
            let p = model.leaves()[i].cube.corner;
            let q = model.leaves()[j].cube.corner;
            ||| model.chunk_of(p) > model.chunk_of(q)
            ||| {
                &&& model.chunk_of(p) == model.chunk_of(q)
                &&& shared.contains(p) && shared.contains(q)
                &&& forall|a: int|
                    0 <= a < shared.corner.len() ==> (#[trigger] shared.corner[a]) % shared.size
                        == 0
                &&& exists|n: nat| n > 0 && shared.size == #[trigger] pow2(n)
                &&& shared.slot_of(p) > shared.slot_of(q)
            }
        }),
{
    lemma_chunks_order(model, model.chunks, i, j)
}

} // verus!
