//! How finely a region is subdivided.
use crate::geometry::{in_box, overlapping, shares_stretch};
use crate::tree::{
    chunk_granularity, chunk_leaves, larger, lemma_edge, lemma_grid_leaf, lemma_no_touching,
    octant_granularity, octant_leaves, touching, Cube, GridModel, LeafCell, Tree,
};
use vstd::arithmetic::power2::pow2;
use vstd::prelude::*;

verus! {

/// Largest depth of any of the leaves; zero if there are none.
pub open spec fn deepest<T>(leaves: Seq<LeafCell<T>>) -> nat
    decreases leaves.len(),
{
    if leaves.len() == 0 {
        0
    } else {
        larger(deepest(leaves.drop_last()), leaves.last().depth)
    }
}

proof fn lemma_deepest_add<T>(left: Seq<LeafCell<T>>, right: Seq<LeafCell<T>>)
    ensures
        deepest(left + right) == larger(deepest(left), deepest(right)),
    decreases right.len(),
{
    if right.len() == 0 {
        assert(left + right =~= left);
    } else {
        lemma_deepest_add(left, right.drop_last());
        assert((left + right).drop_last() =~= left + right.drop_last());
    }
}

/// A cell that meets a box is at least as deep there as it lies.
proof fn lemma_granularity_floor<T>(
    tree: Tree<T>,
    cube: Cube,
    depth: nat,
    lo: Seq<int>,
    hi: Seq<int>,
)
    requires
        overlapping(lo, hi, cube.corner, cube.size),
    ensures
        tree.granularity(cube, depth, lo, hi) >= depth,
{
}

proof fn lemma_octant_granularity<T>(
    trees: Seq<Tree<T>>,
    cube: Cube,
    depth: nat,
    levels: nat,
    lo: Seq<int>,
    hi: Seq<int>,
)
    requires
        cube.size == 2 * pow2(levels),
        trees.len() <= pow2(cube.dim()),
        forall|i: int|
            0 <= i < trees.len() ==> (#[trigger] trees[i]).shaped(pow2(cube.dim()), levels),
        lo.len() == cube.dim(),
        hi.len() == cube.dim(),
    ensures
        octant_granularity(trees, cube, depth, lo, hi) == deepest(
            octant_leaves(trees, cube, depth).filter(touching(lo, hi)),
        ),
        forall|i: int|
            0 <= i < trees.len() ==> (#[trigger] trees[i]).granularity(
                cube.octant(i),
                depth,
                lo,
                hi,
            ) <= octant_granularity(trees, cube, depth, lo, hi),
    decreases levels, trees.len() + 1,
{
    let t = touching::<T>(lo, hi);
    if trees.len() == 0 {
        assert(octant_leaves(trees, cube, depth).filter(t) =~= Seq::<LeafCell<T>>::empty()) by {
            reveal(Seq::filter);
        }
    } else {
        let rest = trees.drop_last();
        let n = trees.len() - 1;
        assert forall|i: int| 0 <= i < rest.len() implies (#[trigger] rest[i]).shaped(
            pow2(cube.dim()),
            levels,
        ) by {
            assert(rest[i] == trees[i]);
        }
        lemma_octant_granularity(rest, cube, depth, levels, lo, hi);
        lemma_granularity_of_tree(trees[n], cube.octant(n), depth, levels, lo, hi);
        let first = trees.last().leaves(cube.octant(n), depth);
        let others = octant_leaves(rest, cube, depth);
        Seq::filter_distributes_over_add(first, others, t);
        lemma_deepest_add(first.filter(t), others.filter(t));
        assert forall|i: int| 0 <= i < trees.len() implies (#[trigger] trees[i]).granularity(
            cube.octant(i),
            depth,
            lo,
            hi,
        ) <= octant_granularity(trees, cube, depth, lo, hi) by {
            if i < n {
                assert(rest[i] == trees[i]);
            }
        }
    }
}

proof fn lemma_granularity_of_tree<T>(
    tree: Tree<T>,
    cube: Cube,
    depth: nat,
    levels: nat,
    lo: Seq<int>,
    hi: Seq<int>,
)
    requires
        tree.shaped(pow2(cube.dim()), levels),
        cube.size == pow2(levels),
        lo.len() == cube.dim(),
        hi.len() == cube.dim(),
    ensures
        tree.granularity(cube, depth, lo, hi) == deepest(
            tree.leaves(cube, depth).filter(touching(lo, hi)),
        ),
    decreases levels, 0nat,
{
    let t = touching::<T>(lo, hi);
    if !overlapping(lo, hi, cube.corner, cube.size) {
        lemma_no_touching(tree, cube, depth, levels, lo, hi);
    } else {
        match tree {
            Tree::Leaf(data) => {
                let leaf = LeafCell { cube, depth, data };
                let one = seq![leaf];
                assert(one.filter(t) == one) by {
                    reveal(Seq::filter);
                    assert(t(leaf));
                    assert(one.drop_last() =~= Seq::<LeafCell<T>>::empty());
                    assert(one.drop_last().filter(t) =~= Seq::<LeafCell<T>>::empty());
                    assert(one.filter(t) =~= one);
                }
                assert(deepest(one.drop_last()) == 0);
                assert(deepest(one) == depth);
            },
            Tree::Branch(kids) => {
                let below = (levels - 1) as nat;
                lemma_edge(levels);
                lemma_octant_granularity(kids, cube, depth + 1, below, lo, hi);
                let q = Seq::new(
                    cube.dim(),
                    |a: int|
                        if lo[a] < cube.corner[a] {
                            cube.corner[a]
                        } else {
                            lo[a]
                        },
                );
                assert forall|a: int| 0 <= a < q.len() implies cube.corner[a] <= #[trigger] q[a]
                    < cube.corner[a] + cube.size && lo[a] <= q[a] < hi[a] by {
                    assert(lo[a] < hi[a]);
                }
                cube.lemma_slot_of(q);
                let slot = cube.slot_of(q);
                let part = cube.octant(slot);
                assert forall|a: int|
                    #![trigger lo[a]]
                    #![trigger hi[a]]
                    #![trigger part.corner[a]]
                    0 <= a < part.corner.len() implies shares_stretch(
                    lo[a],
                    hi[a],
                    part.corner[a],
                    part.size,
                ) by {
                    assert(lo[a] <= q[a] < hi[a]);
                    assert(part.corner[a] <= q[a] < part.corner[a] + part.size);
                }
                assert(overlapping(lo, hi, part.corner, part.size));
                lemma_granularity_floor(kids[slot], part, depth + 1, lo, hi);
                assert(kids[slot].granularity(part, depth + 1, lo, hi) <= octant_granularity(
                    kids,
                    cube,
                    depth + 1,
                    lo,
                    hi,
                ));
            },
        }
    }
}

proof fn lemma_chunk_granularity<T>(
    model: GridModel<T>,
    trees: Seq<Tree<T>>,
    lo: Seq<int>,
    hi: Seq<int>,
)
    requires
        trees.len() <= model.chunks.len(),
        forall|k: int|
            0 <= k < trees.len() ==> (#[trigger] trees[k]).shaped(model.fan(), model.levels),
        lo.len() == model.dim(),
        hi.len() == model.dim(),
    ensures
        chunk_granularity(model, trees, lo, hi) == deepest(
            chunk_leaves(model, trees).filter(touching(lo, hi)),
        ),
    decreases trees.len(),
{
    let t = touching::<T>(lo, hi);
    if trees.len() == 0 {
        assert(chunk_leaves(model, trees).filter(t) =~= Seq::<LeafCell<T>>::empty()) by {
            reveal(Seq::filter);
        }
    } else {
        let rest = trees.drop_last();
        let n = trees.len() - 1;
        assert forall|k: int| 0 <= k < rest.len() implies (#[trigger] rest[k]).shaped(
            model.fan(),
            model.levels,
        ) by {
            assert(rest[k] == trees[k]);
        }
        lemma_chunk_granularity(model, rest, lo, hi);
        lemma_granularity_of_tree(trees[n], model.chunk_cube(n), 0, model.levels, lo, hi);
        let first = trees.last().leaves(model.chunk_cube(n), 0);
        let others = chunk_leaves(model, rest);
        Seq::filter_distributes_over_add(first, others, t);
        lemma_deepest_add(first.filter(t), others.filter(t));
    }
}

/// The granularity of a grid in a box is the largest depth among the leaves that
/// overlap it.
pub proof fn lemma_granularity<T>(model: GridModel<T>, lo: Seq<int>, hi: Seq<int>)
    requires
        model.valid(),
        lo.len() == model.dim(),
        hi.len() == model.dim(),
    ensures
        model.granularity(lo, hi) == deepest(model.leaves().filter(touching(lo, hi))),
{
    lemma_chunk_granularity(model, model.chunks, lo, hi);
}

proof fn lemma_octants_bound<T>(
    trees: Seq<Tree<T>>,
    cube: Cube,
    depth: nat,
    fan: nat,
    levels: nat,
    lo: Seq<int>,
    hi: Seq<int>,
)
    requires
        forall|i: int| 0 <= i < trees.len() ==> (#[trigger] trees[i]).shaped(fan, levels),
    ensures
        octant_granularity(trees, cube, depth, lo, hi) <= depth + levels,
    decreases levels, trees.len() + 1,
{
    if trees.len() > 0 {
        let rest = trees.drop_last();
        let n = trees.len() - 1;
        assert forall|i: int| 0 <= i < rest.len() implies (#[trigger] rest[i]).shaped(
            fan,
            levels,
        ) by {
            assert(rest[i] == trees[i]);
        }
        lemma_octants_bound(rest, cube, depth, fan, levels, lo, hi);
        assert(trees[n].shaped(fan, levels));
        lemma_tree_bound(trees[n], cube.octant(n), depth, fan, levels, lo, hi);
    }
}

proof fn lemma_tree_bound<T>(
    tree: Tree<T>,
    cube: Cube,
    depth: nat,
    fan: nat,
    levels: nat,
    lo: Seq<int>,
    hi: Seq<int>,
)
    requires
        tree.shaped(fan, levels),
    ensures
        tree.granularity(cube, depth, lo, hi) <= depth + levels,
    decreases levels, 0nat,
{
    match tree {
        Tree::Leaf(data) => {},
        Tree::Branch(kids) => {
            lemma_octants_bound(kids, cube, depth + 1, fan, (levels - 1) as nat, lo, hi);
        },
    }
}

proof fn lemma_chunks_bound<T>(
    model: GridModel<T>,
    trees: Seq<Tree<T>>,
    lo: Seq<int>,
    hi: Seq<int>,
)
    requires
        forall|k: int|
            0 <= k < trees.len() ==> (#[trigger] trees[k]).shaped(model.fan(), model.levels),
    ensures
        chunk_granularity(model, trees, lo, hi) <= model.levels,
    decreases trees.len(),
{
    if trees.len() > 0 {
        let rest = trees.drop_last();
        let n = trees.len() - 1;
        assert forall|k: int| 0 <= k < rest.len() implies (#[trigger] rest[k]).shaped(
            model.fan(),
            model.levels,
        ) by {
            assert(rest[k] == trees[k]);
        }
        lemma_chunks_bound(model, rest, lo, hi);
        assert(trees[n].shaped(model.fan(), model.levels));
        lemma_tree_bound(
            trees[n],
            model.chunk_cube(n),
            0,
            model.fan(),
            model.levels,
            lo,
            hi,
        );
    }
}

/// No region is finer than a chunk can be subdivided.
pub proof fn lemma_granularity_bound<T>(model: GridModel<T>, lo: Seq<int>, hi: Seq<int>)
    requires
        model.valid(),
    ensures
        model.granularity(lo, hi) <= model.levels,
{
    lemma_chunks_bound(model, model.chunks, lo, hi);
}

proof fn lemma_deepest_bounds<T>(leaves: Seq<LeafCell<T>>, i: int)
    requires
        0 <= i < leaves.len(),
    ensures
        leaves[i].depth <= deepest(leaves),
    decreases leaves.len(),
{
    if i < leaves.len() - 1 {
        lemma_deepest_bounds(leaves.drop_last(), i);
    }
}

proof fn lemma_deepest_below<T>(leaves: Seq<LeafCell<T>>, bound: nat)
    requires
        forall|i: int| 0 <= i < leaves.len() ==> (#[trigger] leaves[i]).depth <= bound,
    ensures
        deepest(leaves) <= bound,
    decreases leaves.len(),
{
    if leaves.len() > 0 {
        let rest = leaves.drop_last();
        assert forall|i: int| 0 <= i < rest.len() implies (#[trigger] rest[i]).depth
            <= bound by {
            assert(rest[i] == leaves[i]);
        }
        lemma_deepest_below(rest, bound);
        assert(leaves[leaves.len() - 1].depth <= bound);
    }
}

/// A region that contains another is at least as finely subdivided.
pub proof fn lemma_granularity_grows<T>(
    model: GridModel<T>,
    lo: Seq<int>,
    hi: Seq<int>,
    outer_lo: Seq<int>,
    outer_hi: Seq<int>,
)
    requires
        model.valid(),
        lo.len() == model.dim(),
        hi.len() == model.dim(),
        outer_lo.len() == model.dim(),
        outer_hi.len() == model.dim(),
        forall|p: Seq<int>| #[trigger] in_box(p, lo, hi) ==> in_box(p, outer_lo, outer_hi),
    ensures
        model.granularity(lo, hi) <= model.granularity(outer_lo, outer_hi),
{
    let all = model.leaves();
    let t = touching::<T>(lo, hi);
    let u = touching::<T>(outer_lo, outer_hi);
    let inner = all.filter(t);
    let outer = all.filter(u);
    lemma_granularity(model, lo, hi);
    lemma_granularity(model, outer_lo, outer_hi);
    assert forall|i: int| 0 <= i < inner.len() implies (#[trigger] inner[i]).depth <= deepest(
        outer,
    ) by {
        let leaf = inner[i];
        all.lemma_filter_pred(t, i);
        assert(t(leaf));
        assert(inner.contains(leaf));
        all.lemma_filter_contains_rev(t, leaf);
        lemma_grid_leaf(model, leaf);
        let q = Seq::new(
            model.dim(),
            |a: int|
                if lo[a] < leaf.cube.corner[a] {
                    leaf.cube.corner[a]
                } else {
                    lo[a]
                },
        );
        assert forall|a: int| 0 <= a < q.len() implies lo[a] <= #[trigger] q[a] < hi[a]
            && leaf.cube.corner[a] <= q[a] < leaf.cube.corner[a] + leaf.cube.size by {
            assert(shares_stretch(lo[a], hi[a], leaf.cube.corner[a], leaf.cube.size));
        }
        assert(in_box(q, lo, hi));
        assert(in_box(q, outer_lo, outer_hi));
        assert(u(leaf)) by {
            assert forall|a: int|
                #![trigger outer_lo[a]]
                #![trigger outer_hi[a]]
                #![trigger leaf.cube.corner[a]]
                0 <= a < leaf.cube.corner.len() implies shares_stretch(
                outer_lo[a],
                outer_hi[a],
                leaf.cube.corner[a],
                leaf.cube.size,
            ) by {
                assert(outer_lo[a] <= q[a] < outer_hi[a]);
            }
        }
        let k = choose|k: int| 0 <= k < all.len() && all[k] == leaf;
        all.lemma_filter_contains(u, k);
        assert(outer.contains(all[k]));
        let j = choose|j: int| 0 <= j < outer.len() && outer[j] == leaf;
        lemma_deepest_bounds(outer, j);
    }
    lemma_deepest_below(inner, deepest(outer));
}

/// A leaf that shares a point with a box is no deeper than the granularity there,
/// and a granularity above zero is the depth of such a leaf.
pub proof fn lemma_granularity_points<T>(model: GridModel<T>, lo: Seq<int>, hi: Seq<int>)
    requires
        model.valid(),
        lo.len() == model.dim(),
        hi.len() == model.dim(),
    ensures
        forall|leaf: LeafCell<T>, q: Seq<int>|
            #![trigger model.leaves().contains(leaf), leaf.cube.contains(q)]
            {
                &&& model.leaves().contains(leaf)
                &&& leaf.cube.contains(q)
                &&& forall|a: int| 0 <= a < q.len() ==> lo[a] <= #[trigger] q[a] < hi[a]
            } ==> leaf.depth <= model.granularity(lo, hi),
        model.granularity(lo, hi) > 0 ==> exists|leaf: LeafCell<T>, q: Seq<int>|
            #![trigger model.leaves().contains(leaf), leaf.cube.contains(q)]
            {
                &&& model.leaves().contains(leaf)
                &&& leaf.cube.contains(q)
                &&& forall|a: int| 0 <= a < q.len() ==> lo[a] <= #[trigger] q[a] < hi[a]
                &&& leaf.depth == model.granularity(lo, hi)
            },
{
    let all = model.leaves();
    let t = touching::<T>(lo, hi);
    let met = all.filter(t);
    lemma_granularity(model, lo, hi);
    assert forall|leaf: LeafCell<T>, q: Seq<int>|
        #![trigger model.leaves().contains(leaf), leaf.cube.contains(q)]
        {
            &&& model.leaves().contains(leaf)
            &&& leaf.cube.contains(q)
            &&& forall|a: int| 0 <= a < q.len() ==> lo[a] <= #[trigger] q[a] < hi[a]
        } implies leaf.depth <= model.granularity(lo, hi) by {
        lemma_grid_leaf(model, leaf);
        assert(t(leaf)) by {
            assert forall|a: int|
                #![trigger lo[a]]
                #![trigger hi[a]]
                #![trigger leaf.cube.corner[a]]
                0 <= a < leaf.cube.corner.len() implies shares_stretch(
                lo[a],
                hi[a],
                leaf.cube.corner[a],
                leaf.cube.size,
            ) by {
                assert(lo[a] <= q[a] < hi[a]);
            }
        }
        let k = choose|k: int| 0 <= k < all.len() && all[k] == leaf;
        all.lemma_filter_contains(t, k);
        assert(met.contains(all[k]));
        let j = choose|j: int| 0 <= j < met.len() && met[j] == leaf;
        lemma_deepest_bounds(met, j);
    }
    if model.granularity(lo, hi) > 0 {
        let j = lemma_deepest_reached(met);
        let leaf = met[j];
        all.lemma_filter_pred(t, j);
        assert(t(leaf));
        assert(met.contains(leaf));
        all.lemma_filter_contains_rev(t, leaf);
        lemma_grid_leaf(model, leaf);
        let q = Seq::new(
            model.dim(),
            |a: int|
                if lo[a] < leaf.cube.corner[a] {
                    leaf.cube.corner[a]
                } else {
                    lo[a]
                },
        );
        assert forall|a: int| 0 <= a < q.len() implies lo[a] <= #[trigger] q[a] < hi[a]
            && leaf.cube.corner[a] <= q[a] < leaf.cube.corner[a] + leaf.cube.size by {
            assert(shares_stretch(lo[a], hi[a], leaf.cube.corner[a], leaf.cube.size));
        }
        assert(leaf.cube.contains(q));
    }
}

proof fn lemma_deepest_reached<T>(leaves: Seq<LeafCell<T>>) -> (i: int)
    requires
        deepest(leaves) > 0,
    ensures
        0 <= i < leaves.len(),
        leaves[i].depth == deepest(leaves),
    decreases leaves.len(),
{
    if leaves.last().depth == deepest(leaves) {
        leaves.len() - 1
    } else {
        lemma_deepest_reached(leaves.drop_last())
    }
}

} // verus!
