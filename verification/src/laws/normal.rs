//! The coarsest form of a grid.
use crate::changes::apply::{edited, lemma_cube_points};
use crate::changes::{alike, resolved_values, Changes};
use crate::geometry::{box_points, lemma_box_points_at};
use crate::grid::CellData;
use crate::laws::values::{coarsens, lemma_edited_point};
use crate::pipeline::{derives, transformed};
use crate::quantizer::refine::refined;
use crate::quantizer::{joined, mergeable, Quantizer};
use crate::topology::Topology;
use crate::tree::{lemma_edge, Cube, GridModel, Tree};
use vstd::arithmetic::power2::pow2;
use vstd::prelude::*;

verus! {

/// No branch of the tree could be a leaf.
pub open spec fn normal<T: CellData>(tree: Tree<T>) -> bool
    decreases tree,
{
    match tree {
        Tree::Leaf(data) => true,
        Tree::Branch(kids) => {
            &&& !mergeable(kids)
            &&& forall|i: int| 0 <= i < kids.len() ==> normal(#[trigger] kids[i])
        },
    }
}

/// Putting trees together keeps the normal form.
pub proof fn lemma_joined_normal<Q: Quantizer>(
    rule: &Q,
    parts: Seq<Tree<Q::CellData>>,
    out: Tree<Q::CellData>,
)
    requires
        joined(rule, parts, out),
        forall|i: int| 0 <= i < parts.len() ==> normal(#[trigger] parts[i]),
    ensures
        normal(out),
{
}

/// A cell that covers `cube` at `depth` is one that subdividing a chunk leads to.
pub open spec fn is_cell<T>(source: GridModel<T>, cube: Cube, depth: nat) -> bool {
    &&& depth <= source.levels
    &&& cube.dim() == source.dim()
    &&& cube.size == pow2((source.levels - depth) as nat)
}

/// Whatever the rule yields for a cell is in normal form.
pub open spec fn yields_normal<Q: Quantizer>(rule: &Q, source: GridModel<Q::CellData>) -> bool {
    forall|cube: Cube, depth: nat, data: Q::CellData, out: Tree<Q::CellData>|
        is_cell(source, cube, depth) && #[trigger] rule.yields(source, cube, depth, data, out)
            ==> normal(out)
}

/// Running a rule on the parts of a cell yields the normal form, if the rule
/// does.
pub proof fn lemma_refined_normal<Q: Quantizer>(
    rule: &Q,
    source: GridModel<Q::CellData>,
    cube: Cube,
    depth: nat,
    data: Q::CellData,
    until: nat,
    out: Tree<Q::CellData>,
)
    requires
        yields_normal(rule, source),
        is_cell(source, cube, depth),
        until <= source.levels,
        refined(rule, source, cube, depth, data, until, out),
    ensures
        normal(out),
    decreases until - depth,
{
    if depth < until {
        let parts = choose|parts: Seq<Tree<Q::CellData>>|
            {
                &&& parts.len() == source.fan()
                &&& forall|i: int|
                    0 <= i < parts.len() ==> refined(
                        rule,
                        source,
                        cube.octant(i),
                        depth + 1,
                        data,
                        until,
                        #[trigger] parts[i],
                    )
                &&& #[trigger] joined(rule, parts, out)
            };
        lemma_edge((source.levels - depth) as nat);
        assert forall|i: int| 0 <= i < parts.len() implies normal(#[trigger] parts[i]) by {
            lemma_refined_normal(
                rule,
                source,
                cube.octant(i),
                depth + 1,
                data,
                until,
                parts[i],
            );
        }
        lemma_joined_normal(rule, parts, out);
    }
}

/// Running a rule over a tree yields the normal form, if the rule does.
pub proof fn lemma_derived_normal<Q: Quantizer>(
    rule: &Q,
    source: GridModel<Q::CellData>,
    cube: Cube,
    depth: nat,
    tree: Tree<Q::CellData>,
    out: Tree<Q::CellData>,
)
    requires
        yields_normal(rule, source),
        is_cell(source, cube, depth),
        tree.shaped(source.fan(), (source.levels - depth) as nat),
        derives(rule, source, cube, depth, tree, out),
    ensures
        normal(out),
    decreases source.levels - depth,
{
    match tree {
        Tree::Leaf(data) => {},
        Tree::Branch(kids) => {
            let parts = choose|parts: Seq<Tree<Q::CellData>>|
                {
                    &&& parts.len() == kids.len()
                    &&& forall|i: int|
                        0 <= i < kids.len() ==> derives(
                            rule,
                            source,
                            cube.octant(i),
                            depth + 1,
                            kids[i],
                            #[trigger] parts[i],
                        )
                    &&& #[trigger] joined(rule, parts, out)
                };
            lemma_edge((source.levels - depth) as nat);
            assert forall|i: int| 0 <= i < parts.len() implies normal(#[trigger] parts[i]) by {
                assert(derives(rule, source, cube.octant(i), depth + 1, kids[i], parts[i]));
                assert(kids[i].shaped(source.fan(), (source.levels - depth - 1) as nat));
                lemma_derived_normal(
                    rule,
                    source,
                    cube.octant(i),
                    depth + 1,
                    kids[i],
                    parts[i],
                );
            }
            lemma_joined_normal(rule, parts, out);
        },
    }
}

/// A transformed grid is in normal form, whatever form the source is in, if the
/// rule yields the normal form.
pub proof fn lemma_transformed_normal<Q: Quantizer>(
    rule: &Q,
    source: GridModel<Q::CellData>,
    result: GridModel<Q::CellData>,
)
    requires
        yields_normal(rule, source),
        source.valid(),
        transformed(rule, source, result),
    ensures
        forall|k: int| 0 <= k < result.chunks.len() ==> normal(#[trigger] result.chunks[k]),
{
    assert forall|k: int| 0 <= k < result.chunks.len() implies normal(
        #[trigger] result.chunks[k],
    ) by {
        assert(source.chunks[k].shaped(source.fan(), source.levels));
        lemma_derived_normal(
            rule,
            source,
            source.chunk_cube(k),
            0,
            source.chunks[k],
            result.chunks[k],
        );
    }
}

/// Homogeneity is symmetric and transitive.
pub open spec fn homogeneity_groups<T: CellData>() -> bool {
    &&& forall|a: T, b: T| #[trigger] a.homogeneous(&b) ==> b.homogeneous(&a)
    &&& forall|a: T, b: T, c: T| #[trigger]
        a.homogeneous(&b) && #[trigger] b.homogeneous(&c) ==> a.homogeneous(&c)
}

/// An edited cell is in normal form where homogeneity is symmetric and
/// transitive.
pub proof fn lemma_edited_normal<T: CellData>(
    staged: Map<Seq<int>, T>,
    cube: Cube,
    levels: nat,
    data: T,
)
    requires
        homogeneity_groups::<T>(),
        cube.size == pow2(levels),
    ensures
        normal(edited(staged, cube, levels, data)),
    decreases levels,
{
    let same = |a: T, b: T| a == b || a.homogeneous(&b);
    assert(coarsens(same));
    match edited(staged, cube, levels, data) {
        Tree::Leaf(value) => {},
        Tree::Branch(kids) => {
            let below = (levels - 1) as nat;
            let values = resolved_values(staged, cube.corner, cube.upper(), data);
            lemma_edge(levels);
            if cube.dim() == 0 {
                assert(values.len() == 1);
                assert(alike(values));
            }
            lemma_edge(cube.dim());
            assert forall|i: int| 0 <= i < kids.len() implies normal(#[trigger] kids[i]) by {
                lemma_edited_normal(staged, cube.octant(i), below, data);
            }
            if mergeable(kids) {
                lemma_cube_points(cube);
                let first = kids[0]->Leaf_0;
                let second = kids[1]->Leaf_0;
                assert(first.homogeneous(&second));
                assert(second.homogeneous(&first));
                assert(first.homogeneous(&first));
                assert forall|k: int| 0 <= k < values.len() implies first.homogeneous(
                    &#[trigger] values[k],
                ) by {
                    let p = box_points(cube.corner, cube.upper())[k];
                    lemma_box_points_at(k, cube.corner, cube.upper());
                    assert(cube.contains(p));
                    cube.lemma_slot_of(p);
                    let slot = cube.slot_of(p);
                    assert(kids[slot] == edited(staged, cube.octant(slot), below, data));
                    assert(kids[slot] is Leaf);
                    lemma_edited_point(staged, cube.octant(slot), 0, below, data, same, p);
                    assert(same(kids[slot]->Leaf_0, values[k]));
                    assert(first.homogeneous(&kids[slot]->Leaf_0));
                }
                assert forall|i: int, j: int|
                    #![trigger values[i], values[j]]
                    0 <= i < j < values.len() implies values[j].homogeneous(&values[i]) by {
                    assert(first.homogeneous(&values[j]));
                    assert(values[j].homogeneous(&first));
                    assert(first.homogeneous(&values[i]));
                }
                assert(alike(values));
            }
        },
    }
}

/// Applying staged edits yields the normal form where homogeneity is symmetric
/// and transitive.
pub proof fn lemma_applied_normal<T: CellData, Topo: Topology>(
    changes: &Changes<T, Topo>,
    source: GridModel<T>,
    result: GridModel<T>,
)
    requires
        homogeneity_groups::<T>(),
        source.valid(),
        transformed(changes, source, result),
    ensures
        forall|k: int| 0 <= k < result.chunks.len() ==> normal(#[trigger] result.chunks[k]),
{
    assert forall|cube: Cube, depth: nat, data: T, out: Tree<T>|
        is_cell(source, cube, depth) && #[trigger] changes.yields(
            source,
            cube,
            depth,
            data,
            out,
        ) implies normal(out) by {
        lemma_edited_normal(changes@, cube, (source.levels - depth) as nat, data);
    }
    lemma_transformed_normal(changes, source, result);
}

/// In the normal form, some child of every branch is a branch itself, or holds a
/// value that the first child's is not homogeneous with.
pub proof fn lemma_normal_branch<T: CellData>(kids: Seq<Tree<T>>)
    requires
        normal(Tree::Branch(kids)),
    ensures
        ({
            ||| exists|i: int| 0 <= i < kids.len() && (#[trigger] kids[i]) is Branch
            ||| exists|i: int|
                1 <= i < kids.len() && !kids[0]->Leaf_0.homogeneous(&(#[trigger] kids[i])->Leaf_0)
        }),
        forall|i: int| 0 <= i < kids.len() ==> normal(#[trigger] kids[i]),
{
    assert(Tree::<T>::Branch(kids)->Branch_0 == kids);
}

} // verus!
