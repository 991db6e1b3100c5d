//! How much room a transformation needs, and how much of it is left filled.
use crate::changes::apply::{edited, lemma_edited_shape};
use crate::changes::Changes;
use crate::grid::CellData;
use crate::laws::normal::is_cell;
use crate::pipeline::{
    chunk_prefix, derive_emits, derive_prefix, transform_emits, transformable, tree_fits,
};
use crate::quantizer::refine::{refine_emits, refine_fits, refine_prefix};
use crate::quantizer::{group_cells, joined, may_merge, mergeable, settles, Quantizer};
use crate::topology::Topology;
use crate::tree::{
    full_nodes, lemma_edge, lemma_nodes_bound, lemma_total_nodes_leaves, sum_of, total_nodes, Cube,
    GridModel, Tree,
};
use vstd::arithmetic::power2::lemma_pow2_pos;
use vstd::prelude::*;

verus! {

/// The rule leaves the cells of the tree it yields in the arena and no others.
pub open spec fn tidy<Q: Quantizer>(rule: &Q, source: GridModel<Q::CellData>) -> bool {
    forall|
        cube: Cube,
        depth: nat,
        data: Q::CellData,
        out: Tree<Q::CellData>,
        cells: nat,
    | #[trigger]
        settles(rule, source, cube, depth, data, out, cells) ==> cells == out.nodes()
}

proof fn lemma_sum_of_nodes<T>(trees: Seq<Tree<T>>, counts: Seq<nat>)
    requires
        counts.len() == trees.len(),
        forall|i: int| 0 <= i < trees.len() ==> counts[i] == (#[trigger] trees[i]).nodes(),
    ensures
        sum_of(counts) == total_nodes(trees),
    decreases trees.len(),
{
    if trees.len() > 0 {
        let rest = trees.drop_last();
        assert forall|i: int| 0 <= i < rest.len() implies counts.drop_last()[i] == (
        #[trigger] rest[i]).nodes() by {
            assert(rest[i] == trees[i]);
        }
        lemma_sum_of_nodes(rest, counts.drop_last());
        assert(counts[trees.len() - 1] == trees[trees.len() - 1].nodes());
    }
}

/// Where trees are the cells in the arena, so is what they are put together to.
proof fn lemma_group_tidy<Q: Quantizer>(
    rule: &Q,
    parts: Seq<Tree<Q::CellData>>,
    counts: Seq<nat>,
    out: Tree<Q::CellData>,
)
    requires
        counts.len() == parts.len(),
        forall|i: int| 0 <= i < parts.len() ==> counts[i] == (#[trigger] parts[i]).nodes(),
        joined(rule, parts, out),
    ensures
        group_cells(parts, counts) == out.nodes(),
{
    lemma_sum_of_nodes(parts, counts);
    if mergeable(parts) {
        lemma_total_nodes_leaves(parts);
    }
}

/// A tidy rule that runs on the parts of a cell leaves the cells of the tree that
/// comes out and no others.
pub proof fn lemma_refine_tidy<Q: Quantizer>(
    rule: &Q,
    source: GridModel<Q::CellData>,
    cube: Cube,
    depth: nat,
    data: Q::CellData,
    until: nat,
    out: Tree<Q::CellData>,
    cells: nat,
)
    requires
        tidy(rule, source),
        refine_emits(rule, source, cube, depth, data, until, out, cells),
    ensures
        cells == out.nodes(),
    decreases until - depth,
{
    if depth < until {
        let (parts, counts) = choose|parts: Seq<Tree<Q::CellData>>, counts: Seq<nat>|
            {
                &&& parts.len() == source.fan()
                &&& counts.len() == source.fan()
                &&& forall|i: int|
                    #![trigger parts[i]]
                    0 <= i < parts.len() ==> refine_emits(
                        rule,
                        source,
                        cube.octant(i),
                        depth + 1,
                        data,
                        until,
                        parts[i],
                        counts[i],
                    )
                &&& #[trigger] joined(rule, parts, out)
                &&& cells == #[trigger] group_cells(parts, counts)
            };
        assert forall|i: int| 0 <= i < parts.len() implies counts[i] == (
        #[trigger] parts[i]).nodes() by {
            lemma_refine_tidy(
                rule,
                source,
                cube.octant(i),
                depth + 1,
                data,
                until,
                parts[i],
                counts[i],
            );
        }
        lemma_group_tidy(rule, parts, counts, out);
    }
}

/// A tidy rule that runs over a tree leaves the cells of the tree that comes out
/// and no others.
pub proof fn lemma_derive_tidy<Q: Quantizer>(
    rule: &Q,
    source: GridModel<Q::CellData>,
    cube: Cube,
    depth: nat,
    tree: Tree<Q::CellData>,
    out: Tree<Q::CellData>,
    cells: nat,
)
    requires
        tidy(rule, source),
        derive_emits(rule, source, cube, depth, tree, out, cells),
    ensures
        cells == out.nodes(),
    decreases tree,
{
    match tree {
        Tree::Leaf(data) => {},
        Tree::Branch(kids) => {
            let (parts, counts) = choose|parts: Seq<Tree<Q::CellData>>, counts: Seq<nat>|
                {
                    &&& parts.len() == kids.len()
                    &&& counts.len() == kids.len()
                    &&& forall|i: int|
                        #![trigger parts[i]]
                        0 <= i < kids.len() ==> derive_emits(
                            rule,
                            source,
                            cube.octant(i),
                            depth + 1,
                            kids[i],
                            parts[i],
                            counts[i],
                        )
                    &&& #[trigger] joined(rule, parts, out)
                    &&& cells == #[trigger] group_cells(parts, counts)
                };
            assert forall|i: int| 0 <= i < parts.len() implies counts[i] == (
            #[trigger] parts[i]).nodes() by {
                assert(decreases_to!(tree => kids[i]));
                lemma_derive_tidy(
                    rule,
                    source,
                    cube.octant(i),
                    depth + 1,
                    kids[i],
                    parts[i],
                    counts[i],
                );
            }
            lemma_group_tidy(rule, parts, counts, out);
        },
    }
}

/// The arena of a grid that a tidy rule made holds the grid's cells and no others.
pub proof fn lemma_stored<Q: Quantizer>(
    rule: &Q,
    source: GridModel<Q::CellData>,
    result: GridModel<Q::CellData>,
    cells: nat,
)
    requires
        tidy(rule, source),
        transform_emits(rule, source, result, cells),
    ensures
        cells == total_nodes(result.chunks),
{
    let counts = choose|counts: Seq<nat>|
        {
            &&& result.chunks.len() == source.chunks.len()
            &&& counts.len() == source.chunks.len()
            &&& #[trigger] chunk_prefix(rule, source, result.chunks, counts)
            &&& cells == sum_of(counts)
        };
    assert forall|k: int| 0 <= k < result.chunks.len() implies counts[k] == (
    #[trigger] result.chunks[k]).nodes() by {
        lemma_derive_tidy(
            rule,
            source,
            source.chunk_cube(k),
            0,
            source.chunks[k],
            result.chunks[k],
            counts[k],
        );
    }
    lemma_sum_of_nodes(result.chunks, counts);
}

/// The rule never holds more cells for a cell than subdividing it everywhere
/// takes.
pub open spec fn frugal<Q: Quantizer>(rule: &Q, source: GridModel<Q::CellData>) -> bool {
    &&& forall|cube: Cube, depth: nat, data: Q::CellData, room: int|
        is_cell(source, cube, depth) && full_nodes(source.fan(), (source.levels - depth) as nat)
            <= room ==> #[trigger] rule.fits(source, cube, depth, data, room)
    &&& forall|
        cube: Cube,
        depth: nat,
        data: Q::CellData,
        out: Tree<Q::CellData>,
        cells: nat,
    |
        is_cell(source, cube, depth) && #[trigger] settles(
            rule,
            source,
            cube,
            depth,
            data,
            out,
            cells,
        ) ==> cells <= full_nodes(source.fan(), (source.levels - depth) as nat)
}

/// Staged edits are frugal.
pub proof fn lemma_edits_frugal<T: CellData, Topo: Topology>(
    changes: &Changes<T, Topo>,
    source: GridModel<T>,
)
    ensures
        frugal(changes, source),
{
    assert forall|cube: Cube, depth: nat, data: T| is_cell(
        source,
        cube,
        depth,
    ) implies #[trigger] edited(changes@, cube, (source.levels - depth) as nat, data).nodes()
        <= full_nodes(source.fan(), (source.levels - depth) as nat) by {
        let levels = (source.levels - depth) as nat;
        lemma_edited_shape(changes@, cube, levels, data);
        lemma_nodes_bound(edited(changes@, cube, levels, data), source.fan(), levels);
    }
}

proof fn lemma_sum_bound(counts: Seq<nat>, each: nat)
    requires
        forall|i: int| 0 <= i < counts.len() ==> 1 <= #[trigger] counts[i] <= each,
    ensures
        counts.len() <= sum_of(counts) <= counts.len() * each,
    decreases counts.len(),
{
    let n = counts.len() as int;
    if n == 0 {
        assert(n * each == 0) by (nonlinear_arith)
            requires
                n == 0,
        ;
    } else {
        lemma_sum_bound(counts.drop_last(), each);
        assert((n - 1) * each + each == n * each) by (nonlinear_arith);
        assert(counts[n - 1] <= each);
    }
}

/// Parts of which each fits in `each` cells leave enough of `fan * each + 1`.
proof fn lemma_enough(counts: Seq<nat>, each: nat, fan: nat)
    requires
        counts.len() <= fan,
        forall|i: int| 0 <= i < counts.len() ==> 1 <= #[trigger] counts[i] <= each,
    ensures
        counts.len() <= sum_of(counts) <= fan * each,
        counts.len() < fan ==> sum_of(counts) + each <= fan * each,
{
    lemma_sum_bound(counts, each);
    let n = counts.len() as int;
    assert(n * each <= fan * each) by (nonlinear_arith)
        requires
            n <= fan,
            each >= 0,
    ;
    if n < fan {
        assert((n + 1) * each <= fan * each) by (nonlinear_arith)
            requires
                n + 1 <= fan,
                each >= 0,
        ;
        assert((n + 1) * each == n * each + each) by (nonlinear_arith);
    }
}

/// A frugal rule that runs on the parts of a cell leaves no more cells than
/// subdividing the cell everywhere takes.
pub proof fn lemma_refine_leaves_few<Q: Quantizer>(
    rule: &Q,
    source: GridModel<Q::CellData>,
    cube: Cube,
    depth: nat,
    data: Q::CellData,
    until: nat,
    out: Tree<Q::CellData>,
    cells: nat,
)
    requires
        frugal(rule, source),
        is_cell(source, cube, depth),
        until <= source.levels,
        refine_emits(rule, source, cube, depth, data, until, out, cells),
    ensures
        1 <= cells <= full_nodes(source.fan(), (source.levels - depth) as nat),
    decreases until - depth,
{
    if depth < until {
        let (parts, counts) = choose|parts: Seq<Tree<Q::CellData>>, counts: Seq<nat>|
            {
                &&& parts.len() == source.fan()
                &&& counts.len() == source.fan()
                &&& forall|i: int|
                    #![trigger parts[i]]
                    0 <= i < parts.len() ==> refine_emits(
                        rule,
                        source,
                        cube.octant(i),
                        depth + 1,
                        data,
                        until,
                        parts[i],
                        counts[i],
                    )
                &&& #[trigger] joined(rule, parts, out)
                &&& cells == #[trigger] group_cells(parts, counts)
            };
        let each = full_nodes(source.fan(), (source.levels - depth - 1) as nat);
        lemma_edge((source.levels - depth) as nat);
        assert forall|i: int| 0 <= i < counts.len() implies 1 <= #[trigger] counts[i]
            <= each by {
            assert(refine_emits(
                rule,
                source,
                cube.octant(i),
                depth + 1,
                data,
                until,
                parts[i],
                counts[i],
            ));
            lemma_refine_leaves_few(
                rule,
                source,
                cube.octant(i),
                depth + 1,
                data,
                until,
                parts[i],
                counts[i],
            );
        }
        lemma_enough(counts, each, source.fan());
    }
}

/// A frugal rule that runs on the parts of a cell never holds more cells than
/// subdividing the cell everywhere takes.
pub proof fn lemma_refine_frugal<Q: Quantizer>(
    rule: &Q,
    source: GridModel<Q::CellData>,
    cube: Cube,
    depth: nat,
    data: Q::CellData,
    until: nat,
    room: int,
)
    requires
        frugal(rule, source),
        is_cell(source, cube, depth),
        until <= source.levels,
        full_nodes(source.fan(), (source.levels - depth) as nat) <= room,
    ensures
        refine_fits(rule, source, cube, depth, data, until, room),
    decreases until - depth,
{
    if depth < until {
        let each = full_nodes(source.fan(), (source.levels - depth - 1) as nat);
        let fan = source.fan();
        lemma_edge((source.levels - depth) as nat);
        assert forall|parts: Seq<Tree<Q::CellData>>, counts: Seq<nat>| #[trigger]
            refine_prefix(rule, source, cube, depth, data, until, parts, counts) implies {
            if parts.len() < source.fan() {
                refine_fits(
                    rule,
                    source,
                    cube.octant(parts.len() as int),
                    depth + 1,
                    data,
                    until,
                    room - sum_of(counts),
                )
            } else {
                mergeable(parts) || sum_of(counts) < room
            }
        } by {
            assert forall|i: int| 0 <= i < counts.len() implies 1 <= #[trigger] counts[i]
            <= each by {
                assert(refine_emits(
                    rule,
                    source,
                    cube.octant(i),
                    depth + 1,
                    data,
                    until,
                    parts[i],
                    counts[i],
                ));
                lemma_refine_leaves_few(
                    rule,
                    source,
                    cube.octant(i),
                    depth + 1,
                    data,
                    until,
                    parts[i],
                    counts[i],
                );
            }
            lemma_enough(counts, each, fan);
            if parts.len() < fan {
                lemma_refine_frugal(
                    rule,
                    source,
                    cube.octant(parts.len() as int),
                    depth + 1,
                    data,
                    until,
                    room - sum_of(counts),
                );
            }
        }
    }
}

/// A frugal rule that runs over a tree leaves no more cells than subdividing the
/// tree's cube everywhere takes.
pub proof fn lemma_derive_leaves_few<Q: Quantizer>(
    rule: &Q,
    source: GridModel<Q::CellData>,
    cube: Cube,
    depth: nat,
    tree: Tree<Q::CellData>,
    out: Tree<Q::CellData>,
    cells: nat,
)
    requires
        frugal(rule, source),
        is_cell(source, cube, depth),
        tree.shaped(source.fan(), (source.levels - depth) as nat),
        derive_emits(rule, source, cube, depth, tree, out, cells),
    ensures
        1 <= cells <= full_nodes(source.fan(), (source.levels - depth) as nat),
    decreases source.levels - depth,
{
    match tree {
        Tree::Leaf(data) => {
            assert(settles(rule, source, cube, depth, data, out, cells));
        },
        Tree::Branch(kids) => {
            let (parts, counts) = choose|parts: Seq<Tree<Q::CellData>>, counts: Seq<nat>|
                {
                    &&& parts.len() == kids.len()
                    &&& counts.len() == kids.len()
                    &&& forall|i: int|
                        #![trigger parts[i]]
                        0 <= i < kids.len() ==> derive_emits(
                            rule,
                            source,
                            cube.octant(i),
                            depth + 1,
                            kids[i],
                            parts[i],
                            counts[i],
                        )
                    &&& #[trigger] joined(rule, parts, out)
                    &&& cells == #[trigger] group_cells(parts, counts)
                };
            let below = (source.levels - depth - 1) as nat;
            let each = full_nodes(source.fan(), below);
            lemma_edge((source.levels - depth) as nat);
            assert forall|i: int| 0 <= i < counts.len() implies 1 <= #[trigger] counts[i]
            <= each by {
                assert(kids[i].shaped(source.fan(), below));
                assert(derive_emits(
                    rule,
                    source,
                    cube.octant(i),
                    depth + 1,
                    kids[i],
                    parts[i],
                    counts[i],
                ));
                lemma_derive_leaves_few(
                    rule,
                    source,
                    cube.octant(i),
                    depth + 1,
                    kids[i],
                    parts[i],
                    counts[i],
                );
            }
            lemma_enough(counts, each, source.fan());
        },
    }
}

/// A frugal rule that runs over a tree never holds more cells than subdividing the
/// tree's cube everywhere takes.
pub proof fn lemma_derive_frugal<Q: Quantizer>(
    rule: &Q,
    source: GridModel<Q::CellData>,
    cube: Cube,
    depth: nat,
    tree: Tree<Q::CellData>,
    room: int,
)
    requires
        frugal(rule, source),
        is_cell(source, cube, depth),
        tree.shaped(source.fan(), (source.levels - depth) as nat),
        full_nodes(source.fan(), (source.levels - depth) as nat) <= room,
    ensures
        tree_fits(rule, source, cube, depth, tree, room),
    decreases source.levels - depth,
{
    match tree {
        Tree::Leaf(data) => {},
        Tree::Branch(kids) => {
            let below = (source.levels - depth - 1) as nat;
            let each = full_nodes(source.fan(), below);
            let fan = source.fan();
            lemma_edge((source.levels - depth) as nat);
            assert forall|parts: Seq<Tree<Q::CellData>>, counts: Seq<nat>| #[trigger]
                derive_prefix(rule, source, cube, depth, kids, parts, counts) implies {
                if parts.len() < kids.len() {
                    tree_fits(
                        rule,
                        source,
                        cube.octant(parts.len() as int),
                        depth + 1,
                        kids[parts.len() as int],
                        room - sum_of(counts),
                    )
                } else {
                    mergeable(parts) || sum_of(counts) < room
                }
            } by {
                assert forall|i: int| 0 <= i < counts.len() implies 1 <= #[trigger] counts[i]
                    <= each by {
                    assert(kids[i].shaped(fan, below));
                    assert(derive_emits(
                        rule,
                        source,
                        cube.octant(i),
                        depth + 1,
                        kids[i],
                        parts[i],
                        counts[i],
                    ));
                    lemma_derive_leaves_few(
                        rule,
                        source,
                        cube.octant(i),
                        depth + 1,
                        kids[i],
                        parts[i],
                        counts[i],
                    );
                }
                lemma_enough(counts, each, fan);
                if parts.len() < kids.len() {
                    let n = parts.len() as int;
                    assert(kids[n].shaped(fan, below));
                    lemma_derive_frugal(
                        rule,
                        source,
                        cube.octant(n),
                        depth + 1,
                        kids[n],
                        room - sum_of(counts),
                    );
                }
            }
        },
    }
}

/// An arena that could hold the grid fully subdivided has room for any frugal
/// rule.
pub proof fn lemma_room<Q: Quantizer>(rule: &Q, source: GridModel<Q::CellData>, room: int)
    requires
        frugal(rule, source),
        source.valid(),
        source.chunks.len() * full_nodes(source.fan(), source.levels) <= room,
    ensures
        transformable(rule, source, room),
{
    let each = full_nodes(source.fan(), source.levels);
    let count = source.chunks.len();
    assert forall|parts: Seq<Tree<Q::CellData>>, counts: Seq<nat>| #[trigger]
        chunk_prefix(rule, source, parts, counts) && parts.len() < source.chunks.len() implies
        tree_fits(
        rule,
        source,
        source.chunk_cube(parts.len() as int),
        0,
        source.chunks[parts.len() as int],
        room - sum_of(counts),
    ) by {
        assert forall|k: int| 0 <= k < counts.len() implies 1 <= #[trigger] counts[k]
            <= each by {
            assert(source.chunks[k].shaped(source.fan(), source.levels));
            assert(derive_emits(
                rule,
                source,
                source.chunk_cube(k),
                0,
                source.chunks[k],
                parts[k],
                counts[k],
            ));
            lemma_derive_leaves_few(
                rule,
                source,
                source.chunk_cube(k),
                0,
                source.chunks[k],
                parts[k],
                counts[k],
            );
        }
        lemma_enough(counts, each, count);
        let n = parts.len() as int;
        assert(source.chunks[n].shaped(source.fan(), source.levels));
        lemma_derive_frugal(
            rule,
            source,
            source.chunk_cube(n),
            0,
            source.chunks[n],
            room - sum_of(counts),
        );
    }
}

/// For `data`, the rule yields nothing but single leaves whose values are in
/// `class`, in one cell of room each; values in `class` are homogeneous with each
/// other, and merging stays in it.
pub open spec fn steady<Q: Quantizer>(
    rule: &Q,
    source: GridModel<Q::CellData>,
    data: Q::CellData,
    class: spec_fn(Q::CellData) -> bool,
) -> bool {
    &&& forall|cube: Cube, depth: nat, room: int|
        room >= 1 ==> #[trigger] rule.fits(source, cube, depth, data, room)
    &&& forall|cube: Cube, depth: nat, out: Tree<Q::CellData>, cells: nat| #[trigger]
        settles(rule, source, cube, depth, data, out, cells) ==> out is Leaf && class(
            out->Leaf_0,
        ) && cells == 1
    &&& forall|a: Q::CellData, b: Q::CellData|
        class(a) && class(b) ==> #[trigger] a.homogeneous(&b)
    &&& forall|trees: Seq<Tree<Q::CellData>>, merged: Q::CellData|
        trees.len() > 0 && (forall|i: int|
            0 <= i < trees.len() ==> (#[trigger] trees[i]) is Leaf && class(trees[i]->Leaf_0))
            && #[trigger] may_merge(rule, trees, merged) ==> class(merged)
}

/// Parts that are single leaves in one class merge, and take one cell each.
pub proof fn lemma_steady_parts<T: CellData>(
    parts: Seq<Tree<T>>,
    counts: Seq<nat>,
    class: spec_fn(T) -> bool,
)
    requires
        counts.len() == parts.len(),
        forall|i: int|
            0 <= i < parts.len() ==> (#[trigger] parts[i]) is Leaf && class(parts[i]->Leaf_0)
                && counts[i] == 1,
        forall|a: T, b: T| class(a) && class(b) ==> #[trigger] a.homogeneous(&b),
    ensures
        sum_of(counts) == parts.len(),
        mergeable(parts),
{
    assert forall|i: int| 0 <= i < parts.len() implies counts[i] == (
    #[trigger] parts[i]).nodes() by {}
    lemma_sum_of_nodes(parts, counts);
    lemma_total_nodes_leaves(parts);
    assert forall|i: int| 1 <= i < parts.len() implies parts[0]->Leaf_0.homogeneous(
        &(#[trigger] parts[i])->Leaf_0,
    ) by {
        assert(class(parts[0]->Leaf_0) && class(parts[i]->Leaf_0));
    }
}

/// What a steady rule makes of the parts of a cell merges to a single leaf.
pub proof fn lemma_steady_leaf<Q: Quantizer>(
    rule: &Q,
    source: GridModel<Q::CellData>,
    cube: Cube,
    depth: nat,
    data: Q::CellData,
    until: nat,
    class: spec_fn(Q::CellData) -> bool,
    out: Tree<Q::CellData>,
    cells: nat,
)
    requires
        steady(rule, source, data, class),
        refine_emits(rule, source, cube, depth, data, until, out, cells),
    ensures
        out is Leaf,
        class(out->Leaf_0),
        cells == 1,
    decreases until - depth,
{
    if depth < until {
        let (parts, counts) = choose|parts: Seq<Tree<Q::CellData>>, counts: Seq<nat>|
            {
                &&& parts.len() == source.fan()
                &&& counts.len() == source.fan()
                &&& forall|i: int|
                    #![trigger parts[i]]
                    0 <= i < parts.len() ==> refine_emits(
                        rule,
                        source,
                        cube.octant(i),
                        depth + 1,
                        data,
                        until,
                        parts[i],
                        counts[i],
                    )
                &&& #[trigger] joined(rule, parts, out)
                &&& cells == #[trigger] group_cells(parts, counts)
            };
        assert forall|i: int| 0 <= i < parts.len() implies (#[trigger] parts[i]) is Leaf && class(
            parts[i]->Leaf_0,
        ) && counts[i] == 1 by {
            lemma_steady_leaf(
                rule,
                source,
                cube.octant(i),
                depth + 1,
                data,
                until,
                class,
                parts[i],
                counts[i],
            );
        }
        lemma_pow2_pos(source.dim());
        lemma_steady_parts(parts, counts, class);
        assert(may_merge(rule, parts, out->Leaf_0));
    }
}

/// Where what a rule makes of the parts of a cell merges again, subdividing takes
/// room for the cells next to those being worked on, one per octant and level,
/// however many parts there are.
pub proof fn lemma_steady_fits<Q: Quantizer>(
    rule: &Q,
    source: GridModel<Q::CellData>,
    cube: Cube,
    depth: nat,
    data: Q::CellData,
    until: nat,
    class: spec_fn(Q::CellData) -> bool,
    room: int,
)
    requires
        steady(rule, source, data, class),
        depth <= until,
        (source.fan() - 1) * (until - depth) + 1 <= room,
    ensures
        refine_fits(rule, source, cube, depth, data, until, room),
    decreases until - depth,
{
    let fan = source.fan() as int;
    let deep = until - depth;
    lemma_pow2_pos(source.dim());
    assert((fan - 1) * deep >= 0) by (nonlinear_arith)
        requires
            fan >= 1,
            deep >= 0,
    ;
    if depth < until {
        assert((fan - 1) * deep == (fan - 1) * (deep - 1) + (fan - 1)) by (nonlinear_arith);
        assert forall|parts: Seq<Tree<Q::CellData>>, counts: Seq<nat>| #[trigger]
            refine_prefix(rule, source, cube, depth, data, until, parts, counts) implies {
            if parts.len() < source.fan() {
                refine_fits(
                    rule,
                    source,
                    cube.octant(parts.len() as int),
                    depth + 1,
                    data,
                    until,
                    room - sum_of(counts),
                )
            } else {
                mergeable(parts) || sum_of(counts) < room
            }
        } by {
            assert forall|i: int| 0 <= i < parts.len() implies (
            #[trigger] parts[i]) is Leaf && class(parts[i]->Leaf_0) && counts[i] == 1 by {
                lemma_steady_leaf(
                    rule,
                    source,
                    cube.octant(i),
                    depth + 1,
                    data,
                    until,
                    class,
                    parts[i],
                    counts[i],
                );
            }
            lemma_steady_parts(parts, counts, class);
            if parts.len() < source.fan() {
                lemma_steady_fits(
                    rule,
                    source,
                    cube.octant(parts.len() as int),
                    depth + 1,
                    data,
                    until,
                    class,
                    room - sum_of(counts),
                );
            }
        }
    }
}

} // verus!
