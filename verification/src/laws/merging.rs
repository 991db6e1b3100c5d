//! When the parts of a cell become one leaf, and what that leaf holds.
use crate::allocator::{Address, Allocator};
use crate::changes::Changes;
use crate::grid::{Cell, CellData};
use crate::life::Conway;
use crate::pipeline::{derives, transformed};
use crate::quantizer::emitter::{collapsible, leaf_value, merged_by};
use crate::quantizer::kernel::KernelQuantizer;
use crate::quantizer::neighbors::NeighborsQuantizer;
use crate::quantizer::refine::refined;
use crate::quantizer::{group_cells, joined, Quantizer};
use crate::topology::Topology;
use crate::tree::{sum_of, Cube, GridModel, Tree};
use vstd::arithmetic::power2::{lemma_pow2_pos, pow2};
use vstd::prelude::*;

verus! {

/// Putting parts together leaves either the branch of exactly these parts, or a
/// single leaf. A leaf takes their place exactly if all of them are leaves and the
/// first value is homogeneous with every other one.
pub proof fn lemma_joined_outcome<Q: Quantizer>(
    rule: &Q,
    parts: Seq<Tree<Q::CellData>>,
    out: Tree<Q::CellData>,
)
    requires
        parts.len() > 0,
        joined(rule, parts, out),
    ensures
        out is Leaf || out == Tree::Branch(parts),
        out is Leaf ==> forall|i: int| 0 <= i < parts.len() ==> (#[trigger] parts[i]) is Leaf,
        out is Leaf ==> forall|i: int|
            1 <= i < parts.len() ==> parts[0]->Leaf_0.homogeneous(&(#[trigger] parts[i])->Leaf_0),
        out is Branch ==> {
            ||| exists|i: int| 0 <= i < parts.len() && (#[trigger] parts[i]) is Branch
            ||| exists|i: int|
                1 <= i < parts.len() && !parts[0]->Leaf_0.homogeneous(
                    &(#[trigger] parts[i])->Leaf_0,
                )
        },
        out is Leaf ==> exists|values: &[&Q::CellData]|
            {
                &&& values@.len() == parts.len()
                &&& forall|i: int|
                    0 <= i < parts.len() ==> *(#[trigger] values@[i]) == parts[i]->Leaf_0
                &&& #[trigger] call_ensures(Q::merge, (rule, values), out->Leaf_0)
            },
{
    if out is Leaf {
        let values = choose|values: &[&Q::CellData]|
            {
                &&& values@.len() == parts.len()
                &&& forall|i: int|
                    0 <= i < parts.len() ==> *values@[i] == (#[trigger] parts[i])->Leaf_0
                &&& #[trigger] call_ensures(Q::merge, (rule, values), out->Leaf_0)
            };
        assert forall|i: int| 0 <= i < parts.len() implies *(#[trigger] values@[i])
            == parts[i]->Leaf_0 by {
            assert(parts[i] is Leaf);
        }
    }
}

/// A merge is handed one value per part, in the order of the parts: for a rule
/// that merges by a function of the values it is handed, the merged leaf holds
/// that function of what the parts hold.
pub proof fn lemma_joined_value<Q: Quantizer>(
    rule: &Q,
    parts: Seq<Tree<Q::CellData>>,
    out: Tree<Q::CellData>,
    m: spec_fn(Seq<Q::CellData>) -> Q::CellData,
)
    requires
        parts.len() > 0,
        joined(rule, parts, out),
        out is Leaf,
        forall|values: &[&Q::CellData], merged: Q::CellData| #[trigger]
            call_ensures(Q::merge, (rule, values), merged) ==> merged == m(
                Seq::new(values@.len(), |i: int| *values@[i]),
            ),
    ensures
        out->Leaf_0 == m(Seq::new(parts.len(), |i: int| parts[i]->Leaf_0)),
{
    let values = choose|values: &[&Q::CellData]|
        {
            &&& values@.len() == parts.len()
            &&& forall|i: int| 0 <= i < parts.len() ==> *values@[i] == (#[trigger] parts[i])->Leaf_0
            &&& #[trigger] call_ensures(Q::merge, (rule, values), out->Leaf_0)
        };
    assert(Seq::new(values@.len(), |i: int| *values@[i]) =~= Seq::new(
        parts.len(),
        |i: int| parts[i]->Leaf_0,
    ));
}

/// What a rule leaves of a branch: what it left of the children, put together.
/// Either the branch of exactly these parts comes out, or all of them are leaves,
/// the first value is homogeneous with every other one, and the leaf that comes
/// out holds what the rule merged the values of all of them to, in slot order.
pub proof fn lemma_derived_outcome<Q: Quantizer>(
    rule: &Q,
    source: GridModel<Q::CellData>,
    cube: Cube,
    depth: nat,
    kids: Seq<Tree<Q::CellData>>,
    out: Tree<Q::CellData>,
) -> (parts: Seq<Tree<Q::CellData>>)
    requires
        kids.len() > 0,
        derives(rule, source, cube, depth, Tree::Branch(kids), out),
    ensures
        parts.len() == kids.len(),
        forall|i: int|
            0 <= i < kids.len() ==> derives(
                rule,
                source,
                cube.octant(i),
                depth + 1,
                kids[i],
                #[trigger] parts[i],
            ),
        if out is Leaf {
            &&& forall|i: int| 0 <= i < parts.len() ==> (#[trigger] parts[i]) is Leaf
            &&& forall|i: int|
                1 <= i < parts.len() ==> parts[0]->Leaf_0.homogeneous(
                    &(#[trigger] parts[i])->Leaf_0,
                )
            &&& exists|values: &[&Q::CellData]|
                {
                    &&& values@.len() == parts.len()
                    &&& forall|i: int|
                        0 <= i < parts.len() ==> *(#[trigger] values@[i]) == parts[i]->Leaf_0
                    &&& #[trigger] call_ensures(Q::merge, (rule, values), out->Leaf_0)
                }
        } else {
            out == Tree::Branch(parts)
        },
{
    assert(Tree::<Q::CellData>::Branch(kids)->Branch_0 == kids);
    let parts = choose|parts: Seq<Tree<Q::CellData>>|
        {
            &&& parts.len() == kids.len()
            &&& forall|i: int|
                0 <= i < kids.len() ==> derives(
                    rule,
                    source,
                    cube.octant(i),
                    depth + 1,
                    kids[i],
                    #[trigger] parts[i],
                )
            &&& #[trigger] joined(rule, parts, out)
        };
    lemma_joined_outcome(rule, parts, out);
    parts
}

/// What a rule leaves of a cell that an adapter subdivides: what it left of the
/// equal parts, put together in the same way.
pub proof fn lemma_refined_outcome<Q: Quantizer>(
    rule: &Q,
    source: GridModel<Q::CellData>,
    cube: Cube,
    depth: nat,
    data: Q::CellData,
    until: nat,
    out: Tree<Q::CellData>,
) -> (parts: Seq<Tree<Q::CellData>>)
    requires
        depth < until,
        refined(rule, source, cube, depth, data, until, out),
    ensures
        parts.len() == pow2(source.dim()),
        forall|i: int|
            0 <= i < parts.len() ==> refined(
                rule,
                source,
                cube.octant(i),
                depth + 1,
                data,
                until,
                #[trigger] parts[i],
            ),
        if out is Leaf {
            &&& forall|i: int| 0 <= i < parts.len() ==> (#[trigger] parts[i]) is Leaf
            &&& forall|i: int|
                1 <= i < parts.len() ==> parts[0]->Leaf_0.homogeneous(
                    &(#[trigger] parts[i])->Leaf_0,
                )
            &&& exists|values: &[&Q::CellData]|
                {
                    &&& values@.len() == parts.len()
                    &&& forall|i: int|
                        0 <= i < parts.len() ==> *(#[trigger] values@[i]) == parts[i]->Leaf_0
                    &&& #[trigger] call_ensures(Q::merge, (rule, values), out->Leaf_0)
                }
        } else {
            out == Tree::Branch(parts)
        },
{
    lemma_pow2_pos(source.dim());
    let parts = choose|parts: Seq<Tree<Q::CellData>>|
        {
            &&& parts.len() == source.fan()
            &&& forall|i: int|
                0 <= i < parts.len() ==> refined(
                    rule,
                    source,
                    cube.octant(i),
                    depth + 1,
                    data,
                    until,
                    #[trigger] parts[i],
                )
            &&& #[trigger] joined(rule, parts, out)
        };
    lemma_joined_outcome(rule, parts, out);
    parts
}

/// For a rule that merges to the first value: what is found at a point of parts
/// that were put together is, or is homogeneous with, what is found there in the
/// part that covers the point.
pub proof fn lemma_first_value_point<Q: Quantizer>(
    rule: &Q,
    parts: Seq<Tree<Q::CellData>>,
    out: Tree<Q::CellData>,
    cube: Cube,
    depth: nat,
    levels: nat,
    p: Seq<int>,
    slot: int,
)
    requires
        joined(rule, parts, out),
        parts.len() == pow2(cube.dim()),
        cube.size == 2 * pow2(levels),
        cube.contains(p),
        0 <= slot < parts.len(),
        cube.octant(slot).contains(p),
        forall|values: &[&Q::CellData], merged: Q::CellData| #[trigger]
            call_ensures(Q::merge, (rule, values), merged) && values@.len() > 0 ==> merged
                == *values@[0],
    ensures
        ({
            let value = out.leaf_at(cube, depth, p).data;
            let part = parts[slot].leaf_at(cube.octant(slot), depth + 1, p).data;
            value == part || value.homogeneous(&part)
        }),
{
    lemma_pow2_pos(levels);
    cube.lemma_slot_of(p);
    cube.lemma_octant(slot, p);
    lemma_joined_outcome(rule, parts, out);
    if out is Leaf {
        assert(parts[slot] is Leaf);
        assert(parts[0] is Leaf);
    }
}

/// Cells of an arena are collapsed exactly if all of them are leaves and the first
/// one's value is homogeneous with that of every other one.
pub proof fn lemma_collapsing<T: CellData, Topo: Topology>(
    arena: Allocator<Cell<T, Topo>>,
    addresses: Seq<Address>,
)
    ensures
        collapsible(arena, addresses) == ({
            &&& forall|i: int|
                0 <= i < addresses.len() ==> arena.get(#[trigger] addresses[i]) is Some
                    && arena.get(addresses[i])->0 is Leaf
            &&& forall|i: int|
                1 <= i < addresses.len() ==> arena.get(addresses[0])->0->data.homogeneous(
                    &arena.get(#[trigger] addresses[i])->0->data,
                )
        }),
{
}

/// A merger is handed one value per cell, in the order of the cells: if it is a
/// function of what it is handed, it returns that function of what the cells hold.
pub proof fn lemma_merged_value<T: CellData, Topo: Topology, M: Fn(&[&T]) -> T>(
    merger: M,
    arena: Allocator<Cell<T, Topo>>,
    addresses: Seq<Address>,
    merged: T,
    m: spec_fn(Seq<T>) -> T,
)
    requires
        merged_by(merger, arena, addresses, merged),
        forall|values: &[&T], result: T| #[trigger]
            call_ensures(merger, (values,), result) ==> result == m(
                Seq::new(values@.len(), |i: int| *values@[i]),
            ),
    ensures
        merged == m(Seq::new(addresses.len(), |i: int| arena.get(addresses[i])->0->data)),
{
    let values = choose|values: &[&T]|
        {
            &&& values@.len() == addresses.len()
            &&& forall|i: int|
                0 <= i < addresses.len() ==> *values@[i] == leaf_value(
                    arena,
                    #[trigger] addresses[i],
                )
            &&& #[trigger] call_ensures(merger, (values,), merged)
        };
    assert(Seq::new(values@.len(), |i: int| *values@[i]) =~= Seq::new(
        addresses.len(),
        |i: int| arena.get(addresses[i])->0->data,
    ));
}

/// A leaf becomes what the rule yields for it.
pub proof fn lemma_derived_leaf<Q: Quantizer>(
    rule: &Q,
    source: GridModel<Q::CellData>,
    cube: Cube,
    depth: nat,
    data: Q::CellData,
    out: Tree<Q::CellData>,
)
    ensures
        derives(rule, source, cube, depth, Tree::Leaf(data), out) <==> rule.yields(
            source,
            cube,
            depth,
            data,
            out,
        ),
        refined(rule, source, cube, depth, data, depth, out) <==> rule.yields(
            source,
            cube,
            depth,
            data,
            out,
        ),
{
}

/// A transformed grid has the chunks of the source grid, one for one: where a chunk
/// was a leaf stands what the rule yields for it, and elsewhere what the rule
/// leaves of the branch.
pub proof fn lemma_transformed_chunk<Q: Quantizer>(
    rule: &Q,
    source: GridModel<Q::CellData>,
    result: GridModel<Q::CellData>,
    k: int,
)
    requires
        transformed(rule, source, result),
        0 <= k < source.chunks.len(),
    ensures
        result.chunks_num == source.chunks_num,
        result.levels == source.levels,
        result.chunks.len() == source.chunks.len(),
        derives(
            rule,
            source,
            source.chunk_cube(k),
            0,
            source.chunks[k],
            result.chunks[k],
        ),
        source.chunks[k] is Leaf ==> rule.yields(
            source,
            source.chunk_cube(k),
            0,
            source.chunks[k]->Leaf_0,
            result.chunks[k],
        ),
{
}

/// For a rule that merges to the first value: what is found at a point of a branch
/// that the rule ran over is, or is homogeneous with, what the rule left there of
/// the child that covers the point.
pub proof fn lemma_child_value<Q: Quantizer>(
    rule: &Q,
    source: GridModel<Q::CellData>,
    cube: Cube,
    depth: nat,
    levels: nat,
    kids: Seq<Tree<Q::CellData>>,
    out: Tree<Q::CellData>,
    p: Seq<int>,
    slot: int,
) -> (part: Tree<Q::CellData>)
    requires
        kids.len() == pow2(cube.dim()),
        cube.size == 2 * pow2(levels),
        derives(rule, source, cube, depth, Tree::Branch(kids), out),
        0 <= slot < kids.len(),
        cube.octant(slot).contains(p),
        forall|values: &[&Q::CellData], merged: Q::CellData| #[trigger]
            call_ensures(Q::merge, (rule, values), merged) && values@.len() > 0 ==> merged
                == *values@[0],
    ensures
        derives(rule, source, cube.octant(slot), depth + 1, kids[slot], part),
        ({
            let value = out.leaf_at(cube, depth, p).data;
            let own = part.leaf_at(cube.octant(slot), depth + 1, p).data;
            value == own || value.homogeneous(&own)
        }),
{
    lemma_pow2_pos(levels);
    cube.lemma_octant(slot, p);
    assert(Tree::<Q::CellData>::Branch(kids)->Branch_0 == kids);
    let parts = choose|parts: Seq<Tree<Q::CellData>>|
        {
            &&& parts.len() == kids.len()
            &&& forall|i: int|
                0 <= i < kids.len() ==> derives(
                    rule,
                    source,
                    cube.octant(i),
                    depth + 1,
                    kids[i],
                    #[trigger] parts[i],
                )
            &&& #[trigger] joined(rule, parts, out)
        };
    lemma_first_value_point(rule, parts, out, cube, depth, levels, p, slot);
    parts[slot]
}

/// The same of a cell that an adapter subdivides: what is found at a point of it
/// is, or is homogeneous with, what the rule left there of the part that covers the
/// point.
pub proof fn lemma_part_value<Q: Quantizer>(
    rule: &Q,
    source: GridModel<Q::CellData>,
    cube: Cube,
    depth: nat,
    levels: nat,
    data: Q::CellData,
    until: nat,
    out: Tree<Q::CellData>,
    p: Seq<int>,
    slot: int,
) -> (part: Tree<Q::CellData>)
    requires
        source.dim() == cube.dim(),
        cube.size == 2 * pow2(levels),
        depth < until,
        refined(rule, source, cube, depth, data, until, out),
        0 <= slot < pow2(cube.dim()),
        cube.octant(slot).contains(p),
        forall|values: &[&Q::CellData], merged: Q::CellData| #[trigger]
            call_ensures(Q::merge, (rule, values), merged) && values@.len() > 0 ==> merged
                == *values@[0],
    ensures
        refined(rule, source, cube.octant(slot), depth + 1, data, until, part),
        ({
            let value = out.leaf_at(cube, depth, p).data;
            let own = part.leaf_at(cube.octant(slot), depth + 1, p).data;
            value == own || value.homogeneous(&own)
        }),
{
    lemma_pow2_pos(levels);
    cube.lemma_octant(slot, p);
    let parts = choose|parts: Seq<Tree<Q::CellData>>|
        {
            &&& parts.len() == source.fan()
            &&& forall|i: int|
                0 <= i < parts.len() ==> refined(
                    rule,
                    source,
                    cube.octant(i),
                    depth + 1,
                    data,
                    until,
                    #[trigger] parts[i],
                )
            &&& #[trigger] joined(rule, parts, out)
        };
    lemma_first_value_point(rule, parts, out, cube, depth, levels, p, slot);
    parts[slot]
}

/// Adapters merge as the rule they wrap.
pub proof fn lemma_adapters_merge<'v, Q: Quantizer>(
    kernel: &KernelQuantizer<Q>,
    neighbors: &NeighborsQuantizer<Q>,
    values: &'v [&'v Q::CellData],
    fine: Q::CellData,
    near: Q::CellData,
)
    requires
        call_ensures(KernelQuantizer::<Q>::merge, (kernel, values), fine),
        call_ensures(NeighborsQuantizer::<Q>::merge, (neighbors, values), near),
    ensures
        call_ensures(Q::merge, (&kernel.quantizer, values), fine),
        call_ensures(Q::merge, (&neighbors.quantizer, values), near),
{
}

/// Staged edits and the rule of the game merge leaves to the value of the first.
pub proof fn lemma_first_kept<T: CellData, Topo: Topology>(
    changes: &Changes<T, Topo>,
    parts: Seq<Tree<T>>,
    out: Tree<T>,
    rule: &Conway,
    cells: Seq<Tree<crate::life::Cell>>,
    next: Tree<crate::life::Cell>,
)
    requires
        parts.len() > 0,
        joined(changes, parts, out),
        out is Leaf,
        cells.len() > 0,
        joined(rule, cells, next),
        next is Leaf,
    ensures
        out->Leaf_0 == parts[0]->Leaf_0,
        next->Leaf_0 == cells[0]->Leaf_0,
{
    assert(parts[0] is Leaf);
    assert(cells[0] is Leaf);
}

/// A cell that the kernel adapter runs a rule on is subdivided down to unit cells.
pub proof fn lemma_kernel_refines<Q: Quantizer>(
    kernel: &KernelQuantizer<Q>,
    source: GridModel<Q::CellData>,
    cube: Cube,
    depth: nat,
    data: Q::CellData,
    out: Tree<Q::CellData>,
)
    requires
        kernel.yields(source, cube, depth, data, out),
    ensures
        refined(&kernel.quantizer, source, cube, depth, data, source.levels, out),
{
}

/// When trees are put together, one cell per tree makes way for a merged leaf, and
/// a branch comes on top of them otherwise.
pub proof fn lemma_cells_joined<Q: Quantizer>(
    rule: &Q,
    parts: Seq<Tree<Q::CellData>>,
    counts: Seq<nat>,
    out: Tree<Q::CellData>,
)
    requires
        parts.len() > 0,
        joined(rule, parts, out),
        parts.len() <= sum_of(counts),
    ensures
        out is Leaf ==> group_cells(parts, counts) + parts.len() == sum_of(counts) + 1,
        out is Branch ==> group_cells(parts, counts) == sum_of(counts) + 1,
{
}

} // verus!
