//! Transformation rules, and what a rule works with.
use crate::allocator::{Address, Allocator};
use crate::grid::{cell_ok, lemma_tree_stable, tree_of, Cell, CellData, GridSample};
use crate::quantizer::emitter::{collapsible, leaf_value, merged_by, without_newest};
use crate::topology::Topology;
use crate::tree::{full_nodes, sum_of, Cube, GridModel, Tree};
use vstd::prelude::*;

pub mod context;
pub mod emitter;
pub mod kernel;
pub mod neighbors;
pub mod refine;

pub use crate::quantizer::context::{CellContext, ContextSubRegion};
pub use crate::quantizer::emitter::CellEmitter;

verus! {

/// A transformation rule applied to a grid, cell by cell, by a
/// [`Transformer`](crate::pipeline::Transformer).
///
/// For each cell of the source grid, [`quantize`](Quantizer::quantize) decides
/// what to emit into the destination grid: a leaf, or a branch built by
/// [subdividing](CellContext::subdivide) and recursing. Implementors may read
/// neighbouring cells through [`CellContext::sampler`].
///
/// What a rule does is stated by its spec functions. The cell it is asked about
/// covers `cube` at `depth` and holds `data`.
pub trait Quantizer {
    /// The cell value type this quantizer operates on.
    type CellData: CellData;

    /// The grid topology this quantizer operates on.
    type Topology: Topology;

    /// What the rule needs of itself in order to run.
    open spec fn ready(&self) -> bool {
        true
    }

    /// Whether the rule may put `out` in place of the cell.
    open spec fn yields(
        &self,
        source: GridModel<Self::CellData>,
        cube: Cube,
        depth: nat,
        data: Self::CellData,
        out: Tree<Self::CellData>,
    ) -> bool {
        true
    }

    /// Whether the rule may leave `cells` more cells in the arena when it puts
    /// `out` in place of the cell.
    open spec fn spends(
        &self,
        source: GridModel<Self::CellData>,
        cube: Cube,
        depth: nat,
        data: Self::CellData,
        out: Tree<Self::CellData>,
        cells: nat,
    ) -> bool {
        cells <= full_nodes(source.fan(), (source.levels - depth) as nat)
    }

    /// Whether the rule never holds more than `room` more cells in the arena at
    /// once while it works on the cell.
    open spec fn fits(
        &self,
        source: GridModel<Self::CellData>,
        cube: Cube,
        depth: nat,
        data: Self::CellData,
        room: int,
    ) -> bool {
        full_nodes(source.fan(), (source.levels - depth) as nat) <= room
    }

    /// Whether sampling for the cell may turn the leaf cache `before`, of the
    /// given limit, into `after`.
    open spec fn caches<'g>(
        &self,
        source: GridModel<Self::CellData>,
        cube: Cube,
        depth: nat,
        data: Self::CellData,
        limit: usize,
        before: Seq<GridSample<'g, Self::CellData, Self::Topology>>,
        after: Seq<GridSample<'g, Self::CellData, Self::Topology>>,
    ) -> bool {
        true
    }

    /// Produces the replacement (sub)tree for one source cell, returning the
    /// address of its root in the destination arena.
    fn quantize<'a, 'g>(
        &self,
        context: CellContext<'a, 'g, Self::CellData, Self::Topology>,
    ) -> (root: Address)
        requires
            self.ready(),
            context.wf(),
            self.fits(
                context.source(),
                context.cube(),
                context.depth as nat,
                *context.cell_data,
                context.emitter.room(),
            ),
        ensures
            final(context.sampler).wf(),
            final(context.sampler).source() == old(context.sampler).source(),
            final(context.sampler).cache_limit() == old(context.sampler).cache_limit(),
            grown(
                old(context.emitter).arena(),
                final(context.emitter).arena(),
                root,
                context.levels(),
            ),
            self.yields(
                context.source(),
                context.cube(),
                context.depth as nat,
                *context.cell_data,
                tree_of(final(context.emitter).arena(), root, context.levels()),
            ),
            self.spends(
                context.source(),
                context.cube(),
                context.depth as nat,
                *context.cell_data,
                tree_of(final(context.emitter).arena(), root, context.levels()),
                added(old(context.emitter).arena(), final(context.emitter).arena()),
            ),
            self.caches(
                context.source(),
                context.cube(),
                context.depth as nat,
                *context.cell_data,
                old(context.sampler).cache_limit(),
                old(context.sampler).cached(),
                final(context.sampler).cached(),
            ),
    ;

    /// Combines the data of `CHILDREN` homogeneous leaves into the single value
    /// they collapse to. `cells` is non-empty; the default keeps the first.
    fn merge(&self, cells: &[&Self::CellData]) -> (merged: Self::CellData)
        requires
            self.ready(),
            cells@.len() > 0,
        default_ensures
            merged == *cells@[0],
    {
        *cells[0]
    }
}

/// `after` is `before` with at least one cell added, and `root` is the root of a
/// tree in it that is at most `levels` branches high.
pub open spec fn grown<T: CellData, Topo: Topology>(
    before: Allocator<Cell<T, Topo>>,
    after: Allocator<Cell<T, Topo>>,
    root: Address,
    levels: nat,
) -> bool {
    &&& after.wf()
    &&& before.extended_by(&after)
    &&& before@.len() < after@.len()
    &&& cell_ok(after, root, levels)
}

/// Number of cells by which `after` is longer than `before`.
pub open spec fn added<T: CellData, Topo: Topology>(
    before: Allocator<Cell<T, Topo>>,
    after: Allocator<Cell<T, Topo>>,
) -> nat {
    (after@.len() - before@.len()) as nat
}

/// The rule may put `out` in place of the cell and leave `cells` more cells, at
/// least one, in the arena.
pub open spec fn settles<Q: Quantizer>(
    rule: &Q,
    source: GridModel<Q::CellData>,
    cube: Cube,
    depth: nat,
    data: Q::CellData,
    out: Tree<Q::CellData>,
    cells: nat,
) -> bool {
    &&& rule.yields(source, cube, depth, data, out)
    &&& rule.spends(source, cube, depth, data, out, cells)
    &&& cells >= 1
}

/// Number of cells that are left when trees for which `counts` cells each are in
/// the arena have been put together: a merged leaf replaces one cell per tree, a
/// branch is added to all of them.
pub open spec fn group_cells<T: CellData>(trees: Seq<Tree<T>>, counts: Seq<nat>) -> nat {
    if mergeable(trees) {
        (sum_of(counts) - trees.len() + 1) as nat
    } else {
        sum_of(counts) + 1
    }
}

/// The trees are all leaves, and the first one is homogeneous with each of the
/// others.
pub open spec fn mergeable<T: CellData>(trees: Seq<Tree<T>>) -> bool {
    &&& forall|i: int| 0 <= i < trees.len() ==> (#[trigger] trees[i]) is Leaf
    &&& forall|i: int|
        1 <= i < trees.len() ==> trees[0]->Leaf_0.homogeneous(&(#[trigger] trees[i])->Leaf_0)
}

/// `merged` is what the rule may merge the leaves `trees` to.
pub open spec fn may_merge<Q: Quantizer>(
    rule: &Q,
    trees: Seq<Tree<Q::CellData>>,
    merged: Q::CellData,
) -> bool {
    exists|values: &[&Q::CellData]|
        {
            &&& values@.len() == trees.len()
            &&& forall|i: int| 0 <= i < trees.len() ==> *values@[i] == (#[trigger] trees[i])->Leaf_0
            &&& #[trigger] call_ensures(Q::merge, (rule, values), merged)
        }
}

/// `out` is what `trees` become when they are put together: a single leaf if
/// they can be merged, else a branch.
pub open spec fn joined<Q: Quantizer>(
    rule: &Q,
    trees: Seq<Tree<Q::CellData>>,
    out: Tree<Q::CellData>,
) -> bool {
    if mergeable(trees) {
        out is Leaf && may_merge(rule, trees, out->Leaf_0)
    } else {
        out == Tree::Branch(trees)
    }
}

/// Leaf addresses can be collapsed exactly if the trees there can be merged.
proof fn lemma_collapsible<T: CellData, Topo: Topology>(
    arena: Allocator<Cell<T, Topo>>,
    slots: Seq<Address>,
    trees: Seq<Tree<T>>,
    levels: nat,
)
    requires
        trees.len() == slots.len(),
        forall|i: int|
            0 <= i < slots.len() ==> cell_ok(arena, #[trigger] slots[i], levels) && tree_of(
                arena,
                slots[i],
                levels,
            ) == trees[i],
    ensures
        collapsible(arena, slots) <==> mergeable(trees),
        collapsible(arena, slots) ==> forall|i: int|
            0 <= i < slots.len() ==> leaf_value(arena, #[trigger] slots[i]) == trees[i]->Leaf_0,
{
    assert forall|i: int| 0 <= i < slots.len() implies {
        &&& arena.get(#[trigger] slots[i]) is Some
        &&& (arena.get(slots[i])->0 is Leaf <==> trees[i] is Leaf)
        &&& (trees[i] is Leaf ==> leaf_value(arena, slots[i]) == trees[i]->Leaf_0)
    } by {
        assert(cell_ok(arena, slots[i], levels));
    }
    if collapsible(arena, slots) {
        assert forall|i: int| 0 <= i < trees.len() implies (#[trigger] trees[i]) is Leaf by {
            assert(arena.get(slots[i]) is Some);
        }
        assert forall|i: int| 1 <= i < trees.len() implies trees[0]->Leaf_0.homogeneous(
            &(#[trigger] trees[i])->Leaf_0,
        ) by {
            assert(arena.get(slots[i]) is Some);
            assert(arena.get(slots[0]) is Some);
        }
    }
    if mergeable(trees) {
        assert forall|i: int| 0 <= i < slots.len() implies arena.get(
            #[trigger] slots[i],
        )->0 is Leaf by {
            assert(trees[i] is Leaf);
        }
        assert forall|i: int| 1 <= i < slots.len() implies leaf_value(
            arena,
            slots[0],
        ).homogeneous(&leaf_value(arena, #[trigger] slots[i])) by {
            assert(trees[i] is Leaf);
            assert(trees[0] is Leaf);
        }
    }
}

/// Puts the trees that were emitted for the children of a cell together.
/// Also returns whether they were merged.
pub(crate) fn join<Q: Quantizer>(
    rule: &Q,
    children: <Q::Topology as Topology>::Children,
    emitter: &mut CellEmitter<Q::CellData, Q::Topology>,
    Ghost(before): Ghost<Allocator<Cell<Q::CellData, Q::Topology>>>,
    Ghost(trees): Ghost<Seq<Tree<Q::CellData>>>,
    Ghost(levels): Ghost<nat>,
) -> (result: (Address, bool))
    requires
        rule.ready(),
        old(emitter).wf(),
        mergeable(trees) || old(emitter).room() > 0,
        before.extended_by(&old(emitter).arena()),
        before@.len() + Q::Topology::CHILDREN <= old(emitter).arena()@.len(),
        trees.len() == Q::Topology::CHILDREN,
        forall|i: int|
            0 <= i < trees.len() ==> cell_ok(
                old(emitter).arena(),
                #[trigger] Q::Topology::slots(children)[i],
                levels,
            ) && tree_of(old(emitter).arena(), Q::Topology::slots(children)[i], levels) == trees[i],
    ensures
        grown(before, final(emitter).arena(), result.0, levels + 1),
        joined(rule, trees, tree_of(final(emitter).arena(), result.0, levels + 1)),
        result.1 == mergeable(trees),
        final(emitter).arena().position(result.0) == final(emitter).arena()@.len() - 1,
        final(emitter).arena()@.len() == old(emitter).arena()@.len() + 1 - (if mergeable(trees) {
            Q::Topology::CHILDREN as int
        } else {
            0
        }),
{
    let ghost slots = Q::Topology::slots(children);
    let ghost mid = emitter.arena();
    proof {
        Q::Topology::lemma_slots(children);
        Q::Topology::lemma_shape();
        vstd::arithmetic::power2::lemma_pow2_pos(Q::Topology::DIMENSIONS as nat);
        lemma_collapsible(mid, slots, trees, levels);
        assert forall|i: int| 0 <= i < slots.len() implies mid.get(#[trigger] slots[i]) is Some by {
            assert(cell_ok(mid, slots[i], levels));
        }
    }
    let merger = |cells: &[&Q::CellData]| -> (merged: Q::CellData)
        requires
            rule.ready(),
            cells@.len() > 0,
        ensures
            call_ensures(Q::merge, (rule, cells), merged),
        { rule.merge(cells) };
    match emitter.merge_leaves(&children, merger) {
        Some(address) => {
            proof {
                let merged = choose|merged: Q::CellData|
                    {
                        &&& #[trigger] merged_by(merger, mid, slots, merged)
                        &&& emitter.arena()@ == without_newest(
                            mid@,
                            Q::Topology::CHILDREN as int,
                        ).push(Cell::Leaf { data: merged })
                    };
                let values = choose|values: &[&Q::CellData]|
                    {
                        &&& values@.len() == slots.len()
                        &&& forall|i: int|
                            0 <= i < slots.len() ==> *values@[i] == leaf_value(
                                mid,
                                #[trigger] slots[i],
                            )
                        &&& #[trigger] call_ensures(merger, (values,), merged)
                    };
                assert forall|i: int| 0 <= i < trees.len() implies *values@[i] == (
                #[trigger] trees[i])->Leaf_0 by {
                    assert(leaf_value(mid, slots[i]) == trees[i]->Leaf_0);
                }
                assert(may_merge(rule, trees, merged));
                let after = emitter.arena();
                assert(before@.is_prefix_of(after@)) by {
                    assert forall|k: int| 0 <= k < before@.len() implies before@[k]
                        == after@[k] by {
                        assert(mid@[k] == before@[k]);
                    }
                    assert(before@ =~= after@.take(before@.len() as int));
                }
                assert(after.get(address) == Some(
                    Cell::<Q::CellData, Q::Topology>::Leaf { data: merged },
                ));
                assert(tree_of(after, address, levels + 1) == Tree::Leaf(merged));
            }
            (address, true)
        },
        None => {
            let address = emitter.emit_branch(children);
            proof {
                let after = emitter.arena();
                assert(mid@.is_prefix_of(after@)) by {
                    assert(mid@ =~= after@.take(mid@.len() as int));
                }
                assert(before@.is_prefix_of(after@)) by {
                    assert(before@ =~= after@.take(before@.len() as int));
                }
                assert(after.get(address) == Some(
                    Cell::<Q::CellData, Q::Topology>::Branch { children },
                ));
                assert forall|i: int| 0 <= i < slots.len() implies cell_ok(
                    after,
                    #[trigger] slots[i],
                    levels,
                ) && tree_of(after, slots[i], levels) == trees[i] by {
                    lemma_tree_stable(mid, after, slots[i], levels);
                }
                assert(((levels + 1) - 1) as nat == levels);
                assert(cell_ok(after, address, levels + 1));
                assert(tree_of(after, address, levels + 1)->Branch_0 =~= trees);
            }
            (address, false)
        },
    }
}

} // verus!
