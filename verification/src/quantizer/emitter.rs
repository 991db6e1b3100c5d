//! Writing the cells of the destination grid.
use crate::allocator::{Address, Allocator};
use crate::grid::{Cell, CellData};
use crate::topology::Topology;
use vstd::prelude::*;

verus! {

/// Value of the leaf stored at `address`.
pub open spec fn leaf_value<T: CellData, Topo: Topology>(
    arena: Allocator<Cell<T, Topo>>,
    address: Address,
) -> T {
    arena.get(address)->0->data
}

/// The cells at `addresses` are all leaves, and the first one is homogeneous
/// with each of the others.
pub open spec fn collapsible<T: CellData, Topo: Topology>(
    arena: Allocator<Cell<T, Topo>>,
    addresses: Seq<Address>,
) -> bool {
    &&& forall|i: int|
        0 <= i < addresses.len() ==> arena.get(#[trigger] addresses[i]) is Some && arena.get(
            addresses[i],
        )->0 is Leaf
    &&& forall|i: int|
        1 <= i < addresses.len() ==> leaf_value(arena, addresses[0]).homogeneous(
            &leaf_value(arena, #[trigger] addresses[i]),
        )
}

/// `merged` is what `merger` may return for the values of the leaves at
/// `addresses`.
pub open spec fn merged_by<T: CellData, Topo: Topology, M: Fn(&[&T]) -> T>(
    merger: M,
    arena: Allocator<Cell<T, Topo>>,
    addresses: Seq<Address>,
    merged: T,
) -> bool {
    exists|values: &[&T]|
        {
            &&& values@.len() == addresses.len()
            &&& forall|i: int|
                0 <= i < addresses.len() ==> *values@[i] == leaf_value(
                    arena,
                    #[trigger] addresses[i],
                )
            &&& #[trigger] call_ensures(merger, (values,), merged)
        }
}

/// What is left of a sequence of cells when the newest `count` are dropped.
pub open spec fn without_newest<C>(cells: Seq<C>, count: int) -> Seq<C> {
    if cells.len() <= count {
        Seq::empty()
    } else {
        cells.take(cells.len() - count)
    }
}

/// Writes new cells into the destination arena while a [`Quantizer`] runs.
///
/// A quantizer is handed an emitter and must return exactly one [`Address`] - the
/// root of the (sub)tree it produced for its cell - built via these methods.
pub struct CellEmitter<T: CellData, Topo: Topology> {
    pub(crate) allocator: Allocator<Cell<T, Topo>>,
}

impl<T: CellData, Topo: Topology> CellEmitter<T, Topo> {
    /// The destination arena.
    pub closed spec fn arena(&self) -> Allocator<Cell<T, Topo>> {
        self.allocator
    }

    pub open spec fn wf(&self) -> bool {
        self.arena().wf()
    }

    /// Number of cells that can still be emitted.
    pub open spec fn room(&self) -> int {
        self.arena().limit() - self.arena()@.len()
    }

    /// Starts emitting into `allocator`.
    pub(crate) fn new(allocator: Allocator<Cell<T, Topo>>) -> (emitter: Self)
        ensures
            emitter.arena() == allocator,
    {
        Self { allocator }
    }

    /// Hands the destination arena back.
    pub(crate) fn into_allocator(self) -> (allocator: Allocator<Cell<T, Topo>>)
        ensures
            allocator == self.arena(),
    {
        self.allocator
    }

    /// Emits a leaf holding `data` and returns its address.
    pub fn emit_leaf(&mut self, data: T) -> (address: Address)
        requires
            old(self).wf(),
            old(self).room() > 0,
        ensures
            final(self).wf(),
            final(self).arena().page_size() == old(self).arena().page_size(),
            final(self).arena()@ == old(self).arena()@.push(Cell::Leaf { data }),
            final(self).arena().position(address) == old(self).arena()@.len(),
    {
        self.allocator.push(Cell::Leaf { data })
    }

    /// Emits a branch with the given child addresses and returns its address.
    pub fn emit_branch(&mut self, children: Topo::Children) -> (address: Address)
        requires
            old(self).wf(),
            old(self).room() > 0,
        ensures
            final(self).wf(),
            final(self).arena().page_size() == old(self).arena().page_size(),
            final(self).arena()@ == old(self).arena()@.push(Cell::Branch { children }),
            final(self).arena().position(address) == old(self).arena()@.len(),
    {
        self.allocator.push(Cell::Branch { children })
    }

    /// Replaces the children by a single leaf when all of them are homogeneous
    /// leaves; returns its address, or `None` if nothing was done.
    pub(crate) fn merge_leaves<M: Fn(&[&T]) -> T>(
        &mut self,
        children: &Topo::Children,
        merger: M,
    ) -> (address: Option<Address>)
        requires
            old(self).wf(),
            forall|i: int|
                0 <= i < Topo::CHILDREN ==> old(self).arena().get(
                    #[trigger] Topo::slots(*children)[i],
                ) is Some,
            collapsible(old(self).arena(), Topo::slots(*children)) ==> forall|values: &[&T]|
                #![trigger call_requires(merger, (values,))]
                values@.len() == Topo::CHILDREN ==> call_requires(merger, (values,)),
        ensures
            final(self).wf(),
            final(self).arena().page_size() == old(self).arena().page_size(),
            match address {
                Some(leaf) => {
                    &&& collapsible(old(self).arena(), Topo::slots(*children))
                    &&& exists|merged: T|
                        {
                            &&& #[trigger] merged_by(
                                merger,
                                old(self).arena(),
                                Topo::slots(*children),
                                merged,
                            )
                            &&& final(self).arena()@ == without_newest(
                                old(self).arena()@,
                                Topo::CHILDREN as int,
                            ).push(Cell::Leaf { data: merged })
                        }
                    &&& final(self).arena().position(leaf) == final(self).arena()@.len() - 1
                },
                None => {
                    &&& !collapsible(old(self).arena(), Topo::slots(*children))
                    &&& *final(self) == *old(self)
                },
            },
    {
        let ghost before = self.allocator;
        let ghost slots = Topo::slots(*children);
        let addresses = Topo::children_as_slice(children);
        proof {
            Topo::lemma_slots(*children);
            Topo::lemma_shape();
            vstd::arithmetic::power2::lemma_pow2_pos(Topo::DIMENSIONS as nat);
        }
        let mut cells: Vec<Cell<T, Topo>> = Vec::with_capacity(Topo::CHILDREN);
        let mut index: usize = 0;
        while index < addresses.len()
            invariant
                index <= addresses@.len(),
                addresses@ == slots,
                slots.len() == Topo::CHILDREN,
                before == self.allocator,
                before.wf(),
                forall|i: int|
                    0 <= i < Topo::CHILDREN ==> before.get(#[trigger] slots[i]) is Some,
                cells@.len() == index,
                forall|i: int|
                    0 <= i < index ==> before.get(#[trigger] slots[i]) == Some(cells@[i]),
            decreases addresses@.len() - index,
        {
            let cell = self.allocator.read(addresses[index]).unwrap();
            cells.push(*cell);
            index = index + 1;
        }
        let mut values: Vec<&T> = Vec::with_capacity(Topo::CHILDREN);
        index = 0;
        while index < cells.len()
            invariant
                index <= cells@.len(),
                before == self.allocator,
                before == old(self).allocator,
                before.wf(),
                slots == Topo::slots(*children),
                slots.len() == Topo::CHILDREN,
                cells@.len() == slots.len(),
                forall|i: int|
                    0 <= i < slots.len() ==> before.get(#[trigger] slots[i]) == Some(cells@[i]),
                values@.len() == index,
                forall|i: int|
                    0 <= i < index ==> (#[trigger] cells@[i]) is Leaf && *values@[i]
                        == leaf_value(before, slots[i]),
            decreases cells@.len() - index,
        {
            match cells[index].data() {
                Some(data) => {
                    assert(before.get(slots[index as int]) == Some(cells@[index as int]));
                    values.push(data);
                },
                None => {
                    assert(before.get(slots[index as int])->0 is Branch);
                    return None;
                },
            }
            index = index + 1;
        }
        let first = values[0];
        index = 1;
        while index < values.len()
            invariant
                1 <= index <= values@.len(),
                slots == Topo::slots(*children),
                slots.len() == values@.len(),
                *first == leaf_value(before, slots[0]),
                before == self.allocator,
                before == old(self).allocator,
                before.wf(),
                forall|i: int|
                    0 <= i < slots.len() ==> *values@[i] == leaf_value(before, #[trigger] slots[i]),
                forall|i: int|
                    1 <= i < index ==> leaf_value(before, slots[0]).homogeneous(
                        &leaf_value(before, #[trigger] slots[i]),
                    ),
            decreases values@.len() - index,
        {
            assert(*values@[index as int] == leaf_value(before, slots[index as int]));
            if !first.are_homogeneous(values[index]) {
                return None;
            }
            index = index + 1;
        }
        assert(collapsible(before, slots));
        let data = merger(values.as_slice());
        assert(merged_by(merger, before, slots, data));
        let mut dropped: usize = 0;
        while dropped < Topo::CHILDREN
            invariant
                dropped <= Topo::CHILDREN,
                self.allocator.wf(),
                self.allocator.page_size() == before.page_size(),
                self.allocator@ == without_newest(before@, dropped as int),
            decreases Topo::CHILDREN - dropped,
        {
            self.allocator.pop();
            dropped = dropped + 1;
            proof {
                assert(self.allocator@ =~= without_newest(before@, dropped as int));
            }
        }
        proof {
            assert(before.get(slots[0]) is Some);
            before.lemma_len();
        }
        Some(self.allocator.push(Cell::Leaf { data }))
    }

    /// Emits a branch, but collapses it back into a single leaf when all
    /// children are [homogeneous](CellData::are_homogeneous) leaves.
    ///
    /// `merger` combines the children's data into the merged leaf's value and is
    /// only called when the merge actually happens; the newest cells, one per
    /// child, then make way for the merged leaf. Maintains the "no branch that
    /// could be a leaf" invariant.
    pub fn emit_branch_possibly_merged<M: Fn(&[&T]) -> T>(
        &mut self,
        children: Topo::Children,
        merger: M,
    ) -> (address: Address)
        requires
            old(self).wf(),
            forall|i: int|
                0 <= i < Topo::CHILDREN ==> old(self).arena().get(
                    #[trigger] Topo::slots(children)[i],
                ) is Some,
            if collapsible(old(self).arena(), Topo::slots(children)) {
                forall|values: &[&T]|
                    #![trigger call_requires(merger, (values,))]
                    values@.len() == Topo::CHILDREN ==> call_requires(merger, (values,))
            } else {
                old(self).room() > 0
            },
        ensures
            final(self).wf(),
            final(self).arena().page_size() == old(self).arena().page_size(),
            final(self).arena().position(address) == final(self).arena()@.len() - 1,
            if collapsible(old(self).arena(), Topo::slots(children)) {
                exists|merged: T|
                    {
                        &&& #[trigger] merged_by(
                            merger,
                            old(self).arena(),
                            Topo::slots(children),
                            merged,
                        )
                        &&& final(self).arena()@ == without_newest(
                            old(self).arena()@,
                            Topo::CHILDREN as int,
                        ).push(Cell::Leaf { data: merged })
                    }
            } else {
                final(self).arena()@ == old(self).arena()@.push(Cell::Branch { children })
            },
            final(self).arena()@ == old(self).arena()@.push(Cell::Branch { children }) || ({
                &&& forall|i: int|
                    0 <= i < Topo::CHILDREN ==> old(self).arena().get(
                        #[trigger] Topo::slots(children)[i],
                    )->0 is Leaf
                &&& forall|i: int|
                    1 <= i < Topo::CHILDREN ==> old(self).arena().get(
                        Topo::slots(children)[0],
                    )->0->data.homogeneous(
                        &old(self).arena().get(#[trigger] Topo::slots(children)[i])->0->data,
                    )
                &&& exists|values: &[&T], merged: T|
                    {
                        &&& values@.len() == Topo::CHILDREN
                        &&& forall|i: int|
                            0 <= i < Topo::CHILDREN ==> *(#[trigger] values@[i])
                                == old(self).arena().get(Topo::slots(children)[i])->0->data
                        &&& #[trigger] call_ensures(merger, (values,), merged)
                        &&& final(self).arena()@.last() is Leaf
                        &&& final(self).arena()@.last()->data == merged
                    }
            }),
    {
        proof {
            Topo::lemma_slots(children);
        }
        match self.merge_leaves(&children, merger) {
            Some(address) => address,
            None => self.emit_branch(children),
        }
    }

    /// Convenience wrapper around [`emit_branch`](CellEmitter::emit_branch) that
    /// builds the children via `f` first.
    pub fn emit_group<F: FnOnce(&mut Self) -> Topo::Children>(&mut self, f: F) -> (address: Address)
        requires
            forall|emitter: &mut Self|
                *emitter == *old(self) ==> #[trigger] call_requires(f, (emitter,)),
            forall|emitter: &mut Self, children: Topo::Children|
                *emitter == *old(self) && #[trigger] call_ensures(f, (emitter,), children)
                    ==> final(emitter).wf() && final(emitter).room() > 0,
        ensures
            exists|emitter: &mut Self, children: Topo::Children|
                {
                    &&& *emitter == *old(self)
                    &&& #[trigger] call_ensures(f, (emitter,), children)
                    &&& final(self).arena().page_size() == final(emitter).arena().page_size()
                    &&& final(self).arena()@ == final(emitter).arena()@.push(
                        Cell::Branch { children },
                    )
                    &&& final(self).arena().position(address) == final(emitter).arena()@.len()
                },
            final(self).wf(),
    {
        let children = f(self);
        self.emit_branch(children)
    }

    /// Convenience wrapper around
    /// [`emit_branch_possibly_merged`](CellEmitter::emit_branch_possibly_merged)
    /// that builds the children via `f` first.
    pub fn emit_group_possibly_merged<F: FnOnce(&mut Self) -> Topo::Children, M: Fn(&[&T]) -> T>(
        &mut self,
        f: F,
        merger: M,
    ) -> (address: Address)
        requires
            forall|emitter: &mut Self|
                *emitter == *old(self) ==> #[trigger] call_requires(f, (emitter,)),
            forall|emitter: &mut Self, children: Topo::Children|
                *emitter == *old(self) && #[trigger] call_ensures(f, (emitter,), children) ==> {
                    &&& final(emitter).wf()
                    &&& forall|i: int|
                        0 <= i < Topo::CHILDREN ==> final(emitter).arena().get(
                            #[trigger] Topo::slots(children)[i],
                        ) is Some
                    &&& if collapsible(final(emitter).arena(), Topo::slots(children)) {
                        forall|values: &[&T]|
                            #![trigger call_requires(merger, (values,))]
                            values@.len() == Topo::CHILDREN ==> call_requires(merger, (values,))
                    } else {
                        final(emitter).room() > 0
                    }
                },
        ensures
            exists|emitter: &mut Self, children: Topo::Children|
                {
                    &&& *emitter == *old(self)
                    &&& #[trigger] call_ensures(f, (emitter,), children)
                    &&& final(self).arena().page_size() == final(emitter).arena().page_size()
                    &&& if collapsible(final(emitter).arena(), Topo::slots(children)) {
                        exists|merged: T|
                            {
                                &&& #[trigger] merged_by(
                                    merger,
                                    final(emitter).arena(),
                                    Topo::slots(children),
                                    merged,
                                )
                                &&& final(self).arena()@ == without_newest(
                                    final(emitter).arena()@,
                                    Topo::CHILDREN as int,
                                ).push(Cell::Leaf { data: merged })
                            }
                    } else {
                        final(self).arena()@ == final(emitter).arena()@.push(
                            Cell::Branch { children },
                        )
                    }
                },
            final(self).wf(),
            final(self).arena().position(address) == final(self).arena()@.len() - 1,
    {
        let children = f(self);
        self.emit_branch_possibly_merged(children, merger)
    }
}

} // verus!
