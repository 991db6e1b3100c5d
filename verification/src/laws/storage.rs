//! What an arena gives back.
use crate::allocator::{Address, Allocator};
use crate::quantizer::emitter::without_newest;
use vstd::prelude::*;

verus! {

/// A pushed value is read back at the address it was given.
pub proof fn lemma_push_then_read<T: Copy>(
    before: Allocator<T>,
    after: Allocator<T>,
    address: Address,
    data: T,
)
    requires
        after@ == before@.push(data),
        after.position(address) == before@.len(),
    ensures
        after.get(address) == Some(data),
        before.page_size() == after.page_size() ==> before.get(address) is None,
{
}

/// Pushing leaves every value where it was.
pub proof fn lemma_push_keeps<T: Copy>(
    before: Allocator<T>,
    after: Allocator<T>,
    data: T,
    other: Address,
)
    requires
        after@ == before@.push(data),
        after.page_size() == before.page_size(),
        before.get(other) is Some,
    ensures
        after.get(other) == before.get(other),
        before.extended_by(&after),
{
    assert(before@ =~= after@.take(before@.len() as int));
}

/// An address stays good, with its value, for as long as cells are only added.
pub proof fn lemma_extension_keeps<T: Copy>(
    before: Allocator<T>,
    after: Allocator<T>,
    address: Address,
)
    requires
        before.extended_by(&after),
        before.get(address) is Some,
    ensures
        after.get(address) == before.get(address),
{
}

/// Popping takes back what was pushed last and nothing else.
pub proof fn lemma_push_then_pop<T: Copy>(
    before: Allocator<T>,
    pushed: Allocator<T>,
    popped: Allocator<T>,
    data: T,
)
    requires
        pushed@ == before@.push(data),
        popped@ == pushed@.drop_last(),
    ensures
        pushed@.last() == data,
        popped@ == before@,
{
    assert(popped@ =~= before@);
}

/// A written value is read back, and all others stay.
pub proof fn lemma_write_then_read<T: Copy>(
    before: Allocator<T>,
    after: Allocator<T>,
    address: Address,
    data: T,
    other: Address,
)
    requires
        before.get(address) is Some,
        after.page_size() == before.page_size(),
        after@ == before@.update(before.position(address), data),
    ensures
        after.get(address) == Some(data),
        before.position(other) != before.position(address) ==> after.get(other) == before.get(
            other,
        ),
{
}

/// Addresses of different cells differ: a cell has one address.
pub proof fn lemma_one_address<T: Copy>(arena: Allocator<T>, left: Address, right: Address)
    requires
        arena.page_size() >= 1,
        arena.get(left) is Some,
        arena.get(right) is Some,
        arena.position(left) == arena.position(right),
    ensures
        left == right,
{
    let s = arena.page_size();
    let k = arena.position(left);
    vstd::arithmetic::div_mod::lemma_fundamental_div_mod_converse(
        k,
        s,
        left.page_number() as int,
        left.slot_number() as int,
    );
    vstd::arithmetic::div_mod::lemma_fundamental_div_mod_converse(
        k,
        s,
        right.page_number() as int,
        right.slot_number() as int,
    );
    left.lemma_parts(right);
}

/// An arena has as many pages as its cells fill: all but the newest are full, and
/// the newest holds the rest, at least one cell.
pub proof fn lemma_pages<T: Copy>(arena: &Allocator<T>, pages: usize, newest: usize)
    requires
        arena.wf(),
        call_ensures(Allocator::<T>::pages_count, (arena,), pages),
        call_ensures(Allocator::<T>::current_page_size, (arena,), newest),
    ensures
        arena@.len() == 0 ==> pages == 0 && newest == 0,
        arena@.len() > 0 ==> pages >= 1 && 1 <= newest <= arena.page_size() && arena@.len() == (
        pages - 1) * arena.page_size() + newest,
{
    arena.lemma_len();
    if arena@.len() > 0 {
        let k = arena@.len() - 1;
        let s = arena.page_size();
        vstd::arithmetic::div_mod::lemma_fundamental_div_mod(k, s);
        vstd::arithmetic::div_mod::lemma_mod_bound(k, s);
        assert(s * (k / s) == (k / s) * s) by (nonlinear_arith);
    }
}

/// An address names its cell by page and slot, page after page: the cell number is
/// the number of slots of the pages before it and the slot.
pub proof fn lemma_page_and_slot<T: Copy>(arena: Allocator<T>, address: Address)
    requires
        arena.get(address) is Some,
    ensures
        address.slot_number() < arena.page_size(),
        address.page_number() * arena.page_size() + address.slot_number() < arena@.len(),
        arena.get(address)->0 == arena@[address.page_number() * arena.page_size()
            + address.slot_number()],
{
}

/// Whatever is stored can be read: the cell in any slot of any page is found at
/// its address.
pub proof fn lemma_stored_cell<T: Copy>(arena: Allocator<T>, address: Address)
    requires
        address.slot_number() < arena.page_size(),
        address.page_number() * arena.page_size() + address.slot_number() < arena@.len(),
    ensures
        arena.get(address) is Some,
{
    let (p, s) = (address.page_number() as int, arena.page_size());
    assert(p * s >= 0) by (nonlinear_arith)
        requires
            p >= 0,
            s >= 0,
    ;
}

/// Pages of cells that have a size hold as many of them as asked for, and at least
/// one. Cells without a size have one page, for as many as there are slot numbers.
pub proof fn lemma_page_capacity<T: Copy>(
    page_capacity: u32,
    pages_capacity: u32,
    arena: Allocator<T>,
)
    requires
        call_ensures(Allocator::<T>::new, (page_capacity, pages_capacity), arena),
    ensures
        arena@.len() == 0,
        vstd::layout::size_of::<T>() > 0 ==> {
            &&& page_capacity > 0 ==> arena.page_size() == page_capacity
            &&& page_capacity == 0 ==> arena.page_size() == 1
            &&& arena.limit() == 0xffff_ffff * arena.page_size()
        },
        vstd::layout::size_of::<T>() == 0 ==> {
            &&& arena.page_size() == 0xffff_ffff
            &&& arena.limit() == 0xffff_ffff
        },
{
}

/// Dropping the newest cells keeps all older ones in place, and none if there are
/// not more than are dropped.
pub proof fn lemma_without_newest<C>(cells: Seq<C>, count: int)
    requires
        0 <= count,
    ensures
        count <= cells.len() ==> without_newest(cells, count).len() + count == cells.len(),
        count > cells.len() ==> without_newest(cells, count).len() == 0,
        forall|k: int|
            0 <= k < cells.len() - count ==> #[trigger] without_newest(cells, count)[k]
                == cells[k],
{
}

/// The address that no arena hands out is the one that is not valid.
pub proof fn lemma_invalid_address(address: Address, valid: bool, fresh: Address)
    requires
        call_ensures(Address::invalid, (), address),
        call_ensures(Address::is_valid, (&fresh,), valid),
    ensures
        fresh == address ==> !valid,
        !valid ==> fresh.page_number() == 0xffff_ffff || fresh.slot_number() == 0xffff_ffff,
        fresh.page_number() == 0xffff_ffff || fresh.slot_number() == 0xffff_ffff ==> !valid,
{
}

} // verus!
