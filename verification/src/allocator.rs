//! A paged arena that hands out lightweight [`Address`] handles.
//!
//! Cells are stored in pages of a fixed capacity. Seen from outside, the arena
//! is one sequence of cells: pushing appends to it, popping takes its last
//! cell, and an address stays good for as long as the sequence reaches it.
use crate::text::{append_decimal, decimal};
use vstd::arithmetic::div_mod::{
    lemma_fundamental_div_mod, lemma_fundamental_div_mod_converse, lemma_mod_bound,
};
use vstd::layout::size_of;
use vstd::prelude::*;
use vstd::string::StringExecFns;

verus! {

/// Handle to one cell of an [`Allocator`]: a page and a slot in it.
#[derive(Debug, Copy, Clone, PartialEq, Eq, PartialOrd, Ord, Hash)]
pub struct Address {
    page: u32,
    index: u32,
}

impl Default for Address {
    fn default() -> (address: Self)
        ensures
            address.page_number() == u32::MAX,
            address.slot_number() == u32::MAX,
    {
        Self::invalid()
    }
}

impl Address {
    /// The address that no arena ever hands out.
    pub fn invalid() -> (address: Self)
        ensures
            address.page_number() == u32::MAX,
            address.slot_number() == u32::MAX,
    {
        Self { page: u32::MAX, index: u32::MAX }
    }

    /// The page this address points into.
    pub closed spec fn page_number(self) -> u32 {
        self.page
    }

    /// The slot this address points at within its page.
    pub closed spec fn slot_number(self) -> u32 {
        self.index
    }

    /// Whether neither part is the reserved `u32::MAX`.
    pub fn is_valid(&self) -> (valid: bool)
        ensures
            valid <==> self.page_number() != u32::MAX && self.slot_number() != u32::MAX,
    {
        self.page != u32::MAX && self.index != u32::MAX
    }

    pub fn page(&self) -> (page: u32)
        ensures
            page == self.page_number(),
    {
        self.page
    }

    pub fn index(&self) -> (index: u32)
        ensures
            index == self.slot_number(),
    {
        self.index
    }

    /// The address as text, `@page#index`.
    pub fn to_string(&self) -> (text: String)
        ensures
            text@ == seq!['@'] + decimal(self.page_number() as int) + seq!['#'] + decimal(
                self.slot_number() as int,
            ),
    {
        proof {
            reveal_strlit("@");
            reveal_strlit("#");
        }
        let mut text = String::from_str("@");
        append_decimal(&mut text, self.page as usize);
        text.append("#");
        append_decimal(&mut text, self.index as usize);
        assert(text@ =~= seq!['@'] + decimal(self.page_number() as int) + seq!['#'] + decimal(
            self.slot_number() as int,
        ));
        text
    }

    /// An address is determined by its two parts.
    pub proof fn lemma_parts(self, other: Address)
        ensures
            self.page_number() == other.page_number() && self.slot_number() == other.slot_number()
                ==> self == other,
    {
    }
}

/// Number of cells that a page of the given capacity holds, at least one. Cells
/// without a size all go into one page, up to as many as addresses can name.
pub open spec fn cells_per_page<T>(capacity: u32) -> int {
    if size_of::<T>() == 0 {
        u32::MAX as int
    } else if capacity == 0 {
        1
    } else {
        capacity as int
    }
}

/// Most pages that an arena can have.
pub open spec fn most_pages<T>() -> int {
    if size_of::<T>() == 0 {
        1
    } else {
        u32::MAX as int
    }
}

/// Most cells that an arena with pages of the given capacity can hold.
pub open spec fn arena_limit<T>(capacity: u32) -> int {
    most_pages::<T>() * cells_per_page::<T>(capacity)
}

/// Any arena can hold as many cells as addresses can name slots of a page.
pub proof fn lemma_arena_limit<T>(capacity: u32)
    ensures
        arena_limit::<T>(capacity) >= u32::MAX,
{
    let n = cells_per_page::<T>(capacity);
    assert(u32::MAX * n >= u32::MAX) by (nonlinear_arith)
        requires
            n >= 1,
    ;
}

/// A growable arena of `Copy` values, stored page by page.
pub struct Allocator<T: Copy> {
    page_capacity: u32,
    pages: Vec<Vec<T>>,
}

impl<T: Copy> View for Allocator<T> {
    type V = Seq<T>;

    /// All stored cells, oldest first.
    closed spec fn view(&self) -> Seq<T> {
        Seq::new(self.count(), |k: int| self.pages@[k / self.page_size()]@[k % self.page_size()])
    }
}

impl<T: Copy> Clone for Allocator<T> {
    fn clone(&self) -> (copy: Self)
        ensures
            copy.page_size() == self.page_size(),
            self.wf() ==> copy.wf() && copy@ == self@,
    {
        let mut pages: Vec<Vec<T>> = Vec::with_capacity(self.pages.len());
        let mut i: usize = 0;
        while i < self.pages.len()
            invariant
                i <= self.pages@.len(),
                pages@.len() == i,
                forall|j: int| 0 <= j < i ==> (#[trigger] pages@[j])@ == self.pages@[j]@,
            decreases self.pages@.len() - i,
        {
            let mut page: Vec<T> = Vec::with_capacity(self.page_capacity as usize);
            let mut k: usize = 0;
            while k < self.pages[i as usize].len()
                invariant
                    i < self.pages@.len(),
                    k <= self.pages@[i as int]@.len(),
                    page@ == self.pages@[i as int]@.take(k as int),
                decreases self.pages@[i as int]@.len() - k,
            {
                page.push(self.pages[i][k]);
                proof {
                    let source = self.pages@[i as int]@;
                    assert(source.take(k + 1) =~= source.take(k as int).push(source[k as int]));
                }
                k = k + 1;
            }
            proof {
                let source = self.pages@[i as int]@;
                assert(source.take(source.len() as int) =~= source);
            }
            pages.push(page);
            i = i + 1;
        }
        let copy = Self { page_capacity: self.page_capacity, pages };
        proof {
            assert forall|j: int| 0 <= j < copy.pages@.len() implies (#[trigger] copy.pages@[j])@
                == self.pages@[j]@ by {
                assert(pages@[j]@ == self.pages@[j]@);
            }
            assert(copy.count() == self.count());
            assert forall|k: int| 0 <= k < self.count() && self.wf() implies copy@[k]
                == self@[k] by {
                self.lemma_place(k);
            }
            assert(self.wf() ==> copy@ =~= self@);
        }
        copy
    }
}

impl<T: Copy> Allocator<T> {
    /// Number of cells a full page holds; at least one.
    pub closed spec fn page_size(&self) -> int {
        cells_per_page::<T>(self.page_capacity)
    }

    /// Number of cells a full page holds.
    fn cells_per_page(&self) -> (cells: usize)
        ensures
            cells == self.page_size(),
    {
        if core::mem::size_of::<T>() == 0 {
            u32::MAX as usize
        } else if self.page_capacity == 0 {
            1
        } else {
            self.page_capacity as usize
        }
    }

    spec fn count(&self) -> nat {
        if self.pages@.len() == 0 {
            0
        } else {
            ((self.pages@.len() - 1) * self.page_size() + self.pages@.last()@.len()) as nat
        }
    }

    /// Every page but the last is full, the last one is not empty, and there
    /// are no more pages than addresses can name.
    pub closed spec fn wf(&self) -> bool {
        &&& self.pages@.len() <= most_pages::<T>()
        &&& forall|i: int|
            0 <= i < self.pages@.len() - 1 ==> (#[trigger] self.pages@[i])@.len()
                == self.page_size()
        &&& self.pages@.len() > 0 ==> 1 <= self.pages@.last()@.len() <= self.page_size()
    }

    /// Most cells the arena can ever hold.
    pub open spec fn limit(&self) -> int {
        most_pages::<T>() * self.page_size()
    }

    /// Position in the cell sequence that `address` stands for; negative if it
    /// names a slot that no page of this arena has.
    pub open spec fn position(&self, address: Address) -> int {
        if address.slot_number() < self.page_size() {
            address.page_number() * self.page_size() + address.slot_number()
        } else {
            -1
        }
    }

    /// The cell stored at `address`, if there is one.
    pub open spec fn get(&self, address: Address) -> Option<T> {
        let k = self.position(address);
        if 0 <= k < self@.len() {
            Some(self@[k])
        } else {
            None
        }
    }

    /// Number of pages that `count` cells take.
    pub open spec fn pages_for(&self, count: int) -> int {
        if count <= 0 {
            0
        } else {
            (count - 1) / self.page_size() + 1
        }
    }

    /// `later` holds every cell of `self` at its old address.
    pub open spec fn extended_by(&self, later: &Self) -> bool {
        &&& later.page_size() == self.page_size()
        &&& self@.is_prefix_of(later@)
    }

    proof fn lemma_slot(&self, page: int, index: int)
        requires
            self.wf(),
            0 <= page < self.pages@.len(),
            0 <= index < self.pages@[page]@.len(),
        ensures
            0 <= page * self.page_size() + index < self.count(),
            self@[page * self.page_size() + index] == self.pages@[page]@[index],
    {
        let s = self.page_size();
        let k = page * s + index;
        assert(index < s);
        lemma_fundamental_div_mod_converse(k, s, page, index);
        assert(0 <= page * s) by (nonlinear_arith)
            requires
                0 <= page,
                0 < s,
        ;
        let n = self.pages@.len();
        if page < n - 1 {
            assert((page + 1) * s <= (n - 1) * s) by (nonlinear_arith)
                requires
                    page + 1 <= n - 1,
                    0 < s,
            ;
            assert((page + 1) * s == page * s + s) by (nonlinear_arith);
        }
    }

    proof fn lemma_place(&self, k: int)
        requires
            self.wf(),
            0 <= k < self.count(),
        ensures
            0 <= k / self.page_size() < self.pages@.len(),
            0 <= k % self.page_size() < self.pages@[k / self.page_size()]@.len(),
            k == (k / self.page_size()) * self.page_size() + k % self.page_size(),
    {
        let s = self.page_size();
        let n = self.pages@.len();
        let q = k / s;
        lemma_fundamental_div_mod(k, s);
        lemma_mod_bound(k, s);
        assert(s * q == q * s) by (nonlinear_arith);
        assert(q >= 0) by (nonlinear_arith)
            requires
                k == q * s + k % s,
                0 <= k % s < s,
                k >= 0,
                s > 0,
        ;
        assert(q < n) by (nonlinear_arith)
            requires
                k == q * s + k % s,
                0 <= k % s,
                k < (n - 1) * s + s,
                s > 0,
        ;
    }

    /// The arena never grows past its limit.
    pub proof fn lemma_len(&self)
        requires
            self.wf(),
        ensures
            self@.len() <= self.limit(),
            self.page_size() >= 1,
            self.page_size() <= u32::MAX,
            self.limit() >= u32::MAX,
    {
        let s = self.page_size();
        let n = self.pages@.len();
        let most = most_pages::<T>();
        lemma_arena_limit::<T>(self.page_capacity);
        if n > 0 {
            assert((n - 1) * s + s <= most * s) by (nonlinear_arith)
                requires
                    n <= most,
                    s >= 1,
            ;
        } else {
            assert(0 <= most * s) by (nonlinear_arith)
                requires
                    most >= 0,
                    s >= 1,
            ;
        }
    }

    /// Creates an empty arena. `pages_capacity` only reserves room in advance.
    pub fn new(page_capacity: u32, pages_capacity: u32) -> (allocator: Self)
        ensures
            allocator.wf(),
            allocator@ == Seq::<T>::empty(),
            allocator.page_size() == cells_per_page::<T>(page_capacity),
    {
        let allocator = Self {
            page_capacity,
            pages: Vec::with_capacity(pages_capacity as usize),
        };
        assert(allocator@ =~= Seq::<T>::empty());
        allocator
    }

    /// Number of pages in use.
    pub fn pages_count(&self) -> (count: usize)
        requires
            self.wf(),
        ensures
            count == self.pages_for(self@.len() as int),
    {
        proof {
            let s = self.page_size();
            let n = self.pages@.len();
            if n > 0 {
                let k = self.count() - 1;
                let r = self.pages@.last()@.len() - 1;
                lemma_fundamental_div_mod_converse(k, s, n - 1, r);
                assert((n - 1) * s >= 0) by (nonlinear_arith)
                    requires
                        n >= 1,
                        s >= 1,
                ;
            }
        }
        self.pages.len()
    }

    /// Number of cells in the newest page; zero if there is none.
    pub fn current_page_size(&self) -> (size: usize)
        requires
            self.wf(),
        ensures
            size == (if self@.len() == 0 {
                0
            } else {
                self@.len() - (self.pages_for(self@.len() as int) - 1) * self.page_size()
            }),
    {
        let n = self.pages.len();
        if n == 0 {
            0
        } else {
            let size = self.pages[n - 1].len();
            proof {
                let s = self.page_size();
                let k = self.count() - 1;
                lemma_fundamental_div_mod_converse(k, s, n - 1, size - 1);
                assert((n - 1) * s >= 0) by (nonlinear_arith)
                    requires
                        n >= 1,
                        s >= 1,
                ;
            }
            size
        }
    }

    /// Appends `data` and returns its address.
    pub fn push(&mut self, data: T) -> (address: Address)
        requires
            old(self).wf(),
            old(self)@.len() < old(self).limit(),
        ensures
            final(self).wf(),
            final(self).page_size() == old(self).page_size(),
            final(self)@ == old(self)@.push(data),
            final(self).position(address) == old(self)@.len(),
            address.page_number() != u32::MAX,
            address.slot_number() != u32::MAX,
    {
        let n = self.pages.len();
        let full = n == 0 || self.pages[n - 1].len() >= self.cells_per_page();
        let ghost s = self.page_size();
        let ghost before = *self;
        if full {
            proof {
                if n > 0 {
                    assert(self.pages@.last()@.len() == s);
                    let most = most_pages::<T>();
                    assert(n < most) by (nonlinear_arith)
                        requires
                            (n - 1) * s + s < most * s,
                            s >= 1,
                    ;
                }
            }
            self.pages.push(Vec::with_capacity(self.page_capacity as usize));
        }
        let last = self.pages.len() - 1;
        self.pages[last].push(data);
        let index = self.pages[last].len() - 1;
        let address = Address { page: last as u32, index: index as u32 };
        proof {
            assert(self.page_size() == s);
            assert(self.pages@[last as int]@.len() == index + 1);
            assert(index < s);
            if full {
                assert(index == 0);
                assert(last == n);
            } else {
                assert(last == n - 1);
            }
            assert forall|i: int| 0 <= i < self.pages@.len() - 1 implies (
            #[trigger] self.pages@[i])@.len() == s by {
                assert(self.pages@[i] == before.pages@[i]);
            }
            assert(self.wf());
            assert(last * s + index == before.count()) by {
                if full && n > 0 {
                    assert((n - 1) * s + s == n * s) by (nonlinear_arith);
                }
            }
            assert(self.count() == before.count() + 1);
            assert forall|k: int| 0 <= k < self.count() implies self@[k] == before@.push(
                data,
            )[k] by {
                self.lemma_place(k);
                let q = k / s;
                let r = k % s;
                if k < before.count() {
                    before.lemma_place(k);
                } else {
                    self.lemma_slot(last as int, index as int);
                }
            }
            assert(self@ =~= before@.push(data));
        }
        address
    }

    /// Removes and returns the newest cell.
    pub fn pop(&mut self) -> (data: Option<T>)
        requires
            old(self).wf(),
        ensures
            final(self).wf(),
            final(self).page_size() == old(self).page_size(),
            match data {
                Some(cell) => old(self)@.len() > 0 && cell == old(self)@.last() && final(self)@
                    == old(self)@.drop_last(),
                None => old(self)@.len() == 0 && final(self)@ == old(self)@,
            },
    {
        let n = self.pages.len();
        if n == 0 {
            return None;
        }
        let ghost s = self.page_size();
        let ghost before = *self;
        let data = self.pages[n - 1].pop();
        proof {
            before.lemma_slot(n - 1, before.pages@.last()@.len() - 1);
        }
        if self.pages[n - 1].len() == 0 {
            let _ = self.pages.pop();
        }
        proof {
            assert(self.page_size() == s);
            let m = self.pages@.len() as int;
            if m == n - 1 && m > 0 {
                assert(self.pages@.last() == before.pages@[m - 1]);
                assert(before.pages@[m - 1]@.len() == s);
                assert((m - 1) * s + s == m * s) by (nonlinear_arith);
            }
            assert(self.wf());
            assert((n - 1) * s >= 0) by (nonlinear_arith)
                requires
                    n >= 1,
                    s >= 1,
            ;
            if m == 0 {
                assert((n - 1) * s == 0) by (nonlinear_arith)
                    requires
                        n == 1,
                ;
            }
            assert(self.count() == before.count() - 1);
            assert forall|k: int| 0 <= k < self.count() implies self@[k]
                == before@.drop_last()[k] by {
                self.lemma_place(k);
                before.lemma_place(k);
            }
            assert(self@ =~= before@.drop_last());
        }
        data
    }

    proof fn lemma_get(&self, address: Address)
        requires
            self.wf(),
        ensures
            self.get(address) == (if address.page < self.pages@.len() && address.index
                < self.pages@[address.page as int]@.len() {
                Some(self.pages@[address.page as int]@[address.index as int])
            } else {
                None
            }),
    {
        let s = self.page_size();
        let page = address.page as int;
        let index = address.index as int;
        if page < self.pages@.len() && index < self.pages@[page]@.len() {
            self.lemma_slot(page, index);
        } else if 0 <= self.position(address) < self@.len() {
            let k = self.position(address);
            self.lemma_place(k);
            lemma_fundamental_div_mod_converse(k, s, page, index);
        }
    }

    /// The cell at `address`, if the arena has one there.
    pub fn read(&self, address: Address) -> (cell: Option<&T>)
        requires
            self.wf(),
        ensures
            match cell {
                Some(data) => self.get(address) == Some(*data),
                None => self.get(address) is None,
            },
    {
        proof {
            self.lemma_get(address);
        }
        let page = address.page as usize;
        let index = address.index as usize;
        if page < self.pages.len() && index < self.pages[page].len() {
            Some(&self.pages[page][index])
        } else {
            None
        }
    }

    proof fn lemma_update(&self, later: &Self, page: int, index: int, data: T)
        requires
            self.wf(),
            0 <= page < self.pages@.len(),
            0 <= index < self.pages@[page]@.len(),
            later.page_capacity == self.page_capacity,
            later.pages@.len() == self.pages@.len(),
            later.pages@[page]@ == self.pages@[page]@.update(index, data),
            forall|i: int|
                0 <= i < self.pages@.len() && i != page ==> later.pages@[i] == self.pages@[i],
        ensures
            later.wf(),
            later@ == self@.update(page * self.page_size() + index, data),
    {
        let s = self.page_size();
        let k0 = page * s + index;
        assert forall|i: int| 0 <= i < later.pages@.len() - 1 implies (
        #[trigger] later.pages@[i])@.len() == s by {
            assert(self.pages@[i]@.len() == s);
        }
        assert(later.pages@.last()@.len() == self.pages@.last()@.len());
        self.lemma_slot(page, index);
        later.lemma_slot(page, index);
        assert forall|k: int| 0 <= k < self.count() implies later@[k] == self@.update(
            k0,
            data,
        )[k] by {
            self.lemma_place(k);
            later.lemma_place(k);
        }
        assert(later@ =~= self@.update(k0, data));
    }

    /// Mutable access to the cell at `address`, if the arena has one there.
    pub fn write(&mut self, address: Address) -> (cell: Option<&mut T>)
        requires
            old(self).wf(),
        ensures
            final(self).wf(),
            final(self).page_size() == old(self).page_size(),
            match cell {
                Some(data) => old(self).get(address) == Some(*data) && final(self)@
                    == old(self)@.update(old(self).position(address), *final(data)),
                None => old(self).get(address) is None && final(self)@ == old(self)@,
            },
    {
        proof {
            self.lemma_get(address);
        }
        let page = address.page as usize;
        let index = address.index as usize;
        if page < self.pages.len() && index < self.pages[page].len() {
            proof {
                let before = *self;
                let k = before.position(address);
                assert forall|later: Self, changed: Vec<T>, data: T|
                    #![trigger
                        later.wf(),
                        before.pages@.update(page as int, changed),
                        before.pages@[page as int]@.update(index as int, data)]
                    later.page_capacity == before.page_capacity && later.pages@
                        == before.pages@.update(page as int, changed) && changed@
                        == before.pages@[page as int]@.update(
                        index as int,
                        data,
                    ) implies later.wf() && later@ == before@.update(k, data) by {
                    before.lemma_update(&later, page as int, index as int, data);
                }
            }
            Some(&mut self.pages[page][index])
        } else {
            None
        }
    }
}

} // verus!
