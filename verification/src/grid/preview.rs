//! Owned tree views of a grid, mainly for debugging and tests.
use crate::allocator::Allocator;
use crate::grid::{cell_ok, tree_of, Cell, CellData, Grid};
use crate::topology::Topology;
use crate::tree::Tree;
use vstd::prelude::*;

verus! {

/// An owned, expanded view of one cell subtree, produced by [`Grid::preview`].
///
/// The branch fan-out is erased into a `Vec`, so this type is independent of
/// [`Topology`].
#[derive(Debug, PartialEq)]
pub enum GridPreviewCell<T: CellData> {
    /// A leaf carrying its data value.
    Leaf(T),
    /// A branch with one child per sub-octant/-quadrant.
    Branch(Vec<GridPreviewCell<T>>),
}

impl<T: CellData> GridPreviewCell<T> {
    /// The tree that is shown.
    pub open spec fn tree(self) -> Tree<T>
        decreases self,
    {
        match self {
            GridPreviewCell::Leaf(data) => Tree::Leaf(data),
            GridPreviewCell::Branch(children) => Tree::Branch(
                Seq::new(
                    children@.len(),
                    |i: int|
                        if 0 <= i < children@.len() {
                            children@[i].tree()
                        } else {
                            arbitrary()
                        },
                ),
            ),
        }
    }

    fn new<Topo: Topology>(
        cell: &Cell<T, Topo>,
        allocator: &Allocator<Cell<T, Topo>>,
        Ghost(levels): Ghost<nat>,
    ) -> (shown: Self)
        requires
            allocator.wf(),
            *cell matches Cell::Branch { children } ==> levels > 0 && forall|i: int|
                0 <= i < Topo::CHILDREN ==> cell_ok(
                    *allocator,
                    #[trigger] Topo::slots(children)[i],
                    (levels - 1) as nat,
                ),
        ensures
            match *cell {
                Cell::Leaf { data } => shown.tree() == Tree::Leaf(data),
                Cell::Branch { children } => shown.tree() == Tree::Branch(
                    Seq::new(
                        Topo::CHILDREN as nat,
                        |i: int|
                            tree_of(*allocator, Topo::slots(children)[i], (levels - 1) as nat),
                    ),
                ),
            },
        decreases levels,
    {
        match cell {
            Cell::Leaf { data } => GridPreviewCell::Leaf(*data),
            Cell::Branch { children } => {
                let slots = Topo::children_as_slice(children);
                let ghost below = (levels - 1) as nat;
                proof {
                    Topo::lemma_slots(*children);
                }
                let mut shown: Vec<GridPreviewCell<T>> = Vec::with_capacity(slots.len());
                let mut index: usize = 0;
                while index < slots.len()
                    invariant
                        index <= slots@.len(),
                        slots@ == Topo::slots(*children),
                        slots@.len() == Topo::CHILDREN,
                        allocator.wf(),
                        levels > 0,
                        below == levels - 1,
                        forall|i: int|
                            0 <= i < Topo::CHILDREN ==> cell_ok(
                                *allocator,
                                #[trigger] Topo::slots(*children)[i],
                                below,
                            ),
                        shown@.len() == index,
                        forall|i: int|
                            0 <= i < index ==> (#[trigger] shown@[i]).tree() == tree_of(
                                *allocator,
                                Topo::slots(*children)[i],
                                below,
                            ),
                    decreases slots@.len() - index,
                {
                    let address = slots[index];
                    assert(cell_ok(*allocator, Topo::slots(*children)[index as int], below));
                    let child = allocator.read(address).unwrap();
                    let one = GridPreviewCell::new(child, allocator, Ghost(below));
                    proof {
                        let tree = tree_of(*allocator, address, below);
                        if let Cell::Branch { children: grandchildren } = *child {
                            assert(tree->Branch_0 =~= one.tree()->Branch_0);
                        }
                        assert(one.tree() == tree);
                    }
                    shown.push(one);
                    index = index + 1;
                }
                let result = GridPreviewCell::Branch(shown);
                proof {
                    assert(result.tree()->Branch_0 =~= Seq::new(
                        Topo::CHILDREN as nat,
                        |i: int| tree_of(*allocator, Topo::slots(*children)[i], below),
                    ));
                }
                result
            },
        }
    }
}

impl<T: CellData> Clone for GridPreviewCell<T> {
    fn clone(&self) -> (copy: Self)
        ensures
            copy.tree() == self.tree(),
        decreases self,
    {
        match self {
            GridPreviewCell::Leaf(data) => GridPreviewCell::Leaf(*data),
            GridPreviewCell::Branch(children) => {
                let mut copies: Vec<GridPreviewCell<T>> = Vec::with_capacity(children.len());
                let mut index: usize = 0;
                while index < children.len()
                    invariant
                        index <= children@.len(),
                        *self == GridPreviewCell::Branch(*children),
                        copies@.len() == index,
                        forall|i: int|
                            0 <= i < index ==> (#[trigger] copies@[i]).tree()
                                == children@[i].tree(),
                    decreases children@.len() - index,
                {
                    let one = &children[index];
                    assert(decreases_to!(*self => self->Branch_0));
                    assert(decreases_to!(self->Branch_0 => self->Branch_0[index as int]));
                    copies.push(one.clone());
                    index = index + 1;
                }
                let copy = GridPreviewCell::Branch(copies);
                assert(copy.tree()->Branch_0 =~= self.tree()->Branch_0);
                copy
            },
        }
    }
}

impl<T: CellData, Topo: Topology> Grid<T, Topo> {
    /// Builds an owned, fully-expanded tree view of every chunk, mainly for
    /// debugging and tests. Unlike the arena this materialises each node, so it
    /// is not suitable for large grids.
    pub fn preview(&self) -> (shown: Vec<GridPreviewCell<T>>)
        requires
            self.wf(),
        ensures
            shown@.len() == self@.chunks.len(),
            forall|k: int|
                0 <= k < shown@.len() ==> (#[trigger] shown@[k]).tree() == self@.chunks[k],
    {
        proof {
            self.lemma_fields();
        }
        let ghost levels = self@.levels;
        let mut shown: Vec<GridPreviewCell<T>> = Vec::with_capacity(self.chunks.len());
        let mut index: usize = 0;
        while index < self.chunks.len()
            invariant
                index <= self.chunks@.len(),
                self.wf(),
                levels == self@.levels,
                self.chunks@.len() == self@.chunks.len(),
                shown@.len() == index,
                forall|k: int|
                    0 <= k < index ==> (#[trigger] shown@[k]).tree() == self@.chunks[k],
            decreases self.chunks@.len() - index,
        {
            proof {
                self.lemma_fields();
                assert(cell_ok(self.allocator, self.chunks@[index as int], levels));
            }
            let address = self.chunks[index];
            let cell = self.allocator.read(address).unwrap();
            let one = GridPreviewCell::new(cell, &self.allocator, Ghost(levels));
            proof {
                let tree = tree_of(self.allocator, address, levels);
                if let Cell::Branch { children } = *cell {
                    assert(tree->Branch_0 =~= one.tree()->Branch_0);
                }
                assert(one.tree() == tree);
            }
            shown.push(one);
            index = index + 1;
        }
        shown
    }
}

} // verus!
