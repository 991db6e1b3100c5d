//! Depth-first walk over the leaves of a grid.
use crate::allocator::{Address, Allocator};
use crate::grid::{cell_ok, tree_of, Cell, CellData, Grid};
use crate::topology::{lemma_parts_of_cube, subregion, Topology};
use crate::tree::{chunk_leaves, lemma_edge, octant_leaves, total_nodes, Cube, LeafCell, Tree};
use core::ops::Range;
use vstd::arithmetic::power2::pow2;
use vstd::prelude::*;

verus! {

/// A region on the stack covers a cube of `levels` levels, and the address
/// beside it is the root of a tree of that height.
spec fn entry_ok<T: CellData, Topo: Topology>(
    arena: Allocator<Cell<T, Topo>>,
    entry: (Range<Topo::Coord>, Address),
    levels: nat,
) -> bool {
    &&& Topo::point(entry.0.end) == entry_cube::<Topo>(entry, levels).upper()
    &&& cell_ok(arena, entry.1, levels)
}

spec fn entry_cube<Topo: Topology>(entry: (Range<Topo::Coord>, Address), levels: nat) -> Cube {
    Cube { corner: Topo::point(entry.0.start), size: pow2(levels) as int }
}

/// Leaves of the trees on a stack, the top of the stack first.
spec fn pending<T: CellData, Topo: Topology>(
    arena: Allocator<Cell<T, Topo>>,
    stack: Seq<(Range<Topo::Coord>, Address)>,
    trail: Seq<(nat, nat)>,
) -> Seq<LeafCell<T>>
    decreases stack.len(),
{
    if stack.len() == 0 {
        Seq::empty()
    } else {
        let (depth, levels) = trail.last();
        tree_of(arena, stack.last().1, levels).leaves(
            entry_cube::<Topo>(stack.last(), levels),
            depth,
        ) + pending(arena, stack.drop_last(), trail.drop_last())
    }
}

/// Cells of the trees on a stack.
spec fn work<T: CellData, Topo: Topology>(
    arena: Allocator<Cell<T, Topo>>,
    stack: Seq<(Range<Topo::Coord>, Address)>,
    trail: Seq<(nat, nat)>,
) -> nat
    decreases stack.len(),
{
    if stack.len() == 0 {
        0
    } else {
        tree_of(arena, stack.last().1, trail.last().1).nodes() + work(
            arena,
            stack.drop_last(),
            trail.drop_last(),
        )
    }
}

proof fn lemma_push<T: CellData, Topo: Topology>(
    arena: Allocator<Cell<T, Topo>>,
    stack: Seq<(Range<Topo::Coord>, Address)>,
    trail: Seq<(nat, nat)>,
    entry: (Range<Topo::Coord>, Address),
    mark: (nat, nat),
)
    ensures
        pending(arena, stack.push(entry), trail.push(mark)) == tree_of(
            arena,
            entry.1,
            mark.1,
        ).leaves(entry_cube::<Topo>(entry, mark.1), mark.0) + pending(arena, stack, trail),
        work(arena, stack.push(entry), trail.push(mark)) == tree_of(
            arena,
            entry.1,
            mark.1,
        ).nodes() + work(arena, stack, trail),
{
    assert(stack.push(entry).drop_last() =~= stack);
    assert(trail.push(mark).drop_last() =~= trail);
}

/// Depth-first iterator over a grid's leaves, made by [`Grid::iter`].
///
/// Contracts speak of it as the sequence of leaves that it has yet to hand out.
pub struct GridIter<'a, T: CellData, Topo: Topology> {
    allocator: &'a Allocator<Cell<T, Topo>>,
    stack: Vec<(Range<Topo::Coord>, Address)>,
    trail: Ghost<Seq<(nat, nat)>>,
}

impl<'a, T: CellData, Topo: Topology> View for GridIter<'a, T, Topo> {
    type V = Seq<LeafCell<T>>;

    closed spec fn view(&self) -> Seq<LeafCell<T>> {
        pending(*self.allocator, self.stack@, self.trail@)
    }
}

impl<'a, T: CellData, Topo: Topology> GridIter<'a, T, Topo> {
    /// Every entry of the stack is a cube with a tree that fits in it.
    pub closed spec fn wf(&self) -> bool {
        &&& self.allocator.wf()
        &&& self.trail@.len() == self.stack@.len()
        &&& forall|j: int|
            0 <= j < self.stack@.len() ==> entry_ok(
                *self.allocator,
                #[trigger] self.stack@[j],
                self.trail@[j].1,
            )
    }

    /// Replaces a branch that was taken from the stack by its children.
    fn expand(
        &mut self,
        region: &Range<Topo::Coord>,
        children: &Topo::Children,
        Ghost(depth): Ghost<nat>,
        Ghost(levels): Ghost<nat>,
    )
        requires
            old(self).wf(),
            levels > 0,
            Topo::point(region.end) == (Cube {
                corner: Topo::point(region.start),
                size: pow2(levels) as int,
            }).upper(),
            forall|i: int|
                0 <= i < Topo::CHILDREN ==> cell_ok(
                    *old(self).allocator,
                    #[trigger] Topo::slots(*children)[i],
                    (levels - 1) as nat,
                ),
        ensures
            final(self).wf(),
            final(self).allocator == old(self).allocator,
            ({
                let kids = Seq::new(
                    Topo::CHILDREN as nat,
                    |i: int|
                        tree_of(
                            *old(self).allocator,
                            Topo::slots(*children)[i],
                            (levels - 1) as nat,
                        ),
                );
                let cube = Cube { corner: Topo::point(region.start), size: pow2(levels) as int };
                &&& final(self)@ == octant_leaves(kids, cube, depth + 1) + old(self)@
                &&& work(*final(self).allocator, final(self).stack@, final(self).trail@)
                    == total_nodes(kids) + work(
                    *old(self).allocator,
                    old(self).stack@,
                    old(self).trail@,
                )
            }),
    {
        let ghost below = (levels - 1) as nat;
        let ghost cube = Cube { corner: Topo::point(region.start), size: pow2(levels) as int };
        let ghost arena = *self.allocator;
        let ghost kids = Seq::new(
            Topo::CHILDREN as nat,
            |i: int| tree_of(arena, Topo::slots(*children)[i], below),
        );
        let slots = Topo::children_as_slice(children);
        proof {
            Topo::lemma_slots(*children);
            Topo::lemma_shape();
            lemma_edge(levels);
            assert(octant_leaves(kids.take(0), cube, depth + 1) =~= Seq::<LeafCell<T>>::empty());
            assert(octant_leaves(kids.take(0), cube, depth + 1) + old(self)@ =~= old(self)@);
        }
        let mut index: usize = 0;
        while index < Topo::CHILDREN
            invariant
                index <= Topo::CHILDREN,
                slots@ == Topo::slots(*children),
                slots@.len() == Topo::CHILDREN,
                Topo::CHILDREN == pow2(Topo::DIMENSIONS as nat),
                levels > 0,
                below == levels - 1,
                cube == (Cube { corner: Topo::point(region.start), size: pow2(levels) as int }),
                cube.size % 2 == 0,
                cube.size / 2 == pow2(below),
                cube.size >= 2,
                Topo::point(region.end) == cube.upper(),
                arena == *self.allocator,
                self.allocator == old(self).allocator,
                kids == Seq::new(
                    Topo::CHILDREN as nat,
                    |i: int| tree_of(arena, Topo::slots(*children)[i], below),
                ),
                forall|i: int|
                    0 <= i < Topo::CHILDREN ==> cell_ok(
                        arena,
                        #[trigger] Topo::slots(*children)[i],
                        below,
                    ),
                self.wf(),
                self@ == octant_leaves(kids.take(index as int), cube, depth + 1) + old(self)@,
                work(*self.allocator, self.stack@, self.trail@) == total_nodes(
                    kids.take(index as int),
                ) + work(*old(self).allocator, old(self).stack@, old(self).trail@),
            decreases Topo::CHILDREN - index,
        {
            proof {
                Topo::lemma_point(region.start);
                Topo::lemma_point(region.end);
                assert forall|a: int| 0 <= a < Topo::DIMENSIONS implies #[trigger] Topo::point(
                    region.start,
                )[a] <= Topo::point(region.end)[a] by {
                    assert(cube.upper()[a] == cube.corner[a] + cube.size);
                }
                lemma_parts_of_cube(cube, index as int);
            }
            let part = subregion::<Topo>(region, index);
            let entry = (part, slots[index]);
            let ghost stack = self.stack@;
            let ghost trail = self.trail@;
            let ghost mark = (depth + 1, below);
            proof {
                assert(entry_cube::<Topo>(entry, below) == cube.octant(index as int));
                lemma_push(arena, stack, trail, entry, mark);
                let more = kids.take(index + 1);
                assert(more.drop_last() =~= kids.take(index as int));
                assert(more.last() == tree_of(arena, slots@[index as int], below));
                assert(cell_ok(arena, Topo::slots(*children)[index as int], below));
            }
            self.stack.push(entry);
            self.trail = Ghost(trail.push(mark));
            proof {
                assert(self.stack@ == stack.push(entry));
                assert(self.wf()) by {
                    assert forall|j: int| 0 <= j < self.stack@.len() implies entry_ok(
                        *self.allocator,
                        #[trigger] self.stack@[j],
                        self.trail@[j].1,
                    ) by {
                        if j < stack.len() {
                            assert(entry_ok(arena, stack[j], trail[j].1));
                        }
                    }
                }
                let first = tree_of(arena, entry.1, below).leaves(
                    cube.octant(index as int),
                    depth + 1,
                );
                let old_part = octant_leaves(kids.take(index as int), cube, depth + 1);
                assert(first + (old_part + old(self)@) =~= (first + old_part) + old(self)@);
            }
            index = index + 1;
        }
        proof {
            assert(kids.take(Topo::CHILDREN as int) =~= kids);
        }
    }

    /// Hands out the next leaf: the region it covers and its value.
    pub fn next(&mut self) -> (item: Option<(Range<Topo::Coord>, &'a T)>)
        requires
            old(self).wf(),
        ensures
            final(self).wf(),
            match item {
                Some((region, data)) => {
                    &&& old(self)@.len() > 0
                    &&& Topo::point(region.start) == old(self)@[0].cube.corner
                    &&& Topo::point(region.end) == old(self)@[0].cube.upper()
                    &&& *data == old(self)@[0].data
                    &&& final(self)@ == old(self)@.drop_first()
                },
                None => old(self)@.len() == 0 && final(self)@.len() == 0,
            },
    {
        loop
            invariant
                self.wf(),
                self@ == old(self)@,
            decreases work(*self.allocator, self.stack@, self.trail@),
        {
            let ghost stack = self.stack@;
            let ghost trail = self.trail@;
            let ghost arena = *self.allocator;
            let (region, address) = match self.stack.pop() {
                None => {
                    return None;
                },
                Some(entry) => entry,
            };
            let ghost (depth, levels) = trail.last();
            let ghost cube = Cube {
                corner: Topo::point(region.start),
                size: pow2(levels) as int,
            };
            let ghost rest = pending(arena, stack.drop_last(), trail.drop_last());
            proof {
                assert(stack.last() == (region, address));
                assert(entry_ok(arena, stack[stack.len() - 1], levels));
                assert(self.stack@ =~= stack.drop_last());
                self.trail = Ghost(trail.drop_last());
                assert(self.wf()) by {
                    assert forall|j: int| 0 <= j < self.stack@.len() implies entry_ok(
                        *self.allocator,
                        #[trigger] self.stack@[j],
                        self.trail@[j].1,
                    ) by {
                        assert(entry_ok(arena, stack[j], trail[j].1));
                    }
                }
                assert(self@ == rest);
            }
            if let Some(cell) = self.allocator.read(address) {
                match cell {
                    Cell::Leaf { data } => {
                        proof {
                            let leaf = LeafCell { cube, depth, data: *data };
                            assert(old(self)@ == seq![leaf] + rest);
                            assert(old(self)@.drop_first() =~= rest);
                        }
                        return Some((region, data));
                    },
                    Cell::Branch { children } => {
                        proof {
                            let tree = tree_of(arena, address, levels);
                            let kids = Seq::new(
                                Topo::CHILDREN as nat,
                                |i: int|
                                    tree_of(
                                        arena,
                                        Topo::slots(*children)[i],
                                        (levels - 1) as nat,
                                    ),
                            );
                            assert(tree->Branch_0 =~= kids);
                            assert(tree == Tree::Branch(kids));
                            assert(old(self)@ == octant_leaves(kids, cube, depth + 1) + rest);
                            assert(work(arena, stack, trail) == total_nodes(kids) + 1 + work(
                                arena,
                                stack.drop_last(),
                                trail.drop_last(),
                            ));
                        }
                        self.expand(&region, children, Ghost(depth), Ghost(levels));
                    },
                }
            }
        }
    }

    /// Hands out all remaining leaves at once.
    pub fn collect(self) -> (items: Vec<(Range<Topo::Coord>, &'a T)>)
        requires
            self.wf(),
        ensures
            items@.len() == self@.len(),
            forall|i: int|
                0 <= i < items@.len() ==> Topo::point((#[trigger] items@[i]).0.start)
                    == self@[i].cube.corner && Topo::point(items@[i].0.end)
                    == self@[i].cube.upper() && *items@[i].1 == self@[i].data,
    {
        let ghost all = self@;
        let mut rest = self;
        let mut items: Vec<(Range<Topo::Coord>, &'a T)> = Vec::new();
        loop
            invariant
                rest.wf(),
                items@.len() <= all.len(),
                rest@ == all.skip(items@.len() as int),
                forall|i: int|
                    0 <= i < items@.len() ==> Topo::point((#[trigger] items@[i]).0.start)
                        == all[i].cube.corner && Topo::point(items@[i].0.end)
                        == all[i].cube.upper() && *items@[i].1 == all[i].data,
            ensures
                items@.len() == all.len(),
                forall|i: int|
                    0 <= i < items@.len() ==> Topo::point((#[trigger] items@[i]).0.start)
                        == all[i].cube.corner && Topo::point(items@[i].0.end)
                        == all[i].cube.upper() && *items@[i].1 == all[i].data,
            decreases all.len() - items@.len(),
        {
            let ghost n = items@.len() as int;
            match rest.next() {
                None => {
                    break;
                },
                Some(item) => {
                    proof {
                        assert(all.skip(n)[0] == all[n]);
                        assert(all.skip(n).drop_first() =~= all.skip(n + 1));
                    }
                    items.push(item);
                },
            }
        }
        items
    }

    /// Number of leaves not yet handed out.
    pub fn count(self) -> (count: usize)
        requires
            self.wf(),
            self@.len() <= usize::MAX,
        ensures
            count == self@.len(),
    {
        let ghost all = self@;
        let mut rest = self;
        let mut count: usize = 0;
        loop
            invariant
                rest.wf(),
                count <= all.len() <= usize::MAX,
                rest@ == all.skip(count as int),
            ensures
                count == all.len(),
            decreases all.len() - count,
        {
            match rest.next() {
                None => {
                    break;
                },
                Some(item) => {
                    assert(all.skip(count as int).drop_first() =~= all.skip(count + 1));
                    count = count + 1;
                },
            }
        }
        count
    }
}

impl<T: CellData, Topo: Topology> Grid<T, Topo> {
    /// Iterates over every leaf as a `(region, data)` pair, where `region` is
    /// the half-open box of grid coordinates the leaf covers. The walk is depth
    /// first, last chunk first.
    pub fn iter<'a>(&'a self) -> (leaves: GridIter<'a, T, Topo>)
        requires
            self.wf(),
        ensures
            leaves.wf(),
            leaves@ == self@.leaves(),
    {
        let ghost model = self@;
        let ghost levels = self@.levels;
        proof {
            self.lemma_fields();
            self.lemma_model();
        }
        let mut leaves: GridIter<'a, T, Topo> = GridIter {
            allocator: &self.allocator,
            stack: Vec::with_capacity(self.chunks.len()),
            trail: Ghost(Seq::empty()),
        };
        let mut index: usize = 0;
        while index < self.chunks.len()
            invariant
                index <= self.chunks@.len(),
                self.wf(),
                model == self@,
                levels == model.levels,
                leaves.wf(),
                leaves.allocator == &self.allocator,
                model.chunks.len() == self.chunks@.len(),
                leaves@ == chunk_leaves(model, model.chunks.take(index as int)),
            decreases self.chunks@.len() - index,
        {
            proof {
                self.lemma_fields();
                self.lemma_model();
            }
            let region = self.chunk_region(index);
            let entry = (region, self.chunks[index]);
            let ghost stack = leaves.stack@;
            let ghost trail = leaves.trail@;
            let ghost arena = self.allocator;
            let ghost mark = (0nat, levels);
            proof {
                assert(entry_cube::<Topo>(entry, levels) == model.chunk_cube(index as int));
                assert(cell_ok(arena, self.chunks@[index as int], levels));
                lemma_push(arena, stack, trail, entry, mark);
                let more = model.chunks.take(index + 1);
                assert(more.drop_last() =~= model.chunks.take(index as int));
                assert(more.last() == tree_of(arena, self.chunks@[index as int], levels));
            }
            leaves.stack.push(entry);
            leaves.trail = Ghost(trail.push(mark));
            proof {
                assert(leaves.stack@ == stack.push(entry));
                assert(leaves.wf()) by {
                    assert forall|j: int| 0 <= j < leaves.stack@.len() implies entry_ok(
                        *leaves.allocator,
                        #[trigger] leaves.stack@[j],
                        leaves.trail@[j].1,
                    ) by {
                        if j < stack.len() {
                            assert(entry_ok(arena, stack[j], trail[j].1));
                        }
                    }
                }
            }
            index = index + 1;
        }
        proof {
            assert(model.chunks.take(index as int) =~= model.chunks);
        }
        leaves
    }
}

} // verus!
