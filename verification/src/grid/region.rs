//! Region queries against a grid.
use crate::allocator::{Address, Allocator};
use crate::geometry::{addressable, overlap, overlapping, product};
use crate::grid::sampler::{GridSample, GridSampleView, GridSampler};
use crate::grid::{cell_ok, lemma_tree_shape, tree_of, Cell, CellData, Grid};
use crate::topology::{child_corner, Topology};
use crate::tree::{
    chunk_granularity, chunk_leaves, larger, lemma_edge, lemma_no_touching, octant_granularity,
    octant_leaves, total_nodes, touching, Cube, LeafCell, Tree,
};
use core::ops::Range;
use vstd::arithmetic::power2::pow2;
use vstd::prelude::*;

verus! {

/// An entry of the stack is a cube of `levels` levels inside the coordinate
/// range, with the root of a tree of that height.
spec fn entry_ok<T: CellData, Topo: Topology>(
    arena: Allocator<Cell<T, Topo>>,
    entry: (Address, Topo::Coord, usize, usize),
    levels: nat,
) -> bool {
    &&& entry.2 == pow2(levels)
    &&& entry.3 + levels < usize::BITS
    &&& forall|a: int|
        0 <= a < Topo::DIMENSIONS ==> #[trigger] Topo::point(entry.1)[a] + entry.2 <= usize::MAX
    &&& cell_ok(arena, entry.0, levels)
}

spec fn entry_cube<Topo: Topology>(entry: (Address, Topo::Coord, usize, usize)) -> Cube {
    Cube { corner: Topo::point(entry.1), size: entry.2 as int }
}

spec fn meets<Topo: Topology>(
    entry: (Address, Topo::Coord, usize, usize),
    lo: Seq<int>,
    hi: Seq<int>,
) -> bool {
    overlapping(lo, hi, Topo::point(entry.1), entry.2 as int)
}

/// Leaves of the trees on a stack that meet the box `lo..hi`, the top of the
/// stack first.
spec fn pending<T: CellData, Topo: Topology>(
    arena: Allocator<Cell<T, Topo>>,
    stack: Seq<(Address, Topo::Coord, usize, usize)>,
    trail: Seq<nat>,
    lo: Seq<int>,
    hi: Seq<int>,
) -> Seq<LeafCell<T>>
    decreases stack.len(),
{
    if stack.len() == 0 {
        Seq::empty()
    } else {
        tree_of(arena, stack.last().0, trail.last()).leaves(
            entry_cube::<Topo>(stack.last()),
            stack.last().3 as nat,
        ).filter(touching(lo, hi)) + pending(arena, stack.drop_last(), trail.drop_last(), lo, hi)
    }
}

/// Cells of the trees on a stack.
spec fn work<T: CellData, Topo: Topology>(
    arena: Allocator<Cell<T, Topo>>,
    stack: Seq<(Address, Topo::Coord, usize, usize)>,
    trail: Seq<nat>,
) -> nat
    decreases stack.len(),
{
    if stack.len() == 0 {
        0
    } else {
        tree_of(arena, stack.last().0, trail.last()).nodes() + work(
            arena,
            stack.drop_last(),
            trail.drop_last(),
        )
    }
}

proof fn lemma_push<T: CellData, Topo: Topology>(
    arena: Allocator<Cell<T, Topo>>,
    stack: Seq<(Address, Topo::Coord, usize, usize)>,
    trail: Seq<nat>,
    entry: (Address, Topo::Coord, usize, usize),
    levels: nat,
    lo: Seq<int>,
    hi: Seq<int>,
)
    ensures
        pending(arena, stack.push(entry), trail.push(levels), lo, hi) == tree_of(
            arena,
            entry.0,
            levels,
        ).leaves(entry_cube::<Topo>(entry), entry.3 as nat).filter(touching(lo, hi)) + pending(
            arena,
            stack,
            trail,
            lo,
            hi,
        ),
        work(arena, stack.push(entry), trail.push(levels)) == tree_of(
            arena,
            entry.0,
            levels,
        ).nodes() + work(arena, stack, trail),
{
    assert(stack.push(entry).drop_last() =~= stack);
    assert(trail.push(levels).drop_last() =~= trail);
}

/// Iterator over leaves overlapping a region, made by
/// [`GridSampler::sample_region`].
///
/// Contracts speak of it as the sequence of leaves that it has yet to hand out.
pub struct GridSampleIter<'a, T: CellData, Topo: Topology> {
    allocator: &'a Allocator<Cell<T, Topo>>,
    region: Range<Topo::Coord>,
    stack: Vec<(Address, Topo::Coord, usize, usize)>,
    trail: Ghost<Seq<nat>>,
}

impl<'a, T: CellData, Topo: Topology> View for GridSampleIter<'a, T, Topo> {
    type V = Seq<LeafCell<T>>;

    closed spec fn view(&self) -> Seq<LeafCell<T>> {
        pending(*self.allocator, self.stack@, self.trail@, self.lower(), self.upper())
    }
}

impl<'a, T: CellData, Topo: Topology> GridSampleIter<'a, T, Topo> {
    /// Lowest point of the queried region.
    pub closed spec fn lower(&self) -> Seq<int> {
        Topo::point(self.region.start)
    }

    /// Upper end of the queried region.
    pub closed spec fn upper(&self) -> Seq<int> {
        Topo::point(self.region.end)
    }

    /// Every entry of the stack is a cube that meets the region, with a tree that
    /// fits in it.
    pub closed spec fn wf(&self) -> bool {
        &&& self.allocator.wf()
        &&& self.trail@.len() == self.stack@.len()
        &&& forall|j: int|
            0 <= j < self.stack@.len() ==> entry_ok(
                *self.allocator,
                #[trigger] self.stack@[j],
                self.trail@[j],
            ) && meets::<Topo>(self.stack@[j], self.lower(), self.upper())
    }

    /// The share of a leaf that lies in the queried region can be counted.
    pub open spec fn countable(&self, leaf: LeafCell<T>) -> bool {
        addressable(overlap(self.lower(), self.upper(), leaf.cube.corner, leaf.cube.size))
    }

    /// Puts one cell on the stack, unless its cube misses the region.
    fn enter(&mut self, entry: (Address, Topo::Coord, usize, usize), Ghost(levels): Ghost<nat>)
        requires
            old(self).wf(),
            entry_ok(*old(self).allocator, entry, levels),
        ensures
            final(self).wf(),
            final(self).allocator == old(self).allocator,
            final(self).region == old(self).region,
            final(self)@ == tree_of(*old(self).allocator, entry.0, levels).leaves(
                entry_cube::<Topo>(entry),
                entry.3 as nat,
            ).filter(touching(old(self).lower(), old(self).upper())) + old(self)@,
            work(*final(self).allocator, final(self).stack@, final(self).trail@) <= tree_of(
                *old(self).allocator,
                entry.0,
                levels,
            ).nodes() + work(*old(self).allocator, old(self).stack@, old(self).trail@),
    {
        let ghost arena = *self.allocator;
        let ghost stack = self.stack@;
        let ghost trail = self.trail@;
        let ghost lo = self.lower();
        let ghost hi = self.upper();
        let ghost tree = tree_of(arena, entry.0, levels);
        proof {
            Topo::lemma_shape();
            Topo::lemma_point(entry.1);
            lemma_tree_shape(arena, entry.0, levels);
        }
        if Topo::overlaps(&self.region, entry.1, entry.2) {
            proof {
                lemma_push(arena, stack, trail, entry, levels, lo, hi);
            }
            self.stack.push(entry);
            self.trail = Ghost(trail.push(levels));
            proof {
                assert(self.stack@ == stack.push(entry));
                assert forall|j: int| 0 <= j < self.stack@.len() implies entry_ok(
                    *self.allocator,
                    #[trigger] self.stack@[j],
                    self.trail@[j],
                ) && meets::<Topo>(self.stack@[j], lo, hi) by {
                    if j < stack.len() {
                        assert(entry_ok(arena, stack[j], trail[j]));
                    }
                }
            }
        } else {
            proof {
                lemma_no_touching(
                    tree,
                    entry_cube::<Topo>(entry),
                    entry.3 as nat,
                    levels,
                    lo,
                    hi,
                );
                assert(Seq::<LeafCell<T>>::empty() + old(self)@ =~= old(self)@);
            }
        }
    }

    /// Hands out the next leaf with the size of its overlap.
    pub fn next(&mut self) -> (item: Option<GridSampleView<'a, T, Topo>>)
        requires
            old(self).wf(),
            old(self)@.len() > 0 ==> old(self).countable(old(self)@[0]),
        ensures
            final(self).wf(),
            final(self).lower() == old(self).lower(),
            final(self).upper() == old(self).upper(),
            match item {
                Some(view) => {
                    &&& old(self)@.len() > 0
                    &&& view.sample@ == old(self)@[0]
                    &&& view.overlap_area == product(
                        overlap(
                            old(self).lower(),
                            old(self).upper(),
                            old(self)@[0].cube.corner,
                            old(self)@[0].cube.size,
                        ),
                    )
                    &&& final(self)@ == old(self)@.drop_first()
                },
                None => old(self)@.len() == 0 && final(self)@.len() == 0,
            },
    {
        let ghost lo = self.lower();
        let ghost hi = self.upper();
        loop
            invariant
                self.wf(),
                self@ == old(self)@,
                self.region == old(self).region,
                lo == self.lower(),
                hi == self.upper(),
                old(self)@.len() > 0 ==> old(self).countable(old(self)@[0]),
            decreases work(*self.allocator, self.stack@, self.trail@),
        {
            let ghost stack = self.stack@;
            let ghost trail = self.trail@;
            let ghost arena = *self.allocator;
            let entry = match self.stack.pop() {
                None => {
                    return None;
                },
                Some(entry) => entry,
            };
            let (address, offset, size, depth) = entry;
            let ghost levels = trail.last();
            let ghost cube = entry_cube::<Topo>(entry);
            let ghost tree = tree_of(arena, address, levels);
            let ghost rest = pending(arena, stack.drop_last(), trail.drop_last(), lo, hi);
            proof {
                assert(entry_ok(arena, stack[stack.len() - 1], levels));
                assert(self.stack@ =~= stack.drop_last());
                self.trail = Ghost(trail.drop_last());
                assert forall|j: int| 0 <= j < self.stack@.len() implies entry_ok(
                    *self.allocator,
                    #[trigger] self.stack@[j],
                    self.trail@[j],
                ) && meets::<Topo>(self.stack@[j], lo, hi) by {
                    assert(entry_ok(arena, stack[j], trail[j]));
                }
                assert(self@ == rest);
                assert(old(self)@ == tree.leaves(cube, depth as nat).filter(touching(lo, hi))
                    + rest);
            }
            if let Some(cell) = self.allocator.read(address) {
                match cell {
                    Cell::Leaf { data } => {
                        let ghost leaf = LeafCell { cube, depth: depth as nat, data: *data };
                        proof {
                            assert(tree.leaves(cube, depth as nat) == seq![leaf]);
                            lemma_filter_one(leaf, touching(lo, hi));
                            assert(touching::<T>(lo, hi)(leaf));
                            assert(old(self)@ == seq![leaf] + rest);
                            assert(old(self)@[0] == leaf);
                            assert(old(self)@.drop_first() =~= rest);
                        }
                        let overlap_area = Topo::overlap_volume(&self.region, offset, size);
                        return Some(
                            GridSampleView {
                                sample: GridSample { offset, depth, size, data },
                                overlap_area,
                            },
                        );
                    },
                    Cell::Branch { children } => {
                        let ghost below = (levels - 1) as nat;
                        let ghost kids = Seq::new(
                            Topo::CHILDREN as nat,
                            |i: int| tree_of(arena, Topo::slots(*children)[i], below),
                        );
                        let ghost t = touching::<T>(lo, hi);
                        let slots = Topo::children_as_slice(children);
                        proof {
                            assert(tree->Branch_0 =~= kids);
                            assert(tree == Tree::Branch(kids));
                            Topo::lemma_slots(*children);
                            Topo::lemma_shape();
                            Topo::lemma_point(offset);
                            lemma_edge(levels);
                            assert(octant_leaves(kids.take(0), cube, (depth + 1) as nat).filter(t)
                                =~= Seq::<LeafCell<T>>::empty()) by {
                                reveal(Seq::filter);
                            }
                            assert(Seq::<LeafCell<T>>::empty() + rest =~= rest);
                        }
                        let half = size / 2;
                        let mut child_index: usize = 0;
                        while child_index < Topo::CHILDREN
                            invariant
                                child_index <= Topo::CHILDREN,
                                slots@ == Topo::slots(*children),
                                slots@.len() == Topo::CHILDREN,
                                Topo::CHILDREN == pow2(Topo::DIMENSIONS as nat),
                                Topo::point(offset).len() == Topo::DIMENSIONS,
                                levels > 0,
                                below == levels - 1,
                                half == pow2(below),
                                size == 2 * half,
                                cube == (Cube { corner: Topo::point(offset), size: size as int }),
                                depth + levels < usize::BITS,
                                forall|a: int|
                                    0 <= a < Topo::DIMENSIONS ==> #[trigger] Topo::point(
                                        offset,
                                    )[a] + size <= usize::MAX,
                                arena == *self.allocator,
                                self.region == old(self).region,
                                lo == self.lower(),
                                hi == self.upper(),
                                t == touching::<T>(lo, hi),
                                kids == Seq::new(
                                    Topo::CHILDREN as nat,
                                    |i: int| tree_of(arena, Topo::slots(*children)[i], below),
                                ),
                                forall|i: int|
                                    0 <= i < Topo::CHILDREN ==> cell_ok(
                                        arena,
                                        #[trigger] Topo::slots(*children)[i],
                                        below,
                                    ),
                                self.wf(),
                                self@ == octant_leaves(
                                    kids.take(child_index as int),
                                    cube,
                                    (depth + 1) as nat,
                                ).filter(t) + rest,
                                work(*self.allocator, self.stack@, self.trail@) <= total_nodes(
                                    kids.take(child_index as int),
                                ) + work(arena, stack.drop_last(), trail.drop_last()),
                            decreases Topo::CHILDREN - child_index,
                        {
                            let ghost i = child_index as int;
                            let corner = child_corner::<Topo>(offset, half, child_index);
                            let child = (slots[child_index], corner, half, depth + 1);
                            proof {
                                Topo::lemma_point(corner);
                                assert(entry_cube::<Topo>(child) == cube.octant(i));
                                assert forall|a: int| 0 <= a < Topo::DIMENSIONS implies
                                    #[trigger] Topo::point(corner)[a] + half
                                    <= usize::MAX by {
                                    cube.lemma_octant_inside(i, a);
                                    assert(Topo::point(offset)[a] + size <= usize::MAX);
                                }
                                assert(cell_ok(arena, Topo::slots(*children)[i], below));
                                let more = kids.take(i + 1);
                                assert(more.drop_last() =~= kids.take(i));
                                assert(more.last() == tree_of(arena, slots@[i], below));
                                let first = more.last().leaves(cube.octant(i), (depth + 1) as nat);
                                let others = octant_leaves(
                                    kids.take(i),
                                    cube,
                                    (depth + 1) as nat,
                                );
                                Seq::filter_distributes_over_add(first, others, t);
                                assert(first.filter(t) + (others.filter(t) + rest) =~= (
                                first.filter(t) + others.filter(t)) + rest);
                            }
                            self.enter(child, Ghost(below));
                            child_index = child_index + 1;
                        }
                        proof {
                            assert(kids.take(Topo::CHILDREN as int) =~= kids);
                        }
                    },
                }
            }
        }
    }

    /// Hands out all remaining leaves at once.
    pub fn collect(self) -> (items: Vec<GridSampleView<'a, T, Topo>>)
        requires
            self.wf(),
            forall|i: int| 0 <= i < self@.len() ==> self.countable(#[trigger] self@[i]),
        ensures
            items@.len() == self@.len(),
            forall|i: int|
                0 <= i < items@.len() ==> (#[trigger] items@[i]).sample@ == self@[i]
                    && items@[i].overlap_area == product(
                    overlap(self.lower(), self.upper(), self@[i].cube.corner, self@[i].cube.size),
                ),
    {
        let ghost all = self@;
        let mut rest = self;
        let mut items: Vec<GridSampleView<'a, T, Topo>> = Vec::new();
        loop
            invariant
                rest.wf(),
                rest.lower() == self.lower(),
                rest.upper() == self.upper(),
                all == self@,
                forall|i: int| 0 <= i < all.len() ==> self.countable(#[trigger] all[i]),
                items@.len() <= all.len(),
                rest@ == all.skip(items@.len() as int),
                forall|i: int|
                    0 <= i < items@.len() ==> (#[trigger] items@[i]).sample@ == all[i]
                        && items@[i].overlap_area == product(
                        overlap(self.lower(), self.upper(), all[i].cube.corner, all[i].cube.size),
                    ),
            ensures
                items@.len() == all.len(),
                forall|i: int|
                    0 <= i < items@.len() ==> (#[trigger] items@[i]).sample@ == all[i]
                        && items@[i].overlap_area == product(
                        overlap(self.lower(), self.upper(), all[i].cube.corner, all[i].cube.size),
                    ),
            decreases all.len() - items@.len(),
        {
            let ghost n = items@.len() as int;
            proof {
                if n < all.len() {
                    assert(all.skip(n)[0] == all[n]);
                    assert(self.countable(all[n]));
                }
            }
            match rest.next() {
                None => {
                    break;
                },
                Some(item) => {
                    assert(all.skip(n).drop_first() =~= all.skip(n + 1));
                    items.push(item);
                },
            }
        }
        items
    }
}

proof fn lemma_filter_one<T>(leaf: LeafCell<T>, keep: spec_fn(LeafCell<T>) -> bool)
    ensures
        seq![leaf].filter(keep) == (if keep(leaf) {
            seq![leaf]
        } else {
            Seq::empty()
        }),
{
    reveal(Seq::filter);
    let one = seq![leaf];
    assert(one.drop_last() =~= Seq::<LeafCell<T>>::empty());
    assert(one.drop_last().filter(keep) =~= Seq::<LeafCell<T>>::empty());
    assert(one.filter(keep) =~= (if keep(leaf) {
        seq![leaf]
    } else {
        Seq::empty()
    }));
}

impl<'a, T: CellData, Topo: Topology> GridSampler<'a, T, Topo> {
    /// Iterates over every leaf overlapping `region`, each paired with its
    /// overlap area. Does not use or populate the cache.
    pub fn sample_region(&self, region: Range<Topo::Coord>) -> (leaves: GridSampleIter<'a, T, Topo>)
        requires
            self.wf(),
        ensures
            leaves.wf(),
            leaves.lower() == Topo::point(region.start),
            leaves.upper() == Topo::point(region.end),
            leaves@ == self.source()@.leaves().filter(
                touching(Topo::point(region.start), Topo::point(region.end)),
            ),
    {
        let grid: &'a Grid<T, Topo> = self.grid;
        let ghost model = grid@;
        let ghost levels = model.levels;
        let ghost lo = Topo::point(region.start);
        let ghost hi = Topo::point(region.end);
        let ghost t = touching::<T>(lo, hi);
        proof {
            self.lemma_fields();
            grid.lemma_fields();
            grid.lemma_model();
        }
        let mut leaves: GridSampleIter<'a, T, Topo> = GridSampleIter {
            allocator: &grid.allocator,
            region,
            stack: Vec::new(),
            trail: Ghost(Seq::empty()),
        };
        proof {
            assert(chunk_leaves(model, model.chunks.take(0)).filter(t) =~= Seq::<
                LeafCell<T>,
            >::empty()) by {
                reveal(Seq::filter);
            }
        }
        let mut index: usize = 0;
        while index < grid.chunks.len()
            invariant
                index <= grid.chunks@.len(),
                grid.wf(),
                model == grid@,
                levels == model.levels,
                leaves.wf(),
                leaves.allocator == &grid.allocator,
                leaves.region == region,
                lo == leaves.lower(),
                hi == leaves.upper(),
                t == touching::<T>(lo, hi),
                model.chunks.len() == grid.chunks@.len(),
                leaves@ == chunk_leaves(model, model.chunks.take(index as int)).filter(t),
            decreases grid.chunks@.len() - index,
        {
            proof {
                grid.lemma_fields();
                grid.lemma_model();
            }
            let ghost k = index as int;
            let offset = grid.chunk_corner(index);
            let entry = (grid.chunks[index], offset, grid.chunk_size, 0usize);
            proof {
                Topo::lemma_point(offset);
                assert(entry_cube::<Topo>(entry) == model.chunk_cube(k));
                assert(cell_ok(grid.allocator, grid.chunks@[k], levels));
                assert forall|a: int| 0 <= a < Topo::DIMENSIONS implies #[trigger] Topo::point(
                    offset,
                )[a] + grid.chunk_size <= usize::MAX by {
                    model.lemma_chunk_inside(k, a);
                    assert(model.size()[a] <= usize::MAX);
                }
                let more = model.chunks.take(k + 1);
                assert(more.drop_last() =~= model.chunks.take(k));
                assert(more.last() == tree_of(grid.allocator, grid.chunks@[k], levels));
                Seq::filter_distributes_over_add(
                    more.last().leaves(model.chunk_cube(k), 0),
                    chunk_leaves(model, model.chunks.take(k)),
                    t,
                );
            }
            leaves.enter(entry, Ghost(levels));
            index = index + 1;
        }
        proof {
            assert(model.chunks.take(index as int) =~= model.chunks);
        }
        leaves
    }

    /// Granularity of the tree below one cell.
    fn cell_granularity(
        address: Address,
        allocator: &Allocator<Cell<T, Topo>>,
        region: &Range<Topo::Coord>,
        offset: Topo::Coord,
        depth: usize,
        size: usize,
        Ghost(levels): Ghost<nat>,
    ) -> (granularity: usize)
        requires
            allocator.wf(),
            entry_ok(*allocator, (address, offset, size, depth), levels),
        ensures
            granularity == tree_of(*allocator, address, levels).granularity(
                Cube { corner: Topo::point(offset), size: size as int },
                depth as nat,
                Topo::point(region.start),
                Topo::point(region.end),
            ),
            granularity <= depth + levels,
        decreases levels,
    {
        let ghost lo = Topo::point(region.start);
        let ghost hi = Topo::point(region.end);
        let ghost cube = Cube { corner: Topo::point(offset), size: size as int };
        let ghost tree = tree_of(*allocator, address, levels);
        proof {
            let entry = (address, offset, size, depth);
            assert forall|a: int| 0 <= a < Topo::DIMENSIONS implies #[trigger] Topo::point(
                offset,
            )[a] + size <= usize::MAX by {
                assert(Topo::point(entry.1)[a] + entry.2 <= usize::MAX);
            }
        }
        if !Topo::overlaps(region, offset, size) {
            return 0;
        }
        let cell = allocator.read(address).unwrap();
        match cell {
            Cell::Leaf { .. } => depth,
            Cell::Branch { children } => {
                let ghost below = (levels - 1) as nat;
                let ghost kids = Seq::new(
                    Topo::CHILDREN as nat,
                    |i: int| tree_of(*allocator, Topo::slots(*children)[i], below),
                );
                let slots = Topo::children_as_slice(children);
                proof {
                    assert(tree->Branch_0 =~= kids);
                    assert(tree == Tree::Branch(kids));
                    Topo::lemma_slots(*children);
                    Topo::lemma_shape();
                    Topo::lemma_point(offset);
                    lemma_edge(levels);
                }
                let half = size / 2;
                let mut max_depth = depth + 1;
                let mut child_index: usize = 0;
                while child_index < Topo::CHILDREN
                    invariant
                        child_index <= Topo::CHILDREN,
                        slots@ == Topo::slots(*children),
                        slots@.len() == Topo::CHILDREN,
                        Topo::CHILDREN == pow2(Topo::DIMENSIONS as nat),
                        Topo::point(offset).len() == Topo::DIMENSIONS,
                        allocator.wf(),
                        levels > 0,
                        below == levels - 1,
                        half == pow2(below),
                        size == 2 * half,
                        cube == (Cube { corner: Topo::point(offset), size: size as int }),
                        depth + levels < usize::BITS,
                        lo == Topo::point(region.start),
                        hi == Topo::point(region.end),
                        forall|a: int|
                            0 <= a < Topo::DIMENSIONS ==> #[trigger] Topo::point(offset)[a] + size
                                <= usize::MAX,
                        kids == Seq::new(
                            Topo::CHILDREN as nat,
                            |i: int| tree_of(*allocator, Topo::slots(*children)[i], below),
                        ),
                        forall|i: int|
                            0 <= i < Topo::CHILDREN ==> cell_ok(
                                *allocator,
                                #[trigger] Topo::slots(*children)[i],
                                below,
                            ),
                        max_depth == larger(
                            (depth + 1) as nat,
                            octant_granularity(
                                kids.take(child_index as int),
                                cube,
                                (depth + 1) as nat,
                                lo,
                                hi,
                            ),
                        ),
                        max_depth <= depth + levels,
                    decreases Topo::CHILDREN - child_index,
                {
                    let ghost i = child_index as int;
                    let corner = child_corner::<Topo>(offset, half, child_index);
                    proof {
                        Topo::lemma_point(corner);
                        assert((Cube { corner: Topo::point(corner), size: half as int })
                            == cube.octant(i));
                        assert forall|a: int| 0 <= a < Topo::DIMENSIONS implies
                            #[trigger] Topo::point(corner)[a] + half <= usize::MAX by {
                            cube.lemma_octant_inside(i, a);
                            assert(Topo::point(offset)[a] + size <= usize::MAX);
                        }
                        assert(cell_ok(*allocator, Topo::slots(*children)[i], below));
                        let more = kids.take(i + 1);
                        assert(more.drop_last() =~= kids.take(i));
                        assert(more.last() == tree_of(*allocator, slots@[i], below));
                    }
                    let child_depth = Self::cell_granularity(
                        slots[child_index],
                        allocator,
                        region,
                        corner,
                        depth + 1,
                        half,
                        Ghost(below),
                    );
                    if max_depth < child_depth {
                        max_depth = child_depth;
                    }
                    child_index = child_index + 1;
                }
                proof {
                    assert(kids.take(Topo::CHILDREN as int) =~= kids);
                }
                max_depth
            },
        }
    }

    /// How finely subdivided `region` currently is: the maximum depth among the
    /// leaves that overlap it. Used by quantizers to match a neighbourhood's
    /// resolution before processing it.
    pub fn region_granularity_depth(&self, region: Range<Topo::Coord>) -> (depth: usize)
        requires
            self.wf(),
        ensures
            depth == self.source()@.granularity(
                Topo::point(region.start),
                Topo::point(region.end),
            ),
            depth <= self.source()@.levels,
    {
        let grid: &'a Grid<T, Topo> = self.grid;
        let ghost model = grid@;
        let ghost levels = model.levels;
        let ghost lo = Topo::point(region.start);
        let ghost hi = Topo::point(region.end);
        proof {
            self.lemma_fields();
            grid.lemma_fields();
        }
        let mut depth: usize = 0;
        let mut index: usize = 0;
        while index < grid.chunks.len()
            invariant
                index <= grid.chunks@.len(),
                grid.wf(),
                model == grid@,
                levels == model.levels,
                lo == Topo::point(region.start),
                hi == Topo::point(region.end),
                model.chunks.len() == grid.chunks@.len(),
                depth == chunk_granularity(model, model.chunks.take(index as int), lo, hi),
                depth <= levels,
            decreases grid.chunks@.len() - index,
        {
            proof {
                grid.lemma_fields();
                grid.lemma_model();
            }
            let ghost k = index as int;
            let offset = grid.chunk_corner(index);
            proof {
                Topo::lemma_point(offset);
                assert((Cube { corner: Topo::point(offset), size: grid.chunk_size as int })
                    == model.chunk_cube(k));
                assert(cell_ok(grid.allocator, grid.chunks@[k], levels));
                assert forall|a: int| 0 <= a < Topo::DIMENSIONS implies #[trigger] Topo::point(
                    offset,
                )[a] + grid.chunk_size <= usize::MAX by {
                    model.lemma_chunk_inside(k, a);
                    assert(model.size()[a] <= usize::MAX);
                }
                let more = model.chunks.take(k + 1);
                assert(more.drop_last() =~= model.chunks.take(k));
                assert(more.last() == tree_of(grid.allocator, grid.chunks@[k], levels));
            }
            let chunk_depth = Self::cell_granularity(
                grid.chunks[index],
                &grid.allocator,
                &region,
                offset,
                0,
                grid.chunk_size,
                Ghost(levels),
            );
            if depth < chunk_depth {
                depth = chunk_depth;
            }
            index = index + 1;
        }
        proof {
            assert(model.chunks.take(index as int) =~= model.chunks);
        }
        depth
    }
}

} // verus!
