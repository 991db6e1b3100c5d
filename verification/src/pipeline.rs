//! Running a rule over a whole grid.
use crate::allocator::{Address, Allocator};
use crate::grid::{
    cell_ok, lemma_tree_stable, tree_of, Cell, CellData, Grid, GridSample, GridSampler,
};
use crate::grid::sampler::trimmed;
use crate::quantizer::context::{
    cube_of, lemma_child_placed, lemma_placed_region, placed, CellContext,
};
use crate::quantizer::emitter::CellEmitter;
use crate::quantizer::{
    added, group_cells, grown, join, joined, mergeable, settles, Quantizer,
};
use crate::topology::{subregion, Topology};
use crate::tree::{lemma_sum_push, sum_of, Cube, GridModel, Tree};
use core::ops::Range;
use vstd::prelude::*;

verus! {

/// `out` is what the rule makes of `tree`: it replaces every leaf, and the
/// replacements are put together again from the bottom up.
pub open spec fn derives<Q: Quantizer>(
    rule: &Q,
    source: GridModel<Q::CellData>,
    cube: Cube,
    depth: nat,
    tree: Tree<Q::CellData>,
    out: Tree<Q::CellData>,
) -> bool
    decreases tree,
{
    match tree {
        Tree::Leaf(data) => rule.yields(source, cube, depth, data, out),
        Tree::Branch(kids) => exists|parts: Seq<Tree<Q::CellData>>|
            {
                &&& parts.len() == kids.len()
                &&& forall|i: int|
                    0 <= i < kids.len() ==> derives(
                        rule,
                        source,
                        cube.octant(i),
                        depth + 1,
                        kids[i],
                        #[trigger] parts[i],
                    )
                &&& #[trigger] joined(rule, parts, out)
            },
    }
}

/// `result` is what a rule makes of `source`, chunk by chunk.
pub open spec fn transformed<Q: Quantizer>(
    rule: &Q,
    source: GridModel<Q::CellData>,
    result: GridModel<Q::CellData>,
) -> bool {
    &&& result.chunks_num == source.chunks_num
    &&& result.levels == source.levels
    &&& result.chunks.len() == source.chunks.len()
    &&& forall|k: int|
        0 <= k < result.chunks.len() ==> derives(
            rule,
            source,
            source.chunk_cube(k),
            0,
            source.chunks[k],
            #[trigger] result.chunks[k],
        )
}

/// `out` may come out when the rule runs over `tree`, with `cells` more cells left
/// in the arena.
pub open spec fn derive_emits<Q: Quantizer>(
    rule: &Q,
    source: GridModel<Q::CellData>,
    cube: Cube,
    depth: nat,
    tree: Tree<Q::CellData>,
    out: Tree<Q::CellData>,
    cells: nat,
) -> bool
    decreases tree,
{
    match tree {
        Tree::Leaf(data) => settles(rule, source, cube, depth, data, out, cells),
        Tree::Branch(kids) => exists|parts: Seq<Tree<Q::CellData>>, counts: Seq<nat>|
            {
                &&& parts.len() == kids.len()
                &&& counts.len() == kids.len()
                &&& forall|i: int|
                    #![trigger parts[i]]
                    0 <= i < kids.len() ==> derive_emits(
                        rule,
                        source,
                        cube.octant(i),
                        depth + 1,
                        kids[i],
                        parts[i],
                        counts[i],
                    )
                &&& #[trigger] joined(rule, parts, out)
                &&& cells == #[trigger] group_cells(parts, counts)
            },
    }
}

/// `parts` may have come out for the first octants of a branch, with `counts`
/// more cells left in the arena for each.
pub open spec fn derive_prefix<Q: Quantizer>(
    rule: &Q,
    source: GridModel<Q::CellData>,
    cube: Cube,
    depth: nat,
    kids: Seq<Tree<Q::CellData>>,
    parts: Seq<Tree<Q::CellData>>,
    counts: Seq<nat>,
) -> bool {
    &&& parts.len() == counts.len() <= kids.len()
    &&& forall|i: int|
        #![trigger parts[i]]
        0 <= i < parts.len() ==> derive_emits(
            rule,
            source,
            cube.octant(i),
            depth + 1,
            kids[i],
            parts[i],
            counts[i],
        )
}

/// Running the rule over `tree` never takes more than `room` more cells in the
/// arena at once: whatever came out for the octants of a branch so far, there is
/// room for the next one, and in the end for a branch unless they merge.
pub open spec fn tree_fits<Q: Quantizer>(
    rule: &Q,
    source: GridModel<Q::CellData>,
    cube: Cube,
    depth: nat,
    tree: Tree<Q::CellData>,
    room: int,
) -> bool
    decreases tree,
{
    match tree {
        Tree::Leaf(data) => rule.fits(source, cube, depth, data, room),
        Tree::Branch(kids) => forall|parts: Seq<Tree<Q::CellData>>, counts: Seq<nat>| #[trigger]
            derive_prefix(rule, source, cube, depth, kids, parts, counts) ==> {
                if parts.len() < kids.len() {
                    tree_fits(
                        rule,
                        source,
                        cube.octant(parts.len() as int),
                        depth + 1,
                        kids[parts.len() as int],
                        room - sum_of(counts),
                    )
                } else {
                    mergeable(parts) || sum_of(counts) < room
                }
            },
    }
}

/// Where a branch fits, so does its next octant in the room that is left.
proof fn lemma_next_fits<Q: Quantizer>(
    rule: &Q,
    source: GridModel<Q::CellData>,
    cube: Cube,
    depth: nat,
    kids: Seq<Tree<Q::CellData>>,
    parts: Seq<Tree<Q::CellData>>,
    counts: Seq<nat>,
    room: int,
)
    requires
        tree_fits(rule, source, cube, depth, Tree::Branch(kids), room),
        derive_prefix(rule, source, cube, depth, kids, parts, counts),
        parts.len() < kids.len(),
    ensures
        tree_fits(
            rule,
            source,
            cube.octant(parts.len() as int),
            depth + 1,
            kids[parts.len() as int],
            room - sum_of(counts),
        ),
{
    assert(Tree::<Q::CellData>::Branch(kids)->Branch_0 == kids);
}

/// `parts` may have come out for the first chunks of a grid, with `counts` cells
/// in the arena for each.
pub open spec fn chunk_prefix<Q: Quantizer>(
    rule: &Q,
    source: GridModel<Q::CellData>,
    parts: Seq<Tree<Q::CellData>>,
    counts: Seq<nat>,
) -> bool {
    &&& parts.len() == counts.len() <= source.chunks.len()
    &&& forall|k: int|
        #![trigger parts[k]]
        0 <= k < parts.len() ==> derive_emits(
            rule,
            source,
            source.chunk_cube(k),
            0,
            source.chunks[k],
            parts[k],
            counts[k],
        )
}

/// An arena for `room` cells is large enough for running the rule over `source`:
/// whatever came out for the chunks so far, there is room for the next one.
pub open spec fn transformable<Q: Quantizer>(
    rule: &Q,
    source: GridModel<Q::CellData>,
    room: int,
) -> bool {
    forall|parts: Seq<Tree<Q::CellData>>, counts: Seq<nat>| #[trigger]
        chunk_prefix(rule, source, parts, counts) && parts.len() < source.chunks.len()
            ==> tree_fits(
            rule,
            source,
            source.chunk_cube(parts.len() as int),
            0,
            source.chunks[parts.len() as int],
            room - sum_of(counts),
        )
}

/// `cells` cells may be in the arena when the rule has made `result` of `source`.
pub open spec fn transform_emits<Q: Quantizer>(
    rule: &Q,
    source: GridModel<Q::CellData>,
    result: GridModel<Q::CellData>,
    cells: nat,
) -> bool {
    exists|counts: Seq<nat>|
        {
            &&& result.chunks.len() == source.chunks.len()
            &&& counts.len() == source.chunks.len()
            &&& #[trigger] chunk_prefix(rule, source, result.chunks, counts)
            &&& cells == sum_of(counts)
        }
}

/// Running the rule over `tree`, of which `out` comes, may turn the leaf cache
/// `before` into `after`: the octants of a branch are visited one after the
/// other, and then the cache is trimmed if the octants do not merge and the
/// depth is one at which it is.
pub open spec fn walked<'g, Q: Quantizer>(
    rule: &Q,
    source: GridModel<Q::CellData>,
    cube: Cube,
    depth: nat,
    interval: int,
    limit: usize,
    tree: Tree<Q::CellData>,
    out: Tree<Q::CellData>,
    before: Seq<GridSample<'g, Q::CellData, Q::Topology>>,
    after: Seq<GridSample<'g, Q::CellData, Q::Topology>>,
) -> bool
    decreases tree,
{
    match tree {
        Tree::Leaf(data) => {
            &&& rule.yields(source, cube, depth, data, out)
            &&& rule.caches(source, cube, depth, data, limit, before, after)
        },
        Tree::Branch(kids) => exists|
            parts: Seq<Tree<Q::CellData>>,
            steps: Seq<Seq<GridSample<'g, Q::CellData, Q::Topology>>>,
        |
            {
                &&& parts.len() == kids.len()
                &&& #[trigger] steps.len() == kids.len() + 1
                &&& steps.first() == before
                &&& forall|i: int|
                    #![trigger parts[i]]
                    0 <= i < kids.len() ==> walked(
                        rule,
                        source,
                        cube.octant(i),
                        depth + 1,
                        interval,
                        limit,
                        kids[i],
                        parts[i],
                        steps[i],
                        steps[i + 1],
                    )
                &&& #[trigger] joined(rule, parts, out)
                &&& after == (if !mergeable(parts) && trims_at(depth as int, interval) {
                    trimmed(steps.last(), limit)
                } else {
                    steps.last()
                })
            },
    }
}

/// What comes out with some number of cells left comes out.
pub proof fn lemma_derive_emits<Q: Quantizer>(
    rule: &Q,
    source: GridModel<Q::CellData>,
    cube: Cube,
    depth: nat,
    tree: Tree<Q::CellData>,
    out: Tree<Q::CellData>,
    cells: nat,
)
    requires
        derive_emits(rule, source, cube, depth, tree, out, cells),
    ensures
        derives(rule, source, cube, depth, tree, out),
    decreases tree,
{
    match tree {
        Tree::Leaf(data) => {},
        Tree::Branch(kids) => {
            let (parts, counts) = choose|parts: Seq<Tree<Q::CellData>>, counts: Seq<nat>|
                {
                    &&& parts.len() == kids.len()
                    &&& counts.len() == kids.len()
                    &&& forall|i: int|
                        #![trigger parts[i]]
                        0 <= i < kids.len() ==> derive_emits(
                            rule,
                            source,
                            cube.octant(i),
                            depth + 1,
                            kids[i],
                            parts[i],
                            counts[i],
                        )
                    &&& #[trigger] joined(rule, parts, out)
                    &&& cells == #[trigger] group_cells(parts, counts)
                };
            assert forall|i: int| 0 <= i < kids.len() implies derives(
                rule,
                source,
                cube.octant(i),
                depth + 1,
                kids[i],
                #[trigger] parts[i],
            ) by {
                assert(decreases_to!(tree => kids[i]));
                lemma_derive_emits(
                    rule,
                    source,
                    cube.octant(i),
                    depth + 1,
                    kids[i],
                    parts[i],
                    counts[i],
                );
            }
            assert(joined(rule, parts, out));
        },
    }
}

/// Whether the leaf cache is trimmed after a branch at `depth`: at every depth
/// that is a multiple of `interval`, and of zero only zero is.
pub open spec fn trims_at(depth: int, interval: int) -> bool {
    if interval == 0 {
        depth == 0
    } else {
        depth % interval == 0
    }
}

/// Runs a [`Quantizer`] over an entire grid to produce a new grid.
///
/// The transformer walks every chunk of the source `grid`, invoking the
/// quantizer per cell and assembling the results into a freshly-allocated
/// destination grid (same config and dimensions). The source grid is read-only;
/// nothing is mutated in place.
pub struct Transformer<'a, Q: Quantizer> {
    /// Depth interval at which the source sampler's leaf cache is trimmed during
    /// the walk, bounding peak cache size on deep trees.
    pub cached_samples_evicting_depth: usize,
    quantizer: &'a Q,
    grid: &'a Grid<Q::CellData, Q::Topology>,
}

impl<'a, Q: Quantizer> Transformer<'a, Q> {
    /// Depth interval at which the sampler's cache is trimmed.
    pub closed spec fn evicting_depth(&self) -> usize {
        self.cached_samples_evicting_depth
    }

    /// The rule that is run.
    pub closed spec fn rule(&self) -> &Q {
        self.quantizer
    }

    /// The grid that the rule is run over.
    pub closed spec fn source(&self) -> Grid<Q::CellData, Q::Topology> {
        *self.grid
    }

    /// Creates a transformer pairing `quantizer` with the source `grid`.
    pub fn new(quantizer: &'a Q, grid: &'a Grid<Q::CellData, Q::Topology>) -> (transformer: Self)
        ensures
            transformer.evicting_depth() == 4,
            transformer.rule() == quantizer,
            transformer.source() == *grid,
    {
        Self { cached_samples_evicting_depth: 4, quantizer, grid }
    }

    /// Overrides [`cached_samples_evicting_depth`](Transformer::cached_samples_evicting_depth).
    pub fn with_cached_samples_evicting_depth(self, value: usize) -> (transformer: Self)
        ensures
            transformer.evicting_depth() == value,
            transformer.rule() == self.rule(),
            transformer.source() == self.source(),
    {
        Self {
            cached_samples_evicting_depth: value,
            quantizer: self.quantizer,
            grid: self.grid,
        }
    }

    /// Runs the quantizer over the whole grid and returns the new grid.
    pub fn execute(self) -> (result: Grid<Q::CellData, Q::Topology>)
        requires
            self.rule().ready(),
            self.source().wf(),
            transformable(
                self.rule(),
                self.source()@,
                self.source().settings().room::<Q::CellData>(),
            ),
        ensures
            result.wf(),
            result.settings() == self.source().settings(),
            transformed(self.rule(), self.source()@, result@),
            transform_emits(self.rule(), self.source()@, result@, result.stored()),
    {
        let rule: &Q = self.quantizer;
        let grid: &'a Grid<Q::CellData, Q::Topology> = self.grid;
        let evicting_depth = self.cached_samples_evicting_depth;
        let ghost model = grid@;
        let ghost levels = model.levels;
        proof {
            grid.lemma_fields();
            grid.lemma_model();
        }
        let mut emitter = CellEmitter::new(
            Allocator::new(grid.config.page_capacity, grid.config.pages_capacity),
        );
        let mut sampler = grid.sampler();
        let mut chunks: Vec<Address> = Vec::with_capacity(grid.chunks.len());
        let ghost mut trees: Seq<Tree<Q::CellData>> = Seq::empty();
        let ghost mut counts: Seq<nat> = Seq::empty();
        let ghost room = emitter.arena().limit();
        let mut index: usize = 0;
        while index < grid.chunks.len()
            invariant
                index <= grid.chunks@.len(),
                rule.ready(),
                grid.wf(),
                model == grid@,
                levels == model.levels,
                sampler.wf(),
                sampler.source() == *grid,
                emitter.wf(),
                room == grid.settings().room::<Q::CellData>(),
                room == emitter.arena().limit(),
                transformable(rule, model, room),
                emitter.arena()@.len() == sum_of(counts),
                model.chunks.len() == grid.chunks@.len(),
                chunks@.len() == index,
                trees.len() == index,
                forall|k: int|
                    0 <= k < index ==> cell_ok(emitter.arena(), #[trigger] chunks@[k], levels)
                        && tree_of(emitter.arena(), chunks@[k], levels) == trees[k],
                chunk_prefix(rule, model, trees, counts),
            decreases grid.chunks@.len() - index,
        {
            let ghost k = index as int;
            let ghost mid = emitter.arena();
            proof {
                grid.lemma_fields();
                grid.lemma_model();
            }
            let region = grid.chunk_region(index);
            proof {
                assert(cube_of::<Q::Topology>(region, grid.chunk_size) == model.chunk_cube(k));
                assert forall|a: int| 0 <= a < Q::Topology::DIMENSIONS implies
                    #[trigger] Q::Topology::point(region.start)[a] + grid.chunk_size
                    <= model.size()[a] by {
                    model.lemma_chunk_inside(k, a);
                }
                assert(placed(sampler, region, grid.chunk_size, 0));
                assert(cell_ok(grid.allocator, grid.chunks@[k], levels));
            }
            let address = Self::process_cell(
                region,
                grid.chunk_size,
                0,
                evicting_depth,
                grid.chunks[index],
                rule,
                &mut sampler,
                &mut emitter,
            );
            proof {
                let tree = tree_of(emitter.arena(), address, levels);
                assert forall|j: int| 0 <= j < k implies cell_ok(
                    emitter.arena(),
                    #[trigger] chunks@[j],
                    levels,
                ) && tree_of(emitter.arena(), chunks@[j], levels) == trees[j] by {
                    lemma_tree_stable(mid, emitter.arena(), chunks@[j], levels);
                }
                let cells = added(mid, emitter.arena());
                lemma_sum_push(counts, cells);
                let more = trees.push(tree);
                let sums = counts.push(cells);
                assert forall|j: int|
                    #![trigger more[j]]
                    0 <= j < more.len() implies derive_emits(
                    rule,
                    model,
                    model.chunk_cube(j),
                    0,
                    model.chunks[j],
                    more[j],
                    sums[j],
                ) by {
                    if j < k {
                        assert(more[j] == trees[j]);
                    }
                }
                trees = more;
                counts = sums;
            }
            chunks.push(address);
            index = index + 1;
        }
        let result = Grid {
            config: grid.config.clone(),
            size: grid.size,
            chunk_size: grid.chunk_size,
            chunks,
            allocator: emitter.into_allocator(),
        };
        proof {
            grid.lemma_fields();
            result.lemma_fields();
            assert(result@.chunks =~= trees);
            assert(chunk_prefix(rule, model, result@.chunks, counts));
            assert forall|k: int| 0 <= k < result@.chunks.len() implies derives(
                rule,
                model,
                model.chunk_cube(k),
                0,
                model.chunks[k],
                #[trigger] result@.chunks[k],
            ) by {
                lemma_derive_emits(
                    rule,
                    model,
                    model.chunk_cube(k),
                    0,
                    model.chunks[k],
                    result@.chunks[k],
                    counts[k],
                );
            }
        }
        result
    }

    /// Runs the quantizer over the tree below one source cell, trimming the
    /// sampler's leaf cache after branches at multiples of the evicting depth.
    fn process_cell<'g>(
        region: Range<<Q::Topology as Topology>::Coord>,
        cell_size: usize,
        depth: usize,
        cached_samples_evicting_depth: usize,
        address: Address,
        quantizer: &Q,
        sampler: &mut GridSampler<'g, Q::CellData, Q::Topology>,
        emitter: &mut CellEmitter<Q::CellData, Q::Topology>,
    ) -> (root: Address)
        requires
            quantizer.ready(),
            old(sampler).wf(),
            old(emitter).wf(),
            placed(*old(sampler), region, cell_size, depth),
            cell_ok(
                old(sampler).source().allocator,
                address,
                (old(sampler).source()@.levels - depth) as nat,
            ),
            tree_fits(
                quantizer,
                old(sampler).source()@,
                cube_of::<Q::Topology>(region, cell_size),
                depth as nat,
                tree_of(
                    old(sampler).source().allocator,
                    address,
                    (old(sampler).source()@.levels - depth) as nat,
                ),
                old(emitter).room(),
            ),
        ensures
            final(sampler).wf(),
            final(sampler).source() == old(sampler).source(),
            grown(
                old(emitter).arena(),
                final(emitter).arena(),
                root,
                (old(sampler).source()@.levels - depth) as nat,
            ),
            final(sampler).cache_limit() == old(sampler).cache_limit(),
            ({
                let source = old(sampler).source()@;
                let cube = cube_of::<Q::Topology>(region, cell_size);
                let levels = (source.levels - depth) as nat;
                let tree = tree_of(old(sampler).source().allocator, address, levels);
                let after = final(emitter).arena();
                let out = tree_of(after, root, levels);
                let cells = added(old(emitter).arena(), after);
                &&& derive_emits(quantizer, source, cube, depth as nat, tree, out, cells)
                &&& tree is Branch ==> after.position(root) == after@.len() - 1
                &&& walked(
                    quantizer,
                    source,
                    cube,
                    depth as nat,
                    cached_samples_evicting_depth as int,
                    old(sampler).cache_limit(),
                    tree,
                    out,
                    old(sampler).cached(),
                    final(sampler).cached(),
                )
            }),
        decreases old(sampler).source()@.levels - depth,
    {
        let grid: &'g Grid<Q::CellData, Q::Topology> = sampler.grid;
        proof {
            sampler.lemma_fields();
            grid.lemma_fields();
            grid.lemma_model();
        }
        let ghost source = grid@;
        let ghost levels = (source.levels - depth) as nat;
        let ghost cube = cube_of::<Q::Topology>(region, cell_size);
        let ghost tree = tree_of(grid.allocator, address, levels);
        match grid.allocator.read(address).unwrap() {
            Cell::Leaf { data } => quantizer.quantize(
                CellContext { region, cell_size, depth, cell_data: data, sampler, emitter },
            ),
            Cell::Branch { children } => {
                let ghost below = (levels - 1) as nat;
                let ghost before = emitter.arena();
                let ghost start = *sampler;
                let ghost kids = Seq::new(
                    Q::Topology::CHILDREN as nat,
                    |i: int| tree_of(grid.allocator, Q::Topology::slots(*children)[i], below),
                );
                let ghost here = depth as nat;
                let ghost room = emitter.room();
                let ghost limit = sampler.cache_limit();
                let ghost interval = cached_samples_evicting_depth as int;
                let ghost mut parts: Seq<Tree<Q::CellData>> = Seq::empty();
                let ghost mut counts: Seq<nat> = Seq::empty();
                let ghost mut steps: Seq<Seq<GridSample<'g, Q::CellData, Q::Topology>>> = seq![
                    sampler.cached(),
                ];
                let slots = Q::Topology::children_as_slice(children);
                let mut addresses: Vec<Address> = Vec::with_capacity(Q::Topology::CHILDREN);
                proof {
                    assert(tree->Branch_0 =~= kids);
                    assert(tree == Tree::Branch(kids));
                    Q::Topology::lemma_slots(*children);
                    lemma_placed_region(*sampler, region, cell_size, depth);
                    assert(before@ =~= before@.take(before@.len() as int));
                }
                let mut index: usize = 0;
                while index < Q::Topology::CHILDREN
                    invariant
                        index <= Q::Topology::CHILDREN,
                        quantizer.ready(),
                        grid.wf(),
                        source == grid@,
                        depth < source.levels < usize::BITS,
                        levels == (source.levels - depth) as nat,
                        below == levels - 1,
                        start == *old(sampler),
                        start.wf(),
                        start.source() == *grid,
                        placed(start, region, cell_size, depth),
                        sampler.wf(),
                        sampler.source() == start.source(),
                        sampler.cache_limit() == start.cache_limit(),
                        cube == cube_of::<Q::Topology>(region, cell_size),
                        forall|a: int|
                            0 <= a < Q::Topology::DIMENSIONS ==> #[trigger] Q::Topology::point(
                                region.start,
                            )[a] <= Q::Topology::point(region.end)[a],
                        slots@ == Q::Topology::slots(*children),
                        slots@.len() == Q::Topology::CHILDREN,
                        kids == Seq::new(
                            Q::Topology::CHILDREN as nat,
                            |i: int|
                                tree_of(grid.allocator, Q::Topology::slots(*children)[i], below),
                        ),
                        forall|i: int|
                            0 <= i < Q::Topology::CHILDREN ==> cell_ok(
                                grid.allocator,
                                #[trigger] Q::Topology::slots(*children)[i],
                                below,
                            ),
                        here == depth,
                        limit == start.cache_limit(),
                        interval == cached_samples_evicting_depth,
                        tree == Tree::Branch(kids),
                        tree_fits(quantizer, source, cube, here, tree, room),
                        before == old(emitter).arena(),
                        room == before.limit() - before@.len(),
                        emitter.wf(),
                        before.extended_by(&emitter.arena()),
                        emitter.arena()@.len() == before@.len() + sum_of(counts),
                        sum_of(counts) >= index,
                        derive_prefix(quantizer, source, cube, here, kids, parts, counts),
                        steps.len() == index + 1,
                        steps.first() == start.cached(),
                        steps.last() == sampler.cached(),
                        forall|i: int|
                            #![trigger parts[i]]
                            0 <= i < index ==> walked(
                                quantizer,
                                source,
                                cube.octant(i),
                                here + 1,
                                interval,
                                limit,
                                kids[i],
                                parts[i],
                                steps[i],
                                steps[i + 1],
                            ),
                        parts.len() == index,
                        addresses@.len() == index,
                        forall|i: int|
                            0 <= i < index ==> cell_ok(
                                emitter.arena(),
                                #[trigger] addresses@[i],
                                below,
                            ) && tree_of(emitter.arena(), addresses@[i], below) == parts[i],
                    decreases Q::Topology::CHILDREN - index,
                {
                    let ghost i = index as int;
                    let ghost mid = emitter.arena();
                    let part = subregion::<Q::Topology>(&region, index);
                    proof {
                        lemma_child_placed(start, region, cell_size, depth, part, i);
                        assert(kids[i] == tree_of(grid.allocator, slots@[i], below));
                        lemma_next_fits(
                            quantizer,
                            source,
                            cube,
                            here,
                            kids,
                            parts,
                            counts,
                            room,
                        );
                        assert(emitter.room() == room - sum_of(counts));
                    }
                    let child = Self::process_cell(
                        part,
                        cell_size / 2,
                        depth + 1,
                        cached_samples_evicting_depth,
                        slots[index],
                        quantizer,
                        sampler,
                        emitter,
                    );
                    proof {
                        let out = tree_of(emitter.arena(), child, below);
                        assert forall|j: int| 0 <= j < i implies cell_ok(
                            emitter.arena(),
                            #[trigger] addresses@[j],
                            below,
                        ) && tree_of(emitter.arena(), addresses@[j], below) == parts[j] by {
                            lemma_tree_stable(mid, emitter.arena(), addresses@[j], below);
                        }
                        assert(before@ =~= emitter.arena()@.take(before@.len() as int));
                        let cells = added(mid, emitter.arena());
                        lemma_sum_push(counts, cells);
                        let more = parts.push(out);
                        let sums = counts.push(cells);
                        let next = steps.push(sampler.cached());
                        assert forall|j: int|
                            #![trigger more[j]]
                            0 <= j < more.len() implies derive_emits(
                            quantizer,
                            source,
                            cube.octant(j),
                            here + 1,
                            kids[j],
                            more[j],
                            sums[j],
                        ) && walked(
                            quantizer,
                            source,
                            cube.octant(j),
                            here + 1,
                            interval,
                            limit,
                            kids[j],
                            more[j],
                            next[j],
                            next[j + 1],
                        ) by {
                            assert(next[j] == steps[j]);
                            if j < i {
                                assert(more[j] == parts[j]);
                                assert(next[j + 1] == steps[j + 1]);
                            }
                        }
                        parts = more;
                        counts = sums;
                        steps = next;
                    }
                    addresses.push(child);
                    index = index + 1;
                }
                let from_list = |slot: usize| -> (r: Address)
                    requires
                        slot < addresses@.len(),
                    ensures
                        r == addresses@[slot as int],
                    { addresses[slot] };
                let group = Q::Topology::children_from_fn(from_list);
                proof {
                    assert forall|i: int| 0 <= i < parts.len() implies cell_ok(
                        emitter.arena(),
                        #[trigger] Q::Topology::slots(group)[i],
                        below,
                    ) && tree_of(emitter.arena(), Q::Topology::slots(group)[i], below)
                        == parts[i] by {
                        assert(Q::Topology::slots(group)[i] == addresses@[i]);
                    }
                    assert(below + 1 == levels);
                }
                let (root, merged) = join(
                    quantizer,
                    group,
                    emitter,
                    Ghost(before),
                    Ghost(parts),
                    Ghost(below),
                );
                proof {
                    assert(joined(quantizer, parts, tree_of(emitter.arena(), root, levels)));
                    assert(added(before, emitter.arena()) == group_cells(parts, counts));
                    assert(steps.len() == kids.len() + 1);
                }
                let trim = if cached_samples_evicting_depth == 0 {
                    depth == 0
                } else {
                    depth % cached_samples_evicting_depth == 0
                };
                if !merged && trim {
                    sampler.evict_least_accessed_samples();
                }
                root
            },
        }
    }
}

} // verus!
