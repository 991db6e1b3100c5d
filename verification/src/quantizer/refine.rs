//! Running a rule on the parts of a cell instead of the whole.
use crate::allocator::Address;
use crate::grid::{cell_ok, lemma_tree_stable, tree_of, CellData, GridSample, GridSampler};
use crate::quantizer::context::{
    cube_of, lemma_child_placed, lemma_placed_region, placed, CellContext,
};
use crate::quantizer::emitter::CellEmitter;
use crate::quantizer::{
    added, group_cells, grown, join, joined, mergeable, settles, Quantizer,
};
use crate::topology::{subregion, Topology};
use crate::tree::{lemma_sum_push, sum_of, Cube, GridModel, Tree};
use core::ops::Range;
use vstd::prelude::*;

verus! {

/// `out` is what comes out when the cell is subdivided down to depth `until`,
/// the rule runs on each part, and the results are put together again.
pub open spec fn refined<Q: Quantizer>(
    rule: &Q,
    source: GridModel<Q::CellData>,
    cube: Cube,
    depth: nat,
    data: Q::CellData,
    until: nat,
    out: Tree<Q::CellData>,
) -> bool
    decreases until - depth,
{
    if depth >= until {
        rule.yields(source, cube, depth, data, out)
    } else {
        exists|parts: Seq<Tree<Q::CellData>>|
            {
                &&& parts.len() == source.fan()
                &&& forall|i: int|
                    0 <= i < parts.len() ==> refined(
                        rule,
                        source,
                        cube.octant(i),
                        depth + 1,
                        data,
                        until,
                        #[trigger] parts[i],
                    )
                &&& #[trigger] joined(rule, parts, out)
            }
    }
}

/// `out` may come out when the rule runs on each part of the cell, with `cells`
/// more cells left in the arena.
pub open spec fn refine_emits<Q: Quantizer>(
    rule: &Q,
    source: GridModel<Q::CellData>,
    cube: Cube,
    depth: nat,
    data: Q::CellData,
    until: nat,
    out: Tree<Q::CellData>,
    cells: nat,
) -> bool
    decreases until - depth,
{
    if depth >= until {
        settles(rule, source, cube, depth, data, out, cells)
    } else {
        exists|parts: Seq<Tree<Q::CellData>>, counts: Seq<nat>|
            {
                &&& parts.len() == source.fan()
                &&& counts.len() == source.fan()
                &&& forall|i: int|
                    #![trigger parts[i]]
                    0 <= i < parts.len() ==> refine_emits(
                        rule,
                        source,
                        cube.octant(i),
                        depth + 1,
                        data,
                        until,
                        parts[i],
                        counts[i],
                    )
                &&& #[trigger] joined(rule, parts, out)
                &&& cells == #[trigger] group_cells(parts, counts)
            }
    }
}

/// `parts` may have come out for the first octants of a cell above depth
/// `until`, with `counts` more cells left in the arena for each.
pub open spec fn refine_prefix<Q: Quantizer>(
    rule: &Q,
    source: GridModel<Q::CellData>,
    cube: Cube,
    depth: nat,
    data: Q::CellData,
    until: nat,
    parts: Seq<Tree<Q::CellData>>,
    counts: Seq<nat>,
) -> bool {
    &&& parts.len() == counts.len() <= source.fan()
    &&& forall|i: int|
        #![trigger parts[i]]
        0 <= i < parts.len() ==> refine_emits(
            rule,
            source,
            cube.octant(i),
            depth + 1,
            data,
            until,
            parts[i],
            counts[i],
        )
}

/// Running the rule on each part of the cell never takes more than `room` more
/// cells in the arena at once: whatever came out for the octants so far, there
/// is room for the next one, and in the end for a branch unless they merge.
pub open spec fn refine_fits<Q: Quantizer>(
    rule: &Q,
    source: GridModel<Q::CellData>,
    cube: Cube,
    depth: nat,
    data: Q::CellData,
    until: nat,
    room: int,
) -> bool
    decreases until - depth,
{
    if depth >= until {
        rule.fits(source, cube, depth, data, room)
    } else {
        forall|parts: Seq<Tree<Q::CellData>>, counts: Seq<nat>| #[trigger]
            refine_prefix(rule, source, cube, depth, data, until, parts, counts) ==> {
                if parts.len() < source.fan() {
                    refine_fits(
                        rule,
                        source,
                        cube.octant(parts.len() as int),
                        depth + 1,
                        data,
                        until,
                        room - sum_of(counts),
                    )
                } else {
                    mergeable(parts) || sum_of(counts) < room
                }
            }
    }
}

/// Running the rule on each part of the cell, one after the other, may turn the
/// leaf cache `before` into `after`.
pub open spec fn refine_caches<'g, Q: Quantizer>(
    rule: &Q,
    source: GridModel<Q::CellData>,
    cube: Cube,
    depth: nat,
    data: Q::CellData,
    until: nat,
    limit: usize,
    before: Seq<GridSample<'g, Q::CellData, Q::Topology>>,
    after: Seq<GridSample<'g, Q::CellData, Q::Topology>>,
) -> bool
    decreases until - depth,
{
    if depth >= until {
        rule.caches(source, cube, depth, data, limit, before, after)
    } else {
        exists|steps: Seq<Seq<GridSample<'g, Q::CellData, Q::Topology>>>|
            {
                &&& #[trigger] steps.len() == source.fan() + 1
                &&& steps.first() == before
                &&& steps.last() == after
                &&& forall|i: int|
                    #![trigger steps[i]]
                    0 <= i < source.fan() ==> refine_caches(
                        rule,
                        source,
                        cube.octant(i),
                        depth + 1,
                        data,
                        until,
                        limit,
                        steps[i],
                        steps[i + 1],
                    )
            }
    }
}

/// What comes out with some number of cells left comes out.
pub proof fn lemma_refine_emits<Q: Quantizer>(
    rule: &Q,
    source: GridModel<Q::CellData>,
    cube: Cube,
    depth: nat,
    data: Q::CellData,
    until: nat,
    out: Tree<Q::CellData>,
    cells: nat,
)
    requires
        refine_emits(rule, source, cube, depth, data, until, out, cells),
    ensures
        refined(rule, source, cube, depth, data, until, out),
    decreases until - depth,
{
    if depth < until {
        let (parts, counts) = choose|parts: Seq<Tree<Q::CellData>>, counts: Seq<nat>|
            {
                &&& parts.len() == source.fan()
                &&& counts.len() == source.fan()
                &&& forall|i: int|
                    #![trigger parts[i]]
                    0 <= i < parts.len() ==> refine_emits(
                        rule,
                        source,
                        cube.octant(i),
                        depth + 1,
                        data,
                        until,
                        parts[i],
                        counts[i],
                    )
                &&& #[trigger] joined(rule, parts, out)
                &&& cells == #[trigger] group_cells(parts, counts)
            };
        assert forall|i: int| 0 <= i < parts.len() implies refined(
            rule,
            source,
            cube.octant(i),
            depth + 1,
            data,
            until,
            #[trigger] parts[i],
        ) by {
            lemma_refine_emits(
                rule,
                source,
                cube.octant(i),
                depth + 1,
                data,
                until,
                parts[i],
                counts[i],
            );
        }
        assert(joined(rule, parts, out));
    }
}

/// Runs the rule on the parts that subdividing a cell down to depth `until`
/// leaves, merging homogeneous results on the way back up.
pub(crate) fn refine<'g, Q: Quantizer>(
    rule: &Q,
    region: Range<<Q::Topology as Topology>::Coord>,
    cell_size: usize,
    depth: usize,
    data: &Q::CellData,
    until: usize,
    sampler: &mut GridSampler<'g, Q::CellData, Q::Topology>,
    emitter: &mut CellEmitter<Q::CellData, Q::Topology>,
) -> (root: Address)
    requires
        rule.ready(),
        old(sampler).wf(),
        old(emitter).wf(),
        placed(*old(sampler), region, cell_size, depth),
        until <= old(sampler).source()@.levels,
        refine_fits(
            rule,
            old(sampler).source()@,
            cube_of::<Q::Topology>(region, cell_size),
            depth as nat,
            *data,
            until as nat,
            old(emitter).room(),
        ),
    ensures
        final(sampler).wf(),
        final(sampler).source() == old(sampler).source(),
        final(sampler).cache_limit() == old(sampler).cache_limit(),
        grown(
            old(emitter).arena(),
            final(emitter).arena(),
            root,
            (old(sampler).source()@.levels - depth) as nat,
        ),
        refine_emits(
            rule,
            old(sampler).source()@,
            cube_of::<Q::Topology>(region, cell_size),
            depth as nat,
            *data,
            until as nat,
            tree_of(
                final(emitter).arena(),
                root,
                (old(sampler).source()@.levels - depth) as nat,
            ),
            added(old(emitter).arena(), final(emitter).arena()),
        ),
        refined(
            rule,
            old(sampler).source()@,
            cube_of::<Q::Topology>(region, cell_size),
            depth as nat,
            *data,
            until as nat,
            tree_of(
                final(emitter).arena(),
                root,
                (old(sampler).source()@.levels - depth) as nat,
            ),
        ),
        refine_caches(
            rule,
            old(sampler).source()@,
            cube_of::<Q::Topology>(region, cell_size),
            depth as nat,
            *data,
            until as nat,
            old(sampler).cache_limit(),
            old(sampler).cached(),
            final(sampler).cached(),
        ),
    decreases until - depth,
{
    if depth >= until {
        return rule.quantize(
            CellContext { region, cell_size, depth, cell_data: data, sampler, emitter },
        );
    }
    let ghost start = *sampler;
    let ghost source = sampler.source()@;
    let ghost cube = cube_of::<Q::Topology>(region, cell_size);
    let ghost below = (source.levels - depth - 1) as nat;
    let ghost before = emitter.arena();
    let ghost value = *data;
    let ghost here = depth as nat;
    let ghost last = until as nat;
    let ghost room = emitter.room();
    let ghost limit = sampler.cache_limit();
    let ghost fan = source.fan();
    let ghost mut parts: Seq<Tree<Q::CellData>> = Seq::empty();
    let ghost mut counts: Seq<nat> = Seq::empty();
    let ghost mut steps: Seq<Seq<GridSample<'g, Q::CellData, Q::Topology>>> = seq![
        sampler.cached(),
    ];
    let mut addresses: Vec<Address> = Vec::with_capacity(Q::Topology::CHILDREN);
    proof {
        sampler.source().lemma_model();
        lemma_placed_region(*sampler, region, cell_size, depth);
        assert(before@ =~= before@.take(before@.len() as int));
    }
    let mut index: usize = 0;
    while index < Q::Topology::CHILDREN
        invariant
            index <= Q::Topology::CHILDREN,
            rule.ready(),
            depth < until <= source.levels,
            source == start.source()@,
            source.levels < usize::BITS,
            fan == source.fan(),
            fan == Q::Topology::CHILDREN,
            start == *old(sampler),
            start.wf(),
            placed(start, region, cell_size, depth),
            sampler.wf(),
            sampler.source() == start.source(),
            sampler.cache_limit() == start.cache_limit(),
            cube == cube_of::<Q::Topology>(region, cell_size),
            below == (source.levels - depth - 1) as nat,
            value == *data,
            here == depth,
            last == until,
            limit == start.cache_limit(),
            refine_fits(rule, source, cube, here, value, last, room),
            forall|a: int|
                0 <= a < Q::Topology::DIMENSIONS ==> #[trigger] Q::Topology::point(region.start)[a]
                    <= Q::Topology::point(region.end)[a],
            before == old(emitter).arena(),
            emitter.wf(),
            before.extended_by(&emitter.arena()),
            room == before.limit() - before@.len(),
            emitter.arena()@.len() == before@.len() + sum_of(counts),
            sum_of(counts) >= index,
            refine_prefix(rule, source, cube, here, value, last, parts, counts),
            steps.len() == index + 1,
            steps.first() == start.cached(),
            steps.last() == sampler.cached(),
            forall|i: int|
                #![trigger steps[i]]
                0 <= i < index ==> refine_caches(
                    rule,
                    source,
                    cube.octant(i),
                    here + 1,
                    value,
                    last,
                    limit,
                    steps[i],
                    steps[i + 1],
                ),
            parts.len() == index,
            addresses@.len() == index,
            forall|i: int|
                0 <= i < index ==> cell_ok(emitter.arena(), #[trigger] addresses@[i], below)
                    && tree_of(emitter.arena(), addresses@[i], below) == parts[i],
        decreases Q::Topology::CHILDREN - index,
    {
        let ghost i = index as int;
        let ghost mid = emitter.arena();
        let part = subregion::<Q::Topology>(&region, index);
        proof {
            lemma_child_placed(start, region, cell_size, depth, part, i);
        }
        let address = refine(
            rule,
            part,
            cell_size / 2,
            depth + 1,
            data,
            until,
            sampler,
            emitter,
        );
        proof {
            let tree = tree_of(emitter.arena(), address, below);
            assert forall|j: int| 0 <= j < i implies cell_ok(
                emitter.arena(),
                #[trigger] addresses@[j],
                below,
            ) && tree_of(emitter.arena(), addresses@[j], below) == parts[j] by {
                lemma_tree_stable(mid, emitter.arena(), addresses@[j], below);
            }
            assert(before@ =~= emitter.arena()@.take(before@.len() as int));
            let cells = added(mid, emitter.arena());
            lemma_sum_push(counts, cells);
            let more = parts.push(tree);
            let sums = counts.push(cells);
            assert forall|j: int|
                #![trigger more[j]]
                0 <= j < more.len() implies refine_emits(
                rule,
                source,
                cube.octant(j),
                here + 1,
                value,
                last,
                more[j],
                sums[j],
            ) by {
                if j < i {
                    assert(more[j] == parts[j]);
                }
            }
            let next = steps.push(sampler.cached());
            assert forall|j: int|
                #![trigger next[j]]
                0 <= j <= i implies refine_caches(
                rule,
                source,
                cube.octant(j),
                here + 1,
                value,
                last,
                limit,
                next[j],
                next[j + 1],
            ) by {
                assert(next[j] == steps[j]);
                if j < i {
                    assert(next[j + 1] == steps[j + 1]);
                }
            }
            parts = more;
            counts = sums;
            steps = next;
        }
        addresses.push(address);
        index = index + 1;
    }
    let from_list = |slot: usize| -> (r: Address)
        requires
            slot < addresses@.len(),
        ensures
            r == addresses@[slot as int],
        { addresses[slot] };
    let children = Q::Topology::children_from_fn(from_list);
    proof {
        assert forall|i: int| 0 <= i < parts.len() implies cell_ok(
            emitter.arena(),
            #[trigger] Q::Topology::slots(children)[i],
            below,
        ) && tree_of(emitter.arena(), Q::Topology::slots(children)[i], below) == parts[i] by {
            assert(Q::Topology::slots(children)[i] == addresses@[i]);
        }
        assert(below + 1 == (source.levels - depth) as nat);
    }
    let (root, _) = join(
        rule,
        children,
        emitter,
        Ghost(before),
        Ghost(parts),
        Ghost(below),
    );
    proof {
        let out = tree_of(emitter.arena(), root, below + 1);
        assert(joined(rule, parts, out));
        assert(added(before, emitter.arena()) == group_cells(parts, counts));
        assert(steps.len() == fan + 1);
        lemma_refine_emits(
            rule,
            source,
            cube,
            here,
            value,
            last,
            out,
            added(before, emitter.arena()),
        );
    }
    root
}

} // verus!
