//! Point queries against a grid.
use crate::geometry::{halves, lemma_unlinear_of_linear, minus, product, splat, unlinear, within};
use crate::grid::{cell_ok, tree_of, Cell, CellData, Grid, GridConfig};
use crate::topology::{child_corner, Topology};
use crate::tree::{lemma_edge, lemma_leaves_cover, lemma_leaves_disjoint, Cube, LeafCell};
use core::ops::Range;
use vstd::arithmetic::power::pow;
use vstd::arithmetic::power2::pow2;
use vstd::prelude::*;

verus! {

/// The result of sampling a single point: the leaf covering it.
#[derive(Debug, Copy, PartialEq, Eq)]
pub struct GridSample<'a, T: CellData, Topo: Topology> {
    /// Lower corner of the leaf's region in grid coordinates.
    pub offset: Topo::Coord,
    /// Depth of the leaf below its chunk root (`0` = whole chunk).
    pub depth: usize,
    /// Edge length of the leaf in cells (`chunk_size >> depth`).
    pub size: usize,
    /// The leaf's data value.
    pub data: &'a T,
}

impl<'a, T: CellData, Topo: Topology> Clone for GridSample<'a, T, Topo> {
    fn clone(&self) -> (copy: Self)
        ensures
            copy == *self,
    {
        *self
    }
}

impl<'a, T: CellData, Topo: Topology> View for GridSample<'a, T, Topo> {
    type V = LeafCell<T>;

    open spec fn view(&self) -> LeafCell<T> {
        LeafCell {
            cube: Cube { corner: Topo::point(self.offset), size: self.size as int },
            depth: self.depth as nat,
            data: *self.data,
        }
    }
}

impl<'a, T: CellData, Topo: Topology> GridSample<'a, T, Topo> {
    /// The half-open region `offset..offset + size` this leaf covers.
    pub fn range(&self) -> (range: Range<Topo::Coord>)
        requires
            forall|a: int|
                0 <= a < Topo::DIMENSIONS ==> #[trigger] Topo::point(self.offset)[a] + self.size
                    <= usize::MAX,
        ensures
            range.start == self.offset,
            Topo::point(range.end) == self@.cube.upper(),
    {
        let size = self.size;
        let shift = |coord: usize| -> (r: usize)
            requires
                coord + size <= usize::MAX,
            ensures
                r == coord + size,
            { coord + size };
        proof {
            Topo::lemma_point(self.offset);
        }
        let end = Topo::map(self.offset, shift);
        proof {
            Topo::lemma_point(end);
            assert(Topo::point(end) =~= self@.cube.upper());
        }
        Range { start: self.offset, end }
    }

    /// Number of unit cells the leaf covers (`size.pow(DIMENSIONS)`).
    pub fn area(&self) -> (area: usize)
        requires
            pow(self.size as int, Topo::DIMENSIONS as nat) <= usize::MAX,
        ensures
            area == pow(self.size as int, Topo::DIMENSIONS as nat),
    {
        Topo::cell_volume(self.size)
    }

    /// The leaf's value [scaled](CellData::scale) by its [`area`](GridSample::area).
    pub fn data_scaled(&self) -> (scaled: T)
        requires
            pow(self.size as int, Topo::DIMENSIONS as nat) <= usize::MAX,
        ensures
            scaled == self.data.scaled(
                pow(self.size as int, Topo::DIMENSIONS as nat) as usize,
            ),
    {
        self.data.scale(self.area())
    }
}

/// A leaf intersected by a region query, with the size of the overlap.
///
/// Yielded by [`GridSampler::sample_region`]; lets callers area-weight coarse
/// leaves that only partially fall inside the queried region.
#[derive(Debug, Copy, PartialEq, Eq)]
pub struct GridSampleView<'a, T: CellData, Topo: Topology> {
    /// The intersected leaf.
    pub sample: GridSample<'a, T, Topo>,
    /// Number of unit cells of the leaf that lie inside the queried region.
    pub overlap_area: usize,
}

impl<'a, T: CellData, Topo: Topology> Clone for GridSampleView<'a, T, Topo> {
    fn clone(&self) -> (copy: Self)
        ensures
            copy == *self,
    {
        *self
    }
}

impl<'a, T: CellData, Topo: Topology> GridSampleView<'a, T, Topo> {
    /// The leaf's value [scaled](CellData::scale) by its
    /// [`overlap_area`](GridSampleView::overlap_area).
    pub fn data_scaled(&self) -> (scaled: T)
        ensures
            scaled == self.sample.data.scaled(self.overlap_area),
    {
        self.sample.data.scale(self.overlap_area)
    }
}

/// Index of the newest cached sample that covers `point`; negative if none does.
pub open spec fn newest_covering<'a, T: CellData, Topo: Topology>(
    cache: Seq<GridSample<'a, T, Topo>>,
    point: Seq<int>,
) -> int
    decreases cache.len(),
{
    if cache.len() == 0 {
        -1
    } else if cache.last()@.cube.contains(point) {
        cache.len() - 1
    } else {
        newest_covering(cache.drop_last(), point)
    }
}

/// What a lookup of `point` that found `sample` leaves in the cache: a hit moves
/// one step towards the newest end, a miss is added there.
pub open spec fn cache_after<'a, T: CellData, Topo: Topology>(
    cache: Seq<GridSample<'a, T, Topo>>,
    limit: usize,
    point: Seq<int>,
    sample: GridSample<'a, T, Topo>,
) -> Seq<GridSample<'a, T, Topo>> {
    let hit = newest_covering(cache, point);
    if limit == 0 {
        cache
    } else if hit < 0 {
        cache.push(sample)
    } else if hit + 1 < cache.len() {
        cache.update(hit, cache[hit + 1]).update(hit + 1, cache[hit])
    } else {
        cache
    }
}

/// The newest `limit` cached leaves.
pub open spec fn trimmed<'a, T: CellData, Topo: Topology>(
    cache: Seq<GridSample<'a, T, Topo>>,
    limit: usize,
) -> Seq<GridSample<'a, T, Topo>> {
    if cache.len() > limit {
        cache.skip(cache.len() - limit)
    } else {
        cache
    }
}

/// Point and region query interface over a [`Grid`].
///
/// A sampler keeps an optional bounded cache of recently returned leaves (sized
/// by [`GridConfig::sampler_cache_limit`]) so repeated nearby
/// [`sample`](GridSampler::sample) queries avoid re-walking the tree.
pub struct GridSampler<'a, T: CellData, Topo: Topology> {
    pub(crate) grid: &'a Grid<T, Topo>,
    pub(crate) cache: Vec<GridSample<'a, T, Topo>>,
    pub(crate) limit: usize,
}

impl<'a, T: CellData, Topo: Topology> GridSampler<'a, T, Topo> {
    /// The grid that is sampled.
    pub closed spec fn source(&self) -> Grid<T, Topo> {
        *self.grid
    }

    /// The cached leaves, the newest last.
    pub closed spec fn cached(&self) -> Seq<GridSample<'a, T, Topo>> {
        self.cache@
    }

    /// Number of cached leaves that eviction keeps; zero if nothing is cached.
    pub closed spec fn cache_limit(&self) -> usize {
        self.limit
    }

    /// The grid is well-formed, and whatever is cached is one of its leaves.
    pub open spec fn wf(&self) -> bool {
        &&& self.source().wf()
        &&& forall|j: int|
            0 <= j < self.cached().len() ==> self.source()@.leaves().contains(
                (#[trigger] self.cached()[j])@,
            )
    }

    pub(crate) proof fn lemma_fields(&self)
        ensures
            self.source() == *self.grid,
    {
    }

    /// Trims the leaf cache back down to its configured limit.
    pub fn evict_least_accessed_samples(&mut self)
        ensures
            final(self).source() == old(self).source(),
            final(self).cache_limit() == old(self).cache_limit(),
            final(self).cached() == trimmed(old(self).cached(), old(self).cache_limit()),
            old(self).wf() ==> final(self).wf(),
    {
        if self.cache.len() > self.limit {
            let ghost before = self.cache@;
            let excess = self.cache.len() - self.limit;
            self.cache = self.cache.split_off(excess);
            proof {
                assert(self.cache@ =~= before.skip(excess as int));
                if old(self).wf() {
                    assert forall|j: int| 0 <= j < self.cached().len() implies
                        self.source()@.leaves().contains((#[trigger] self.cached()[j])@) by {
                        assert(self.cached()[j] == old(self).cached()[j + excess]);
                    }
                }
            }
        }
    }

    /// The configuration of the underlying grid.
    pub fn grid_config(&self) -> (config: &GridConfig<Topo>)
        ensures
            *config == self.source().settings(),
    {
        self.grid.config()
    }

    /// The extent of the underlying grid in cells per axis.
    pub fn grid_size(&self) -> (size: Topo::Coord)
        requires
            self.wf(),
        ensures
            Topo::point(size) == self.source()@.size(),
    {
        self.grid.size()
    }

    /// The chunk edge length of the underlying grid.
    pub fn grid_chunk_size(&self) -> (size: usize)
        requires
            self.wf(),
        ensures
            size == self.source()@.edge(),
    {
        self.grid.chunk_size()
    }

    /// Whether `coords` lies inside the grid.
    fn covers(&self, coords: Topo::Coord) -> (inside: bool)
        requires
            self.wf(),
        ensures
            inside == self.source()@.in_bounds(Topo::point(coords)),
    {
        let ghost p = Topo::point(coords);
        let size = self.grid.size();
        proof {
            Topo::lemma_point(coords);
            Topo::lemma_point(size);
        }
        let mut axis: usize = 0;
        while axis < Topo::DIMENSIONS
            invariant
                axis <= Topo::DIMENSIONS,
                p == Topo::point(coords),
                p.len() == Topo::DIMENSIONS,
                Topo::point(size) == self.source()@.size(),
                forall|a: int| 0 <= a < axis ==> #[trigger] p[a] < Topo::point(size)[a],
            decreases Topo::DIMENSIONS - axis,
        {
            if Topo::axis(coords, axis) >= Topo::axis(size, axis) {
                assert(!(p[axis as int] < Topo::point(size)[axis as int]));
                return false;
            }
            axis = axis + 1;
        }
        true
    }

    /// Index of the newest cached leaf that covers `coords`.
    fn find_cached(&self, coords: Topo::Coord) -> (hit: Option<usize>)
        requires
            self.wf(),
        ensures
            match hit {
                Some(index) => index == newest_covering(self.cached(), Topo::point(coords)),
                None => newest_covering(self.cached(), Topo::point(coords)) < 0,
            },
            hit matches Some(index) ==> index < self.cached().len()
                && self.cached()[index as int]@.cube.contains(Topo::point(coords)),
    {
        let ghost p = Topo::point(coords);
        proof {
            Topo::lemma_point(coords);
        }
        let mut index = self.cache.len();
        assert(self.cache@.take(index as int) =~= self.cache@);
        while index > 0
            invariant
                index <= self.cache@.len(),
                p == Topo::point(coords),
                p.len() == Topo::DIMENSIONS,
                newest_covering(self.cache@, p) == newest_covering(
                    self.cache@.take(index as int),
                    p,
                ),
            decreases index,
        {
            index = index - 1;
            let sample = &self.cache[index];
            let ghost part = self.cache@.take(index + 1);
            proof {
                Topo::lemma_point(sample.offset);
                assert(part.last() == *sample);
                assert(part.drop_last() =~= self.cache@.take(index as int));
            }
            let mut inside = true;
            let mut axis: usize = 0;
            while axis < Topo::DIMENSIONS
                invariant
                    axis <= Topo::DIMENSIONS,
                    p == Topo::point(coords),
                    p.len() == Topo::DIMENSIONS,
                    sample@.cube.corner.len() == Topo::DIMENSIONS,
                    inside ==> forall|a: int|
                        0 <= a < axis ==> sample@.cube.corner[a] <= #[trigger] p[a]
                            < sample@.cube.corner[a] + sample@.cube.size,
                    !inside ==> !sample@.cube.contains(p),
                decreases Topo::DIMENSIONS - axis,
            {
                let coord = Topo::axis(coords, axis);
                let start = Topo::axis(sample.offset, axis);
                if coord < start || coord - start >= sample.size {
                    assert(!(sample@.cube.corner[axis as int] <= p[axis as int]
                        < sample@.cube.corner[axis as int] + sample@.cube.size));
                    inside = false;
                }
                axis = axis + 1;
            }
            if inside {
                assert(sample@.cube.contains(p));
                return Some(index);
            }
        }
        None
    }

    /// Walks the tree of the chunk that `coords` falls into down to its leaf.
    fn descend(&self, coords: Topo::Coord) -> (sample: GridSample<'a, T, Topo>)
        requires
            self.wf(),
            self.source()@.in_bounds(Topo::point(coords)),
        ensures
            sample@ == self.source()@.leaf_at(Topo::point(coords)),
    {
        let grid: &'a Grid<T, Topo> = self.grid;
        let ghost model = grid@;
        let ghost p = Topo::point(coords);
        let ghost k = model.chunk_of(p);
        let chunk_size = grid.chunk_size;
        proof {
            grid.lemma_fields();
            grid.lemma_model();
            Topo::lemma_point(coords);
            Topo::lemma_shape();
            model.lemma_chunk_of(p);
        }
        let quotient = |coord: usize| -> (r: usize)
            requires
                chunk_size > 0,
            ensures
                r == coord as int / chunk_size as int,
            { coord / chunk_size };
        let chunk_coords = Topo::map(coords, quotient);
        proof {
            Topo::lemma_point(chunk_coords);
            assert(Topo::point(chunk_coords) =~= halves(p, model.edge()));
            assert(model.chunks.len() == product(model.chunks_num));
            assert(model.chunks_num.take(model.chunks_num.len() as int) =~= model.chunks_num);
        }
        let chunk_index = Topo::linear_index(chunk_coords, grid.config.chunks_num);
        let mut address = grid.chunks[chunk_index];
        let remainder = |coord: usize| -> (r: usize)
            requires
                chunk_size > 0,
            ensures
                r == coord as int % chunk_size as int,
            { coord % chunk_size };
        let mut local = Topo::map(coords, remainder);
        let mut offset = grid.chunk_corner(chunk_index);
        let mut depth: usize = 0;
        let mut size: usize = chunk_size;
        let ghost mut levels = model.levels;
        proof {
            Topo::lemma_point(local);
            Topo::lemma_point(offset);
            assert(cell_ok(grid.allocator, grid.chunks@[k], levels));
            assert forall|a: int| 0 <= a < Topo::DIMENSIONS implies #[trigger] Topo::point(
                offset,
            )[a] + size <= usize::MAX by {
                model.lemma_chunk_inside(k, a);
                assert(model.size()[a] <= usize::MAX);
            }
            assert forall|a: int| 0 <= a < Topo::DIMENSIONS implies #[trigger] Topo::point(
                local,
            )[a] == p[a] - Topo::point(offset)[a] by {
                vstd::arithmetic::div_mod::lemma_fundamental_div_mod(p[a], model.edge());
                assert(unlinear(k, model.chunks_num)[a] == p[a] / model.edge());
                let q = p[a] / model.edge();
                let e = model.edge();
                assert(q * e == e * q) by (nonlinear_arith);
            }
        }
        loop
            invariant
                grid.wf(),
                grid == self.grid,
                model == grid@,
                p == Topo::point(coords),
                p.len() == Topo::DIMENSIONS,
                Topo::CHILDREN == pow2(Topo::DIMENSIONS as nat),
                cell_ok(grid.allocator, address, levels),
                size == pow2(levels),
                depth + levels == model.levels,
                model.levels < usize::BITS,
                Topo::point(offset).len() == Topo::DIMENSIONS,
                Topo::point(local).len() == Topo::DIMENSIONS,
                forall|a: int|
                    0 <= a < Topo::DIMENSIONS ==> #[trigger] Topo::point(local)[a] == p[a]
                        - Topo::point(offset)[a],
                forall|a: int|
                    0 <= a < Topo::DIMENSIONS ==> #[trigger] Topo::point(offset)[a] + size
                        <= usize::MAX,
                (Cube { corner: Topo::point(offset), size: size as int }).contains(p),
                model.leaf_at(p) == tree_of(grid.allocator, address, levels).leaf_at(
                    Cube { corner: Topo::point(offset), size: size as int },
                    depth as nat,
                    p,
                ),
            decreases levels,
        {
            proof {
                grid.lemma_fields();
                Topo::lemma_point(coords);
                Topo::lemma_point(offset);
            }
            let ghost cube = Cube { corner: Topo::point(offset), size: size as int };
            let cell = grid.allocator.read(address).unwrap();
            match cell {
                Cell::Leaf { data } => {
                    return GridSample { offset, depth, size, data };
                },
                Cell::Branch { children } => {
                    proof {
                        lemma_edge(levels);
                        Topo::lemma_slots(*children);
                    }
                    let half = size / 2;
                    let ghost twos = splat(Topo::DIMENSIONS as nat, 2);
                    let ghost slot = cube.slot_of(p);
                    proof {
                        assert(minus(p, cube.corner) =~= Topo::point(local));
                        assert(within(
                            Topo::point(local),
                            splat(Topo::DIMENSIONS as nat, 2 * half),
                        )) by {
                            assert forall|a: int| 0 <= a < Topo::DIMENSIONS implies 0
                                <= #[trigger] Topo::point(local)[a] < 2 * half by {
                                assert(cube.corner[a] <= p[a] < cube.corner[a] + cube.size);
                            }
                        }
                        cube.lemma_slot_of(p);
                    }
                    let child_index = Topo::child_index(local, half);
                    let slots = Topo::children_as_slice(children);
                    address = slots[child_index];
                    offset = child_corner::<Topo>(offset, half, child_index);
                    let rest = |coord: usize| -> (r: usize)
                        requires
                            half > 0,
                        ensures
                            r == coord as int % half as int,
                        { coord % half };
                    let ghost inner = Topo::point(local);
                    local = Topo::map(local, rest);
                    proof {
                        Topo::lemma_point(local);
                        Topo::lemma_point(offset);
                        assert(cube.octant(slot) == (Cube {
                            corner: Topo::point(offset),
                            size: half as int,
                        }));
                        let bits = halves(minus(p, cube.corner), half as int);
                        assert forall|a: int| 0 <= a < bits.len() implies 0 <= #[trigger] bits[a]
                            < twos[a] by {
                            assert(0 <= inner[a] < 2 * half);
                            vstd::arithmetic::div_mod::lemma_multiply_divide_lt(
                                inner[a],
                                half as int,
                                2,
                            );
                            vstd::arithmetic::div_mod::lemma_div_pos_is_pos(
                                inner[a],
                                half as int,
                            );
                        }
                        lemma_unlinear_of_linear(bits, twos);
                        assert forall|a: int| 0 <= a < Topo::DIMENSIONS implies
                            #[trigger] Topo::point(local)[a] == p[a] - Topo::point(
                            offset,
                        )[a] by {
                            assert(unlinear(slot, twos)[a] == bits[a]);
                            vstd::arithmetic::div_mod::lemma_fundamental_div_mod(
                                inner[a],
                                half as int,
                            );
                        }
                        assert forall|a: int| 0 <= a < Topo::DIMENSIONS implies
                            #[trigger] Topo::point(offset)[a] + half <= usize::MAX by {
                            cube.lemma_octant_inside(slot, a);
                            assert(cube.corner[a] + size <= usize::MAX);
                        }
                        assert(cell_ok(
                            grid.allocator,
                            Topo::slots(*children)[slot],
                            (levels - 1) as nat,
                        ));
                        levels = (levels - 1) as nat;
                    }
                    size = half;
                    depth = depth + 1;
                },
            }
        }
    }

    /// Returns the leaf covering `coords`, or `None` if `coords` is out of
    /// bounds. May populate the leaf cache.
    pub fn sample(&mut self, coords: Topo::Coord) -> (sample: Option<GridSample<'a, T, Topo>>)
        requires
            old(self).wf(),
        ensures
            final(self).wf(),
            final(self).source() == old(self).source(),
            final(self).cache_limit() == old(self).cache_limit(),
            match sample {
                Some(found) => {
                    &&& old(self).source()@.in_bounds(Topo::point(coords))
                    &&& found@ == old(self).source()@.leaf_at(Topo::point(coords))
                    &&& final(self).cached() == cache_after(
                        old(self).cached(),
                        old(self).cache_limit(),
                        Topo::point(coords),
                        found,
                    )
                },
                None => {
                    &&& !old(self).source()@.in_bounds(Topo::point(coords))
                    &&& final(self).cached() == old(self).cached()
                },
            },
    {
        let ghost p = Topo::point(coords);
        let ghost model = self.source()@;
        proof {
            self.source().lemma_model();
        }
        if !self.covers(coords) {
            return None;
        }
        if self.limit > 0 {
            if let Some(index) = self.find_cached(coords) {
                let result = self.cache[index];
                proof {
                    assert(model.leaves().contains(self.cached()[index as int]@));
                    lemma_leaves_disjoint(model, result@, p);
                }
                if index < self.cache.len() - 1 {
                    let newer = self.cache[index + 1];
                    self.cache[index] = newer;
                    self.cache[index + 1] = result;
                    proof {
                        assert forall|j: int| 0 <= j < self.cached().len() implies
                            self.source()@.leaves().contains((#[trigger] self.cached()[j])@) by {
                            assert(model.leaves().contains(old(self).cached()[j]@));
                            assert(model.leaves().contains(old(self).cached()[index + 1]@));
                        }
                    }
                }
                return Some(result);
            }
        }
        let sample = self.descend(coords);
        if self.limit > 0 {
            self.cache.push(sample);
            proof {
                lemma_leaves_cover(model, p);
                assert forall|j: int| 0 <= j < self.cached().len() implies
                    self.source()@.leaves().contains((#[trigger] self.cached()[j])@) by {
                    if j < old(self).cached().len() {
                        assert(model.leaves().contains(old(self).cached()[j]@));
                    }
                }
            }
        }
        Some(sample)
    }
}

impl<T: CellData, Topo: Topology> Grid<T, Topo> {
    /// Returns a [`GridSampler`] for point and region queries against this grid.
    pub fn sampler<'a>(&'a self) -> (sampler: GridSampler<'a, T, Topo>)
        requires
            self.wf(),
        ensures
            sampler.wf(),
            sampler.source() == *self,
            sampler.cached() == Seq::<GridSample<'a, T, Topo>>::empty(),
            sampler.cache_limit() == (match self.settings().sampler_cache_limit {
                Some(limit) => limit,
                None => 0,
            }),
    {
        let limit = match self.config.sampler_cache_limit {
            Some(limit) => limit,
            None => 0,
        };
        proof {
            self.lemma_fields();
        }
        GridSampler { grid: self, cache: Vec::new(), limit }
    }
}

} // verus!
