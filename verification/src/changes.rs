//! Staged edits, and their application to a grid.
use crate::geometry::{
    addressable, box_points, extent, in_box, lemma_addressable, lemma_box_points,
    lemma_linear_bound, lemma_linear_injective, lemma_precedes_irreflexive,
    lemma_precedes_transitive, lemma_product_nonnegative, lemma_product_splat, linear, positive,
    precedes, product, rank, splat, within,
};
use crate::grid::CellData;
use crate::topology::{first_coord, Topology, Topology3d};
use core::ops::Range;
use vstd::arithmetic::power::pow;
use vstd::prelude::*;
use vstd::std_specs::iter::IteratorSpec;

pub mod apply;

verus! {

/// How one coordinate relates to another in lexicographic order.
enum Side {
    Before,
    Same,
    After,
}

/// Tells on which side of `right` the coordinate `left` lies.
fn side_of<Topo: Topology>(left: Topo::Coord, right: Topo::Coord) -> (side: Side)
    ensures
        match side {
            Side::Before => precedes(Topo::point(left), Topo::point(right)),
            Side::Same => left == right,
            Side::After => precedes(Topo::point(right), Topo::point(left)),
        },
{
    let ghost p = Topo::point(left);
    let ghost q = Topo::point(right);
    proof {
        Topo::lemma_point(left);
        Topo::lemma_point(right);
    }
    let mut axis: usize = 0;
    while axis < Topo::DIMENSIONS
        invariant
            axis <= Topo::DIMENSIONS,
            p == Topo::point(left),
            q == Topo::point(right),
            p.len() == Topo::DIMENSIONS,
            q.len() == Topo::DIMENSIONS,
            forall|j: int| 0 <= j < axis ==> p[j] == q[j],
        decreases Topo::DIMENSIONS - axis,
    {
        let l = Topo::axis(left, axis);
        let r = Topo::axis(right, axis);
        if l < r {
            assert(p[axis as int] < q[axis as int]);
            return Side::Before;
        }
        if r < l {
            assert(q[axis as int] < p[axis as int]);
            return Side::After;
        }
        axis = axis + 1;
    }
    proof {
        assert(p =~= q);
        Topo::lemma_point_injective(left, right);
    }
    Side::Same
}

/// Whether `value` is homogeneous with each of `others` from index `from` on.
fn homogeneous_with_all<T: CellData>(value: &T, others: &Vec<T>, from: usize) -> (all: bool)
    requires
        from <= others@.len(),
    ensures
        all == forall|k: int|
            from <= k < others@.len() ==> value.homogeneous(&#[trigger] others@[k]),
{
    let mut index: usize = from;
    while index < others.len()
        invariant
            from <= index <= others@.len(),
            forall|k: int| from <= k < index ==> value.homogeneous(&#[trigger] others@[k]),
        decreases others@.len() - index,
    {
        if !value.are_homogeneous(&others[index]) {
            return false;
        }
        index = index + 1;
    }
    true
}

/// Some place of a bucket holds an edit.
pub open spec fn occupied<T>(bucket: Seq<Option<T>>) -> bool {
    exists|j: int| 0 <= j < bucket.len() && #[trigger] bucket[j] is Some
}

/// A sparse staging buffer of pending cell edits.
///
/// Edits are accumulated by coordinate and only materialised when
/// [`apply`](Changes::apply)ed to a grid. `Changes` is itself a
/// [`Quantizer`](crate::quantizer::Quantizer): applying it rebuilds the grid,
/// subdividing only where edits introduce heterogeneity and leaving untouched
/// regions coarse. Edits are bucketed into cubic chunks of `chunk_size`
/// (independent of the target grid's own chunking) to keep the backing list
/// compact.
///
/// Contracts speak of it as the map from points to the values staged there.
pub struct Changes<T: CellData, Topo: Topology = Topology3d> {
    chunk_size: usize,
    chunks: Vec<(Topo::Coord, Vec<Option<T>>)>,
}

impl<T: CellData, Topo: Topology> Default for Changes<T, Topo> {
    fn default() -> (changes: Self)
        ensures
            changes.wf(),
            changes.bucket_edge() == 32,
            changes@ == Map::<Seq<int>, T>::empty(),
    {
        Self::new(32)
    }
}

impl<T: CellData, Topo: Topology> View for Changes<T, Topo> {
    type V = Map<Seq<int>, T>;

    closed spec fn view(&self) -> Map<Seq<int>, T> {
        Map::new(|p: Seq<int>| self.lookup(p) is Some, |p: Seq<int>| self.lookup(p)->0)
    }
}

impl<T: CellData, Topo: Topology> Changes<T, Topo> {
    /// Edge length of the buckets.
    pub closed spec fn bucket_edge(&self) -> usize {
        self.chunk_size
    }

    /// The buckets are not degenerate, and one bucket's edits can be counted.
    pub open spec fn usable(&self) -> bool {
        &&& self.bucket_edge() > 0
        &&& pow(self.bucket_edge() as int, Topo::DIMENSIONS as nat) <= usize::MAX
    }

    /// Coordinates of the bucket that `p` falls into.
    pub open spec fn bucket_of(&self, p: Seq<int>) -> Seq<int> {
        Seq::new(p.len(), |a: int| p[a] / self.bucket_edge() as int)
    }

    /// Coordinates of `p` within its bucket.
    pub open spec fn local_of(&self, p: Seq<int>) -> Seq<int> {
        Seq::new(p.len(), |a: int| p[a] % self.bucket_edge() as int)
    }

    /// Extents of a bucket.
    pub open spec fn bucket_size(&self) -> Seq<int> {
        splat(Topo::DIMENSIONS as nat, self.bucket_edge() as int)
    }

    spec fn key(&self, i: int) -> Seq<int> {
        Topo::point(self.chunks@[i].0)
    }

    spec fn lookup(&self, p: Seq<int>) -> Option<T> {
        if is_point::<Topo>(p) && exists|i: int|
            0 <= i < self.chunks@.len() && #[trigger] self.key(i) == self.bucket_of(p) {
            let i = choose|i: int|
                0 <= i < self.chunks@.len() && #[trigger] self.key(i) == self.bucket_of(p);
            self.chunks@[i].1@[linear(self.local_of(p), self.bucket_size())]
        } else {
            None
        }
    }

    /// The buckets are in lexicographic order without repetition, each has a
    /// place for every point in it, and none is without an edit.
    pub closed spec fn wf(&self) -> bool {
        &&& forall|i: int, j: int|
            0 <= i < j < self.chunks@.len() ==> precedes(
                #[trigger] self.key(i),
                #[trigger] self.key(j),
            )
        &&& forall|i: int|
            0 <= i < self.chunks@.len() ==> (#[trigger] self.chunks@[i]).1@.len() == product(
                self.bucket_size(),
            )
        &&& forall|i: int|
            0 <= i < self.chunks@.len() ==> occupied((#[trigger] self.chunks@[i]).1@)
    }

    proof fn lemma_bucket_size(&self)
        requires
            self.usable(),
        ensures
            positive(self.bucket_size()),
            addressable(self.bucket_size()),
            product(self.bucket_size()) == pow(
                self.bucket_edge() as int,
                Topo::DIMENSIONS as nat,
            ),
            product(self.bucket_size()) <= usize::MAX,
    {
        lemma_product_splat(Topo::DIMENSIONS as nat, self.bucket_edge() as int);
        lemma_addressable(self.bucket_size());
    }

    /// Keys do not repeat.
    proof fn lemma_key_unique(&self, i: int, j: int)
        requires
            self.wf(),
            0 <= i < self.chunks@.len(),
            0 <= j < self.chunks@.len(),
            self.key(i) == self.key(j),
        ensures
            i == j,
    {
        lemma_precedes_irreflexive(self.key(i));
        if i < j {
            assert(precedes(self.key(i), self.key(j)));
        }
        if j < i {
            assert(precedes(self.key(j), self.key(i)));
        }
    }

    /// What is staged at a point is what its bucket holds.
    proof fn lemma_lookup(&self, i: int, p: Seq<int>)
        requires
            self.wf(),
            is_point::<Topo>(p),
            0 <= i < self.chunks@.len(),
            self.key(i) == self.bucket_of(p),
        ensures
            self.lookup(p) == self.chunks@[i].1@[linear(self.local_of(p), self.bucket_size())],
    {
        let k = choose|k: int|
            0 <= k < self.chunks@.len() && #[trigger] self.key(k) == self.bucket_of(p);
        self.lemma_key_unique(i, k);
    }

    /// A point's coordinates within its bucket lie in a bucket.
    proof fn lemma_local(&self, p: Seq<int>)
        requires
            self.usable(),
            p.len() == Topo::DIMENSIONS,
        ensures
            within(self.local_of(p), self.bucket_size()),
            0 <= linear(self.local_of(p), self.bucket_size()) < product(self.bucket_size()),
    {
        let e = self.bucket_edge() as int;
        assert forall|a: int| 0 <= a < p.len() implies 0 <= #[trigger] self.local_of(p)[a]
            < self.bucket_size()[a] by {
            vstd::arithmetic::div_mod::lemma_mod_bound(p[a], e);
        }
        lemma_linear_bound(self.local_of(p), self.bucket_size());
    }

    /// A point is determined by its bucket and its place there.
    proof fn lemma_place(&self, p: Seq<int>, q: Seq<int>)
        requires
            self.usable(),
            p.len() == Topo::DIMENSIONS,
            q.len() == Topo::DIMENSIONS,
            self.bucket_of(p) == self.bucket_of(q),
            linear(self.local_of(p), self.bucket_size()) == linear(
                self.local_of(q),
                self.bucket_size(),
            ),
        ensures
            p == q,
    {
        let e = self.bucket_edge() as int;
        self.lemma_local(p);
        self.lemma_local(q);
        lemma_linear_injective(self.local_of(p), self.local_of(q), self.bucket_size());
        assert forall|a: int| 0 <= a < p.len() implies #[trigger] p[a] == q[a] by {
            vstd::arithmetic::div_mod::lemma_fundamental_div_mod(p[a], e);
            vstd::arithmetic::div_mod::lemma_fundamental_div_mod(q[a], e);
            assert(p[a] / e == self.bucket_of(p)[a] == q[a] / e);
            assert(p[a] % e == self.local_of(p)[a] == q[a] % e);
        }
        assert(p =~= q);
    }

    /// Creates an empty change set bucketing edits into cubes of `chunk_size`.
    pub fn new(chunk_size: usize) -> (changes: Self)
        ensures
            changes.wf(),
            changes.bucket_edge() == chunk_size,
            changes@ == Map::<Seq<int>, T>::empty(),
    {
        let changes = Self { chunk_size, chunks: Vec::new() };
        assert(changes@ =~= Map::<Seq<int>, T>::empty());
        changes
    }

    /// The edit-bucket edge length this change set uses.
    pub fn chunk_size(&self) -> (size: usize)
        ensures
            size == self.bucket_edge(),
    {
        self.chunk_size
    }

    /// Discards all pending edits.
    pub fn clear(&mut self)
        ensures
            final(self).wf(),
            final(self).bucket_edge() == old(self).bucket_edge(),
            final(self)@ == Map::<Seq<int>, T>::empty(),
    {
        self.chunks.clear();
        assert(self@ =~= Map::<Seq<int>, T>::empty());
    }

    fn local_index(&self, local_coord: Topo::Coord) -> (index: usize)
        requires
            self.usable(),
            within(Topo::point(local_coord), self.bucket_size()),
        ensures
            index == linear(Topo::point(local_coord), self.bucket_size()),
            index < product(self.bucket_size()),
    {
        proof {
            self.lemma_bucket_size();
            lemma_linear_bound(Topo::point(local_coord), self.bucket_size());
        }
        Topo::linear_index(local_coord, Topo::splat(self.chunk_size))
    }

    /// The bucket of a coordinate, and the index of its place there.
    fn place_of(&self, coord: Topo::Coord) -> (place: (Topo::Coord, usize))
        requires
            self.usable(),
        ensures
            Topo::point(place.0) == self.bucket_of(Topo::point(coord)),
            place.1 == linear(self.local_of(Topo::point(coord)), self.bucket_size()),
            place.1 < product(self.bucket_size()),
    {
        let size = self.chunk_size;
        let quotient = |c: usize| -> (r: usize)
            requires
                size > 0,
            ensures
                r == c as int / size as int,
            { c / size };
        let remainder = |c: usize| -> (r: usize)
            requires
                size > 0,
            ensures
                r == c as int % size as int,
            { c % size };
        let chunk_coord = Topo::map(coord, quotient);
        let local_coord = Topo::map(coord, remainder);
        proof {
            let p = Topo::point(coord);
            Topo::lemma_point(coord);
            Topo::lemma_point(chunk_coord);
            Topo::lemma_point(local_coord);
            assert(Topo::point(chunk_coord) =~= self.bucket_of(p));
            assert(Topo::point(local_coord) =~= self.local_of(p));
            self.lemma_local(p);
        }
        (chunk_coord, self.local_index(local_coord))
    }

    /// Position of the bucket at `chunk_coord` if there is one, else the
    /// position at which it belongs.
    fn locate(&self, chunk_coord: Topo::Coord) -> (found: Result<usize, usize>)
        requires
            self.wf(),
        ensures
            match found {
                Ok(position) => position < self.chunks@.len() && self.chunks@[position as int].0
                    == chunk_coord,
                Err(position) => {
                    &&& position <= self.chunks@.len()
                    &&& forall|i: int|
                        0 <= i < position ==> precedes(
                            #[trigger] self.key(i),
                            Topo::point(chunk_coord),
                        )
                    &&& forall|i: int|
                        position <= i < self.chunks@.len() ==> precedes(
                            Topo::point(chunk_coord),
                            #[trigger] self.key(i),
                        )
                },
            },
    {
        let ghost target = Topo::point(chunk_coord);
        let mut low: usize = 0;
        let mut high: usize = self.chunks.len();
        while low < high
            invariant
                low <= high <= self.chunks@.len(),
                target == Topo::point(chunk_coord),
                self.wf(),
                forall|i: int| 0 <= i < low ==> precedes(#[trigger] self.key(i), target),
                forall|i: int|
                    high <= i < self.chunks@.len() ==> precedes(target, #[trigger] self.key(i)),
            decreases high - low,
        {
            let middle = low + (high - low) / 2;
            let ghost m = middle as int;
            match side_of::<Topo>(self.chunks[middle].0, chunk_coord) {
                Side::Same => {
                    return Ok(middle);
                },
                Side::Before => {
                    proof {
                        assert forall|i: int| 0 <= i <= m implies precedes(
                            #[trigger] self.key(i),
                            target,
                        ) by {
                            if i < m {
                                assert(precedes(self.key(i), self.key(m)));
                                Topo::lemma_point(self.chunks@[i].0);
                                Topo::lemma_point(self.chunks@[m].0);
                                lemma_precedes_transitive(self.key(i), self.key(m), target);
                            }
                        }
                    }
                    low = middle + 1;
                },
                Side::After => {
                    proof {
                        assert forall|i: int| m <= i < self.chunks@.len() implies precedes(
                            target,
                            #[trigger] self.key(i),
                        ) by {
                            if m < i {
                                assert(precedes(self.key(m), self.key(i)));
                                Topo::lemma_point(chunk_coord);
                                Topo::lemma_point(self.chunks@[m].0);
                                lemma_precedes_transitive(target, self.key(m), self.key(i));
                            }
                        }
                    }
                    high = middle;
                },
            }
        }
        Err(low)
    }

    /// Stages `value` at a single `coord`, overwriting any prior edit there.
    pub fn set(&mut self, coord: Topo::Coord, value: T)
        requires
            old(self).wf(),
            old(self).usable(),
        ensures
            final(self).wf(),
            final(self).bucket_edge() == old(self).bucket_edge(),
            final(self)@ == old(self)@.insert(Topo::point(coord), value),
    {
        let ghost p = Topo::point(coord);
        let ghost before = *self;
        let (chunk_coord, index) = self.place_of(coord);
        proof {
            Topo::lemma_point(coord);
            self.lemma_bucket_size();
        }
        match self.locate(chunk_coord) {
            Ok(position) => {
                let ghost m = position as int;
                assert(before.chunks@[m].1@.len() == product(before.bucket_size()));
                self.chunks[position].1[index] = Some(value);
                proof {
                    before.lemma_write(*self, m, p, value);
                }
            },
            Err(position) => {
                let capacity = Topo::cell_volume(self.chunk_size);
                let mut bucket: Vec<Option<T>> = Vec::with_capacity(capacity);
                let mut filled: usize = 0;
                while filled < capacity
                    invariant
                        filled <= capacity,
                        bucket@.len() == filled,
                        forall|j: int| 0 <= j < filled ==> #[trigger] bucket@[j] is None,
                    decreases capacity - filled,
                {
                    bucket.push(None);
                    filled = filled + 1;
                }
                bucket[index] = Some(value);
                self.chunks.insert(position, (chunk_coord, bucket));
                proof {
                    before.lemma_insert(*self, position as int, p, value);
                }
            },
        }
    }

    /// Stages `value` at every coordinate in the half-open `region`.
    pub fn set_region(&mut self, region: Range<Topo::Coord>, value: T)
        requires
            old(self).wf(),
            old(self).usable(),
        ensures
            final(self).wf(),
            final(self).bucket_edge() == old(self).bucket_edge(),
            final(self)@ == with_region(
                old(self)@,
                Topo::point(region.start),
                Topo::point(region.end),
                value,
            ),
    {
        let ghost before = self@;
        let ghost lo = Topo::point(region.start);
        let ghost hi = Topo::point(region.end);
        let ghost total = product(extent(lo, hi));
        let ghost mut done: int = 0;
        proof {
            Topo::lemma_point(region.start);
            Topo::lemma_point(region.end);
            lemma_product_nonnegative(extent(lo, hi));
            assert forall|p: Seq<int>| in_box(p, lo, hi) implies #[trigger] rank(p, lo, hi)
                >= 0 by {
                lemma_box_points(p, lo, hi);
            }
            assert(self@ =~= with_first(before, lo, hi, value, 0));
        }
        let mut cursor = first_coord::<Topo>(&region);
        while cursor.is_some()
            invariant
                self.wf(),
                self.usable(),
                self.bucket_edge() == old(self).bucket_edge(),
                lo == Topo::point(region.start),
                hi == Topo::point(region.end),
                lo.len() == hi.len(),
                total == product(extent(lo, hi)),
                0 <= done <= total,
                self@ == with_first(before, lo, hi, value, done),
                match cursor {
                    Some(next) => in_box(Topo::point(next), lo, hi) && rank(
                        Topo::point(next),
                        lo,
                        hi,
                    ) == done,
                    None => done == total,
                },
            decreases total - done,
        {
            let coord = cursor.unwrap();
            self.set(coord, value);
            proof {
                let c = Topo::point(coord);
                lemma_box_points(c, lo, hi);
                assert forall|p: Seq<int>|
                    #![trigger with_first(before, lo, hi, value, done).contains_key(p)]
                    in_box(p, lo, hi) && rank(p, lo, hi) == done implies p == c by {
                    lemma_box_points(p, lo, hi);
                }
                assert(self@ =~= with_first(before, lo, hi, value, done + 1)) by {
                    assert forall|p: Seq<int>|
                        #[trigger] self@.contains_key(p) == with_first(
                            before,
                            lo,
                            hi,
                            value,
                            done + 1,
                        ).contains_key(p) by {
                        if in_box(p, lo, hi) {
                            lemma_box_points(p, lo, hi);
                        }
                    }
                    assert forall|p: Seq<int>| #[trigger] self@.contains_key(p) implies self@[p]
                        == with_first(before, lo, hi, value, done + 1)[p] by {
                        if in_box(p, lo, hi) {
                            lemma_box_points(p, lo, hi);
                        }
                    }
                }
                done = done + 1;
            }
            cursor = Topo::next_coord(&region, coord);
        }
        proof {
            assert forall|p: Seq<int>| in_box(p, lo, hi) implies #[trigger] rank(p, lo, hi)
                < total by {
                lemma_box_points(p, lo, hi);
            }
            assert(with_first(before, lo, hi, value, total) =~= with_region(before, lo, hi, value));
        }
    }

    /// Stages many `(coord, value)` edits at once, in the order given.
    pub fn extend<I: Iterator<Item = (Topo::Coord, T)>>(&mut self, values: I)
        requires
            old(self).wf(),
            old(self).usable(),
            values.obeys_prophetic_iter_laws(),
            values.decrease() is Some,
        ensures
            final(self).wf(),
            final(self).bucket_edge() == old(self).bucket_edge(),
            final(self)@ == with_edits::<T, Topo>(old(self)@, values.remaining()),
    {
        let ghost before = self@;
        let ghost all = values.remaining();
        let mut rest = values;
        let ghost mut done: int = 0;
        proof {
            assert(all.skip(0) =~= all);
        }
        loop
            invariant
                self.wf(),
                self.usable(),
                self.bucket_edge() == old(self).bucket_edge(),
                rest.obeys_prophetic_iter_laws(),
                rest.decrease() is Some,
                0 <= done <= all.len(),
                rest.remaining() == all.skip(done),
                self@ == with_edits::<T, Topo>(before, all.take(done)),
            ensures
                self@ == with_edits::<T, Topo>(before, all),
            decreases rest.decrease()->0,
        {
            match rest.next() {
                None => {
                    assert(all.take(done) =~= all);
                    break;
                },
                Some((coord, value)) => {
                    self.set(coord, value);
                    proof {
                        assert(all.take(done + 1).drop_last() =~= all.take(done));
                        assert(all.skip(done).drop_first() =~= all.skip(done + 1));
                        done = done + 1;
                    }
                },
            }
        }
    }

    /// Overwriting one place of a bucket stages one value.
    proof fn lemma_write(&self, after: Self, m: int, p: Seq<int>, value: T)
        requires
            self.wf(),
            self.usable(),
            is_point::<Topo>(p),
            0 <= m < self.chunks@.len(),
            self.key(m) == self.bucket_of(p),
            after.chunk_size == self.chunk_size,
            after.chunks@.len() == self.chunks@.len(),
            after.chunks@[m].0 == self.chunks@[m].0,
            after.chunks@[m].1@ == self.chunks@[m].1@.update(
                linear(self.local_of(p), self.bucket_size()),
                Some(value),
            ),
            forall|i: int|
                0 <= i < self.chunks@.len() && i != m ==> #[trigger] after.chunks@[i]
                    == self.chunks@[i],
        ensures
            after.wf(),
            after@ == self@.insert(p, value),
    {
        let at = linear(self.local_of(p), self.bucket_size());
        self.lemma_local(p);
        assert forall|i: int| 0 <= i < after.chunks@.len() implies #[trigger] after.key(i)
            == self.key(i) && after.chunks@[i].1@.len() == self.chunks@[i].1@.len() by {
            if i != m {
                assert(after.chunks@[i] == self.chunks@[i]);
            }
        }
        assert(self.chunks@[m].1@.len() == product(self.bucket_size()));
        assert(after.chunks@[m].1@[at] is Some);
        assert forall|i: int| 0 <= i < after.chunks@.len() implies occupied(
            (#[trigger] after.chunks@[i]).1@,
        ) by {
            if i != m {
                assert(occupied(self.chunks@[i].1@));
            }
        }
        assert forall|i: int, j: int| 0 <= i < j < after.chunks@.len() implies precedes(
            #[trigger] after.key(i),
            #[trigger] after.key(j),
        ) by {
            assert(precedes(self.key(i), self.key(j)));
        }
        assert forall|i: int| 0 <= i < after.chunks@.len() implies (
        #[trigger] after.chunks@[i]).1@.len() == product(after.bucket_size()) by {
            assert(after.key(i) == self.key(i));
            assert(self.chunks@[i].1@.len() == product(self.bucket_size()));
        }
        assert(after.wf());
        assert forall|q: Seq<int>| #[trigger] after.lookup(q) == (if q == p {
            Some(value)
        } else {
            self.lookup(q)
        }) by {
            if is_point::<Topo>(q) {
                assert(after.bucket_of(q) == self.bucket_of(q));
                assert(after.local_of(q) == self.local_of(q));
                if exists|i: int|
                    0 <= i < self.chunks@.len() && #[trigger] self.key(i) == self.bucket_of(q) {
                    let i = choose|i: int|
                        0 <= i < self.chunks@.len() && #[trigger] self.key(i) == self.bucket_of(q);
                    assert(after.key(i) == self.key(i));
                    self.lemma_lookup(i, q);
                    after.lemma_lookup(i, q);
                    self.lemma_local(q);
                    if i == m {
                        if linear(self.local_of(q), self.bucket_size()) == at {
                            self.lemma_place(p, q);
                        }
                    } else if q == p {
                        self.lemma_key_unique(i, m);
                    }
                } else {
                    assert forall|i: int| 0 <= i < after.chunks@.len() implies
                        #[trigger] after.key(i) != after.bucket_of(q) by {
                        assert(self.key(i) != self.bucket_of(q));
                    }
                    assert(self.key(m) == self.bucket_of(p));
                }
            }
        }
        assert(after@ =~= self@.insert(p, value));
    }

    /// A new bucket with one value in it stages that value.
    proof fn lemma_insert(&self, after: Self, m: int, p: Seq<int>, value: T)
        requires
            self.wf(),
            self.usable(),
            is_point::<Topo>(p),
            0 <= m <= self.chunks@.len(),
            forall|i: int| 0 <= i < m ==> precedes(#[trigger] self.key(i), self.bucket_of(p)),
            forall|i: int|
                m <= i < self.chunks@.len() ==> precedes(self.bucket_of(p), #[trigger] self.key(i)),
            after.chunk_size == self.chunk_size,
            after.chunks@.len() == self.chunks@.len() + 1,
            forall|i: int| 0 <= i < m ==> #[trigger] after.chunks@[i] == self.chunks@[i],
            forall|i: int|
                m < i < after.chunks@.len() ==> #[trigger] after.chunks@[i] == self.chunks@[i - 1],
            after.key(m) == self.bucket_of(p),
            after.chunks@[m].1@.len() == product(self.bucket_size()),
            forall|j: int|
                0 <= j < after.chunks@[m].1@.len() ==> #[trigger] after.chunks@[m].1@[j] == (if j
                    == linear(self.local_of(p), self.bucket_size()) {
                    Some(value)
                } else {
                    None
                }),
        ensures
            after.wf(),
            after@ == self@.insert(p, value),
    {
        let at = linear(self.local_of(p), self.bucket_size());
        self.lemma_local(p);
        let was = |i: int| if i < m { i } else { i - 1 };
        assert forall|i: int| 0 <= i < after.chunks@.len() && i != m implies #[trigger] after.key(i)
            == self.key(was(i)) && after.chunks@[i] == self.chunks@[was(i)] by {
            assert(after.chunks@[i] == self.chunks@[was(i)]);
        }
        assert forall|i: int, j: int| 0 <= i < j < after.chunks@.len() implies precedes(
            #[trigger] after.key(i),
            #[trigger] after.key(j),
        ) by {
            if i != m && j != m {
                assert(precedes(self.key(was(i)), self.key(was(j))));
            } else if i == m {
                assert(precedes(self.bucket_of(p), self.key(was(j))));
            } else {
                assert(precedes(self.key(was(i)), self.bucket_of(p)));
            }
        }
        assert(after.chunks@[m].1@[at] is Some);
        assert forall|i: int| 0 <= i < after.chunks@.len() implies occupied(
            (#[trigger] after.chunks@[i]).1@,
        ) by {
            if i != m {
                assert(after.key(i) == self.key(was(i)));
                assert(occupied(self.chunks@[was(i)].1@));
            }
        }
        assert forall|i: int| 0 <= i < after.chunks@.len() implies (
        #[trigger] after.chunks@[i]).1@.len() == product(after.bucket_size()) by {
            if i != m {
                assert(after.key(i) == self.key(was(i)));
                assert(self.chunks@[was(i)].1@.len() == product(self.bucket_size()));
            }
        }
        assert(after.wf());
        assert forall|q: Seq<int>| #[trigger] after.lookup(q) == (if q == p {
            Some(value)
        } else {
            self.lookup(q)
        }) by {
            if is_point::<Topo>(q) {
                assert(after.bucket_of(q) == self.bucket_of(q));
                assert(after.local_of(q) == self.local_of(q));
                self.lemma_local(q);
                lemma_precedes_irreflexive(self.bucket_of(p));
                if self.bucket_of(q) == self.bucket_of(p) {
                    after.lemma_lookup(m, q);
                    assert forall|i: int| 0 <= i < self.chunks@.len() implies #[trigger] self.key(i)
                        != self.bucket_of(q) by {}
                    if linear(self.local_of(q), self.bucket_size()) == at {
                        self.lemma_place(p, q);
                    }
                } else if exists|i: int|
                    0 <= i < self.chunks@.len() && #[trigger] self.key(i) == self.bucket_of(q) {
                    let i = choose|i: int|
                        0 <= i < self.chunks@.len() && #[trigger] self.key(i) == self.bucket_of(q);
                    let k = if i < m {
                        i
                    } else {
                        i + 1
                    };
                    assert(after.key(k) == self.key(was(k)));
                    self.lemma_lookup(i, q);
                    after.lemma_lookup(k, q);
                } else {
                    assert forall|i: int| 0 <= i < after.chunks@.len() implies
                        #[trigger] after.key(i) != after.bucket_of(q) by {
                        if i != m {
                            assert(self.key(was(i)) != self.bucket_of(q));
                        }
                    }
                }
            }
        }
        assert(after@ =~= self@.insert(p, value));
    }

    /// Returns the staged value at `coord`, or `None` if nothing is staged there.
    pub fn sample(&self, coord: Topo::Coord) -> (value: Option<&T>)
        requires
            self.wf(),
            self.usable(),
        ensures
            match value {
                Some(data) => self@.contains_key(Topo::point(coord)) && *data
                    == self@[Topo::point(coord)],
                None => !self@.contains_key(Topo::point(coord)),
            },
    {
        let ghost p = Topo::point(coord);
        let (chunk_coord, index) = self.place_of(coord);
        proof {
            Topo::lemma_point(coord);
        }
        match self.locate(chunk_coord) {
            Ok(position) => {
                proof {
                    self.lemma_lookup(position as int, p);
                    assert(self.chunks@[position as int].1@.len() == product(self.bucket_size()));
                }
                self.chunks[position].1[index].as_ref()
            },
            Err(position) => {
                proof {
                    lemma_precedes_irreflexive(self.bucket_of(p));
                    assert forall|i: int| 0 <= i < self.chunks@.len() implies #[trigger] self.key(i)
                        != self.bucket_of(p) by {
                        if i < position {
                            assert(precedes(self.key(i), self.bucket_of(p)));
                        } else {
                            assert(precedes(self.bucket_of(p), self.key(i)));
                        }
                    }
                }
                None
            },
        }
    }

    /// Every coordinate in `region`, in row-major order, paired with its staged
    /// value (`None` where nothing is staged).
    pub fn sample_region(&self, region: Range<Topo::Coord>) -> (samples: Vec<
        (Topo::Coord, Option<&T>),
    >)
        requires
            self.wf(),
            self.usable(),
        ensures
            samples@.len() == box_points(
                Topo::point(region.start),
                Topo::point(region.end),
            ).len(),
            forall|k: int|
                0 <= k < samples@.len() ==> {
                    let (coord, value) = #[trigger] samples@[k];
                    &&& Topo::point(coord) == box_points(
                        Topo::point(region.start),
                        Topo::point(region.end),
                    )[k]
                    &&& match value {
                        Some(data) => self@.contains_key(Topo::point(coord)) && *data
                            == self@[Topo::point(coord)],
                        None => !self@.contains_key(Topo::point(coord)),
                    }
                },
    {
        let ghost lo = Topo::point(region.start);
        let ghost hi = Topo::point(region.end);
        let ghost total = product(extent(lo, hi));
        proof {
            Topo::lemma_point(region.start);
            Topo::lemma_point(region.end);
            lemma_product_nonnegative(extent(lo, hi));
        }
        let mut samples: Vec<(Topo::Coord, Option<&T>)> = Vec::new();
        let mut cursor = first_coord::<Topo>(&region);
        while cursor.is_some()
            invariant
                self.wf(),
                self.usable(),
                lo == Topo::point(region.start),
                hi == Topo::point(region.end),
                lo.len() == hi.len(),
                total == product(extent(lo, hi)),
                samples@.len() <= total,
                match cursor {
                    Some(next) => in_box(Topo::point(next), lo, hi) && rank(
                        Topo::point(next),
                        lo,
                        hi,
                    ) == samples@.len(),
                    None => samples@.len() == total,
                },
                forall|k: int|
                    0 <= k < samples@.len() ==> {
                        let (coord, value) = #[trigger] samples@[k];
                        &&& Topo::point(coord) == box_points(lo, hi)[k]
                        &&& match value {
                            Some(data) => self@.contains_key(Topo::point(coord)) && *data
                                == self@[Topo::point(coord)],
                            None => !self@.contains_key(Topo::point(coord)),
                        }
                    },
            decreases total - samples@.len(),
        {
            let coord = cursor.unwrap();
            proof {
                lemma_box_points(Topo::point(coord), lo, hi);
            }
            samples.push((coord, self.sample(coord)));
            cursor = Topo::next_coord(&region, coord);
        }
        samples
    }

    /// If every coordinate in `region` resolves to
    /// [homogeneous](CellData::are_homogeneous) data - using `default_value`
    /// wherever no edit is staged - returns that common value, else `None`.
    ///
    /// The common value is that of the last coordinate. An empty region has none.
    pub fn is_region_homogeneous(&self, region: Range<Topo::Coord>, default_value: &T) -> (value:
        Option<T>)
        requires
            self.wf(),
            self.usable(),
        ensures
            match value {
                Some(data) => {
                    let values = resolved_values(
                        self@,
                        Topo::point(region.start),
                        Topo::point(region.end),
                        *default_value,
                    );
                    values.len() > 0 && alike(values) && data == values.last()
                },
                None => {
                    let values = resolved_values(
                        self@,
                        Topo::point(region.start),
                        Topo::point(region.end),
                        *default_value,
                    );
                    values.len() == 0 || !alike(values)
                },
            },
    {
        let ghost lo = Topo::point(region.start);
        let ghost hi = Topo::point(region.end);
        let ghost total = product(extent(lo, hi));
        let ghost values = resolved_values(self@, lo, hi, *default_value);
        let ghost mut done: int = 0;
        proof {
            Topo::lemma_point(region.start);
            Topo::lemma_point(region.end);
            lemma_product_nonnegative(extent(lo, hi));
        }
        let mut value: Option<T> = None;
        // The staged values so far. Coordinates without an edit all hold the
        // default value, which is compared once with each staged value before it
        // and once with itself.
        let mut edits: Vec<T> = Vec::new();
        let ghost mut places: Seq<int> = Seq::empty();
        let ghost mut plain: int = 0;
        let mut settled: usize = 0;
        let mut default_seen = false;
        let mut default_settled = false;
        let mut cursor = first_coord::<Topo>(&region);
        while cursor.is_some()
            invariant
                self.wf(),
                self.usable(),
                lo == Topo::point(region.start),
                hi == Topo::point(region.end),
                lo.len() == hi.len(),
                total == product(extent(lo, hi)),
                values == resolved_values(self@, lo, hi, *default_value),
                values.len() == total,
                0 <= done <= total,
                match cursor {
                    Some(next) => in_box(Topo::point(next), lo, hi) && rank(
                        Topo::point(next),
                        lo,
                        hi,
                    ) == done,
                    None => done == total,
                },
                value == (if done == 0 {
                    None
                } else {
                    Some(values[done - 1])
                }),
                forall|i: int, j: int|
                    #![trigger values[i], values[j]]
                    0 <= i < j < done ==> values[j].homogeneous(&values[i]),
                forall|i: int|
                    0 <= i < done ==> edits@.contains(#[trigger] values[i]) || (default_seen
                        && values[i] == *default_value),
                places.len() == edits@.len(),
                forall|k: int|
                    0 <= k < edits@.len() ==> 0 <= #[trigger] places[k] < done && edits@[k]
                        == values[places[k]],
                default_seen ==> 0 <= plain < done && values[plain] == *default_value,
                settled <= edits@.len(),
                forall|k: int|
                    0 <= k < settled ==> default_value.homogeneous(&#[trigger] edits@[k]),
                default_settled ==> default_value.homogeneous(default_value),
            decreases total - done,
        {
            let coord = cursor.unwrap();
            proof {
                lemma_box_points(Topo::point(coord), lo, hi);
            }
            match self.sample(coord) {
                Some(sample) => {
                    assert(*sample == values[done]);
                    if default_seen && !sample.are_homogeneous(default_value) {
                        assert(!values[done].homogeneous(&values[plain]));
                        return None;
                    }
                    if !homogeneous_with_all(sample, &edits, 0) {
                        proof {
                            let k = choose|k: int|
                                0 <= k < edits@.len() && !sample.homogeneous(
                                    &#[trigger] edits@[k],
                                );
                            assert(!values[done].homogeneous(&values[places[k]]));
                        }
                        return None;
                    }
                    proof {
                        assert forall|i: int| 0 <= i < done implies values[done].homogeneous(
                            &#[trigger] values[i],
                        ) by {
                            if edits@.contains(values[i]) {
                                let k = choose|k: int|
                                    0 <= k < edits@.len() && edits@[k] == values[i];
                                assert(sample.homogeneous(&edits@[k]));
                            }
                        }
                    }
                    let ghost before = edits@;
                    edits.push(*sample);
                    value = Some(*sample);
                    proof {
                        places = places.push(done);
                        assert forall|i: int| 0 <= i <= done implies edits@.contains(
                            #[trigger] values[i],
                        ) || (default_seen && values[i] == *default_value) by {
                            if i == done {
                                assert(edits@[before.len() as int] == values[i]);
                            } else if before.contains(values[i]) {
                                let k = choose|k: int|
                                    0 <= k < before.len() && before[k] == values[i];
                                assert(edits@[k] == values[i]);
                            }
                        }
                    }
                },
                None => {
                    assert(*default_value == values[done]);
                    if default_seen && !default_settled {
                        if !default_value.are_homogeneous(default_value) {
                            assert(!values[done].homogeneous(&values[plain]));
                            return None;
                        }
                        default_settled = true;
                    }
                    if !homogeneous_with_all(default_value, &edits, settled) {
                        proof {
                            let k = choose|k: int|
                                settled <= k < edits@.len() && !default_value.homogeneous(
                                    &#[trigger] edits@[k],
                                );
                            assert(!values[done].homogeneous(&values[places[k]]));
                        }
                        return None;
                    }
                    settled = edits.len();
                    proof {
                        assert forall|i: int| 0 <= i < done implies values[done].homogeneous(
                            &#[trigger] values[i],
                        ) by {
                            if edits@.contains(values[i]) {
                                let k = choose|k: int|
                                    0 <= k < edits@.len() && edits@[k] == values[i];
                                assert(default_value.homogeneous(&edits@[k]));
                            }
                        }
                        plain = done;
                    }
                    default_seen = true;
                    value = Some(*default_value);
                },
            }
            cursor = Topo::next_coord(&region, coord);
            proof {
                done = done + 1;
            }
        }
        value
    }

    /// The buckets of staged edits, in lexicographic order of their coordinates.
    ///
    /// A bucket has one place per point in it, in row-major order.
    pub fn chunks(&self) -> (buckets: &Vec<(Topo::Coord, Vec<Option<T>>)>)
        requires
            self.wf(),
            self.usable(),
        ensures
            forall|i: int, j: int|
                0 <= i < j < buckets@.len() ==> precedes(
                    #[trigger] Topo::point(buckets@[i].0),
                    #[trigger] Topo::point(buckets@[j].0),
                ),
            forall|i: int|
                0 <= i < buckets@.len() ==> (#[trigger] buckets@[i]).1@.len() == product(
                    self.bucket_size(),
                ) && occupied(buckets@[i].1@),
            forall|p: Seq<int>|
                #[trigger] self@.contains_key(p) ==> is_point::<Topo>(p) && exists|i: int|
                    0 <= i < buckets@.len() && #[trigger] Topo::point(buckets@[i].0)
                        == self.bucket_of(p),
            forall|p: Seq<int>, i: int|
                #![trigger Topo::point(buckets@[i].0), self@.contains_key(p)]
                0 <= i < buckets@.len() && is_point::<Topo>(p) && Topo::point(buckets@[i].0)
                    == self.bucket_of(p) ==> {
                    let place = buckets@[i].1@[linear(self.local_of(p), self.bucket_size())];
                    &&& self@.contains_key(p) == place is Some
                    &&& place is Some ==> self@[p] == place->0
                },
            forall|p: Seq<int>| #[trigger]
                self@.contains_key(p) ==> exists|i: int|
                    {
                        let start = Topo::point((#[trigger] buckets@[i]).0);
                        let edge = self.bucket_edge() as int;
                        &&& 0 <= i < buckets@.len()
                        &&& forall|a: int|
                            0 <= a < p.len() ==> start[a] * edge <= #[trigger] p[a] < start[a]
                                * edge + edge
                        &&& buckets@[i].1@[linear(
                            Seq::new(p.len(), |a: int| p[a] - start[a] * edge),
                            Seq::new(p.len(), |a: int| edge),
                        )] == Some(self@[p])
                    },
    {
        proof {
            assert forall|p: Seq<int>| #[trigger] self@.contains_key(p) implies exists|i: int|
                {
                    let start = Topo::point((#[trigger] self.chunks@[i]).0);
                    let edge = self.bucket_edge() as int;
                    &&& 0 <= i < self.chunks@.len()
                    &&& forall|a: int|
                        0 <= a < p.len() ==> start[a] * edge <= #[trigger] p[a] < start[a] * edge
                            + edge
                    &&& self.chunks@[i].1@[linear(
                        Seq::new(p.len(), |a: int| p[a] - start[a] * edge),
                        Seq::new(p.len(), |a: int| edge),
                    )] == Some(self@[p])
                } by {
                let edge = self.bucket_edge() as int;
                let i = choose|i: int|
                    0 <= i < self.chunks@.len() && #[trigger] self.key(i) == self.bucket_of(p);
                let start = Topo::point(self.chunks@[i].0);
                assert forall|a: int| 0 <= a < p.len() implies start[a] * edge <= #[trigger] p[a]
                    < start[a] * edge + edge && p[a] - start[a] * edge == self.local_of(
                    p,
                )[a] by {
                    vstd::arithmetic::div_mod::lemma_fundamental_div_mod(p[a], edge);
                    vstd::arithmetic::div_mod::lemma_mod_bound(p[a], edge);
                    assert(start[a] == self.bucket_of(p)[a]);
                    assert(edge * (p[a] / edge) == (p[a] / edge) * edge) by (nonlinear_arith);
                }
                assert(Seq::new(p.len(), |a: int| p[a] - start[a] * edge) =~= self.local_of(p));
                assert(Seq::new(p.len(), |a: int| edge) =~= self.bucket_size());
                self.lemma_lookup(i, p);
            }
            assert forall|p: Seq<int>| #[trigger] self@.contains_key(p) implies is_point::<Topo>(p)
                && exists|i: int|
                0 <= i < self.chunks@.len() && #[trigger] Topo::point(self.chunks@[i].0)
                    == self.bucket_of(p) by {
                let i = choose|i: int|
                    0 <= i < self.chunks@.len() && #[trigger] self.key(i) == self.bucket_of(p);
                assert(Topo::point(self.chunks@[i].0) == self.bucket_of(p));
            }
            assert forall|p: Seq<int>, i: int|
                #![trigger Topo::point(self.chunks@[i].0), self@.contains_key(p)]
                0 <= i < self.chunks@.len() && is_point::<Topo>(p) && Topo::point(
                    self.chunks@[i].0,
                ) == self.bucket_of(p) implies {
                let place = self.chunks@[i].1@[linear(self.local_of(p), self.bucket_size())];
                &&& self@.contains_key(p) == place is Some
                &&& place is Some ==> self@[p] == place->0
            } by {
                assert(self.key(i) == self.bucket_of(p));
                self.lemma_lookup(i, p);
            }
            assert forall|i: int, j: int| 0 <= i < j < self.chunks@.len() implies precedes(
                #[trigger] Topo::point(self.chunks@[i].0),
                #[trigger] Topo::point(self.chunks@[j].0),
            ) by {
                assert(precedes(self.key(i), self.key(j)));
            }
        }
        &self.chunks
    }
}

/// What holds at `p` once the edits are applied to a grid with `data` there.
pub open spec fn resolved<T>(staged: Map<Seq<int>, T>, p: Seq<int>, data: T) -> T {
    if staged.contains_key(p) {
        staged[p]
    } else {
        data
    }
}

/// What holds at the points of the box `lo..hi`, in row-major order, once the
/// edits are applied to a grid with `data` there.
pub open spec fn resolved_values<T>(
    staged: Map<Seq<int>, T>,
    lo: Seq<int>,
    hi: Seq<int>,
    data: T,
) -> Seq<T> {
    Seq::new(box_points(lo, hi).len(), |k: int| resolved(staged, box_points(lo, hi)[k], data))
}

/// Each value is homogeneous with all those before it.
pub open spec fn alike<T: CellData>(values: Seq<T>) -> bool {
    forall|i: int, j: int|
        #![trigger values[i], values[j]]
        0 <= i < j < values.len() ==> values[j].homogeneous(&values[i])
}

/// `staged` with `value` at every point of the half-open box `lo..hi`.
pub open spec fn with_region<T>(
    staged: Map<Seq<int>, T>,
    lo: Seq<int>,
    hi: Seq<int>,
    value: T,
) -> Map<Seq<int>, T> {
    staged.union_prefer_right(Map::new(|p: Seq<int>| in_box(p, lo, hi), |p: Seq<int>| value))
}

/// `staged` with `value` at the first `count` points of the box `lo..hi`.
spec fn with_first<T>(
    staged: Map<Seq<int>, T>,
    lo: Seq<int>,
    hi: Seq<int>,
    value: T,
    count: int,
) -> Map<Seq<int>, T> {
    staged.union_prefer_right(
        Map::new(
            |p: Seq<int>| in_box(p, lo, hi) && rank(p, lo, hi) < count,
            |p: Seq<int>| value,
        ),
    )
}

/// `staged` with each of `edits` on top of those before it.
pub open spec fn with_edits<T, Topo: Topology>(
    staged: Map<Seq<int>, T>,
    edits: Seq<(Topo::Coord, T)>,
) -> Map<Seq<int>, T>
    decreases edits.len(),
{
    if edits.len() == 0 {
        staged
    } else {
        with_edits::<T, Topo>(staged, edits.drop_last()).insert(
            Topo::point(edits.last().0),
            edits.last().1,
        )
    }
}

/// `p` is the point of some coordinate.
pub open spec fn is_point<Topo: Topology>(p: Seq<int>) -> bool {
    &&& p.len() == Topo::DIMENSIONS
    &&& forall|a: int| 0 <= a < p.len() ==> 0 <= #[trigger] p[a] <= usize::MAX
}

} // verus!
