//! Dense copies of a grid.
use crate::geometry::{
    addressable, extent, in_box, lemma_box_points, lemma_linear_bound, lemma_linear_injective,
    linear, product, rank, within,
};
use crate::grid::{CellData, Grid};
use crate::topology::{Topology, Topology3d};
use crate::tree::{lemma_grid_leaf, lemma_leaves_cover, lemma_leaves_disjoint};
use core::ops::Range;
use vstd::prelude::*;

verus! {

/// A dense, fully-expanded copy of a grid, produced by [`Grid::flatten`].
///
/// Values are stored row-major with axis `0` contiguous; index a coordinate via
/// [`Topology::linear_index`].
#[derive(Debug)]
pub struct GridFlat<T: CellData, Topo: Topology = Topology3d> {
    size: Topo::Coord,
    fields: Vec<T>,
}

impl<T: CellData, Topo: Topology> Clone for GridFlat<T, Topo> {
    fn clone(&self) -> (copy: Self)
        ensures
            copy.extents() == self.extents(),
            copy.values() == self.values(),
    {
        let mut fields: Vec<T> = Vec::with_capacity(self.fields.len());
        let mut index: usize = 0;
        while index < self.fields.len()
            invariant
                index <= self.fields@.len(),
                fields@ == self.fields@.take(index as int),
            decreases self.fields@.len() - index,
        {
            fields.push(self.fields[index]);
            assert(self.fields@.take(index + 1) =~= self.fields@.take(index as int).push(
                self.fields@[index as int],
            ));
            index = index + 1;
        }
        assert(self.fields@.take(self.fields@.len() as int) =~= self.fields@);
        GridFlat { size: self.size, fields }
    }
}

impl<T: CellData, Topo: Topology> GridFlat<T, Topo> {
    /// Extent per axis.
    pub closed spec fn extents(&self) -> Seq<int> {
        Topo::point(self.size)
    }

    /// All values, axis `0` contiguous.
    pub closed spec fn values(&self) -> Seq<T> {
        self.fields@
    }

    /// There is one value per point of the extent.
    pub open spec fn wf(&self) -> bool {
        &&& self.extents().len() == Topo::DIMENSIONS
        &&& self.values().len() == product(self.extents())
    }

    /// The extent of the buffer in cells per axis.
    pub fn size(&self) -> (size: Topo::Coord)
        ensures
            Topo::point(size) == self.extents(),
    {
        self.size
    }

    /// The flat backing buffer (`size` product entries, axis `0` contiguous).
    pub fn fields(&self) -> (fields: &[T])
        ensures
            fields@ == self.values(),
    {
        self.fields.as_slice()
    }

    /// Writes `data` to every point of `region`.
    fn fill(&mut self, region: &Range<Topo::Coord>, data: T)
        requires
            old(self).wf(),
            addressable(old(self).extents()),
            forall|a: int|
                0 <= a < Topo::DIMENSIONS ==> #[trigger] Topo::point(region.start)[a]
                    < Topo::point(region.end)[a],
            forall|a: int|
                0 <= a < Topo::DIMENSIONS ==> #[trigger] Topo::point(region.end)[a]
                    <= old(self).extents()[a],
        ensures
            final(self).wf(),
            final(self).extents() == old(self).extents(),
            forall|p: Seq<int>|
                within(p, old(self).extents()) ==> #[trigger] final(self).values()[linear(
                    p,
                    old(self).extents(),
                )] == (if in_box(
                    p,
                    Topo::point(region.start),
                    Topo::point(region.end),
                ) {
                    data
                } else {
                    old(self).values()[linear(p, old(self).extents())]
                }),
    {
        let ghost lo = Topo::point(region.start);
        let ghost hi = Topo::point(region.end);
        let ghost size = self.extents();
        let ghost before = self.values();
        let mut coord = region.start;
        proof {
            Topo::lemma_point(region.start);
            Topo::lemma_point(region.end);
            lemma_box_points(lo, lo, hi);
            crate::geometry::lemma_rank_of_start(lo, hi);
            assert forall|p: Seq<int>|
                within(p, size) implies #[trigger] self.values()[linear(p, size)]
                == (if in_box(p, lo, hi) && rank(p, lo, hi) < 0 {
                data
            } else {
                before[linear(p, size)]
            }) by {
                if in_box(p, lo, hi) {
                    lemma_box_points(p, lo, hi);
                }
            }
        }
        loop
            invariant
                lo == Topo::point(region.start),
                hi == Topo::point(region.end),
                lo.len() == Topo::DIMENSIONS,
                hi.len() == Topo::DIMENSIONS,
                forall|a: int| 0 <= a < Topo::DIMENSIONS ==> 0 <= #[trigger] lo[a],
                forall|a: int| 0 <= a < Topo::DIMENSIONS ==> #[trigger] hi[a] <= size[a],
                size == self.extents(),
                size == old(self).extents(),
                before == old(self).values(),
                addressable(size),
                self.wf(),
                in_box(Topo::point(coord), lo, hi),
                forall|p: Seq<int>|
                    within(p, size) ==> #[trigger] self.values()[linear(p, size)]
                        == (if in_box(p, lo, hi) && rank(p, lo, hi) < rank(
                        Topo::point(coord),
                        lo,
                        hi,
                    ) {
                        data
                    } else {
                        before[linear(p, size)]
                    }),
            decreases product(extent(lo, hi)) - rank(Topo::point(coord), lo, hi),
        {
            let ghost at = Topo::point(coord);
            proof {
                assert(within(at, size)) by {
                    assert forall|a: int| 0 <= a < at.len() implies 0 <= #[trigger] at[a]
                        < size[a] by {
                        assert(lo[a] <= at[a] < hi[a]);
                    }
                }
                lemma_linear_bound(at, size);
                assert(product(size.take(size.len() as int)) <= usize::MAX);
                assert(size.take(size.len() as int) =~= size);
                lemma_box_points(at, lo, hi);
            }
            let index = Topo::linear_index(coord, self.size);
            let ghost earlier = self.values();
            self.fields[index] = data;
            proof {
                assert forall|p: Seq<int>|
                    within(p, size) implies #[trigger] self.values()[linear(
                    p,
                    size,
                )] == (if in_box(p, lo, hi) && rank(p, lo, hi) < rank(at, lo, hi) + 1 {
                    data
                } else {
                    before[linear(p, size)]
                }) by {
                    lemma_linear_bound(p, size);
                    assert(earlier[linear(p, size)] == (if in_box(p, lo, hi) && rank(p, lo, hi)
                        < rank(at, lo, hi) {
                        data
                    } else {
                        before[linear(p, size)]
                    }));
                    if linear(p, size) == linear(at, size) {
                        lemma_linear_injective(p, at, size);
                    } else if in_box(p, lo, hi) && rank(p, lo, hi) == rank(at, lo, hi) {
                        lemma_box_points(p, lo, hi);
                        assert(p == at);
                    }
                }
            }
            match Topo::next_coord(region, coord) {
                None => {
                    proof {
                        assert forall|p: Seq<int>|
                            within(p, size) implies #[trigger] self.values()[linear(
                            p,
                            size,
                        )] == (if in_box(p, lo, hi) {
                            data
                        } else {
                            before[linear(p, size)]
                        }) by {
                            if in_box(p, lo, hi) {
                                lemma_box_points(p, lo, hi);
                            }
                        }
                    }
                    return;
                },
                Some(next) => {
                    coord = next;
                },
            }
        }
    }
}

/// The point with the given three coordinates.
pub open spec fn point3(x: int, y: int, z: int) -> Seq<int> {
    seq![x, y, z]
}

/// Row-major index of `(x, y, z)` in a three-dimensional box, and the facts that
/// keep the arithmetic on it in range.
proof fn lemma_row(size: Seq<int>, y: int, z: int)
    requires
        size.len() == 3,
        0 <= size[0],
        0 <= y < size[1],
        0 <= z < size[2],
    ensures
        forall|x: int|
            #![trigger point3(x, y, z)]
            linear(point3(x, y, z), size) == z * size[0] * size[1] + y * size[0] + x,
        0 <= z * size[0],
        0 <= z * size[0] * size[1],
        0 <= y * size[0],
        z * size[0] * size[1] + y * size[0] + size[0] <= product(size),
        z * size[0] <= product(size),
{
    let (a, b, c) = (size[0], size[1], size[2]);
    let s1 = size.drop_first();
    let s2 = s1.drop_first();
    let s3 = s2.drop_first();
    assert(product(s3) == 1);
    assert(product(s2) == c * 1);
    assert(product(s1) == b * product(s2));
    assert(product(size) == a * (b * c));
    assert forall|x: int| #![trigger point3(x, y, z)] linear(point3(x, y, z), size)
        == z * a * b + y * a + x by {
        let p = point3(x, y, z);
        let p1 = p.drop_first();
        let p2 = p1.drop_first();
        let p3 = p2.drop_first();
        assert(linear(p3, s3) == 0);
        assert(linear(p2, s2) == z + c * 0);
        assert(linear(p1, s1) == y + b * linear(p2, s2));
        assert(linear(p, size) == x + a * (y + b * z));
        assert(a * (y + b * z) == z * a * b + y * a) by (nonlinear_arith);
    }
    assert(0 <= z * a && 0 <= z * a * b && 0 <= y * a && z * a * b + y * a + a <= a * (b * c)
        && z * a <= a * (b * c)) by (nonlinear_arith)
        requires
            0 <= a,
            0 <= y < b,
            0 <= z < c,
    {
        assert(0 <= z * a);
        assert(0 <= y * a);
        assert(0 <= (z * a) * b);
        assert(y * a + a <= b * a);
        assert((z + 1) * (a * b) <= c * (a * b));
        assert(a * (b * c) == c * (a * b));
        assert((z + 1) * (a * b) == (z * a) * b + b * a);
        assert(z * a <= (z * a) * b);
    }
}

impl<T: CellData> GridFlat<T, Topology3d> {
    /// The value at `(x, y, z)`.
    pub open spec fn value_at(&self, x: int, y: int, z: int) -> T {
        self.values()[linear(point3(x, y, z), self.extents())]
    }

    /// Reshapes the flat buffer into nested `[z][y][x]` vectors (3D only).
    pub fn into_3d(self) -> (layers: Vec<Vec<Vec<T>>>)
        requires
            self.wf(),
        ensures
            layers@.len() == self.extents()[2],
            forall|z: int|
                0 <= z < layers@.len() ==> (#[trigger] layers@[z])@.len() == self.extents()[1],
            forall|z: int, y: int|
                0 <= z < layers@.len() && 0 <= y < layers@[z]@.len() ==> (
                #[trigger] layers@[z]@[y])@.len() == self.extents()[0],
            forall|z: int, y: int, x: int|
                0 <= z < layers@.len() && 0 <= y < layers@[z]@.len() && 0 <= x
                    < layers@[z]@[y]@.len() ==> #[trigger] layers@[z]@[y]@[x] == self.value_at(
                    x,
                    y,
                    z,
                ),
    {
        let copy = |value: &T| -> (r: T)
            ensures
                r == *value,
            { *value };
        self.map_into_3d(&copy)
    }

    /// Like [`into_3d`](GridFlat::into_3d) but maps each value through `f` while
    /// reshaping (3D only).
    pub fn map_into_3d<U, F: Fn(&T) -> U>(self, f: &F) -> (layers: Vec<Vec<Vec<U>>>)
        requires
            self.wf(),
            forall|i: int|
                0 <= i < self.values().len() ==> call_requires(f, (&#[trigger] self.values()[i],)),
        ensures
            layers@.len() == self.extents()[2],
            forall|z: int|
                0 <= z < layers@.len() ==> (#[trigger] layers@[z])@.len() == self.extents()[1],
            forall|z: int, y: int|
                0 <= z < layers@.len() && 0 <= y < layers@[z]@.len() ==> (
                #[trigger] layers@[z]@[y])@.len() == self.extents()[0],
            forall|z: int, y: int, x: int|
                0 <= z < layers@.len() && 0 <= y < layers@[z]@.len() && 0 <= x
                    < layers@[z]@[y]@.len() ==> call_ensures(
                    f,
                    (&self.value_at(x, y, z),),
                    #[trigger] layers@[z]@[y]@[x],
                ),
    {
        let ghost size = self.extents();
        let size_x = self.size[0];
        let size_y = self.size[1];
        let size_z = self.size[2];
        let total = self.fields.len();
        let mut layers: Vec<Vec<Vec<U>>> = Vec::with_capacity(size_z);
        proof {
            Topology3d::lemma_point(self.size);
            assert(size[0] == size_x);
            assert(size[1] == size_y);
            assert(size[2] == size_z);
            assert(self.fields@ == self.values());
        }
        let mut z: usize = 0;
        while z < size_z
            invariant
                z <= size_z,
                self.wf(),
                size == self.extents(),
                size.len() == 3,
                total == product(size),
                size[0] == size_x,
                size[1] == size_y,
                size[2] == size_z,
                forall|i: int|
                    0 <= i < self.values().len() ==> call_requires(
                        f,
                        (&#[trigger] self.values()[i],),
                    ),
                layers@.len() == z,
                forall|c: int| 0 <= c < z ==> (#[trigger] layers@[c])@.len() == size_y,
                forall|c: int, b: int|
                    0 <= c < z && 0 <= b < size_y ==> (#[trigger] layers@[c]@[b])@.len() == size_x,
                forall|c: int, b: int, a: int|
                    0 <= c < z && 0 <= b < size_y && 0 <= a < size_x ==> call_ensures(
                        f,
                        (&self.value_at(a, b, c),),
                        #[trigger] layers@[c]@[b]@[a],
                    ),
            decreases size_z - z,
        {
            let mut layer: Vec<Vec<U>> = Vec::with_capacity(size_y);
            let mut y: usize = 0;
            while y < size_y
                invariant
                    y <= size_y,
                    z < size_z,
                    self.wf(),
                    size == self.extents(),
                    size.len() == 3,
                    total == product(size),
                    size[0] == size_x,
                    size[1] == size_y,
                    size[2] == size_z,
                    forall|i: int|
                        0 <= i < self.values().len() ==> call_requires(
                            f,
                            (&#[trigger] self.values()[i],),
                        ),
                    layer@.len() == y,
                    forall|b: int| 0 <= b < y ==> (#[trigger] layer@[b])@.len() == size_x,
                    forall|b: int, a: int|
                        0 <= b < y && 0 <= a < size_x ==> call_ensures(
                            f,
                            (&self.value_at(a, b, z as int),),
                            #[trigger] layer@[b]@[a],
                        ),
                decreases size_y - y,
            {
                proof {
                    lemma_row(size, y as int, z as int);
                    assert(self.fields@.len() == product(size));
                }
                let start = z * size_x * size_y + y * size_x;
                let mut row: Vec<U> = Vec::with_capacity(size_x);
                let mut x: usize = 0;
                while x < size_x
                    invariant
                        x <= size_x,
                        y < size_y,
                        z < size_z,
                        self.wf(),
                        size == self.extents(),
                        start + size_x <= self.fields@.len() == total,
                        self.fields@ == self.values(),
                        start == z * size_x * size_y + y * size_x,
                        forall|a: int|
                            #![trigger point3(a, y as int, z as int)]
                            linear(point3(a, y as int, z as int), size) == start + a,
                        forall|i: int|
                            0 <= i < self.values().len() ==> call_requires(
                                f,
                                (&#[trigger] self.values()[i],),
                            ),
                        row@.len() == x,
                        forall|a: int|
                            0 <= a < x ==> call_ensures(
                                f,
                                (&self.value_at(a, y as int, z as int),),
                                #[trigger] row@[a],
                            ),
                    decreases size_x - x,
                {
                    proof {
                        assert(self.value_at(x as int, y as int, z as int) == self.fields@[start
                            + x]);
                        assert(call_requires(f, (&self.values()[start + x],)));
                    }
                    row.push(f(&self.fields[start + x]));
                    x = x + 1;
                }
                layer.push(row);
                y = y + 1;
            }
            layers.push(layer);
            z = z + 1;
        }
        layers
    }
}

impl<T: CellData, Topo: Topology> Grid<T, Topo> {
    /// Expands the sparse grid into a dense [`GridFlat`] buffer, writing each
    /// leaf's value into every cell it covers. `default_value` fills the buffer
    /// first; the leaves of a well-formed grid overwrite all of it.
    pub fn flatten(&self, default_value: T) -> (flat: GridFlat<T, Topo>)
        requires
            self.wf(),
            addressable(self@.size()),
        ensures
            flat.wf(),
            flat.extents() == self@.size(),
            forall|p: Seq<int>|
                self@.in_bounds(p) ==> #[trigger] flat.values()[linear(p, self@.size())]
                    == self@.at(p),
    {
        let ghost model = self@;
        let ghost size = self@.size();
        let ghost all = model.leaves();
        proof {
            self.lemma_fields();
            self.lemma_model();
        }
        let mut flat: GridFlat<T, Topo> = GridFlat {
            size: self.size,
            fields: vec![default_value; Topo::volume(self.size)],
        };
        let mut leaves = self.iter();
        let ghost mut done: int = 0;
        loop
            invariant
                self.wf(),
                model == self@,
                model.valid(),
                model.dim() == Topo::DIMENSIONS,
                size == model.size(),
                all == model.leaves(),
                addressable(size),
                flat.wf(),
                flat.extents() == size,
                leaves.wf(),
                0 <= done <= all.len(),
                leaves@ == all.skip(done),
                forall|i: int, p: Seq<int>|
                    0 <= i < done && #[trigger] all[i].cube.contains(p)
                        ==> flat.values()[linear(p, size)] == all[i].data,
            decreases all.len() - done,
        {
            match leaves.next() {
                None => {
                    proof {
                        assert forall|p: Seq<int>| model.in_bounds(p) implies
                            #[trigger] flat.values()[linear(p, size)] == model.at(p) by {
                            lemma_leaves_cover(model, p);
                            let i = choose|i: int|
                                0 <= i < all.len() && all[i] == model.leaf_at(p);
                            assert(all[i].cube.contains(p));
                        }
                    }
                    return flat;
                },
                Some((region, data)) => {
                    let ghost leaf = all[done];
                    let ghost before = flat.values();
                    proof {
                        assert(all.skip(done)[0] == leaf);
                        assert(all.contains(leaf));
                        lemma_grid_leaf(model, leaf);
                        Topo::lemma_point(region.start);
                        Topo::lemma_point(region.end);
                        assert forall|a: int| 0 <= a < Topo::DIMENSIONS implies
                            #[trigger] Topo::point(region.start)[a] < Topo::point(
                            region.end,
                        )[a] by {
                            assert(leaf.cube.corner[a] >= 0);
                        }
                        assert forall|a: int| 0 <= a < Topo::DIMENSIONS implies
                            #[trigger] Topo::point(region.end)[a] <= size[a] by {
                            assert(leaf.cube.corner[a] >= 0);
                        }
                    }
                    flat.fill(&region, *data);
                    proof {
                        assert forall|i: int, p: Seq<int>|
                            0 <= i < done + 1 && #[trigger] all[i].cube.contains(p) implies
                            flat.values()[linear(p, size)] == all[i].data by {
                            assert(all.contains(all[i]));
                            lemma_leaves_disjoint(model, all[i], p);
                            if leaf.cube.contains(p) {
                                lemma_leaves_disjoint(model, leaf, p);
                                assert(in_box(
                                    p,
                                    Topo::point(region.start),
                                    Topo::point(region.end),
                                ));
                            } else {
                                assert(i < done);
                                assert(before[linear(p, size)] == all[i].data);
                                if in_box(
                                    p,
                                    Topo::point(region.start),
                                    Topo::point(region.end),
                                ) {
                                    assert(leaf.cube.contains(p));
                                }
                            }
                        }
                        assert(all.skip(done).drop_first() =~= all.skip(done + 1));
                        done = done + 1;
                    }
                },
            }
        }
    }
}

} // verus!
