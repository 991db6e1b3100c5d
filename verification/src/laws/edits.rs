//! What staged edits hold.
use crate::changes::apply::edited;
use crate::changes::{alike, resolved, resolved_values, with_edits, with_region, Changes};
use crate::geometry::{
    box_points, extent, in_box, lemma_box_points, lemma_box_points_at, lemma_product_nonnegative,
    rank,
};
use crate::grid::CellData;
use crate::laws::boxes::lemma_listed_order;
use crate::topology::Topology;
use crate::tree::Cube;
use core::ops::Range;
use vstd::arithmetic::power::pow;
use vstd::arithmetic::power2::{lemma_pow2_pos, pow2};
use vstd::prelude::*;

verus! {

/// A staged value is found at its point until another is staged there; no other
/// point is affected.
pub proof fn lemma_set_then_sample<T>(
    staged: Map<Seq<int>, T>,
    p: Seq<int>,
    value: T,
    q: Seq<int>,
    data: T,
)
    ensures
        resolved(staged.insert(p, value), q, data) == (if q == p {
            value
        } else if staged.contains_key(q) {
            staged[q]
        } else {
            data
        }),
{
}

/// Staging a region affects the points in it and no others.
pub proof fn lemma_region_then_sample<T>(
    staged: Map<Seq<int>, T>,
    lo: Seq<int>,
    hi: Seq<int>,
    value: T,
    q: Seq<int>,
    data: T,
)
    ensures
        ({
            let inside = q.len() == lo.len() && forall|a: int|
                0 <= a < q.len() ==> lo[a] <= #[trigger] q[a] < hi[a];
            let after = with_region(staged, lo, hi, value);
            &&& after.contains_key(q) <==> inside || staged.contains_key(q)
            &&& inside ==> after[q] == value
            &&& !inside && staged.contains_key(q) ==> after[q] == staged[q]
            &&& resolved(after, q, data) == (if inside {
                value
            } else if staged.contains_key(q) {
                staged[q]
            } else {
                data
            })
        }),
{
    assert(in_box(q, lo, hi) == (q.len() == lo.len() && forall|a: int|
        0 <= a < q.len() ==> lo[a] <= #[trigger] q[a] < hi[a]));
}

/// Of many edits to one point the last one counts.
pub proof fn lemma_last_edit_counts<T, Topo: Topology>(
    staged: Map<Seq<int>, T>,
    edits: Seq<(Topo::Coord, T)>,
    i: int,
)
    requires
        0 <= i < edits.len(),
        forall|j: int|
            i < j < edits.len() ==> Topo::point((#[trigger] edits[j]).0) != Topo::point(edits[i].0),
    ensures
        with_edits::<T, Topo>(staged, edits).contains_key(Topo::point(edits[i].0)),
        with_edits::<T, Topo>(staged, edits)[Topo::point(edits[i].0)] == edits[i].1,
    decreases edits.len(),
{
    if i + 1 < edits.len() {
        let rest = edits.drop_last();
        assert forall|j: int| i < j < rest.len() implies Topo::point((#[trigger] rest[j]).0)
            != Topo::point(rest[i].0) by {
            assert(rest[j] == edits[j]);
        }
        lemma_last_edit_counts::<T, Topo>(staged, rest, i);
        assert(edits[edits.len() - 1] == edits.last());
    }
}

/// Edits leave alone what they do not name.
pub proof fn lemma_edits_keep<T, Topo: Topology>(
    staged: Map<Seq<int>, T>,
    edits: Seq<(Topo::Coord, T)>,
    p: Seq<int>,
    data: T,
)
    requires
        forall|j: int| 0 <= j < edits.len() ==> Topo::point((#[trigger] edits[j]).0) != p,
    ensures
        resolved(with_edits::<T, Topo>(staged, edits), p, data) == resolved(staged, p, data),
        with_edits::<T, Topo>(staged, edits).contains_key(p) == staged.contains_key(p),
        staged.contains_key(p) ==> with_edits::<T, Topo>(staged, edits)[p] == staged[p],
    decreases edits.len(),
{
    if edits.len() > 0 {
        let rest = edits.drop_last();
        assert forall|j: int| 0 <= j < rest.len() implies Topo::point((#[trigger] rest[j]).0)
            != p by {
            assert(rest[j] == edits[j]);
        }
        lemma_edits_keep::<T, Topo>(staged, rest, p, data);
        assert(edits[edits.len() - 1] == edits.last());
    }
}

/// The values that a box resolves to are alike exactly if, of any two of its
/// points, what holds at the one that comes later in row-major order is homogeneous
/// with what holds at the other. The last of them is what holds at the highest
/// point.
pub proof fn lemma_alike_points<T: CellData>(
    staged: Map<Seq<int>, T>,
    lo: Seq<int>,
    hi: Seq<int>,
    data: T,
)
    requires
        lo.len() == hi.len(),
    ensures
        ({
            let at = |p: Seq<int>|
                if staged.contains_key(p) {
                    staged[p]
                } else {
                    data
                };
            let values = resolved_values(staged, lo, hi, data);
            &&& alike(values) ==> forall|p: Seq<int>, q: Seq<int>, a: int|
                #![trigger p[a], q[a]]
                {
                    &&& p.len() == lo.len() && q.len() == lo.len()
                    &&& forall|b: int| 0 <= b < lo.len() ==> lo[b] <= #[trigger] p[b] < hi[b]
                    &&& forall|b: int| 0 <= b < lo.len() ==> lo[b] <= #[trigger] q[b] < hi[b]
                    &&& 0 <= a < lo.len() && p[a] < q[a]
                    &&& forall|b: int| a < b < lo.len() ==> #[trigger] p[b] == q[b]
                } ==> at(q).homogeneous(&at(p))
            &&& !alike(values) ==> exists|p: Seq<int>, q: Seq<int>, a: int|
                #![trigger p[a], q[a]]
                {
                    &&& p.len() == lo.len() && q.len() == lo.len()
                    &&& forall|b: int| 0 <= b < lo.len() ==> lo[b] <= #[trigger] p[b] < hi[b]
                    &&& forall|b: int| 0 <= b < lo.len() ==> lo[b] <= #[trigger] q[b] < hi[b]
                    &&& 0 <= a < lo.len() && p[a] < q[a]
                    &&& forall|b: int| a < b < lo.len() ==> #[trigger] p[b] == q[b]
                    &&& !at(q).homogeneous(&at(p))
                }
            &&& values.len() > 0 <==> forall|b: int|
                0 <= b < lo.len() ==> #[trigger] lo[b] < hi[b]
            &&& values.len() > 0 ==> values.last() == at(Seq::new(lo.len(), |b: int| hi[b] - 1))
        }),
{
    let at = |p: Seq<int>|
        if staged.contains_key(p) {
            staged[p]
        } else {
            data
        };
    let values = resolved_values(staged, lo, hi, data);
    let all = box_points(lo, hi);
    lemma_product_nonnegative(extent(lo, hi));
    assert forall|k: int| 0 <= k < all.len() implies #[trigger] values[k] == at(all[k]) by {}
    if alike(values) {
        assert forall|p: Seq<int>, q: Seq<int>, a: int|
            #![trigger p[a], q[a]]
            {
                &&& p.len() == lo.len() && q.len() == lo.len()
                &&& forall|b: int| 0 <= b < lo.len() ==> lo[b] <= #[trigger] p[b] < hi[b]
                &&& forall|b: int| 0 <= b < lo.len() ==> lo[b] <= #[trigger] q[b] < hi[b]
                &&& 0 <= a < lo.len() && p[a] < q[a]
                &&& forall|b: int| a < b < lo.len() ==> #[trigger] p[b] == q[b]
            } implies at(q).homogeneous(&at(p)) by {
            assert(in_box(p, lo, hi));
            assert(in_box(q, lo, hi));
            lemma_box_points(p, lo, hi);
            lemma_box_points(q, lo, hi);
            let i = rank(p, lo, hi);
            let j = rank(q, lo, hi);
            assert(all[i] == p && all[j] == q);
            if i == j {
                assert(p == q);
            } else if j < i {
                let c = lemma_listed_order(lo, hi, j, i);
                if c < a {
                    assert(all[j][a] == all[i][a]);
                } else if c > a {
                    assert(p[c] == q[c]);
                }
            }
            assert(i < j);
            assert(values[j].homogeneous(&values[i]));
        }
    } else {
        let (i, j) = choose|i: int, j: int|
            #![trigger values[i], values[j]]
            0 <= i < j < values.len() && !values[j].homogeneous(&values[i]);
        let a = lemma_listed_order(lo, hi, i, j);
        lemma_box_points_at(i, lo, hi);
        lemma_box_points_at(j, lo, hi);
        let (p, q) = (all[i], all[j]);
        assert(p[a] < q[a]);
        assert(values[i] == at(p) && values[j] == at(q));
    }
    if values.len() > 0 {
        lemma_box_points_at(0, lo, hi);
        assert forall|b: int| 0 <= b < lo.len() implies #[trigger] lo[b] < hi[b] by {
            assert(lo[b] <= all[0][b] < hi[b]);
        }
    }
    if forall|b: int| 0 <= b < lo.len() ==> #[trigger] lo[b] < hi[b] {
        let top = Seq::new(lo.len(), |b: int| hi[b] - 1);
        assert forall|b: int| 0 <= b < top.len() implies lo[b] <= #[trigger] top[b] < hi[b] by {
            assert(lo[b] < hi[b]);
        }
        assert(in_box(top, lo, hi));
        lemma_box_points(top, lo, hi);
        let k = rank(top, lo, hi);
        let n = all.len() - 1;
        if k < n {
            let a = lemma_listed_order(lo, hi, k, n);
            lemma_box_points_at(n, lo, hi);
            assert(all[n][a] < hi[a]);
        }
        assert(values.last() == at(top));
    }
}

/// Where staged edits leave a cell homogeneous it becomes a leaf with the value of
/// its highest point; where they do not, and where it can be subdivided, each of
/// its octants becomes what the edits make of it.
pub proof fn lemma_edited_cell<T: CellData>(
    staged: Map<Seq<int>, T>,
    cube: Cube,
    levels: nat,
    data: T,
)
    requires
        cube.size == pow2(levels),
    ensures
        ({
            let at = |p: Seq<int>|
                if staged.contains_key(p) {
                    staged[p]
                } else {
                    data
                };
            let out = edited(staged, cube, levels, data);
            let split = exists|p: Seq<int>, q: Seq<int>, a: int|
                #![trigger p[a], q[a]]
                {
                    &&& cube.contains(p) && cube.contains(q)
                    &&& 0 <= a < cube.dim() && p[a] < q[a]
                    &&& forall|b: int| a < b < cube.dim() ==> #[trigger] p[b] == q[b]
                    &&& !at(q).homogeneous(&at(p))
                };
            &&& out is Branch <==> levels > 0 && split
            &&& out is Leaf ==> out->Leaf_0 == at(
                Seq::new(cube.dim(), |b: int| cube.corner[b] + cube.size - 1),
            )
            &&& out is Branch ==> out->Branch_0.len() == pow2(cube.dim()) && forall|i: int|
                0 <= i < out->Branch_0.len() ==> #[trigger] out->Branch_0[i] == edited(
                    staged,
                    cube.octant(i),
                    (levels - 1) as nat,
                    data,
                )
        }),
{
    lemma_alike_points(staged, cube.corner, cube.upper(), data);
    lemma_pow2_pos(levels);
    let at = |p: Seq<int>|
        if staged.contains_key(p) {
            staged[p]
        } else {
            data
        };
    let (lo, hi) = (cube.corner, cube.upper());
    let values = resolved_values(staged, lo, hi, data);
    assert(Seq::new(lo.len(), |b: int| hi[b] - 1) =~= Seq::new(
        cube.dim(),
        |b: int| cube.corner[b] + cube.size - 1,
    ));
    if !alike(values) {
        let (p, q, a) = choose|p: Seq<int>, q: Seq<int>, a: int|
            #![trigger p[a], q[a]]
            {
                &&& p.len() == lo.len() && q.len() == lo.len()
                &&& forall|b: int| 0 <= b < lo.len() ==> lo[b] <= #[trigger] p[b] < hi[b]
                &&& forall|b: int| 0 <= b < lo.len() ==> lo[b] <= #[trigger] q[b] < hi[b]
                &&& 0 <= a < lo.len() && p[a] < q[a]
                &&& forall|b: int| a < b < lo.len() ==> #[trigger] p[b] == q[b]
                &&& !at(q).homogeneous(&at(p))
            };
        assert(cube.contains(p) && cube.contains(q));
        assert(p[a] < q[a]);
    } else {
        assert forall|p: Seq<int>, q: Seq<int>, a: int|
            #![trigger p[a], q[a]]
            {
                &&& cube.contains(p) && cube.contains(q)
                &&& 0 <= a < cube.dim() && p[a] < q[a]
                &&& forall|b: int| a < b < cube.dim() ==> #[trigger] p[b] == q[b]
            } implies at(q).homogeneous(&at(p)) by {
            assert forall|b: int| 0 <= b < lo.len() implies lo[b] <= #[trigger] p[b] < hi[b] by {}
            assert forall|b: int| 0 <= b < lo.len() implies lo[b] <= #[trigger] q[b] < hi[b] by {}
        }
    }
}

/// A region is homogeneous exactly if it is not empty and, of any two of its
/// points, what holds at the one that comes later in row-major order is homogeneous
/// with what holds at the other. Its common value is what holds at the highest
/// point.
pub proof fn lemma_homogeneous_region<T: CellData, Topo: Topology>(
    changes: &Changes<T, Topo>,
    region: Range<Topo::Coord>,
    default_value: &T,
    value: Option<T>,
)
    requires
        changes.wf(),
        changes.usable(),
        call_ensures(
            Changes::<T, Topo>::is_region_homogeneous,
            (changes, region, default_value),
            value,
        ),
    ensures
        ({
            let at = |p: Seq<int>|
                if changes@.contains_key(p) {
                    changes@[p]
                } else {
                    *default_value
                };
            let (lo, hi) = (Topo::point(region.start), Topo::point(region.end));
            let split = exists|p: Seq<int>, q: Seq<int>, a: int|
                #![trigger p[a], q[a]]
                {
                    &&& p.len() == lo.len() && q.len() == lo.len()
                    &&& forall|b: int| 0 <= b < lo.len() ==> lo[b] <= #[trigger] p[b] < hi[b]
                    &&& forall|b: int| 0 <= b < lo.len() ==> lo[b] <= #[trigger] q[b] < hi[b]
                    &&& 0 <= a < lo.len() && p[a] < q[a]
                    &&& forall|b: int| a < b < lo.len() ==> #[trigger] p[b] == q[b]
                    &&& !at(q).homogeneous(&at(p))
                };
            let empty = exists|b: int| 0 <= b < lo.len() && #[trigger] lo[b] >= hi[b];
            &&& value is None <==> empty || split
            &&& value is Some ==> value->0 == at(Seq::new(lo.len(), |b: int| hi[b] - 1))
        }),
{
    let (lo, hi) = (Topo::point(region.start), Topo::point(region.end));
    Topo::lemma_point(region.start);
    Topo::lemma_point(region.end);
    lemma_alike_points(changes@, lo, hi, *default_value);
}

/// Any bucket edge can be used whose buckets have a number of places that can be
/// counted.
pub proof fn lemma_usable<T: CellData, Topo: Topology>(
    edge: usize,
    changes: Changes<T, Topo>,
)
    requires
        call_ensures(Changes::<T, Topo>::new, (edge,), changes),
    ensures
        edge > 0 && Topo::DIMENSIONS == 2 && edge * edge <= usize::MAX ==> changes.usable(),
        edge > 0 && Topo::DIMENSIONS == 3 && edge * edge * edge <= usize::MAX ==> changes.usable(),
        forall|p: Seq<int>| !#[trigger] changes@.contains_key(p),
{
    let n = edge as int;
    reveal(pow);
    reveal_with_fuel(pow, 4);
    assert(n * (n * 1) == n * n && n * (n * (n * 1)) == n * n * n) by (nonlinear_arith);
}

} // verus!
