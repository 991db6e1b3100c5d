//! How the parts of a region add up.
use crate::geometry::{
    addressable, box_points, digit, extent, lemma_addressable_monotone, lemma_box_points_at,
    lemma_corner_count, lemma_digit_shift, lemma_product_nonnegative, lemma_product_positive,
    lemma_product_zero, nonnegative, overlap, overlap_on_axis, overlapping, positive, product,
    shares_stretch, splat, unlinear,
};
use crate::grid::CellData;
use crate::laws::leaves::lemma_leaves_once;
use crate::tree::{
    chunk_leaves, lemma_edge, lemma_grid_leaf, lemma_leaves_cover, lemma_leaves_disjoint,
    octant_leaves, touching, Cube, GridModel, LeafCell, Tree,
};
use vstd::arithmetic::power2::{lemma_pow2_pos, pow2};
use vstd::prelude::*;

verus! {

/// Sum of all entries.
pub open spec fn seq_sum(s: Seq<int>) -> int
    decreases s.len(),
{
    if s.len() == 0 {
        0
    } else {
        seq_sum(s.drop_last()) + s.last()
    }
}

proof fn lemma_seq_sum_add(s: Seq<int>, t: Seq<int>)
    ensures
        seq_sum(s + t) == seq_sum(s) + seq_sum(t),
    decreases t.len(),
{
    if t.len() == 0 {
        assert(s + t =~= s);
    } else {
        lemma_seq_sum_add(s, t.drop_last());
        assert((s + t).drop_last() =~= s + t.drop_last());
    }
}

proof fn lemma_seq_sum_scaled(s: Seq<int>, x: int)
    ensures
        seq_sum(Seq::new(s.len(), |i: int| s[i] * x)) == seq_sum(s) * x,
    decreases s.len(),
{
    let scaled = Seq::new(s.len(), |i: int| s[i] * x);
    if s.len() == 0 {
        assert(seq_sum(s) * x == 0) by (nonlinear_arith)
            requires
                seq_sum(s) == 0,
        ;
    } else {
        let rest = s.drop_last();
        lemma_seq_sum_scaled(rest, x);
        assert(scaled.drop_last() =~= Seq::new(rest.len(), |i: int| rest[i] * x));
        let y = seq_sum(rest);
        let z = s.last();
        assert((y + z) * x == y * x + z * x) by (nonlinear_arith);
    }
}

/// Number of weights on each axis.
spec fn counts(weights: Seq<Seq<int>>) -> Seq<int> {
    Seq::new(weights.len(), |a: int| weights[a].len() as int)
}

/// Product of the weights that `index` picks.
spec fn term(weights: Seq<Seq<int>>, index: Seq<int>) -> int {
    product(Seq::new(weights.len(), |a: int| weights[a][index[a]]))
}

/// The terms of all indices, in row-major order.
spec fn terms(weights: Seq<Seq<int>>) -> Seq<int> {
    Seq::new(
        product(counts(weights)) as nat,
        |k: int| term(weights, unlinear(k, counts(weights))),
    )
}

spec fn axis_sums(weights: Seq<Seq<int>>) -> Seq<int> {
    Seq::new(weights.len(), |a: int| seq_sum(weights[a]))
}

/// The term of an index is its first weight times the term of the rest.
proof fn lemma_term(weights: Seq<Seq<int>>, i: int, m: int)
    requires
        weights.len() > 0,
        positive(counts(weights)),
        0 <= i < weights[0].len(),
        0 <= m,
    ensures
        term(weights, unlinear(i + weights[0].len() * m, counts(weights))) == weights[0][i] * term(
            weights.drop_first(),
            unlinear(m, counts(weights.drop_first())),
        ),
{
    let n = counts(weights);
    let n0 = weights[0].len() as int;
    let rest = weights.drop_first();
    let k = i + n0 * m;
    assert(n0 * m >= 0) by (nonlinear_arith)
        requires
            n0 >= 0,
            m >= 0,
    ;
    assert(n0 * m == m * n0) by (nonlinear_arith);
    vstd::arithmetic::div_mod::lemma_fundamental_div_mod_converse(k, n0, m, i);
    assert(n.drop_first() =~= counts(rest));
    let index = unlinear(k, n);
    let below = unlinear(m, counts(rest));
    assert(product(n.take(0)) == 1);
    assert(index[0] == i) by {
        assert(digit(k, n, 0) == (k / 1) % n0);
        assert(k / 1 == k);
    }
    let picked = Seq::new(weights.len(), |a: int| weights[a][index[a]]);
    let others = Seq::new(rest.len(), |a: int| rest[a][below[a]]);
    assert forall|a: int| 0 <= a < rest.len() implies picked.drop_first()[a] == others[a] by {
        lemma_digit_shift(k, n, a + 1);
        assert(index[a + 1] == below[a]);
    }
    assert(picked.drop_first() =~= others);
}

/// The terms of the first `m` blocks add up to as many terms of the rest, each
/// taken with all weights of the first axis.
proof fn lemma_blocks(weights: Seq<Seq<int>>, m: int)
    requires
        weights.len() > 0,
        positive(counts(weights)),
        0 <= m <= terms(weights.drop_first()).len(),
    ensures
        0 <= weights[0].len() * m <= terms(weights).len(),
        seq_sum(terms(weights).take(weights[0].len() * m)) == seq_sum(weights[0]) * seq_sum(
            terms(weights.drop_first()).take(m),
        ),
    decreases m,
{
    let n = counts(weights);
    let n0 = weights[0].len() as int;
    let rest = weights.drop_first();
    let all = terms(weights);
    let below = terms(rest);
    assert(n.drop_first() =~= counts(rest));
    assert(positive(counts(rest))) by {
        assert forall|a: int| 0 <= a < counts(rest).len() implies 0 < #[trigger] counts(
            rest,
        )[a] by {
            assert(n[a + 1] > 0);
        }
    }
    lemma_product_positive(counts(rest));
    lemma_product_positive(n);
    let total = product(counts(rest));
    assert(product(n) == n0 * total);
    assert(0 <= n0 * m <= n0 * total) by (nonlinear_arith)
        requires
            0 <= m <= total,
            n0 >= 0,
    ;
    if m == 0 {
        assert(n0 * m == 0) by (nonlinear_arith)
            requires
                m == 0,
        ;
        let s = seq_sum(weights[0]);
        assert(s * 0 == 0) by (nonlinear_arith);
    } else {
        lemma_blocks(weights, m - 1);
        assert(n0 * m == n0 * (m - 1) + n0) by (nonlinear_arith);
        let x = below[m - 1];
        let block = Seq::new(weights[0].len(), |i: int| weights[0][i] * x);
        assert(all.take(n0 * m) =~= all.take(n0 * (m - 1)) + block) by {
            assert forall|i: int| 0 <= i < n0 implies #[trigger] block[i] == all[n0 * (m - 1)
                + i] by {
                lemma_term(weights, i, m - 1);
            }
        }
        lemma_seq_sum_add(all.take(n0 * (m - 1)), block);
        lemma_seq_sum_scaled(weights[0], x);
        assert(below.take(m).drop_last() =~= below.take(m - 1));
        let s = seq_sum(weights[0]);
        let y = seq_sum(below.take(m - 1));
        assert(s * (y + x) == s * y + s * x) by (nonlinear_arith);
    }
}

/// The sum of all terms is the product of the sums on each axis.
proof fn lemma_expand(weights: Seq<Seq<int>>)
    requires
        positive(counts(weights)),
    ensures
        seq_sum(terms(weights)) == product(axis_sums(weights)),
    decreases weights.len(),
{
    let all = terms(weights);
    if weights.len() == 0 {
        let none = Seq::new(
            weights.len(),
            |a: int| weights[a][unlinear(0, counts(weights))[a]],
        );
        assert(product(counts(weights)) == 1);
        assert(product(none) == 1);
        assert(all.len() == 1);
        assert(all[0] == 1);
        assert(seq_sum(all.drop_last()) == 0);
    } else {
        let rest = weights.drop_first();
        let n = counts(weights);
        assert(n.drop_first() =~= counts(rest));
        assert(positive(counts(rest))) by {
            assert forall|a: int| 0 <= a < counts(rest).len() implies 0 < #[trigger] counts(
                rest,
            )[a] by {
                assert(n[a + 1] > 0);
            }
        }
        lemma_expand(rest);
        lemma_product_positive(counts(rest));
        let below = terms(rest);
        lemma_blocks(weights, below.len() as int);
        assert(below.take(below.len() as int) =~= below);
        assert(all.take(all.len() as int) =~= all);
        assert(axis_sums(weights).drop_first() =~= axis_sums(rest));
    }
}

/// Number of points that a cube shares with the box `lo..hi`.
pub open spec fn shared(lo: Seq<int>, hi: Seq<int>, cube: Cube) -> int {
    product(overlap(lo, hi, cube.corner, cube.size))
}

/// Number of points that the leaves share with the box `lo..hi`, leaf by leaf.
pub open spec fn shared_total<T>(lo: Seq<int>, hi: Seq<int>, leaves: Seq<LeafCell<T>>) -> int
    decreases leaves.len(),
{
    if leaves.len() == 0 {
        0
    } else {
        shared_total(lo, hi, leaves.drop_last()) + shared(lo, hi, leaves.last().cube)
    }
}

proof fn lemma_shared_total_add<T>(
    lo: Seq<int>,
    hi: Seq<int>,
    left: Seq<LeafCell<T>>,
    right: Seq<LeafCell<T>>,
)
    ensures
        shared_total(lo, hi, left + right) == shared_total(lo, hi, left) + shared_total(
            lo,
            hi,
            right,
        ),
    decreases right.len(),
{
    if right.len() == 0 {
        assert(left + right =~= left);
    } else {
        lemma_shared_total_add(lo, hi, left, right.drop_last());
        assert((left + right).drop_last() =~= left + right.drop_last());
    }
}

/// A cube that misses a box shares no point with it.
proof fn lemma_shares_nothing(lo: Seq<int>, hi: Seq<int>, cube: Cube)
    requires
        !overlapping(lo, hi, cube.corner, cube.size),
    ensures
        shared(lo, hi, cube) == 0,
{
    let o = overlap(lo, hi, cube.corner, cube.size);
    let a = choose|a: int|
        #![trigger cube.corner[a]]
        0 <= a < cube.dim() && !shares_stretch(lo[a], hi[a], cube.corner[a], cube.size);
    assert(o[a] == 0);
    assert(nonnegative(o));
    lemma_product_zero(o);
    lemma_product_nonnegative(o);
}

/// Leaves that miss a box add nothing.
proof fn lemma_touching_total<T>(lo: Seq<int>, hi: Seq<int>, leaves: Seq<LeafCell<T>>)
    ensures
        shared_total(lo, hi, leaves.filter(touching(lo, hi))) == shared_total(lo, hi, leaves),
    decreases leaves.len(),
{
    let t = touching::<T>(lo, hi);
    reveal(Seq::filter);
    if leaves.len() > 0 {
        let rest = leaves.drop_last();
        let last = leaves.last();
        lemma_touching_total(lo, hi, rest);
        if t(last) {
            assert(leaves.filter(t) == rest.filter(t).push(last));
            assert(rest.filter(t).push(last).drop_last() =~= rest.filter(t));
        } else {
            lemma_shares_nothing(lo, hi, last.cube);
        }
    }
}

/// The octants of a cube share what the cube shares.
proof fn lemma_octants_share(lo: Seq<int>, hi: Seq<int>, cube: Cube)
    requires
        cube.size > 0,
        cube.size % 2 == 0,
    ensures
        seq_sum(Seq::new(pow2(cube.dim()), |i: int| shared(lo, hi, cube.octant(i)))) == shared(
            lo,
            hi,
            cube,
        ),
{
    let half = cube.size / 2;
    let weights = Seq::new(
        cube.dim(),
        |a: int|
            seq![
                overlap_on_axis(lo[a], hi[a], cube.corner[a], half),
                overlap_on_axis(lo[a], hi[a], cube.corner[a] + half, half),
            ],
    );
    let twos = splat(cube.dim(), 2);
    assert(counts(weights) =~= twos);
    lemma_corner_count(cube.dim());
    lemma_expand(weights);
    let parts = Seq::new(pow2(cube.dim()), |i: int| shared(lo, hi, cube.octant(i)));
    assert forall|i: int| 0 <= i < pow2(cube.dim()) implies #[trigger] parts[i] == terms(
        weights,
    )[i] by {
        let index = unlinear(i, twos);
        let picked = Seq::new(weights.len(), |a: int| weights[a][index[a]]);
        let o = overlap(lo, hi, cube.octant(i).corner, half);
        assert forall|a: int| 0 <= a < cube.dim() implies picked[a] == o[a] by {
            cube.lemma_octant_inside(i, a);
            assert(half * 0 == 0 && half * 1 == half);
        }
        assert(picked =~= o);
    }
    assert(parts =~= terms(weights));
    let whole = overlap(lo, hi, cube.corner, cube.size);
    assert forall|a: int| 0 <= a < cube.dim() implies axis_sums(weights)[a] == whole[a] by {
        let w = weights[a];
        assert(w.drop_last() =~= seq![w[0]]);
        assert(seq![w[0]].drop_last() =~= Seq::<int>::empty());
        assert(seq_sum(seq![w[0]]) == seq_sum(Seq::<int>::empty()) + w[0]);
        assert(seq_sum(w) == w[0] + w[1]);
    }
    assert(axis_sums(weights) =~= whole);
}

/// The leaves of a tree share what its cube shares.
proof fn lemma_tree_shares<T>(
    lo: Seq<int>,
    hi: Seq<int>,
    tree: Tree<T>,
    cube: Cube,
    depth: nat,
    levels: nat,
)
    requires
        tree.shaped(pow2(cube.dim()), levels),
        cube.size == pow2(levels),
    ensures
        shared_total(lo, hi, tree.leaves(cube, depth)) == shared(lo, hi, cube),
    decreases levels, 0nat,
{
    match tree {
        Tree::Leaf(data) => {
            let leaf = LeafCell { cube, depth, data };
            let one = seq![leaf];
            assert(one.drop_last() =~= Seq::<LeafCell<T>>::empty());
            assert(shared_total(lo, hi, one.drop_last()) == 0);
        },
        Tree::Branch(kids) => {
            lemma_edge(levels);
            lemma_kids_share(lo, hi, kids, cube, depth + 1, (levels - 1) as nat);
            lemma_octants_share(lo, hi, cube);
        },
    }
}

proof fn lemma_kids_share<T>(
    lo: Seq<int>,
    hi: Seq<int>,
    kids: Seq<Tree<T>>,
    cube: Cube,
    depth: nat,
    levels: nat,
)
    requires
        cube.size == 2 * pow2(levels),
        forall|i: int|
            0 <= i < kids.len() ==> (#[trigger] kids[i]).shaped(pow2(cube.dim()), levels),
    ensures
        shared_total(lo, hi, octant_leaves(kids, cube, depth)) == seq_sum(
            Seq::new(kids.len(), |i: int| shared(lo, hi, cube.octant(i))),
        ),
    decreases levels, kids.len() + 1,
{
    let parts = Seq::new(kids.len(), |i: int| shared(lo, hi, cube.octant(i)));
    if kids.len() > 0 {
        let rest = kids.drop_last();
        let n = kids.len() - 1;
        assert forall|i: int| 0 <= i < rest.len() implies (#[trigger] rest[i]).shaped(
            pow2(cube.dim()),
            levels,
        ) by {
            assert(rest[i] == kids[i]);
        }
        lemma_kids_share(lo, hi, rest, cube, depth, levels);
        assert(kids[n].shaped(pow2(cube.dim()), levels));
        lemma_tree_shares(lo, hi, kids[n], cube.octant(n), depth, levels);
        lemma_shared_total_add(
            lo,
            hi,
            kids.last().leaves(cube.octant(n), depth),
            octant_leaves(rest, cube, depth),
        );
        assert(parts.drop_last() =~= Seq::new(
            rest.len(),
            |i: int| shared(lo, hi, cube.octant(i)),
        ));
    }
}

proof fn lemma_chunk_trees_share<T>(
    lo: Seq<int>,
    hi: Seq<int>,
    model: GridModel<T>,
    trees: Seq<Tree<T>>,
)
    requires
        forall|k: int|
            0 <= k < trees.len() ==> (#[trigger] trees[k]).shaped(model.fan(), model.levels),
    ensures
        shared_total(lo, hi, chunk_leaves(model, trees)) == seq_sum(
            Seq::new(trees.len(), |k: int| shared(lo, hi, model.chunk_cube(k))),
        ),
    decreases trees.len(),
{
    let parts = Seq::new(trees.len(), |k: int| shared(lo, hi, model.chunk_cube(k)));
    if trees.len() > 0 {
        let rest = trees.drop_last();
        let n = trees.len() - 1;
        assert forall|k: int| 0 <= k < rest.len() implies (#[trigger] rest[k]).shaped(
            model.fan(),
            model.levels,
        ) by {
            assert(rest[k] == trees[k]);
        }
        lemma_chunk_trees_share(lo, hi, model, rest);
        assert(trees[n].shaped(model.fan(), model.levels));
        lemma_tree_shares(lo, hi, trees[n], model.chunk_cube(n), 0, model.levels);
        lemma_shared_total_add(
            lo,
            hi,
            trees.last().leaves(model.chunk_cube(n), 0),
            chunk_leaves(model, rest),
        );
        assert(parts.drop_last() =~= Seq::new(
            rest.len(),
            |k: int| shared(lo, hi, model.chunk_cube(k)),
        ));
    }
}

/// Stretches of equal length that follow each other share what they share as a
/// whole.
proof fn lemma_stretches_share(lo: int, hi: int, edge: int, count: nat)
    requires
        edge > 0,
    ensures
        seq_sum(Seq::new(count, |j: int| overlap_on_axis(lo, hi, j * edge, edge)))
            == overlap_on_axis(lo, hi, 0, count * edge),
    decreases count,
{
    let parts = Seq::new(count, |j: int| overlap_on_axis(lo, hi, j * edge, edge));
    if count > 0 {
        let less = (count - 1) as nat;
        lemma_stretches_share(lo, hi, edge, less);
        assert(parts.drop_last() =~= Seq::new(
            less,
            |j: int| overlap_on_axis(lo, hi, j * edge, edge),
        ));
        assert(count * edge == less * edge + edge) by (nonlinear_arith)
            requires
                count == less + 1,
        ;
        assert(less * edge >= 0) by (nonlinear_arith)
            requires
                edge > 0,
                less >= 0,
        ;
    } else {
        assert(count * edge == 0) by (nonlinear_arith)
            requires
                count == 0,
        ;
    }
}

/// Extents of the part of the box `lo..hi` that lies in the grid.
pub open spec fn inside<T>(model: GridModel<T>, lo: Seq<int>, hi: Seq<int>) -> Seq<int> {
    Seq::new(model.dim(), |a: int| overlap_on_axis(lo[a], hi[a], 0, model.size()[a]))
}

/// The overlaps of a region with the leaves that meet it add up to the part of
/// the region that lies in the grid: every point of it is counted once.
pub proof fn lemma_region_total<T>(model: GridModel<T>, lo: Seq<int>, hi: Seq<int>)
    requires
        model.valid(),
    ensures
        shared_total(lo, hi, model.leaves().filter(touching(lo, hi))) == product(
            inside(model, lo, hi),
        ),
{
    let edge = model.edge();
    lemma_pow2_pos(model.levels);
    lemma_touching_total(lo, hi, model.leaves());
    lemma_chunk_trees_share(lo, hi, model, model.chunks);
    let weights = Seq::new(
        model.dim(),
        |a: int|
            Seq::new(
                model.chunks_num[a] as nat,
                |j: int| overlap_on_axis(lo[a], hi[a], j * edge, edge),
            ),
    );
    assert forall|a: int| 0 <= a < model.dim() implies counts(weights)[a]
        == model.chunks_num[a] by {
        assert(model.chunks_num[a] > 0);
    }
    assert(counts(weights) =~= model.chunks_num);
    lemma_expand(weights);
    let parts = Seq::new(model.chunks.len(), |k: int| shared(lo, hi, model.chunk_cube(k)));
    assert forall|k: int| 0 <= k < parts.len() implies #[trigger] parts[k] == terms(
        weights,
    )[k] by {
        let index = unlinear(k, model.chunks_num);
        let picked = Seq::new(weights.len(), |a: int| weights[a][index[a]]);
        let o = overlap(lo, hi, model.chunk_cube(k).corner, edge);
        assert forall|a: int| 0 <= a < model.dim() implies picked[a] == o[a] by {
            model.lemma_chunk_inside(k, a);
        }
        assert(picked =~= o);
    }
    assert(parts =~= terms(weights));
    assert forall|a: int| 0 <= a < model.dim() implies axis_sums(weights)[a] == inside(
        model,
        lo,
        hi,
    )[a] by {
        lemma_stretches_share(lo[a], hi[a], edge, model.chunks_num[a] as nat);
        assert(model.chunks_num[a] > 0);
    }
    assert(axis_sums(weights) =~= inside(model, lo, hi));
}

/// Where the points of a whole chunk can be counted, so can the share of any
/// leaf in a region.
pub proof fn lemma_countable<T>(
    model: GridModel<T>,
    leaf: LeafCell<T>,
    lo: Seq<int>,
    hi: Seq<int>,
)
    requires
        model.valid(),
        model.leaves().contains(leaf),
        addressable(splat(model.dim(), model.edge())),
    ensures
        addressable(overlap(lo, hi, leaf.cube.corner, leaf.cube.size)),
{
    lemma_grid_leaf(model, leaf);
    lemma_addressable_monotone(
        overlap(lo, hi, leaf.cube.corner, leaf.cube.size),
        splat(model.dim(), model.edge()),
    );
}

/// A product of zeros and ones is one if all of them are.
proof fn lemma_product_of_bits(s: Seq<int>)
    requires
        forall|a: int| 0 <= a < s.len() ==> #[trigger] s[a] == 0 || s[a] == 1,
    ensures
        product(s) == (if forall|a: int| 0 <= a < s.len() ==> #[trigger] s[a] == 1 {
            1int
        } else {
            0
        }),
    decreases s.len(),
{
    if s.len() > 0 {
        let rest = s.drop_first();
        assert forall|a: int| 0 <= a < rest.len() implies #[trigger] rest[a] == 0 || rest[a]
            == 1 by {
            assert(rest[a] == s[a + 1]);
        }
        lemma_product_of_bits(rest);
        let y = product(rest);
        assert(0 * y == 0 && 1 * y == y) by (nonlinear_arith);
        if forall|a: int| 0 <= a < s.len() ==> #[trigger] s[a] == 1 {
            assert forall|a: int| 0 <= a < rest.len() implies #[trigger] rest[a] == 1 by {
                assert(s[a + 1] == 1);
            }
        } else if s[0] == 1 {
            let a = choose|a: int| 0 <= a < s.len() && #[trigger] s[a] != 1;
            assert(rest[a - 1] == s[a]);
        }
    }
}

/// One for a coordinate in `start..start + size`, else zero.
spec fn hit(x: int, start: int, size: int) -> int {
    if start <= x < start + size {
        1
    } else {
        0
    }
}

/// Counting the coordinates that two stretches share gives their overlap.
proof fn lemma_stretch_count(lo: int, start: int, size: int, count: nat)
    ensures
        seq_sum(Seq::new(count, |j: int| hit(lo + j, start, size))) == overlap_on_axis(
            lo,
            lo + count,
            start,
            size,
        ),
    decreases count,
{
    let hits = Seq::new(count, |j: int| hit(lo + j, start, size));
    if count > 0 {
        let less = (count - 1) as nat;
        lemma_stretch_count(lo, start, size, less);
        assert(hits.drop_last() =~= Seq::new(less, |j: int| hit(lo + j, start, size)));
    }
}

/// One for each point of the box `lo..hi` that lies in the cube, else zero.
spec fn hits(lo: Seq<int>, hi: Seq<int>, cube: Cube) -> Seq<int> {
    Seq::new(
        box_points(lo, hi).len(),
        |k: int|
            if cube.contains(box_points(lo, hi)[k]) {
                1
            } else {
                0
            },
    )
}

/// Counting the points of a box that lie in a cube gives what the two share.
proof fn lemma_box_count(lo: Seq<int>, hi: Seq<int>, cube: Cube)
    requires
        lo.len() == cube.dim(),
        hi.len() == cube.dim(),
    ensures
        seq_sum(hits(lo, hi, cube)) == shared(lo, hi, cube),
{
    let e = extent(lo, hi);
    assert(nonnegative(e));
    lemma_product_zero(e);
    lemma_product_nonnegative(e);
    if !positive(e) {
        let a = choose|a: int| 0 <= a < e.len() && !(0 < #[trigger] e[a]);
        assert(!shares_stretch(lo[a], hi[a], cube.corner[a], cube.size));
        lemma_shares_nothing(lo, hi, cube);
    } else {
        let weights = Seq::new(
            cube.dim(),
            |a: int| Seq::new(e[a] as nat, |j: int| hit(lo[a] + j, cube.corner[a], cube.size)),
        );
        assert forall|a: int| 0 <= a < cube.dim() implies counts(weights)[a] == e[a] by {
            assert(e[a] > 0);
        }
        assert(counts(weights) =~= e);
        lemma_expand(weights);
        let found = hits(lo, hi, cube);
        assert forall|k: int| 0 <= k < found.len() implies #[trigger] found[k] == terms(
            weights,
        )[k] by {
            let index = unlinear(k, e);
            let p = box_points(lo, hi)[k];
            let picked = Seq::new(weights.len(), |a: int| weights[a][index[a]]);
            lemma_box_points_at(k, lo, hi);
            assert forall|a: int| 0 <= a < picked.len() implies #[trigger] picked[a] == hit(
                p[a],
                cube.corner[a],
                cube.size,
            ) by {
                assert(p[a] == lo[a] + index[a]);
                assert(lo[a] <= p[a] < hi[a]);
            }
            lemma_product_of_bits(picked);
            if cube.contains(p) {
                assert forall|a: int| 0 <= a < picked.len() implies #[trigger] picked[a] == 1 by {
                    assert(cube.corner[a] <= p[a] < cube.corner[a] + cube.size);
                }
            } else {
                let a = choose|a: int|
                    0 <= a < p.len() && !(cube.corner[a] <= #[trigger] p[a] < cube.corner[a]
                        + cube.size);
                assert(picked[a] == 0);
            }
        }
        assert(found =~= terms(weights));
        let o = overlap(lo, hi, cube.corner, cube.size);
        assert forall|a: int| 0 <= a < cube.dim() implies axis_sums(weights)[a] == o[a] by {
            assert(e[a] > 0);
            lemma_stretch_count(lo[a], cube.corner[a], cube.size, e[a] as nat);
        }
        assert(axis_sums(weights) =~= o);
    }
}

proof fn lemma_count_hits(points: Seq<Seq<int>>, cube: Cube)
    ensures
        points.filter(|p: Seq<int>| cube.contains(p)).len() == seq_sum(
            Seq::new(
                points.len(),
                |k: int|
                    if cube.contains(points[k]) {
                        1
                    } else {
                        0
                    },
            ),
        ),
    decreases points.len(),
{
    reveal(Seq::filter);
    let found = Seq::new(
        points.len(),
        |k: int|
            if cube.contains(points[k]) {
                1int
            } else {
                0
            },
    );
    if points.len() > 0 {
        let rest = points.drop_last();
        lemma_count_hits(rest, cube);
        assert(found.drop_last() =~= Seq::new(
            rest.len(),
            |k: int|
                if cube.contains(rest[k]) {
                    1
                } else {
                    0
                },
        ));
    }
}

/// The volume that a box shares with a cube is the number of points of the box
/// that lie in the cube.
pub proof fn lemma_overlap_counts(lo: Seq<int>, hi: Seq<int>, cube: Cube)
    requires
        lo.len() == cube.dim(),
        hi.len() == cube.dim(),
    ensures
        product(overlap(lo, hi, cube.corner, cube.size)) == box_points(lo, hi).filter(
            |p: Seq<int>|
                p.len() == cube.dim() && forall|a: int|
                    0 <= a < cube.dim() ==> cube.corner[a] <= #[trigger] p[a] < cube.corner[a]
                        + cube.size,
        ).len(),
{
    lemma_box_count(lo, hi, cube);
    let points = box_points(lo, hi);
    lemma_count_hits(points, cube);
    assert(hits(lo, hi, cube) =~= Seq::new(
        points.len(),
        |k: int|
            if cube.contains(points[k]) {
                1
            } else {
                0
            },
    ));
    let f = |p: Seq<int>| cube.contains(p);
    let g = |p: Seq<int>|
        p.len() == cube.dim() && forall|a: int|
            0 <= a < cube.dim() ==> cube.corner[a] <= #[trigger] p[a] < cube.corner[a] + cube.size;
    assert forall|p: Seq<int>| #[trigger] f(p) == g(p) by {}
    assert(f =~= g);
}

/// Sum over the leaves of the weight of their value, counted once for each point
/// that the leaf shares with the box `lo..hi`.
pub open spec fn weighted_total<T>(
    lo: Seq<int>,
    hi: Seq<int>,
    leaves: Seq<LeafCell<T>>,
    weight: spec_fn(T) -> int,
) -> int
    decreases leaves.len(),
{
    if leaves.len() == 0 {
        0
    } else {
        weighted_total(lo, hi, leaves.drop_last(), weight) + shared(lo, hi, leaves.last().cube)
            * weight(leaves.last().data)
    }
}

/// The weight of the value that the grid holds at a point; zero outside the grid.
pub open spec fn weight_at<T>(model: GridModel<T>, p: Seq<int>, weight: spec_fn(T) -> int) -> int {
    if model.in_bounds(p) {
        weight(model.at(p))
    } else {
        0
    }
}

/// Sum of the weights of the values that the grid holds at the points of the box
/// `lo..hi`, as far as they lie in the grid.
pub open spec fn weighted_points<T>(
    model: GridModel<T>,
    lo: Seq<int>,
    hi: Seq<int>,
    weight: spec_fn(T) -> int,
) -> int {
    seq_sum(
        Seq::new(
            box_points(lo, hi).len(),
            |k: int| weight_at(model, box_points(lo, hi)[k], weight),
        ),
    )
}

/// Sum of the weights of the leaves that cover a point.
spec fn covering_weight<T>(
    leaves: Seq<LeafCell<T>>,
    p: Seq<int>,
    weight: spec_fn(T) -> int,
) -> int
    decreases leaves.len(),
{
    if leaves.len() == 0 {
        0
    } else {
        covering_weight(leaves.drop_last(), p, weight) + (if leaves.last().cube.contains(p) {
            weight(leaves.last().data)
        } else {
            0
        })
    }
}

/// Where one leaf alone covers a point, its weight is the only one.
proof fn lemma_covering_weight<T>(
    leaves: Seq<LeafCell<T>>,
    found: LeafCell<T>,
    p: Seq<int>,
    weight: spec_fn(T) -> int,
)
    requires
        leaves.no_duplicates(),
        forall|i: int|
            0 <= i < leaves.len() && (#[trigger] leaves[i]).cube.contains(p) ==> leaves[i]
                == found,
    ensures
        covering_weight(leaves, p, weight) == (if leaves.contains(found) && found.cube.contains(
            p,
        ) {
            weight(found.data)
        } else {
            0
        }),
    decreases leaves.len(),
{
    if leaves.len() > 0 {
        let rest = leaves.drop_last();
        let n = leaves.len() - 1;
        assert forall|i: int| 0 <= i < rest.len() && (
        #[trigger] rest[i]).cube.contains(p) implies rest[i] == found by {
            assert(rest[i] == leaves[i]);
        }
        assert(rest.no_duplicates());
        lemma_covering_weight(rest, found, p, weight);
        if leaves[n] == found {
            if rest.contains(found) {
                let i = choose|i: int| 0 <= i < rest.len() && rest[i] == found;
                assert(leaves[i] == leaves[n]);
            }
            assert(leaves.contains(found));
        } else if leaves.contains(found) {
            let i = choose|i: int| 0 <= i < leaves.len() && leaves[i] == found;
            assert(rest[i] == found);
        } else if rest.contains(found) {
            let i = choose|i: int| 0 <= i < rest.len() && rest[i] == found;
            assert(leaves[i] == found);
        }
    }
}

proof fn lemma_seq_sum_both(s: Seq<int>, t: Seq<int>)
    requires
        s.len() == t.len(),
    ensures
        seq_sum(Seq::new(s.len(), |i: int| s[i] + t[i])) == seq_sum(s) + seq_sum(t),
    decreases s.len(),
{
    let both = Seq::new(s.len(), |i: int| s[i] + t[i]);
    if s.len() > 0 {
        let left = s.drop_last();
        let right = t.drop_last();
        lemma_seq_sum_both(left, right);
        assert(both.drop_last() =~= Seq::new(left.len(), |i: int| left[i] + right[i]));
    }
}

/// Summing over points and then leaves, or over leaves and then points, is the
/// same.
proof fn lemma_leaves_by_points<T>(
    lo: Seq<int>,
    hi: Seq<int>,
    leaves: Seq<LeafCell<T>>,
    weight: spec_fn(T) -> int,
)
    requires
        lo.len() == hi.len(),
        forall|i: int| 0 <= i < leaves.len() ==> (#[trigger] leaves[i]).cube.dim() == lo.len(),
    ensures
        weighted_total(lo, hi, leaves, weight) == seq_sum(
            Seq::new(
                box_points(lo, hi).len(),
                |k: int| covering_weight(leaves, box_points(lo, hi)[k], weight),
            ),
        ),
    decreases leaves.len(),
{
    let points = box_points(lo, hi);
    let sums = Seq::new(points.len(), |k: int| covering_weight(leaves, points[k], weight));
    if leaves.len() == 0 {
        assert forall|k: int| 0 <= k < sums.len() implies sums[k] == 0 by {}
        lemma_seq_sum_zero(sums);
    } else {
        let rest = leaves.drop_last();
        let last = leaves.last();
        let w = weight(last.data);
        assert forall|i: int| 0 <= i < rest.len() implies (#[trigger] rest[i]).cube.dim()
            == lo.len() by {
            assert(rest[i] == leaves[i]);
        }
        lemma_leaves_by_points(lo, hi, rest, weight);
        assert(leaves[leaves.len() - 1].cube.dim() == lo.len());
        lemma_box_count(lo, hi, last.cube);
        let found = hits(lo, hi, last.cube);
        lemma_seq_sum_scaled(found, w);
        let before = Seq::new(points.len(), |k: int| covering_weight(rest, points[k], weight));
        let own = Seq::new(found.len(), |k: int| found[k] * w);
        lemma_seq_sum_both(before, own);
        let both = Seq::new(before.len(), |k: int| before[k] + own[k]);
        assert forall|k: int| 0 <= k < sums.len() implies sums[k] == both[k] by {
            assert(1 * w == w && 0 * w == 0) by (nonlinear_arith);
        }
        assert(sums =~= both);
    }
}

proof fn lemma_seq_sum_zero(s: Seq<int>)
    requires
        forall|i: int| 0 <= i < s.len() ==> #[trigger] s[i] == 0,
    ensures
        seq_sum(s) == 0,
    decreases s.len(),
{
    if s.len() > 0 {
        lemma_seq_sum_zero(s.drop_last());
    }
}

/// Leaves that miss a box have no weight in it.
proof fn lemma_touching_weight<T>(
    lo: Seq<int>,
    hi: Seq<int>,
    leaves: Seq<LeafCell<T>>,
    weight: spec_fn(T) -> int,
)
    ensures
        weighted_total(lo, hi, leaves.filter(touching(lo, hi)), weight) == weighted_total(
            lo,
            hi,
            leaves,
            weight,
        ),
    decreases leaves.len(),
{
    let t = touching::<T>(lo, hi);
    reveal(Seq::filter);
    if leaves.len() > 0 {
        let rest = leaves.drop_last();
        let last = leaves.last();
        lemma_touching_weight(lo, hi, rest, weight);
        if t(last) {
            assert(leaves.filter(t) == rest.filter(t).push(last));
            assert(rest.filter(t).push(last).drop_last() =~= rest.filter(t));
        } else {
            lemma_shares_nothing(lo, hi, last.cube);
            let w = weight(last.data);
            assert(0 * w == 0) by (nonlinear_arith);
        }
    }
}

/// Summing over the leaves that meet a region, each weighted by its overlap,
/// gives the sum over the points of the region that lie in the grid.
pub proof fn lemma_region_weight<T>(
    model: GridModel<T>,
    lo: Seq<int>,
    hi: Seq<int>,
    weight: spec_fn(T) -> int,
)
    requires
        model.valid(),
        lo.len() == model.dim(),
        hi.len() == model.dim(),
    ensures
        weighted_total(lo, hi, model.leaves().filter(touching(lo, hi)), weight) == weighted_points(
            model,
            lo,
            hi,
            weight,
        ),
{
    let leaves = model.leaves();
    let points = box_points(lo, hi);
    lemma_touching_weight(lo, hi, leaves, weight);
    assert forall|i: int| 0 <= i < leaves.len() implies (#[trigger] leaves[i]).cube.dim()
        == lo.len() by {
        assert(leaves.contains(leaves[i]));
        lemma_grid_leaf(model, leaves[i]);
    }
    lemma_leaves_by_points(lo, hi, leaves, weight);
    lemma_leaves_once(model);
    let by_leaves = Seq::new(points.len(), |k: int| covering_weight(leaves, points[k], weight));
    let by_points = Seq::new(points.len(), |k: int| weight_at(model, points[k], weight));
    assert forall|k: int| 0 <= k < points.len() implies by_leaves[k] == by_points[k] by {
        let p = points[k];
        let found = model.leaf_at(p);
        assert forall|i: int| 0 <= i < leaves.len() && (
        #[trigger] leaves[i]).cube.contains(p) implies leaves[i] == found && model.in_bounds(
            p,
        ) by {
            assert(leaves.contains(leaves[i]));
            lemma_leaves_disjoint(model, leaves[i], p);
        }
        lemma_covering_weight(leaves, found, p, weight);
        if model.in_bounds(p) {
            lemma_leaves_cover(model, p);
        } else if leaves.contains(found) && found.cube.contains(p) {
            lemma_leaves_disjoint(model, found, p);
        }
    }
    assert(by_leaves =~= by_points);
}

/// Sum of the measures of the leaves' values, each scaled by the number of points
/// that the leaf shares with the box `lo..hi`.
pub open spec fn scaled_total<T: CellData>(
    lo: Seq<int>,
    hi: Seq<int>,
    leaves: Seq<LeafCell<T>>,
    measure: spec_fn(T) -> int,
) -> int
    decreases leaves.len(),
{
    if leaves.len() == 0 {
        0
    } else {
        scaled_total(lo, hi, leaves.drop_last(), measure) + measure(
            leaves.last().data.scaled(shared(lo, hi, leaves.last().cube) as usize),
        )
    }
}

proof fn lemma_scaled_total<T: CellData>(
    lo: Seq<int>,
    hi: Seq<int>,
    leaves: Seq<LeafCell<T>>,
    measure: spec_fn(T) -> int,
)
    requires
        forall|i: int|
            0 <= i < leaves.len() ==> measure(
                (#[trigger] leaves[i]).data.scaled(shared(lo, hi, leaves[i].cube) as usize),
            ) == shared(lo, hi, leaves[i].cube) * measure(leaves[i].data),
    ensures
        scaled_total(lo, hi, leaves, measure) == weighted_total(lo, hi, leaves, measure),
    decreases leaves.len(),
{
    if leaves.len() > 0 {
        let rest = leaves.drop_last();
        assert forall|i: int| 0 <= i < rest.len() implies measure(
            (#[trigger] rest[i]).data.scaled(shared(lo, hi, rest[i].cube) as usize),
        ) == shared(lo, hi, rest[i].cube) * measure(rest[i].data) by {
            assert(rest[i] == leaves[i]);
        }
        lemma_scaled_total(lo, hi, rest, measure);
        assert(leaves[leaves.len() - 1] == leaves.last());
    }
}

/// Where scaling multiplies what is measured, the scaled values of the leaves that
/// meet a region add up to the values at the points of the region that lie in the
/// grid.
pub proof fn lemma_region_scaled<T: CellData>(
    model: GridModel<T>,
    lo: Seq<int>,
    hi: Seq<int>,
    measure: spec_fn(T) -> int,
)
    requires
        model.valid(),
        lo.len() == model.dim(),
        hi.len() == model.dim(),
        ({
            let leaves = model.leaves().filter(touching(lo, hi));
            forall|i: int|
                0 <= i < leaves.len() ==> measure(
                    (#[trigger] leaves[i]).data.scaled(shared(lo, hi, leaves[i].cube) as usize),
                ) == shared(lo, hi, leaves[i].cube) * measure(leaves[i].data)
        }),
    ensures
        scaled_total(lo, hi, model.leaves().filter(touching(lo, hi)), measure) == weighted_points(
            model,
            lo,
            hi,
            measure,
        ),
{
    lemma_scaled_total(lo, hi, model.leaves().filter(touching(lo, hi)), measure);
    lemma_region_weight(model, lo, hi, measure);
}

} // verus!
