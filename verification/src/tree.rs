//! Mathematical model of a grid: nested cubes, trees of cells, and what a tree
//! says about the points it covers.
use crate::geometry::{
    halves, lemma_corner_count, lemma_linear_bound, lemma_linear_of_unlinear,
    lemma_unlinear_of_linear, linear, minus, overlapping, product, shares_stretch, splat, unlinear,
    within,
};
use vstd::arithmetic::power2::{lemma_pow2_pos, lemma_pow2_unfold, pow2};
use vstd::prelude::*;

verus! {

/// The cube of edge `size` whose lowest point is `corner`.
pub struct Cube {
    pub corner: Seq<int>,
    pub size: int,
}

impl Cube {
    pub open spec fn dim(self) -> nat {
        self.corner.len()
    }

    pub open spec fn contains(self, point: Seq<int>) -> bool {
        &&& point.len() == self.corner.len()
        &&& forall|a: int|
            0 <= a < point.len() ==> self.corner[a] <= #[trigger] point[a] < self.corner[a]
                + self.size
    }

    /// One past the highest point on every axis.
    pub open spec fn upper(self) -> Seq<int> {
        Seq::new(self.corner.len(), |a: int| self.corner[a] + self.size)
    }

    /// The `slot`-th of the equal cubes that halving every edge leaves, in
    /// row-major order.
    pub open spec fn octant(self, slot: int) -> Cube {
        let half = self.size / 2;
        Cube {
            corner: Seq::new(
                self.corner.len(),
                |a: int| self.corner[a] + half * unlinear(slot, splat(self.dim(), 2))[a],
            ),
            size: half,
        }
    }

    /// The slot of the octant that `point` falls into.
    pub open spec fn slot_of(self, point: Seq<int>) -> int {
        linear(halves(minus(point, self.corner), self.size / 2), splat(self.dim(), 2))
    }

    /// A point of a cube lies in the octant of its slot.
    pub proof fn lemma_slot_of(self, point: Seq<int>)
        requires
            self.contains(point),
            self.size >= 2,
            self.size % 2 == 0,
        ensures
            0 <= self.slot_of(point) < pow2(self.dim()),
            self.octant(self.slot_of(point)).contains(point),
    {
        let half = self.size / 2;
        let twos = splat(self.dim(), 2);
        let bits = halves(minus(point, self.corner), half);
        lemma_corner_count(self.dim());
        assert forall|a: int| 0 <= a < bits.len() implies 0 <= #[trigger] bits[a] < twos[a] by {
            lemma_halves(point[a] - self.corner[a], half);
        }
        lemma_linear_bound(bits, twos);
        lemma_unlinear_of_linear(bits, twos);
        let o = self.octant(self.slot_of(point));
        assert forall|a: int| 0 <= a < point.len() implies o.corner[a] <= #[trigger] point[a]
            < o.corner[a] + o.size by {
            lemma_halves(point[a] - self.corner[a], half);
            assert(unlinear(self.slot_of(point), twos)[a] == bits[a]);
        }
    }

    /// A point of an octant lies in the cube and has that octant's slot.
    pub proof fn lemma_octant(self, slot: int, point: Seq<int>)
        requires
            self.size >= 2,
            self.size % 2 == 0,
            0 <= slot < pow2(self.dim()),
            self.octant(slot).contains(point),
        ensures
            self.contains(point),
            self.slot_of(point) == slot,
    {
        let half = self.size / 2;
        let twos = splat(self.dim(), 2);
        lemma_corner_count(self.dim());
        lemma_linear_of_unlinear(slot, twos);
        let o = unlinear(slot, twos);
        let bits = halves(minus(point, self.corner), half);
        assert forall|a: int| 0 <= a < point.len() implies self.corner[a] <= #[trigger] point[a]
            < self.corner[a] + self.size && bits[a] == o[a] by {
            assert(0 <= o[a] < twos[a]);
            assert(self.octant(slot).corner[a] == self.corner[a] + half * o[a]);
            assert(self.octant(slot).corner[a] <= point[a] < self.octant(slot).corner[a] + half);
            lemma_in_half(point[a] - self.corner[a], half, o[a]);
        }
        assert(bits =~= o);
    }

    /// An octant reaches no further than its cube on any axis.
    pub proof fn lemma_octant_inside(self, slot: int, a: int)
        requires
            self.size >= 0,
            self.size % 2 == 0,
            0 <= slot < pow2(self.dim()),
            0 <= a < self.dim(),
        ensures
            self.octant(slot).size * 2 == self.size,
            self.corner[a] <= self.octant(slot).corner[a],
            self.octant(slot).corner[a] + self.octant(slot).size <= self.corner[a] + self.size,
            unlinear(slot, splat(self.dim(), 2))[a] == 0 || unlinear(
                slot,
                splat(self.dim(), 2),
            )[a] == 1,
    {
        let half = self.size / 2;
        let twos = splat(self.dim(), 2);
        lemma_corner_count(self.dim());
        lemma_linear_of_unlinear(slot, twos);
        let o = unlinear(slot, twos)[a];
        assert(0 <= o < twos[a]);
        assert(o == 0 ==> half * o == 0) by (nonlinear_arith);
        assert(o == 1 ==> half * o == half) by (nonlinear_arith);
    }
}

proof fn lemma_halves(x: int, half: int)
    requires
        half > 0,
        0 <= x < 2 * half,
    ensures
        0 <= x / half < 2,
        half * (x / half) <= x < half * (x / half) + half,
{
    vstd::arithmetic::div_mod::lemma_fundamental_div_mod(x, half);
    vstd::arithmetic::div_mod::lemma_mod_bound(x, half);
    let q = x / half;
    assert(0 <= q < 2) by (nonlinear_arith)
        requires
            x == half * q + x % half,
            0 <= x % half < half,
            0 <= x < 2 * half,
            half > 0,
    ;
}

proof fn lemma_in_half(x: int, half: int, bit: int)
    requires
        half > 0,
        0 <= bit < 2,
        half * bit <= x < half * bit + half,
    ensures
        0 <= x < 2 * half,
        x / half == bit,
{
    let r = x - half * bit;
    assert(half * bit == bit * half) by (nonlinear_arith);
    vstd::arithmetic::div_mod::lemma_fundamental_div_mod_converse(x, half, bit, r);
    assert(bit == 0 ==> half * bit == 0) by (nonlinear_arith);
    assert(bit == 1 ==> half * bit == half) by (nonlinear_arith);
}

/// One leaf of a tree: the cube it covers, its depth below the root, and the
/// value it holds there.
pub struct LeafCell<T> {
    pub cube: Cube,
    pub depth: nat,
    pub data: T,
}

/// A cell tree: one value for a whole cube, or one subtree per octant.
pub enum Tree<T> {
    Leaf(T),
    Branch(Seq<Tree<T>>),
}

/// Number of cells of all trees together.
pub open spec fn total_nodes<T>(trees: Seq<Tree<T>>) -> nat
    decreases trees,
{
    if trees.len() == 0 {
        0
    } else {
        total_nodes(trees.drop_last()) + trees.last().nodes()
    }
}

/// Leaves below the octants of `cube`, highest slot first.
pub open spec fn octant_leaves<T>(trees: Seq<Tree<T>>, cube: Cube, depth: nat) -> Seq<LeafCell<T>>
    decreases trees,
{
    if trees.len() == 0 {
        Seq::empty()
    } else {
        trees.last().leaves(cube.octant(trees.len() - 1), depth) + octant_leaves(
            trees.drop_last(),
            cube,
            depth,
        )
    }
}

pub open spec fn larger(a: nat, b: nat) -> nat {
    if a < b {
        b
    } else {
        a
    }
}

/// Largest granularity among the octants of `cube`.
pub open spec fn octant_granularity<T>(
    trees: Seq<Tree<T>>,
    cube: Cube,
    depth: nat,
    lo: Seq<int>,
    hi: Seq<int>,
) -> nat
    decreases trees,
{
    if trees.len() == 0 {
        0
    } else {
        larger(
            octant_granularity(trees.drop_last(), cube, depth, lo, hi),
            trees.last().granularity(cube.octant(trees.len() - 1), depth, lo, hi),
        )
    }
}

impl<T> Tree<T> {
    /// Number of cells in the tree.
    pub open spec fn nodes(self) -> nat
        decreases self,
    {
        match self {
            Tree::Leaf(data) => 1,
            Tree::Branch(kids) => total_nodes(kids) + 1,
        }
    }

    /// Every branch has `fan` subtrees and no path is longer than `levels`.
    pub open spec fn shaped(self, fan: nat, levels: nat) -> bool
        decreases levels,
    {
        match self {
            Tree::Leaf(data) => true,
            Tree::Branch(kids) => {
                &&& levels > 0
                &&& kids.len() == fan
                &&& forall|i: int|
                    0 <= i < kids.len() ==> (#[trigger] kids[i]).shaped(fan, (levels - 1) as nat)
            },
        }
    }

    /// The leaf that covers `point`, in a tree that covers `cube`.
    pub open spec fn leaf_at(self, cube: Cube, depth: nat, point: Seq<int>) -> LeafCell<T>
        decreases self,
    {
        match self {
            Tree::Leaf(data) => LeafCell { cube, depth, data },
            Tree::Branch(kids) => {
                let slot = cube.slot_of(point);
                if 0 <= slot < kids.len() {
                    kids[slot].leaf_at(cube.octant(slot), depth + 1, point)
                } else {
                    arbitrary()
                }
            },
        }
    }

    /// All leaves, depth first, the highest octant of a branch first.
    pub open spec fn leaves(self, cube: Cube, depth: nat) -> Seq<LeafCell<T>>
        decreases self,
    {
        match self {
            Tree::Leaf(data) => seq![LeafCell { cube, depth, data }],
            Tree::Branch(kids) => octant_leaves(kids, cube, depth + 1),
        }
    }

    /// How deep the tree is subdivided where it meets the box `lo..hi`.
    pub open spec fn granularity(self, cube: Cube, depth: nat, lo: Seq<int>, hi: Seq<int>) -> nat
        decreases self,
    {
        if !overlapping(lo, hi, cube.corner, cube.size) {
            0
        } else {
            match self {
                Tree::Leaf(data) => depth,
                Tree::Branch(kids) => larger(
                    depth + 1,
                    octant_granularity(kids, cube, depth + 1, lo, hi),
                ),
            }
        }
    }
}

/// Sum of all counts.
pub open spec fn sum_of(counts: Seq<nat>) -> nat
    decreases counts.len(),
{
    if counts.len() == 0 {
        0
    } else {
        sum_of(counts.drop_last()) + counts.last()
    }
}

pub proof fn lemma_sum_push(counts: Seq<nat>, count: nat)
    ensures
        sum_of(counts.push(count)) == sum_of(counts) + count,
{
    assert(counts.push(count).drop_last() =~= counts);
}

/// Number of cells of a tree that is subdivided everywhere down `levels` levels.
pub open spec fn full_nodes(fan: nat, levels: nat) -> nat
    decreases levels,
{
    if levels == 0 {
        1
    } else {
        fan * full_nodes(fan, (levels - 1) as nat) + 1
    }
}

/// A tree has no more cells than a fully subdivided one of its height.
pub proof fn lemma_nodes_bound<T>(tree: Tree<T>, fan: nat, levels: nat)
    requires
        tree.shaped(fan, levels),
    ensures
        1 <= tree.nodes() <= full_nodes(fan, levels),
    decreases levels, 0nat,
{
    match tree {
        Tree::Leaf(data) => {
            lemma_full_nodes_positive(fan, levels);
        },
        Tree::Branch(kids) => {
            lemma_total_nodes_bound(kids, fan, (levels - 1) as nat);
        },
    }
}

pub proof fn lemma_full_nodes_positive(fan: nat, levels: nat)
    ensures
        full_nodes(fan, levels) >= 1,
    decreases levels,
{
    if levels > 0 {
        lemma_full_nodes_positive(fan, (levels - 1) as nat);
        let q = full_nodes(fan, (levels - 1) as nat);
        assert(fan * q >= 0) by (nonlinear_arith)
            requires
                fan >= 0,
                q >= 0,
        ;
    }
}

pub proof fn lemma_total_nodes_bound<T>(trees: Seq<Tree<T>>, fan: nat, levels: nat)
    requires
        forall|i: int| 0 <= i < trees.len() ==> (#[trigger] trees[i]).shaped(fan, levels),
    ensures
        trees.len() <= total_nodes(trees) <= trees.len() * full_nodes(fan, levels),
    decreases levels, trees.len() + 1,
{
    if trees.len() > 0 {
        let rest = trees.drop_last();
        assert forall|i: int| 0 <= i < rest.len() implies (#[trigger] rest[i]).shaped(
            fan,
            levels,
        ) by {
            assert(rest[i] == trees[i]);
        }
        lemma_total_nodes_bound(rest, fan, levels);
        lemma_nodes_bound(trees.last(), fan, levels);
        let q = full_nodes(fan, levels);
        let n = trees.len() as int;
        assert((n - 1) * q + q == n * q) by (nonlinear_arith);
    } else {
        assert(trees.len() * full_nodes(fan, levels) == 0) by (nonlinear_arith)
            requires
                trees.len() == 0,
        ;
    }
}

/// The first trees of a sequence have no more cells than all of them.
pub proof fn lemma_total_nodes_take<T>(trees: Seq<Tree<T>>, i: int)
    requires
        0 <= i < trees.len(),
    ensures
        total_nodes(trees.take(i + 1)) == total_nodes(trees.take(i)) + trees[i].nodes(),
        total_nodes(trees.take(i + 1)) <= total_nodes(trees),
    decreases trees.len(),
{
    assert(trees.take(i + 1).drop_last() =~= trees.take(i));
    if i + 1 < trees.len() {
        lemma_total_nodes_take(trees.drop_last(), i);
        assert(trees.drop_last().take(i + 1) =~= trees.take(i + 1));
    } else {
        assert(trees.take(i + 1) =~= trees);
    }
}

/// A tree of leaves has one cell per leaf.
pub proof fn lemma_total_nodes_leaves<T>(trees: Seq<Tree<T>>)
    requires
        forall|i: int| 0 <= i < trees.len() ==> (#[trigger] trees[i]) is Leaf,
    ensures
        total_nodes(trees) == trees.len(),
    decreases trees.len(),
{
    if trees.len() > 0 {
        let rest = trees.drop_last();
        assert forall|i: int| 0 <= i < rest.len() implies (#[trigger] rest[i]) is Leaf by {
            assert(rest[i] == trees[i]);
        }
        lemma_total_nodes_leaves(rest);
        assert(trees[trees.len() - 1] is Leaf);
        assert(trees.last().nodes() == 1);
    }
}

/// A cube of a tree with levels left has an even edge.
pub proof fn lemma_edge(levels: nat)
    requires
        levels > 0,
    ensures
        pow2(levels) == 2 * pow2((levels - 1) as nat),
        pow2(levels) >= 2,
        pow2(levels) % 2 == 0,
        pow2(levels) / 2 == pow2((levels - 1) as nat),
{
    lemma_pow2_unfold(levels);
    lemma_pow2_pos((levels - 1) as nat);
}

/// The leaf found for a point covers it, lies within the tree's height, and has
/// the edge of its depth.
pub proof fn lemma_leaf_at<T>(
    tree: Tree<T>,
    cube: Cube,
    depth: nat,
    levels: nat,
    point: Seq<int>,
)
    requires
        tree.shaped(pow2(cube.dim()), levels),
        cube.size == pow2(levels),
        cube.contains(point),
    ensures
        tree.leaf_at(cube, depth, point).cube.contains(point),
        depth <= tree.leaf_at(cube, depth, point).depth <= depth + levels,
        tree.leaf_at(cube, depth, point).cube.dim() == cube.dim(),
        tree.leaf_at(cube, depth, point).cube.size == pow2(
            (levels - (tree.leaf_at(cube, depth, point).depth - depth)) as nat,
        ),
    decreases levels,
{
    match tree {
        Tree::Leaf(data) => {},
        Tree::Branch(kids) => {
            lemma_edge(levels);
            cube.lemma_slot_of(point);
            let slot = cube.slot_of(point);
            assert(kids[slot].shaped(pow2(cube.dim()), (levels - 1) as nat));
            lemma_leaf_at(kids[slot], cube.octant(slot), depth + 1, (levels - 1) as nat, point);
        },
    }
}

/// Membership in the leaves below a row of octants.
pub proof fn lemma_octant_leaves<T>(
    trees: Seq<Tree<T>>,
    cube: Cube,
    depth: nat,
    leaf: LeafCell<T>,
)
    ensures
        octant_leaves(trees, cube, depth).contains(leaf) <==> exists|i: int|
            0 <= i < trees.len() && (#[trigger] trees[i]).leaves(
                cube.octant(i),
                depth,
            ).contains(leaf),
    decreases trees.len(),
{
    let all = octant_leaves(trees, cube, depth);
    if trees.len() > 0 {
        let n = trees.len() - 1;
        let rest = trees.drop_last();
        let first = trees.last().leaves(cube.octant(n), depth);
        let others = octant_leaves(rest, cube, depth);
        lemma_octant_leaves(rest, cube, depth, leaf);
        vstd::seq_lib::lemma_seq_concat_contains_all_elements(first, others, leaf);
        if others.contains(leaf) {
            let i = choose|i: int|
                0 <= i < rest.len() && (#[trigger] rest[i]).leaves(cube.octant(i), depth).contains(
                    leaf,
                );
            assert(trees[i].leaves(cube.octant(i), depth).contains(leaf));
        }
        if first.contains(leaf) {
            assert(trees[n].leaves(cube.octant(n), depth).contains(leaf));
        }
        if exists|i: int|
            0 <= i < trees.len() && (#[trigger] trees[i]).leaves(cube.octant(i), depth).contains(
                leaf,
            ) {
            let i = choose|i: int|
                0 <= i < trees.len() && (#[trigger] trees[i]).leaves(
                    cube.octant(i),
                    depth,
                ).contains(leaf);
            if i < n {
                assert(rest[i].leaves(cube.octant(i), depth).contains(leaf));
            }
        }
    }
}

/// The leaf found for a point is one of the tree's leaves.
pub proof fn lemma_leaf_at_listed<T>(
    tree: Tree<T>,
    cube: Cube,
    depth: nat,
    levels: nat,
    point: Seq<int>,
)
    requires
        tree.shaped(pow2(cube.dim()), levels),
        cube.size == pow2(levels),
        cube.contains(point),
    ensures
        tree.leaves(cube, depth).contains(tree.leaf_at(cube, depth, point)),
    decreases levels,
{
    match tree {
        Tree::Leaf(data) => {
            assert(tree.leaves(cube, depth)[0] == LeafCell { cube, depth, data });
        },
        Tree::Branch(kids) => {
            lemma_edge(levels);
            cube.lemma_slot_of(point);
            let slot = cube.slot_of(point);
            assert(kids[slot].shaped(pow2(cube.dim()), (levels - 1) as nat));
            lemma_leaf_at_listed(
                kids[slot],
                cube.octant(slot),
                depth + 1,
                (levels - 1) as nat,
                point,
            );
            let leaf = tree.leaf_at(cube, depth, point);
            lemma_octant_leaves(kids, cube, depth + 1, leaf);
        },
    }
}

/// Every listed leaf is the one found for each point that it covers.
pub proof fn lemma_leaf_is_found<T>(
    tree: Tree<T>,
    cube: Cube,
    depth: nat,
    levels: nat,
    leaf: LeafCell<T>,
    point: Seq<int>,
)
    requires
        tree.shaped(pow2(cube.dim()), levels),
        cube.size == pow2(levels),
        tree.leaves(cube, depth).contains(leaf),
        leaf.cube.contains(point),
    ensures
        cube.contains(point),
        tree.leaf_at(cube, depth, point) == leaf,
    decreases levels,
{
    match tree {
        Tree::Leaf(data) => {},
        Tree::Branch(kids) => {
            lemma_edge(levels);
            lemma_octant_leaves(kids, cube, depth + 1, leaf);
            let i = choose|i: int|
                0 <= i < kids.len() && (#[trigger] kids[i]).leaves(
                    cube.octant(i),
                    depth + 1,
                ).contains(leaf);
            assert(kids[i].shaped(pow2(cube.dim()), (levels - 1) as nat));
            lemma_leaf_is_found(
                kids[i],
                cube.octant(i),
                depth + 1,
                (levels - 1) as nat,
                leaf,
                point,
            );
            cube.lemma_octant(i, point);
        },
    }
}

/// Every listed leaf lies inside the tree's cube, within its height, and has the
/// edge of its depth.
pub proof fn lemma_listed_leaf<T>(
    tree: Tree<T>,
    cube: Cube,
    depth: nat,
    levels: nat,
    leaf: LeafCell<T>,
)
    requires
        tree.shaped(pow2(cube.dim()), levels),
        cube.size == pow2(levels),
        tree.leaves(cube, depth).contains(leaf),
    ensures
        leaf.cube.dim() == cube.dim(),
        depth <= leaf.depth <= depth + levels,
        leaf.cube.size == pow2((levels - (leaf.depth - depth)) as nat),
        forall|a: int|
            0 <= a < cube.dim() ==> cube.corner[a] <= #[trigger] leaf.cube.corner[a]
                && leaf.cube.corner[a] + leaf.cube.size <= cube.corner[a] + cube.size,
    decreases levels,
{
    match tree {
        Tree::Leaf(data) => {},
        Tree::Branch(kids) => {
            lemma_edge(levels);
            lemma_octant_leaves(kids, cube, depth + 1, leaf);
            let i = choose|i: int|
                0 <= i < kids.len() && (#[trigger] kids[i]).leaves(
                    cube.octant(i),
                    depth + 1,
                ).contains(leaf);
            assert(kids[i].shaped(pow2(cube.dim()), (levels - 1) as nat));
            let below = (levels - 1) as nat;
            lemma_listed_leaf(kids[i], cube.octant(i), depth + 1, below, leaf);
            assert forall|a: int| 0 <= a < cube.dim() implies cube.corner[a]
                <= #[trigger] leaf.cube.corner[a] && leaf.cube.corner[a] + leaf.cube.size
                <= cube.corner[a] + cube.size by {
                cube.lemma_octant_inside(i, a);
            }
        },
    }
}

/// Every coordinate of the cube's corner is a multiple of its edge.
pub open spec fn aligned(cube: Cube) -> bool {
    forall|a: int| 0 <= a < cube.dim() ==> (#[trigger] cube.corner[a]) % cube.size == 0
}

/// The octants of an aligned cube are aligned.
pub proof fn lemma_octant_aligned(cube: Cube, slot: int)
    requires
        aligned(cube),
        cube.size > 0,
        cube.size % 2 == 0,
    ensures
        aligned(cube.octant(slot)),
{
    let half = cube.size / 2;
    let part = cube.octant(slot);
    assert forall|a: int| 0 <= a < part.dim() implies (#[trigger] part.corner[a]) % part.size
        == 0 by {
        let bit = unlinear(slot, splat(cube.dim(), 2))[a];
        let c = cube.corner[a];
        assert(c % cube.size == 0);
        let q = c / cube.size;
        vstd::arithmetic::div_mod::lemma_fundamental_div_mod(c, cube.size);
        assert(c + half * bit == half * (2 * q + bit)) by (nonlinear_arith)
            requires
                c == (2 * half) * q,
        ;
        vstd::arithmetic::div_mod::lemma_mod_multiples_basic(2 * q + bit, half);
        assert(half * (2 * q + bit) == (2 * q + bit) * half) by (nonlinear_arith);
    }
}

/// The leaves of a tree over an aligned cube cover aligned cubes.
pub proof fn lemma_leaf_aligned<T>(
    tree: Tree<T>,
    cube: Cube,
    depth: nat,
    levels: nat,
    leaf: LeafCell<T>,
)
    requires
        tree.shaped(pow2(cube.dim()), levels),
        cube.size == pow2(levels),
        aligned(cube),
        tree.leaves(cube, depth).contains(leaf),
    ensures
        aligned(leaf.cube),
    decreases levels,
{
    match tree {
        Tree::Leaf(data) => {},
        Tree::Branch(kids) => {
            lemma_edge(levels);
            lemma_octant_leaves(kids, cube, depth + 1, leaf);
            let i = choose|i: int|
                0 <= i < kids.len() && (#[trigger] kids[i]).leaves(
                    cube.octant(i),
                    depth + 1,
                ).contains(leaf);
            assert(kids[i].shaped(pow2(cube.dim()), (levels - 1) as nat));
            lemma_octant_aligned(cube, i);
            lemma_leaf_aligned(kids[i], cube.octant(i), depth + 1, (levels - 1) as nat, leaf);
        },
    }
}

/// Whether a leaf and the box `lo..hi` reach into each other.
pub open spec fn touching<T>(lo: Seq<int>, hi: Seq<int>) -> spec_fn(LeafCell<T>) -> bool {
    |leaf: LeafCell<T>| overlapping(lo, hi, leaf.cube.corner, leaf.cube.size)
}

/// A tree whose cube misses a box has no leaf that meets it.
pub proof fn lemma_no_touching<T>(
    tree: Tree<T>,
    cube: Cube,
    depth: nat,
    levels: nat,
    lo: Seq<int>,
    hi: Seq<int>,
)
    requires
        tree.shaped(pow2(cube.dim()), levels),
        cube.size == pow2(levels),
        !overlapping(lo, hi, cube.corner, cube.size),
    ensures
        tree.leaves(cube, depth).filter(touching(lo, hi)) == Seq::<LeafCell<T>>::empty(),
{
    let all = tree.leaves(cube, depth);
    let t = touching::<T>(lo, hi);
    assert forall|i: int| 0 <= i < all.len() implies !t(#[trigger] all[i]) by {
        assert(all.contains(all[i]));
        lemma_listed_leaf(tree, cube, depth, levels, all[i]);
        let a = choose|a: int|
            #![trigger cube.corner[a]]
            0 <= a < cube.dim() && !shares_stretch(lo[a], hi[a], cube.corner[a], cube.size);
        assert(cube.corner[a] <= all[i].cube.corner[a]);
        lemma_pow2_pos(levels);
        assert(!shares_stretch(lo[a], hi[a], all[i].cube.corner[a], all[i].cube.size));
    }
    assert(all.all(|leaf: LeafCell<T>| !t(leaf)));
    all.lemma_all_neg_filter_empty(t);
}

/// A whole grid: a row-major array of equally large chunks, each the root of a
/// cell tree.
pub struct GridModel<T> {
    pub chunks_num: Seq<int>,
    pub levels: nat,
    pub chunks: Seq<Tree<T>>,
}

/// Leaves of the chunks in `trees`, last chunk first.
pub open spec fn chunk_leaves<T>(model: GridModel<T>, trees: Seq<Tree<T>>) -> Seq<LeafCell<T>>
    decreases trees.len(),
{
    if trees.len() == 0 {
        Seq::empty()
    } else {
        trees.last().leaves(model.chunk_cube(trees.len() - 1), 0) + chunk_leaves(
            model,
            trees.drop_last(),
        )
    }
}

/// Largest granularity among the chunks in `trees`.
pub open spec fn chunk_granularity<T>(
    model: GridModel<T>,
    trees: Seq<Tree<T>>,
    lo: Seq<int>,
    hi: Seq<int>,
) -> nat
    decreases trees.len(),
{
    if trees.len() == 0 {
        0
    } else {
        larger(
            chunk_granularity(model, trees.drop_last(), lo, hi),
            trees.last().granularity(model.chunk_cube(trees.len() - 1), 0, lo, hi),
        )
    }
}

impl<T> GridModel<T> {
    pub open spec fn dim(self) -> nat {
        self.chunks_num.len()
    }

    /// Number of subtrees of a branch.
    pub open spec fn fan(self) -> nat {
        pow2(self.dim())
    }

    /// Edge of a chunk.
    pub open spec fn edge(self) -> int {
        pow2(self.levels) as int
    }

    /// Extent of the grid.
    pub open spec fn size(self) -> Seq<int> {
        Seq::new(self.dim(), |a: int| self.chunks_num[a] * self.edge())
    }

    /// There is one tree of the right shape for every chunk.
    pub open spec fn valid(self) -> bool {
        &&& crate::geometry::positive(self.chunks_num)
        &&& self.chunks.len() == product(self.chunks_num)
        &&& forall|k: int|
            0 <= k < self.chunks.len() ==> (#[trigger] self.chunks[k]).shaped(
                self.fan(),
                self.levels,
            )
    }

    /// The cube that chunk `k` covers.
    pub open spec fn chunk_cube(self, k: int) -> Cube {
        Cube {
            corner: Seq::new(
                self.dim(),
                |a: int| unlinear(k, self.chunks_num)[a] * self.edge(),
            ),
            size: self.edge(),
        }
    }

    /// The chunk that `point` falls into.
    pub open spec fn chunk_of(self, point: Seq<int>) -> int {
        linear(halves(point, self.edge()), self.chunks_num)
    }

    pub open spec fn in_bounds(self, point: Seq<int>) -> bool {
        within(point, self.size())
    }

    /// The leaf that covers `point`.
    pub open spec fn leaf_at(self, point: Seq<int>) -> LeafCell<T> {
        let k = self.chunk_of(point);
        self.chunks[k].leaf_at(self.chunk_cube(k), 0, point)
    }

    /// The value of the grid at `point`.
    pub open spec fn at(self, point: Seq<int>) -> T {
        self.leaf_at(point).data
    }

    /// All leaves of the grid: last chunk first, each chunk depth first with the
    /// highest octant first.
    pub open spec fn leaves(self) -> Seq<LeafCell<T>> {
        chunk_leaves(self, self.chunks)
    }

    /// How deep the grid is subdivided where it meets the box `lo..hi`.
    pub open spec fn granularity(self, lo: Seq<int>, hi: Seq<int>) -> nat {
        chunk_granularity(self, self.chunks, lo, hi)
    }

    /// A point of the grid lies in the chunk it falls into.
    pub proof fn lemma_chunk_of(self, point: Seq<int>)
        requires
            self.valid(),
            self.in_bounds(point),
        ensures
            0 <= self.chunk_of(point) < self.chunks.len(),
            self.chunk_cube(self.chunk_of(point)).contains(point),
            unlinear(self.chunk_of(point), self.chunks_num) == halves(point, self.edge()),
    {
        let e = self.edge();
        let q = halves(point, e);
        lemma_pow2_pos(self.levels);
        assert forall|a: int| 0 <= a < q.len() implies 0 <= #[trigger] q[a]
            < self.chunks_num[a] by {
            assert(0 <= point[a] < self.size()[a]);
            lemma_quotient(point[a], e, self.chunks_num[a]);
        }
        lemma_linear_bound(q, self.chunks_num);
        lemma_unlinear_of_linear(q, self.chunks_num);
        let c = self.chunk_cube(self.chunk_of(point));
        assert forall|a: int| 0 <= a < point.len() implies c.corner[a] <= #[trigger] point[a]
            < c.corner[a] + c.size by {
            assert(0 <= point[a] < self.size()[a]);
            lemma_quotient(point[a], e, self.chunks_num[a]);
            assert(unlinear(self.chunk_of(point), self.chunks_num)[a] == q[a]);
        }
    }

    /// A point of a chunk lies in the grid and falls into that chunk.
    pub proof fn lemma_chunk_cube(self, k: int, point: Seq<int>)
        requires
            self.valid(),
            0 <= k < self.chunks.len(),
            self.chunk_cube(k).contains(point),
        ensures
            self.in_bounds(point),
            self.chunk_of(point) == k,
    {
        let e = self.edge();
        lemma_pow2_pos(self.levels);
        lemma_linear_of_unlinear(k, self.chunks_num);
        let c = unlinear(k, self.chunks_num);
        let q = halves(point, e);
        assert forall|a: int| 0 <= a < point.len() implies 0 <= #[trigger] point[a]
            < self.size()[a] && q[a] == c[a] by {
            assert(self.chunk_cube(k).corner[a] == c[a] * e);
            assert(c[a] * e <= point[a] < c[a] * e + e);
            assert(0 <= c[a] < self.chunks_num[a]);
            lemma_from_quotient(point[a], e, c[a], self.chunks_num[a]);
        }
        assert(q =~= c);
    }

    /// A chunk lies inside the grid on every axis.
    pub proof fn lemma_chunk_inside(self, k: int, a: int)
        requires
            self.valid(),
            0 <= k < self.chunks.len(),
            0 <= a < self.dim(),
        ensures
            0 <= self.chunk_cube(k).corner[a],
            self.chunk_cube(k).corner[a] + self.edge() <= self.size()[a],
            0 <= unlinear(k, self.chunks_num)[a] < self.chunks_num[a],
    {
        let e = self.edge();
        lemma_pow2_pos(self.levels);
        lemma_linear_of_unlinear(k, self.chunks_num);
        let c = unlinear(k, self.chunks_num)[a];
        let n = self.chunks_num[a];
        assert(0 <= c < n);
        lemma_from_quotient(c * e + (e - 1), e, c, n);
        assert(0 <= c * e) by (nonlinear_arith)
            requires
                0 <= c,
                0 < e,
        ;
        assert(c * e + e <= n * e) by (nonlinear_arith)
            requires
                c + 1 <= n,
                0 < e,
        ;
    }
}

proof fn lemma_quotient(x: int, e: int, n: int)
    requires
        e > 0,
        0 <= x < n * e,
    ensures
        0 <= x / e < n,
        (x / e) * e <= x < (x / e) * e + e,
{
    vstd::arithmetic::div_mod::lemma_fundamental_div_mod(x, e);
    vstd::arithmetic::div_mod::lemma_mod_bound(x, e);
    let q = x / e;
    assert(q * e == e * q) by (nonlinear_arith);
    assert(0 <= q < n) by (nonlinear_arith)
        requires
            x == q * e + x % e,
            0 <= x % e < e,
            0 <= x < n * e,
            e > 0,
    ;
}

proof fn lemma_from_quotient(x: int, e: int, c: int, n: int)
    requires
        e > 0,
        0 <= c < n,
        c * e <= x < c * e + e,
    ensures
        0 <= x < n * e,
        x / e == c,
{
    vstd::arithmetic::div_mod::lemma_fundamental_div_mod_converse(x, e, c, x - c * e);
    assert(0 <= c * e && c * e + e <= n * e) by (nonlinear_arith)
        requires
            e > 0,
            0 <= c,
            c + 1 <= n,
    ;
}

/// Membership in the leaves of a row of chunks.
pub proof fn lemma_chunk_leaves<T>(
    model: GridModel<T>,
    trees: Seq<Tree<T>>,
    leaf: LeafCell<T>,
)
    ensures
        chunk_leaves(model, trees).contains(leaf) <==> exists|k: int|
            0 <= k < trees.len() && (#[trigger] trees[k]).leaves(
                model.chunk_cube(k),
                0,
            ).contains(leaf),
    decreases trees.len(),
{
    if trees.len() > 0 {
        let n = trees.len() - 1;
        let rest = trees.drop_last();
        let first = trees.last().leaves(model.chunk_cube(n), 0);
        let others = chunk_leaves(model, rest);
        lemma_chunk_leaves(model, rest, leaf);
        vstd::seq_lib::lemma_seq_concat_contains_all_elements(first, others, leaf);
        if others.contains(leaf) {
            let k = choose|k: int|
                0 <= k < rest.len() && (#[trigger] rest[k]).leaves(
                    model.chunk_cube(k),
                    0,
                ).contains(leaf);
            assert(trees[k].leaves(model.chunk_cube(k), 0).contains(leaf));
        }
        if first.contains(leaf) {
            assert(trees[n].leaves(model.chunk_cube(n), 0).contains(leaf));
        }
        if exists|k: int|
            0 <= k < trees.len() && (#[trigger] trees[k]).leaves(model.chunk_cube(k), 0).contains(
                leaf,
            ) {
            let k = choose|k: int|
                0 <= k < trees.len() && (#[trigger] trees[k]).leaves(
                    model.chunk_cube(k),
                    0,
                ).contains(leaf);
            if k < n {
                assert(rest[k].leaves(model.chunk_cube(k), 0).contains(leaf));
            }
        }
    }
}

/// Every leaf of a grid lies inside it, has the edge of its depth, and starts at a
/// multiple of its edge on every axis.
pub proof fn lemma_grid_leaf<T>(model: GridModel<T>, leaf: LeafCell<T>)
    requires
        model.valid(),
        model.leaves().contains(leaf),
    ensures
        leaf.cube.dim() == model.dim(),
        leaf.depth <= model.levels,
        leaf.cube.size == pow2((model.levels - leaf.depth) as nat),
        1 <= leaf.cube.size <= model.edge(),
        forall|a: int|
            0 <= a < model.dim() ==> 0 <= #[trigger] leaf.cube.corner[a] && leaf.cube.corner[a]
                + leaf.cube.size <= model.size()[a],
        aligned(leaf.cube),
{
    lemma_chunk_leaves(model, model.chunks, leaf);
    let k = choose|k: int|
        0 <= k < model.chunks.len() && (#[trigger] model.chunks[k]).leaves(
            model.chunk_cube(k),
            0,
        ).contains(leaf);
    assert(model.chunks[k].shaped(model.fan(), model.levels));
    lemma_listed_leaf(model.chunks[k], model.chunk_cube(k), 0, model.levels, leaf);
    let chunk = model.chunk_cube(k);
    lemma_pow2_pos(model.levels);
    assert forall|a: int| 0 <= a < chunk.dim() implies (#[trigger] chunk.corner[a]) % chunk.size
        == 0 by {
        let c = unlinear(k, model.chunks_num)[a];
        vstd::arithmetic::div_mod::lemma_mod_multiples_basic(c, model.edge());
    }
    lemma_leaf_aligned(model.chunks[k], chunk, 0, model.levels, leaf);
    lemma_pow2_pos((model.levels - leaf.depth) as nat);
    if leaf.depth > 0 {
        vstd::arithmetic::power2::lemma_pow2_strictly_increases(
            (model.levels - leaf.depth) as nat,
            model.levels,
        );
    }
    assert forall|a: int| 0 <= a < model.dim() implies 0 <= #[trigger] leaf.cube.corner[a]
        && leaf.cube.corner[a] + leaf.cube.size <= model.size()[a] by {
        model.lemma_chunk_inside(k, a);
    }
}

/// The leaves of a grid cover it: for every point of the grid the leaf found for
/// it is listed and covers it.
pub proof fn lemma_leaves_cover<T>(model: GridModel<T>, point: Seq<int>)
    requires
        model.valid(),
        model.in_bounds(point),
    ensures
        model.leaves().contains(model.leaf_at(point)),
        model.leaf_at(point).cube.contains(point),
        model.leaf_at(point).depth <= model.levels,
        model.leaf_at(point).cube.size == pow2(
            (model.levels - model.leaf_at(point).depth) as nat,
        ),
{
    model.lemma_chunk_of(point);
    let k = model.chunk_of(point);
    assert(model.chunks[k].shaped(model.fan(), model.levels));
    lemma_leaf_at(model.chunks[k], model.chunk_cube(k), 0, model.levels, point);
    lemma_leaf_at_listed(model.chunks[k], model.chunk_cube(k), 0, model.levels, point);
    lemma_chunk_leaves(model, model.chunks, model.leaf_at(point));
}

/// The leaves of a grid do not overlap: whichever listed leaf covers a point is
/// the leaf found for it, and the point lies in the grid.
pub proof fn lemma_leaves_disjoint<T>(model: GridModel<T>, leaf: LeafCell<T>, point: Seq<int>)
    requires
        model.valid(),
        model.leaves().contains(leaf),
        leaf.cube.contains(point),
    ensures
        model.in_bounds(point),
        model.leaf_at(point) == leaf,
{
    lemma_chunk_leaves(model, model.chunks, leaf);
    let k = choose|k: int|
        0 <= k < model.chunks.len() && (#[trigger] model.chunks[k]).leaves(
            model.chunk_cube(k),
            0,
        ).contains(leaf);
    assert(model.chunks[k].shaped(model.fan(), model.levels));
    lemma_leaf_is_found(model.chunks[k], model.chunk_cube(k), 0, model.levels, leaf, point);
    model.lemma_chunk_cube(k, point);
}

} // verus!
