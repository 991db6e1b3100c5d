//! Conway's Game of Life as a transformation rule.
use crate::allocator::Address;
use crate::grid::CellData;
use crate::laws::adapters::lemma_kernel_point;
use crate::laws::values::{coarsens, merges_within};
use crate::pipeline::transformed;
use crate::quantizer::kernel::KernelQuantizer;
use crate::quantizer::{may_merge, mergeable, CellContext, Quantizer};
use crate::topology::{Topology, Topology2d};
use crate::tree::{Cube, GridModel, Tree};
use vstd::arithmetic::power2::pow2;
use vstd::prelude::*;

verus! {

/// One Game of Life cell: `true` when alive.
#[derive(Debug, Clone, Copy)]
pub struct Cell(pub bool);

impl CellData for Cell {
    open spec fn homogeneous(&self, other: &Self) -> bool {
        self.0 == other.0
    }

    open spec fn scaled(&self, multiplier: usize) -> Self {
        *self
    }

    /// Uniform regions (all alive or all dead) collapse into one coarse cell.
    fn are_homogeneous(&self, other: &Self) -> (same: bool) {
        self.0 == other.0
    }

    /// A coarse cell's state is shared by every unit cell it covers, so
    /// area-scaling is a no-op for this boolean field.
    fn scale(&self, _multiplier: usize) -> (result: Self) {
        *self
    }
}

/// One for a live cell of the grid; zero for a dead one, and beyond the borders.
pub open spec fn life_at(source: GridModel<Cell>, x: int, y: int) -> int {
    if source.in_bounds(seq![x, y]) && source.at(seq![x, y]).0 {
        1
    } else {
        0
    }
}

/// Number of live cells among the first `count` of the nine cells around and at
/// `(x, y)`, row by row, leaving out `(x, y)` itself.
pub open spec fn live_among(source: GridModel<Cell>, x: int, y: int, count: int) -> int
    decreases count,
{
    if count <= 0 {
        0
    } else {
        let k = count - 1;
        live_among(source, x, y, k) + (if k == 4 {
            0
        } else {
            life_at(source, x + k % 3 - 1, y + k / 3 - 1)
        })
    }
}

/// Number of live neighbours of `(x, y)`.
pub open spec fn live_neighbours(source: GridModel<Cell>, x: int, y: int) -> int {
    live_among(source, x, y, 9)
}

/// Whether a cell with `live` live neighbours is alive in the next generation: a
/// live cell survives with 2 or 3 live neighbours; a dead cell is born with
/// exactly 3.
pub open spec fn lives_on(alive: bool, live: int) -> bool {
    live == 3 || (alive && live == 2)
}

/// Conway's rule. Out-of-bounds neighbours count as dead.
pub struct Conway;

impl Quantizer for Conway {
    type CellData = Cell;

    type Topology = Topology2d;

    open spec fn yields(
        &self,
        source: GridModel<Cell>,
        cube: Cube,
        depth: nat,
        data: Cell,
        out: Tree<Cell>,
    ) -> bool {
        out == Tree::Leaf(
            Cell(lives_on(data.0, live_neighbours(source, cube.corner[0], cube.corner[1]))),
        )
    }

    open spec fn spends(
        &self,
        source: GridModel<Cell>,
        cube: Cube,
        depth: nat,
        data: Cell,
        out: Tree<Cell>,
        cells: nat,
    ) -> bool {
        cells == 1
    }

    open spec fn fits(
        &self,
        source: GridModel<Cell>,
        cube: Cube,
        depth: nat,
        data: Cell,
        room: int,
    ) -> bool {
        1 <= room
    }

    fn quantize<'a, 'g>(&self, context: CellContext<'a, 'g, Cell, Topology2d>) -> (root: Address) {
        let ghost source = context.source();
        let ghost before = context.emitter.arena();
        let start = context.region.start;
        let x = start[0];
        let y = start[1];
        let size = context.sampler.grid_size();
        let width = size[0];
        let height = size[1];
        let alive = context.cell_data.0;
        let sampler = context.sampler;
        let emitter = context.emitter;
        proof {
            sampler.source().lemma_model();
            vstd::arithmetic::power2::lemma_pow2_pos(context.levels());
            assert(Topology2d::point(start)[0] + context.cell_size <= source.size()[0]);
            assert(Topology2d::point(start)[1] + context.cell_size <= source.size()[1]);
            assert(Topology2d::point(size)[0] == source.size()[0]);
            assert(Topology2d::point(size)[1] == source.size()[1]);
        }
        let mut live: usize = 0;
        let mut k: usize = 0;
        while k < 9
            invariant
                k <= 9,
                x < width,
                y < height,
                sampler.wf(),
                sampler.source()@ == source,
                sampler.source() == old(context.sampler).source(),
                sampler.cache_limit() == old(context.sampler).cache_limit(),
                source.size() =~= seq![width as int, height as int],
                0 <= live <= k,
                live == live_among(source, x as int, y as int, k as int),
            decreases 9 - k,
        {
            let dx = k % 3;
            let dy = k / 3;
            let ghost p = seq![x + dx - 1, y + dy - 1];
            if k != 4 {
                let inside_x = (dx > 0 || x > 0) && (dx < 2 || x + 1 < width);
                let inside_y = (dy > 0 || y > 0) && (dy < 2 || y + 1 < height);
                let inside = inside_x && inside_y;
                assert(inside == source.in_bounds(p));
                if inside {
                    let nx = if dx == 0 {
                        x - 1
                    } else {
                        x + (dx - 1)
                    };
                    let ny = if dy == 0 {
                        y - 1
                    } else {
                        y + (dy - 1)
                    };
                    assert(Topology2d::point([nx, ny]) =~= p);
                    if sampler.sample([nx, ny]).unwrap().data.0 {
                        live = live + 1;
                    }
                }
            }
            k = k + 1;
        }
        let next = live == 3 || (alive && live == 2);
        let root = emitter.emit_leaf(Cell(next));
        proof {
            assert(before@ =~= emitter.arena()@.take(before@.len() as int));
        }
        root
    }
}

/// One generation: behind the kernel adapter, the rule decides about every single
/// cell of the grid by its live neighbours.
pub proof fn lemma_generation(
    kernel: &KernelQuantizer<Conway>,
    source: GridModel<Cell>,
    result: GridModel<Cell>,
    p: Seq<int>,
)
    requires
        source.valid(),
        source.dim() == 2,
        transformed(kernel, source, result),
        source.in_bounds(p),
    ensures
        result.at(p).0 == lives_on(source.at(p).0, live_neighbours(source, p[0], p[1])),
{
    let same = |a: Cell, b: Cell| a == b;
    assert(coarsens(same));
    assert(merges_within(&kernel.quantizer, same)) by {
        assert forall|trees: Seq<Tree<Cell>>, merged: Cell|
            trees.len() > 0 && mergeable(trees) && #[trigger] may_merge(
                &kernel.quantizer,
                trees,
                merged,
            ) implies same(merged, trees[0]->Leaf_0) by {
            assert(trees[0] is Leaf);
        }
    }
    let part = lemma_kernel_point(kernel, source, result, same, p);
}

/// The rule puts a single leaf in place of any cell, of whatever size. It counts
/// the live cells among the eight around the cell's lowest corner, those beyond the
/// borders being dead: the leaf is alive if and only if there are three of them, or
/// there are two and the cell was alive.
pub proof fn lemma_rule(
    rule: &Conway,
    source: GridModel<Cell>,
    cube: Cube,
    depth: nat,
    data: Cell,
    out: Tree<Cell>,
)
    requires
        source.dim() == 2,
        rule.yields(source, cube, depth, data, out),
    ensures
        out is Leaf,
        ({
            let (x, y) = (cube.corner[0], cube.corner[1]);
            let one = |nx: int, ny: int|
                if 0 <= nx < source.size()[0] && 0 <= ny < source.size()[1] && source.at(
                    seq![nx, ny],
                ).0 {
                    1int
                } else {
                    0int
                };
            let around = one(x - 1, y - 1) + one(x, y - 1) + one(x + 1, y - 1) + one(x - 1, y)
                + one(x + 1, y) + one(x - 1, y + 1) + one(x, y + 1) + one(x + 1, y + 1);
            out->Leaf_0.0 <==> around == 3 || (around == 2 && data.0)
        }),
{
    assert forall|nx: int, ny: int| #[trigger] life_at(source, nx, ny) == (if 0 <= nx
        < source.size()[0] && 0 <= ny < source.size()[1] && source.at(seq![nx, ny]).0 {
        1int
    } else {
        0int
    }) by {
        let q = seq![nx, ny];
        assert(q[0] == nx && q[1] == ny);
        assert(source.in_bounds(q) <==> 0 <= nx < source.size()[0] && 0 <= ny
            < source.size()[1]);
    }
    reveal_with_fuel(live_among, 10);
}

/// The rule of the game, behind the kernel adapter: of the eight cells around a
/// cell, those that lie in the grid and are alive are counted. The cell is alive
/// in the next generation if and only if there are three of them, or there are two
/// and it was alive.
pub proof fn lemma_game_of_life(
    kernel: &KernelQuantizer<Conway>,
    source: GridModel<Cell>,
    result: GridModel<Cell>,
    p: Seq<int>,
)
    requires
        source.valid(),
        source.dim() == 2,
        transformed(kernel, source, result),
        source.in_bounds(p),
    ensures
        ({
            let (x, y) = (p[0], p[1]);
            let one = |nx: int, ny: int|
                if 0 <= nx < source.size()[0] && 0 <= ny < source.size()[1] && source.at(
                    seq![nx, ny],
                ).0 {
                    1int
                } else {
                    0int
                };
            let around = one(x - 1, y - 1) + one(x, y - 1) + one(x + 1, y - 1) + one(x - 1, y)
                + one(x + 1, y) + one(x - 1, y + 1) + one(x, y + 1) + one(x + 1, y + 1);
            result.at(p).0 <==> around == 3 || (around == 2 && source.at(p).0)
        }),
{
    lemma_generation(kernel, source, result, p);
    let cube = Cube { corner: p, size: 1 };
    let next = Tree::Leaf(
        Cell(lives_on(source.at(p).0, live_neighbours(source, p[0], p[1]))),
    );
    lemma_rule(&kernel.quantizer, source, cube, source.levels, source.at(p), next);
}

/// How often `number` can be halved without remainder, counting up to `most`.
pub open spec fn halvings(number: int, most: int) -> int
    decreases most,
{
    if most <= 0 || number % 2 != 0 {
        0
    } else {
        1 + halvings(number / 2, most - 1)
    }
}

/// Colour of a cell as red, green and blue.
///
/// Live cells are bright green. Dead cells are tinted by the size of the leaf
/// they collapsed into: fine (size 1) stays near-black, coarser leaves get
/// progressively bluer, so the adaptive grid's coarse regions stay visible.
pub fn cell_color(alive: bool, leaf_size: usize) -> (color: (u8, u8, u8))
    ensures
        alive ==> color == (80u8, 240u8, 120u8),
        !alive ==> color.0 == 10 && color.1 == 14 && color.2 == 20 + 14 * halvings(
            leaf_size as int,
            5,
        ),
{
    if alive {
        return (80, 240, 120);
    }
    let mut blue: u8 = 20;
    let mut number: usize = leaf_size;
    let mut most: usize = 5;
    while most > 0 && number % 2 == 0
        invariant
            most <= 5,
            20 <= blue <= 20 + 14 * (5 - most),
            blue + 14 * halvings(number as int, most as int) == 20 + 14 * halvings(
                leaf_size as int,
                5,
            ),
        decreases most,
    {
        blue = blue + 14;
        number = number / 2;
        most = most - 1;
    }
    (10, 14, blue)
}

/// Dead cells are coloured by the size of their leaf: each time it can be halved
/// adds 14 to the blue, five times at most; zero can always be halved. Live cells
/// all have one colour.
pub proof fn lemma_colors(alive: bool, leaf_size: usize, color: (u8, u8, u8), k: nat, odd: int)
    requires
        call_ensures(cell_color, (alive, leaf_size), color),
        leaf_size == pow2(k) * odd,
        odd % 2 == 1 || leaf_size == 0,
    ensures
        alive ==> color.0 == 80 && color.1 == 240 && color.2 == 120,
        !alive ==> color.0 == 10 && color.1 == 14,
        !alive && leaf_size > 0 && k <= 5 ==> color.2 == 20 + 14 * k,
        !alive && leaf_size > 0 && k > 5 ==> color.2 == 90,
        !alive && leaf_size == 0 ==> color.2 == 90,
{
    if leaf_size > 0 {
        lemma_halvings(leaf_size as int, 5, k, odd);
    } else {
        reveal_with_fuel(halvings, 6);
    }
}

proof fn lemma_halvings(number: int, most: int, k: nat, odd: int)
    requires
        most >= 0,
        number == pow2(k) * odd,
        odd % 2 == 1,
    ensures
        halvings(number, most) == (if k <= most {
            k as int
        } else {
            most
        }),
    decreases most,
{
    if k == 0 {
        vstd::arithmetic::power2::lemma2_to64();
        assert(number == odd);
    } else {
        let below = (k - 1) as nat;
        vstd::arithmetic::power2::lemma_pow2_unfold(k);
        let half = pow2(below) * odd;
        assert(number == 2 * half) by (nonlinear_arith)
            requires
                number == pow2(k) * odd,
                pow2(k) == 2 * pow2(below),
                half == pow2(below) * odd,
        ;
        if most > 0 {
            lemma_halvings(half, most - 1, below, odd);
        }
    }
}

/// Cells merge exactly if they are in the same state, and an area holds the state
/// that its cells are in.
pub proof fn lemma_states(left: Cell, right: Cell, count: usize, same: bool, scaled: Cell)
    requires
        call_ensures(Cell::are_homogeneous, (&left, &right), same),
        call_ensures(Cell::scale, (&left, count), scaled),
    ensures
        same <==> left == right,
        scaled == left,
{
}

} // verus!
