//! Staged edits as a transformation rule.
use crate::allocator::Address;
use crate::changes::{alike, resolved_values, Changes};
use crate::geometry::{extent, product, splat};
use crate::grid::{
    cell_ok, lemma_tree_stable, tree_of, Cell, CellData, Grid, GridSample, GridSampler,
};
use crate::laws::room::lemma_stored;
use crate::pipeline::{transformable, transformed, Transformer};
use crate::quantizer::context::{
    cube_of, lemma_child_placed, lemma_placed_region, placed, CellContext,
};
use crate::quantizer::emitter::CellEmitter;
use crate::quantizer::{grown, Quantizer};
use crate::topology::{subregion, Topology};
use crate::tree::{lemma_nodes_bound, lemma_total_nodes_take, total_nodes, Cube, GridModel, Tree};
use core::ops::Range;
use vstd::arithmetic::power2::pow2;
use vstd::prelude::*;

verus! {

/// What a cell that covers `cube` and holds `data` becomes when the edits are
/// applied: a leaf if they leave it homogeneous, else a branch of what its
/// octants become.
pub open spec fn edited<T: CellData>(
    staged: Map<Seq<int>, T>,
    cube: Cube,
    levels: nat,
    data: T,
) -> Tree<T>
    decreases levels,
{
    let values = resolved_values(staged, cube.corner, cube.upper(), data);
    if levels == 0 || alike(values) {
        Tree::Leaf(values.last())
    } else {
        Tree::Branch(
            Seq::new(
                pow2(cube.dim()),
                |i: int| edited(staged, cube.octant(i), (levels - 1) as nat, data),
            ),
        )
    }
}

/// An edited cell has the shape of a cell of its height.
pub proof fn lemma_edited_shape<T: CellData>(
    staged: Map<Seq<int>, T>,
    cube: Cube,
    levels: nat,
    data: T,
)
    ensures
        edited(staged, cube, levels, data).shaped(pow2(cube.dim()), levels),
    decreases levels,
{
    match edited(staged, cube, levels, data) {
        Tree::Leaf(value) => {},
        Tree::Branch(kids) => {
            assert forall|i: int| 0 <= i < kids.len() implies (#[trigger] kids[i]).shaped(
                pow2(cube.dim()),
                (levels - 1) as nat,
            ) by {
                lemma_edited_shape(staged, cube.octant(i), (levels - 1) as nat, data);
            }
        },
    }
}

/// A cube has points, and a cube of edge one has a single one.
pub proof fn lemma_cube_points(cube: Cube)
    requires
        cube.size >= 1,
    ensures
        product(extent(cube.corner, cube.upper())) >= 1,
        cube.size == 1 ==> product(extent(cube.corner, cube.upper())) == 1,
{
    let e = extent(cube.corner, cube.upper());
    assert(e =~= splat(cube.dim(), cube.size));
    crate::geometry::lemma_product_positive(e);
    if cube.size == 1 {
        crate::geometry::lemma_product_splat(cube.dim(), 1);
        vstd::arithmetic::power::lemma1_pow(cube.dim());
    }
}

impl<T: CellData, Topo: Topology> Changes<T, Topo> {
    /// Rebuilds the cell that covers `region` and holds `data`.
    fn rebuild<'g>(
        &self,
        region: Range<Topo::Coord>,
        cell_size: usize,
        depth: usize,
        data: &T,
        sampler: &GridSampler<'g, T, Topo>,
        emitter: &mut CellEmitter<T, Topo>,
    ) -> (root: Address)
        requires
            self.wf(),
            self.usable(),
            sampler.wf(),
            old(emitter).wf(),
            placed(*sampler, region, cell_size, depth),
            edited(
                self@,
                cube_of::<Topo>(region, cell_size),
                (sampler.source()@.levels - depth) as nat,
                *data,
            ).nodes() <= old(emitter).room(),
        ensures
            grown(
                old(emitter).arena(),
                final(emitter).arena(),
                root,
                (sampler.source()@.levels - depth) as nat,
            ),
            tree_of(
                final(emitter).arena(),
                root,
                (sampler.source()@.levels - depth) as nat,
            ) == edited(
                self@,
                cube_of::<Topo>(region, cell_size),
                (sampler.source()@.levels - depth) as nat,
                *data,
            ),
            final(emitter).arena()@.len() == old(emitter).arena()@.len() + edited(
                self@,
                cube_of::<Topo>(region, cell_size),
                (sampler.source()@.levels - depth) as nat,
                *data,
            ).nodes(),
        decreases sampler.source()@.levels - depth,
    {
        let ghost source = sampler.source()@;
        let ghost levels = (source.levels - depth) as nat;
        let ghost cube = cube_of::<Topo>(region, cell_size);
        let ghost tree = edited(self@, cube, levels, *data);
        let ghost before = emitter.arena();
        proof {
            sampler.source().lemma_model();
            vstd::arithmetic::power2::lemma_pow2_pos(levels);
            vstd::arithmetic::power2::lemma2_to64();
            lemma_cube_points(cube);
            lemma_edited_shape(self@, cube, levels, *data);
            Topo::lemma_shape();
            Topo::lemma_point(region.start);
            lemma_nodes_bound(tree, pow2(cube.dim()), levels);
            assert(before@ =~= before@.take(before@.len() as int));
        }
        let whole = Range { start: region.start, end: region.end };
        if let Some(value) = self.is_region_homogeneous(whole, data) {
            let root = emitter.emit_leaf(value);
            proof {
                let after = emitter.arena();
                assert(after.get(root) == Some(Cell::<T, Topo>::Leaf { data: value }));
                assert(tree_of(after, root, levels) == Tree::Leaf(value));
                assert(before@ =~= after@.take(before@.len() as int));
            }
            return root;
        }
        let ghost below = (levels - 1) as nat;
        let ghost kids = Seq::new(
            Topo::CHILDREN as nat,
            |i: int| edited(self@, cube.octant(i), below, *data),
        );
        let mut addresses: Vec<Address> = Vec::with_capacity(Topo::CHILDREN);
        proof {
            assert(levels > 0);
            assert(tree->Branch_0 =~= kids);
            assert(tree == Tree::Branch(kids));
            lemma_placed_region(*sampler, region, cell_size, depth);
            assert(total_nodes(kids.take(0)) == 0);
        }
        let mut index: usize = 0;
        while index < Topo::CHILDREN
            invariant
                index <= Topo::CHILDREN,
                self.wf(),
                self.usable(),
                sampler.wf(),
                source == sampler.source()@,
                depth < source.levels < usize::BITS,
                levels == (source.levels - depth) as nat,
                below == levels - 1,
                placed(*sampler, region, cell_size, depth),
                cube == cube_of::<Topo>(region, cell_size),
                forall|a: int|
                    0 <= a < Topo::DIMENSIONS ==> #[trigger] Topo::point(region.start)[a]
                        <= Topo::point(region.end)[a],
                kids == Seq::new(
                    Topo::CHILDREN as nat,
                    |i: int| edited(self@, cube.octant(i), below, *data),
                ),
                before == old(emitter).arena(),
                total_nodes(kids) + 1 <= before.limit() - before@.len(),
                emitter.wf(),
                before.extended_by(&emitter.arena()),
                emitter.arena()@.len() == before@.len() + total_nodes(kids.take(index as int)),
                addresses@.len() == index,
                forall|i: int|
                    0 <= i < index ==> cell_ok(emitter.arena(), #[trigger] addresses@[i], below)
                        && tree_of(emitter.arena(), addresses@[i], below) == kids[i],
            decreases Topo::CHILDREN - index,
        {
            let ghost i = index as int;
            let ghost mid = emitter.arena();
            let part = subregion::<Topo>(&region, index);
            proof {
                lemma_child_placed(*sampler, region, cell_size, depth, part, i);
                lemma_total_nodes_take(kids, i);
                assert(kids[i] == edited(self@, cube.octant(i), below, *data));
            }
            let address = self.rebuild(part, cell_size / 2, depth + 1, data, sampler, emitter);
            proof {
                assert forall|j: int| 0 <= j < i implies cell_ok(
                    emitter.arena(),
                    #[trigger] addresses@[j],
                    below,
                ) && tree_of(emitter.arena(), addresses@[j], below) == kids[j] by {
                    lemma_tree_stable(mid, emitter.arena(), addresses@[j], below);
                }
                assert(before@ =~= emitter.arena()@.take(before@.len() as int));
            }
            addresses.push(address);
            index = index + 1;
        }
        let from_list = |slot: usize| -> (r: Address)
            requires
                slot < addresses@.len(),
            ensures
                r == addresses@[slot as int],
            { addresses[slot] };
        let children = Topo::children_from_fn(from_list);
        let ghost mid = emitter.arena();
        assert(kids.take(index as int) =~= kids);
        let root = emitter.emit_branch(children);
        proof {
            let after = emitter.arena();
            let slots = Topo::slots(children);
            assert(mid@ =~= after@.take(mid@.len() as int));
            assert(before@ =~= after@.take(before@.len() as int));
            assert(after.get(root) == Some(Cell::<T, Topo>::Branch { children }));
            assert forall|i: int| 0 <= i < Topo::CHILDREN implies cell_ok(
                after,
                #[trigger] slots[i],
                below,
            ) && tree_of(after, slots[i], below) == kids[i] by {
                assert(slots[i] == addresses@[i]);
                lemma_tree_stable(mid, after, slots[i], below);
            }
            assert(cell_ok(after, root, levels));
            assert(tree_of(after, root, levels)->Branch_0 =~= kids);
        }
        root
    }

    /// Applies all staged edits to `grid`, returning the resulting new grid.
    /// The input grid is left unchanged.
    pub fn apply(self, grid: &Grid<T, Topo>) -> (result: Grid<T, Topo>)
        requires
            self.wf(),
            self.usable(),
            grid.wf(),
            transformable(&self, grid@, grid.settings().room::<T>()),
        ensures
            result.wf(),
            result.settings() == grid.settings(),
            transformed(&self, grid@, result@),
            result.stored() == total_nodes(result@.chunks),
    {
        let result = Transformer::new(&self, grid).execute();
        proof {
            lemma_stored(&self, grid@, result@, result.stored());
        }
        result
    }
}

impl<T: CellData, Topo: Topology> Quantizer for Changes<T, Topo> {
    type CellData = T;

    type Topology = Topo;

    open spec fn ready(&self) -> bool {
        self.wf() && self.usable()
    }

    open spec fn yields(
        &self,
        source: GridModel<T>,
        cube: Cube,
        depth: nat,
        data: T,
        out: Tree<T>,
    ) -> bool {
        out == edited(self@, cube, (source.levels - depth) as nat, data)
    }

    open spec fn spends(
        &self,
        source: GridModel<T>,
        cube: Cube,
        depth: nat,
        data: T,
        out: Tree<T>,
        cells: nat,
    ) -> bool {
        cells == out.nodes()
    }

    open spec fn fits(
        &self,
        source: GridModel<T>,
        cube: Cube,
        depth: nat,
        data: T,
        room: int,
    ) -> bool {
        edited(self@, cube, (source.levels - depth) as nat, data).nodes() <= room
    }

    open spec fn caches<'g>(
        &self,
        source: GridModel<T>,
        cube: Cube,
        depth: nat,
        data: T,
        limit: usize,
        before: Seq<GridSample<'g, T, Topo>>,
        after: Seq<GridSample<'g, T, Topo>>,
    ) -> bool {
        after == before
    }

    fn quantize<'a, 'g>(&self, context: CellContext<'a, 'g, T, Topo>) -> (root: Address) {
        self.rebuild(
            context.region,
            context.cell_size,
            context.depth,
            context.cell_data,
            &*context.sampler,
            context.emitter,
        )
    }
}

} // verus!
