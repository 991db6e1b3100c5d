//! The sparse, depth-adaptive grid and the ways to read it.
use crate::allocator::{arena_limit, Address, Allocator};
use crate::geometry::{addressable, positive, product};
use crate::laws::values::lemma_uniform;
use crate::topology::{Topology, Topology2d, Topology3d};
use crate::tree::{GridModel, Tree};
use core::ops::Range;
use vstd::arithmetic::power2::pow2;
use vstd::prelude::*;

pub mod flat;
pub mod iter;
pub mod preview;
pub mod region;
pub mod sampler;
pub mod text;

pub use crate::grid::flat::GridFlat;
pub use crate::grid::iter::GridIter;
pub use crate::grid::preview::GridPreviewCell;
pub use crate::grid::region::GridSampleIter;
pub use crate::grid::sampler::{GridSample, GridSampleView, GridSampler};

verus! {

/// Value stored in a grid cell.
///
/// Two adjacent cells holding "equal enough" data are merged into a coarser
/// cell, so the semantics of [`are_homogeneous`](CellData::are_homogeneous)
/// directly control how aggressively the grid coarsens.
pub trait CellData: Copy {
    /// What [`are_homogeneous`](CellData::are_homogeneous) answers.
    open spec fn homogeneous(&self, other: &Self) -> bool {
        arbitrary()
    }

    /// What [`scale`](CellData::scale) returns.
    open spec fn scaled(&self, multiplier: usize) -> Self {
        arbitrary()
    }

    /// Whether `self` and `other` are interchangeable for the purpose of
    /// merging neighbouring cells. Returning `true` more often yields a coarser,
    /// cheaper grid; returning `false` preserves detail.
    fn are_homogeneous(&self, other: &Self) -> (same: bool)
        ensures
            same == self.homogeneous(other),
    ;

    /// Scales this value as if it covered `multiplier` unit cells.
    ///
    /// Used to weight a coarse leaf by its area/volume when accumulating it
    /// against finer cells, as [`GridSample::data_scaled`] does.
    fn scale(&self, multiplier: usize) -> (result: Self)
        ensures
            result == self.scaled(multiplier),
    ;
}

/// One stored cell: a value, or the addresses of the cells it is divided into.
#[derive(Debug, Copy)]
pub enum Cell<T: CellData, Topo: Topology> {
    Leaf { data: T },
    Branch { children: Topo::Children },
}

impl<T: CellData, Topo: Topology> Clone for Cell<T, Topo> {
    fn clone(&self) -> (copy: Self)
        ensures
            copy == *self,
    {
        *self
    }
}

impl<T: CellData, Topo: Topology> Cell<T, Topo> {
    pub fn is_leaf(&self) -> (leaf: bool)
        ensures
            leaf == (self is Leaf),
    {
        matches!(self, Cell::Leaf { .. })
    }

    pub fn data(&self) -> (data: Option<&T>)
        ensures
            match data {
                Some(value) => *self == (Cell::<T, Topo>::Leaf { data: *value }),
                None => self is Branch,
            },
    {
        match self {
            Cell::Leaf { data } => Some(data),
            Cell::Branch { .. } => None,
        }
    }
}

/// The cell at `address` is the root of a tree in `arena` that is at most
/// `levels` branches high.
pub open spec fn cell_ok<T: CellData, Topo: Topology>(
    arena: Allocator<Cell<T, Topo>>,
    address: Address,
    levels: nat,
) -> bool
    decreases levels,
{
    match arena.get(address) {
        None => false,
        Some(Cell::Leaf { data }) => true,
        Some(Cell::Branch { children }) => {
            &&& levels > 0
            &&& forall|i: int|
                0 <= i < Topo::CHILDREN ==> cell_ok(
                    arena,
                    #[trigger] Topo::slots(children)[i],
                    (levels - 1) as nat,
                )
        },
    }
}

/// The tree in `arena` whose root is at `address`.
pub open spec fn tree_of<T: CellData, Topo: Topology>(
    arena: Allocator<Cell<T, Topo>>,
    address: Address,
    levels: nat,
) -> Tree<T>
    decreases levels,
{
    match arena.get(address) {
        None => arbitrary(),
        Some(Cell::Leaf { data }) => Tree::Leaf(data),
        Some(Cell::Branch { children }) => if levels == 0 {
            arbitrary()
        } else {
            Tree::Branch(
                Seq::new(
                    Topo::CHILDREN as nat,
                    |i: int| tree_of(arena, Topo::slots(children)[i], (levels - 1) as nat),
                ),
            )
        },
    }
}

/// A tree in an arena has the shape that the topology gives it.
pub proof fn lemma_tree_shape<T: CellData, Topo: Topology>(
    arena: Allocator<Cell<T, Topo>>,
    address: Address,
    levels: nat,
)
    requires
        cell_ok(arena, address, levels),
    ensures
        tree_of(arena, address, levels).shaped(Topo::CHILDREN as nat, levels),
    decreases levels,
{
    match arena.get(address) {
        Some(Cell::Branch { children }) => {
            let tree = tree_of(arena, address, levels);
            let kids = tree->Branch_0;
            assert forall|i: int| 0 <= i < kids.len() implies (#[trigger] kids[i]).shaped(
                Topo::CHILDREN as nat,
                (levels - 1) as nat,
            ) by {
                assert(cell_ok(arena, Topo::slots(children)[i], (levels - 1) as nat));
                lemma_tree_shape(arena, Topo::slots(children)[i], (levels - 1) as nat);
            }
        },
        _ => {},
    }
}

/// Appending to an arena leaves the trees in it as they are.
pub proof fn lemma_tree_stable<T: CellData, Topo: Topology>(
    arena: Allocator<Cell<T, Topo>>,
    later: Allocator<Cell<T, Topo>>,
    address: Address,
    levels: nat,
)
    requires
        arena.extended_by(&later),
        cell_ok(arena, address, levels),
    ensures
        cell_ok(later, address, levels),
        tree_of(later, address, levels) == tree_of(arena, address, levels),
    decreases levels,
{
    assert(arena.position(address) == later.position(address));
    assert(arena.get(address) == later.get(address));
    match arena.get(address) {
        Some(Cell::Branch { children }) => {
            assert forall|i: int| 0 <= i < Topo::CHILDREN implies cell_ok(
                later,
                #[trigger] Topo::slots(children)[i],
                (levels - 1) as nat,
            ) && tree_of(later, Topo::slots(children)[i], (levels - 1) as nat) == tree_of(
                arena,
                Topo::slots(children)[i],
                (levels - 1) as nat,
            ) by {
                assert(cell_ok(arena, Topo::slots(children)[i], (levels - 1) as nat));
                lemma_tree_stable(arena, later, Topo::slots(children)[i], (levels - 1) as nat);
            }
            assert(tree_of(later, address, levels)->Branch_0 =~= tree_of(
                arena,
                address,
                levels,
            )->Branch_0);
        },
        _ => {},
    }
}

/// Construction parameters for a [`Grid`].
///
/// `GridConfig` is intentionally `Clone`-but-not-`Copy`: it can be large and is
/// only cloned at well-defined points (e.g. when a [`Transformer`] rebuilds a
/// grid), not implicitly on every access.
///
/// [`Transformer`]: crate::pipeline::Transformer
#[derive(Debug)]
pub struct GridConfig<Topo: Topology = Topology3d> {
    /// Number of chunks along each axis. Each component is clamped to at least
    /// `1` by [`Grid::new`].
    pub chunks_num: Topo::Coord,
    /// Maximum subdivision depth within a chunk; sets `chunk_size = 1 << this`.
    pub chunk_max_depth: usize,
    /// Number of cells stored per arena page.
    pub page_capacity: u32,
    /// Number of pages pre-reserved in the arena.
    pub pages_capacity: u32,
    /// Upper bound on the sampler's leaf cache; `None` disables caching.
    pub sampler_cache_limit: Option<usize>,
}

impl<Topo: Topology> GridConfig<Topo> {
    /// Number of chunks along each axis, at least one.
    pub open spec fn counts(&self) -> Seq<int> {
        Seq::new(
            Topo::DIMENSIONS as nat,
            |a: int|
                if Topo::point(self.chunks_num)[a] < 1 {
                    1
                } else {
                    Topo::point(self.chunks_num)[a]
                },
        )
    }

    /// Cells per page, at least one.
    pub open spec fn page_cells(&self) -> int {
        if self.page_capacity < 1 {
            1
        } else {
            self.page_capacity as int
        }
    }

    /// Most cells that the arena of a grid of `T` values can hold.
    pub open spec fn room<T: CellData>(&self) -> int {
        arena_limit::<Cell<T, Topo>>(self.page_capacity)
    }

    /// A grid of `T` values as described fits the machine: its extent and its
    /// number of chunks are `usize` values, and the chunks have room in the arena.
    pub open spec fn buildable<T: CellData>(&self) -> bool {
        &&& self.chunk_max_depth < usize::BITS
        &&& addressable(self.counts())
        &&& forall|a: int|
            0 <= a < Topo::DIMENSIONS ==> (#[trigger] self.counts()[a]) * pow2(
                self.chunk_max_depth as nat,
            ) <= usize::MAX
        &&& product(self.counts()) <= self.room::<T>()
    }

    /// All clamped values are in range already.
    pub open spec fn clamped(&self) -> bool {
        &&& Topo::point(self.chunks_num) == self.counts()
        &&& self.page_capacity >= 1
        &&& self.pages_capacity >= 1
    }
}

impl<Topo: Topology> Clone for GridConfig<Topo> {
    fn clone(&self) -> (copy: Self)
        ensures
            copy == *self,
    {
        Self {
            chunks_num: self.chunks_num,
            chunk_max_depth: self.chunk_max_depth,
            page_capacity: self.page_capacity,
            pages_capacity: self.pages_capacity,
            sampler_cache_limit: self.sampler_cache_limit,
        }
    }
}

impl<Topo: Topology> Default for GridConfig<Topo> {
    fn default() -> (config: Self)
        ensures
            Topo::point(config.chunks_num) == crate::geometry::splat(Topo::DIMENSIONS as nat, 1),
            config.chunk_max_depth == 0,
            config.page_capacity == 1024,
            config.pages_capacity == 32,
            config.sampler_cache_limit is None,
    {
        Self {
            chunks_num: Topo::splat(1),
            chunk_max_depth: 0,
            page_capacity: 1024,
            pages_capacity: 32,
            sampler_cache_limit: None,
        }
    }
}

/// Octree-backed 3D grid (the default topology).
pub type Grid3d<T> = Grid<T, Topology3d>;

/// Quadtree-backed 2D grid.
pub type Grid2d<T> = Grid<T, Topology2d>;

/// A sparse, depth-adaptive grid of [`CellData`] values.
///
/// The grid is a fixed array of cubic **chunks** (`config.chunks_num` of them
/// along each axis); each chunk is the root of an adaptive subtree stored in the
/// shared [`Allocator`]. Uniform regions stay coarse leaves, detailed regions
/// subdivide down to `chunk_size = 1 << chunk_max_depth` cells per axis.
///
/// Grids are immutable in practice: edits and simulation steps go through a
/// [`Quantizer`](crate::quantizer::Quantizer) /
/// [`Transformer`](crate::pipeline::Transformer), which produce a new grid.
/// Cloning a grid deep-copies its arena.
///
/// Contracts speak of a grid as its [`GridModel`].
///
/// # Invariants
/// - `chunk_size == 1 << chunk_max_depth` and
///   `size[axis] == chunks_num[axis] * chunk_size`, so every chunk is a cube
///   whose edge is a power of two.
/// - Branches whose children are all [homogeneous](CellData::are_homogeneous)
///   leaves are collapsed back into a single leaf, see
///   [`CellEmitter::emit_branch_possibly_merged`](crate::quantizer::CellEmitter::emit_branch_possibly_merged).
///   When a grid is free of them is stated in [`crate::laws::normal`].
pub struct Grid<T: CellData, Topo: Topology = Topology3d> {
    pub(crate) config: GridConfig<Topo>,
    pub(crate) size: Topo::Coord,
    pub(crate) chunk_size: usize,
    pub(crate) chunks: Vec<Address>,
    pub(crate) allocator: Allocator<Cell<T, Topo>>,
}

impl<T: CellData, Topo: Topology> View for Grid<T, Topo> {
    type V = GridModel<T>;

    closed spec fn view(&self) -> GridModel<T> {
        GridModel {
            chunks_num: Topo::point(self.config.chunks_num),
            levels: self.config.chunk_max_depth as nat,
            chunks: Seq::new(
                self.chunks@.len(),
                |k: int|
                    tree_of(self.allocator, self.chunks@[k], self.config.chunk_max_depth as nat),
            ),
        }
    }
}

impl<T: CellData, Topo: Topology> Clone for Grid<T, Topo> {
    fn clone(&self) -> (copy: Self)
        ensures
            copy.settings() == self.settings(),
            self.wf() ==> copy.wf() && copy@ == self@ && copy.stored() == self.stored(),
    {
        let mut chunks: Vec<Address> = Vec::with_capacity(self.chunks.len());
        let mut index: usize = 0;
        while index < self.chunks.len()
            invariant
                index <= self.chunks@.len(),
                chunks@ == self.chunks@.take(index as int),
            decreases self.chunks@.len() - index,
        {
            chunks.push(self.chunks[index]);
            assert(self.chunks@.take(index + 1) =~= self.chunks@.take(index as int).push(
                self.chunks@[index as int],
            ));
            index = index + 1;
        }
        let copy = Self {
            config: self.config.clone(),
            size: self.size,
            chunk_size: self.chunk_size,
            chunks,
            allocator: self.allocator.clone(),
        };
        proof {
            assert(self.chunks@.take(index as int) =~= self.chunks@);
            if self.wf() {
                let levels = self.config.chunk_max_depth as nat;
                assert(self.allocator@ =~= copy.allocator@.take(self.allocator@.len() as int));
                assert forall|k: int| 0 <= k < self.chunks@.len() implies cell_ok(
                    copy.allocator,
                    #[trigger] copy.chunks@[k],
                    levels,
                ) && tree_of(copy.allocator, copy.chunks@[k], levels) == tree_of(
                    self.allocator,
                    self.chunks@[k],
                    levels,
                ) by {
                    assert(cell_ok(self.allocator, self.chunks@[k], levels));
                    lemma_tree_stable(self.allocator, copy.allocator, self.chunks@[k], levels);
                }
                assert(copy@.chunks =~= self@.chunks);
            }
        }
        copy
    }
}

impl<T: CellData, Topo: Topology> Grid<T, Topo> {
    /// The configuration this grid was built with.
    pub closed spec fn settings(&self) -> GridConfig<Topo> {
        self.config
    }

    /// Number of cells in the grid's arena.
    pub closed spec fn stored(&self) -> nat {
        self.allocator@.len()
    }

    /// The derived sizes agree with the configuration, and every chunk is the
    /// root of a tree that fits in it.
    pub closed spec fn wf(&self) -> bool {
        &&& self.config.buildable::<T>()
        &&& self.config.clamped()
        &&& self.chunk_size == pow2(self.config.chunk_max_depth as nat)
        &&& Topo::point(self.size) == self@.size()
        &&& self.chunks@.len() == product(self.config.counts())
        &&& self.allocator.wf()
        &&& self.allocator.limit() == self.config.room::<T>()
        &&& forall|k: int|
            0 <= k < self.chunks@.len() ==> cell_ok(
                self.allocator,
                #[trigger] self.chunks@[k],
                self.config.chunk_max_depth as nat,
            )
    }

    /// What well-formedness and the model mean in terms of the fields.
    pub(crate) proof fn lemma_fields(&self)
        ensures
            self.settings() == self.config,
            self.stored() == self.allocator@.len(),
            self.wf() <==> {
                &&& self.config.buildable::<T>()
                &&& self.config.clamped()
                &&& self.chunk_size == pow2(self.config.chunk_max_depth as nat)
                &&& Topo::point(self.size) == self@.size()
                &&& self.chunks@.len() == product(self.config.counts())
                &&& self.allocator.wf()
                &&& self.allocator.limit() == self.config.room::<T>()
                &&& forall|k: int|
                    0 <= k < self.chunks@.len() ==> cell_ok(
                        self.allocator,
                        #[trigger] self.chunks@[k],
                        self.config.chunk_max_depth as nat,
                    )
            },
            self@ == (GridModel {
                chunks_num: Topo::point(self.config.chunks_num),
                levels: self.config.chunk_max_depth as nat,
                chunks: Seq::new(
                    self.chunks@.len(),
                    |k: int|
                        tree_of(
                            self.allocator,
                            self.chunks@[k],
                            self.config.chunk_max_depth as nat,
                        ),
                ),
            }),
    {
    }

    /// The model of a well-formed grid is valid, has the topology's dimension,
    /// and its extent fits the machine.
    pub proof fn lemma_model(&self)
        requires
            self.wf(),
        ensures
            self@.valid(),
            self@.dim() == Topo::DIMENSIONS,
            self@.fan() == Topo::CHILDREN,
            self@.levels == self.settings().chunk_max_depth,
            self@.levels < usize::BITS,
            self@.chunks_num == self.settings().counts(),
            self.settings().buildable::<T>(),
            self.settings().clamped(),
            addressable(self@.chunks_num),
            self@.chunks.len() <= self.settings().room::<T>(),
            forall|a: int|
                0 <= a < Topo::DIMENSIONS ==> 0 < #[trigger] self@.size()[a] <= usize::MAX,
            1 <= self@.edge() <= usize::MAX,
    {
        Topo::lemma_shape();
        Topo::lemma_point(self.config.chunks_num);
        vstd::arithmetic::power2::lemma_pow2_pos(self@.levels);
        vstd::bits::lemma_usize_pow2_no_overflow(self@.levels);
        assert forall|k: int| 0 <= k < self@.chunks.len() implies (
        #[trigger] self@.chunks[k]).shaped(self@.fan(), self@.levels) by {
            assert(cell_ok(self.allocator, self.chunks@[k], self@.levels));
            lemma_tree_shape(self.allocator, self.chunks@[k], self@.levels);
        }
        assert(positive(self@.chunks_num)) by {
            assert forall|a: int| 0 <= a < self@.chunks_num.len() implies 0
                < #[trigger] self@.chunks_num[a] by {
                assert(self.config.counts()[a] >= 1);
            }
        }
        assert forall|a: int| 0 <= a < Topo::DIMENSIONS implies 0 < #[trigger] self@.size()[a]
            <= usize::MAX by {
            let n = self.config.counts()[a];
            let e = pow2(self@.levels) as int;
            assert(n * e >= 1) by (nonlinear_arith)
                requires
                    n >= 1,
                    e >= 1,
            ;
        }
    }

    /// Creates a grid with every cell initialised to `fill_data`.
    ///
    /// `config.chunks_num` is clamped to at least `1` per axis and the page
    /// capacities to at least `1`. The resulting [`size`](Grid::size) is
    /// `chunks_num * chunk_size` per axis.
    pub fn new(config: GridConfig<Topo>, fill_data: T) -> (grid: Self)
        requires
            config.buildable::<T>(),
        ensures
            grid.wf(),
            Topo::point(grid.settings().chunks_num) == config.counts(),
            grid.settings().chunk_max_depth == config.chunk_max_depth,
            grid.settings().page_capacity == config.page_cells(),
            grid.settings().pages_capacity == (if config.pages_capacity < 1 {
                1
            } else {
                config.pages_capacity
            }),
            grid.settings().sampler_cache_limit == config.sampler_cache_limit,
            grid.stored() == product(config.counts()),
            grid@ == (GridModel {
                chunks_num: config.counts(),
                levels: config.chunk_max_depth as nat,
                chunks: Seq::new(
                    product(config.counts()) as nat,
                    |k: int| Tree::Leaf(fill_data),
                ),
            }),
            forall|a: int|
                0 <= a < Topo::DIMENSIONS ==> #[trigger] Topo::point(
                    grid.settings().chunks_num,
                )[a] == (if Topo::point(config.chunks_num)[a] == 0 {
                    1
                } else {
                    Topo::point(config.chunks_num)[a]
                }),
            forall|a: int|
                0 <= a < Topo::DIMENSIONS ==> #[trigger] grid@.size()[a] == (if Topo::point(
                    config.chunks_num,
                )[a] == 0 {
                    1
                } else {
                    Topo::point(config.chunks_num)[a]
                }) * pow2(config.chunk_max_depth as nat),
            forall|p: Seq<int>| #[trigger] grid@.in_bounds(p) ==> grid@.at(p) == fill_data,
    {
        let ghost given = config;
        let ghost depth = config.chunk_max_depth as nat;
        let mut config = config;
        let at_least_one = |num: usize| -> (r: usize)
            ensures
                r == (if num < 1 {
                    1
                } else {
                    num
                }),
            {
                if num < 1 {
                    1
                } else {
                    num
                }
            };
        config.chunks_num = Topo::map(config.chunks_num, at_least_one);
        if config.page_capacity < 1 {
            config.page_capacity = 1;
        }
        if config.pages_capacity < 1 {
            config.pages_capacity = 1;
        }
        proof {
            Topo::lemma_point(given.chunks_num);
            Topo::lemma_point(config.chunks_num);
            assert(Topo::point(config.chunks_num) =~= given.counts());
            assert(config.counts() =~= given.counts());
        }
        let (allocator, chunks) = Self::uniform_chunks(&config, fill_data);
        proof {
            vstd::bits::lemma_usize_pow2_no_overflow(depth);
            vstd::bits::lemma_usize_shl_is_mul(1, config.chunk_max_depth);
        }
        let chunk_size = 1usize << config.chunk_max_depth;
        let scale = |num: usize| -> (r: usize)
            requires
                num * chunk_size <= usize::MAX,
            ensures
                r == num * chunk_size,
            { num * chunk_size };
        proof {
            assert forall|a: int| 0 <= a < Topo::DIMENSIONS implies call_requires(
                scale,
                (#[trigger] Topo::point(config.chunks_num)[a] as usize,),
            ) by {
                assert(given.counts()[a] * pow2(depth) <= usize::MAX);
            }
        }
        let size = Topo::map(config.chunks_num, scale);
        let grid = Self { config, size, chunk_size, chunks, allocator };
        proof {
            Topo::lemma_point(size);
            assert forall|a: int| 0 <= a < Topo::DIMENSIONS implies Topo::point(size)[a]
                == #[trigger] grid@.size()[a] by {
                assert(given.counts()[a] * pow2(depth) <= usize::MAX);
                let n = Topo::point(config.chunks_num)[a];
                assert(n * chunk_size >= 0) by (nonlinear_arith)
                    requires
                        n >= 0,
                        chunk_size >= 0,
                ;
            }
            assert(Topo::point(size) =~= grid@.size());
            assert(grid@.chunks =~= Seq::new(
                product(given.counts()) as nat,
                |k: int| Tree::Leaf(fill_data),
            ));
            grid.lemma_model();
            assert forall|p: Seq<int>| #[trigger] grid@.in_bounds(p) implies grid@.at(p)
                == fill_data by {
                lemma_uniform(grid@, fill_data, p);
            }
        }
        grid
    }

    /// One fresh leaf holding `data` for every chunk.
    fn uniform_chunks(config: &GridConfig<Topo>, data: T) -> (parts: (
        Allocator<Cell<T, Topo>>,
        Vec<Address>,
    ))
        requires
            config.buildable::<T>(),
            config.clamped(),
        ensures
            parts.0.wf(),
            parts.0.limit() == config.room::<T>(),
            parts.0@.len() == product(config.counts()),
            parts.1@.len() == product(config.counts()),
            forall|k: int|
                0 <= k < parts.1@.len() ==> parts.0.get(#[trigger] parts.1@[k]) == Some(
                    Cell::<T, Topo>::Leaf { data },
                ),
    {
        let mut allocator: Allocator<Cell<T, Topo>> = Allocator::new(
            config.page_capacity,
            config.pages_capacity,
        );
        let count = Topo::volume(config.chunks_num);
        let mut chunks: Vec<Address> = Vec::with_capacity(count);
        let mut k: usize = 0;
        while k < count
            invariant
                k <= count,
                count == product(config.counts()),
                config.buildable::<T>(),
                allocator.wf(),
                allocator.limit() == config.room::<T>(),
                allocator@.len() == k,
                chunks@.len() == k,
                forall|j: int|
                    0 <= j < k ==> allocator.get(#[trigger] chunks@[j]) == Some(
                        Cell::<T, Topo>::Leaf { data },
                    ),
            decreases count - k,
        {
            let ghost before = allocator;
            let address = allocator.push(Cell::Leaf { data });
            proof {
                assert forall|j: int| 0 <= j < k implies allocator.get(#[trigger] chunks@[j])
                    == Some(Cell::<T, Topo>::Leaf { data }) by {
                    assert(before.get(chunks@[j]) == Some(Cell::<T, Topo>::Leaf { data }));
                }
            }
            chunks.push(address);
            k = k + 1;
        }
        (allocator, chunks)
    }

    /// The configuration this grid was built with.
    pub fn config(&self) -> (config: &GridConfig<Topo>)
        ensures
            *config == self.settings(),
    {
        &self.config
    }

    /// The total extent of the grid in cells per axis (`chunks_num * chunk_size`).
    pub fn size(&self) -> (size: Topo::Coord)
        requires
            self.wf(),
        ensures
            Topo::point(size) == self@.size(),
    {
        self.size
    }

    /// The edge length, in cells, of one fully-subdivided chunk
    /// (`1 << chunk_max_depth`).
    pub fn chunk_size(&self) -> (size: usize)
        requires
            self.wf(),
        ensures
            size == self@.edge(),
    {
        self.chunk_size
    }

    /// Lowest point of chunk `index`.
    pub(crate) fn chunk_corner(&self, index: usize) -> (corner: Topo::Coord)
        requires
            self.wf(),
            index < self@.chunks.len(),
        ensures
            Topo::point(corner) == self@.chunk_cube(index as int).corner,
    {
        proof {
            self.lemma_model();
            assert forall|k: int| 0 <= k < Topo::DIMENSIONS implies product(
                #[trigger] Topo::point(self.config.chunks_num).take(k),
            ) <= usize::MAX by {
                assert(product(self@.chunks_num.take(k)) <= usize::MAX);
            }
        }
        let chunk_coords = Topo::from_linear_index(index, self.config.chunks_num);
        let chunk_size = self.chunk_size;
        let scale = |coord: usize| -> (r: usize)
            requires
                coord * chunk_size <= usize::MAX,
            ensures
                r == coord * chunk_size,
            { coord * chunk_size };
        proof {
            Topo::lemma_point(chunk_coords);
            assert forall|a: int| 0 <= a < Topo::DIMENSIONS implies call_requires(
                scale,
                (#[trigger] Topo::point(chunk_coords)[a] as usize,),
            ) by {
                self@.lemma_chunk_inside(index as int, a);
                assert(self@.size()[a] <= usize::MAX);
            }
        }
        let corner = Topo::map(chunk_coords, scale);
        proof {
            Topo::lemma_point(corner);
            assert forall|a: int| 0 <= a < Topo::DIMENSIONS implies Topo::point(corner)[a]
                == #[trigger] self@.chunk_cube(index as int).corner[a] by {
                self@.lemma_chunk_inside(index as int, a);
                assert(self@.size()[a] <= usize::MAX);
            }
            assert(Topo::point(corner) =~= self@.chunk_cube(index as int).corner);
        }
        corner
    }

    /// The half-open box of coordinates that chunk `index` covers.
    pub(crate) fn chunk_region(&self, index: usize) -> (region: Range<Topo::Coord>)
        requires
            self.wf(),
            index < self@.chunks.len(),
        ensures
            Topo::point(region.start) == self@.chunk_cube(index as int).corner,
            Topo::point(region.end) == self@.chunk_cube(index as int).upper(),
    {
        let start = self.chunk_corner(index);
        let chunk_size = self.chunk_size;
        let shift = |coord: usize| -> (r: usize)
            requires
                coord + chunk_size <= usize::MAX,
            ensures
                r == coord + chunk_size,
            { coord + chunk_size };
        proof {
            self.lemma_model();
            Topo::lemma_point(start);
            assert forall|a: int| 0 <= a < Topo::DIMENSIONS implies call_requires(
                shift,
                (#[trigger] Topo::point(start)[a] as usize,),
            ) by {
                self@.lemma_chunk_inside(index as int, a);
                assert(self@.size()[a] <= usize::MAX);
            }
        }
        let end = Topo::map(start, shift);
        proof {
            Topo::lemma_point(end);
            assert forall|a: int| 0 <= a < Topo::DIMENSIONS implies Topo::point(end)[a]
                == #[trigger] self@.chunk_cube(index as int).upper()[a] by {
                self@.lemma_chunk_inside(index as int, a);
                assert(self@.size()[a] <= usize::MAX);
            }
            assert(Topo::point(end) =~= self@.chunk_cube(index as int).upper());
        }
        Range { start, end }
    }

    /// Resets every chunk to a single leaf holding `data`, discarding all
    /// existing subdivision.
    pub fn reset(&mut self, data: T)
        requires
            old(self).wf(),
        ensures
            final(self).wf(),
            final(self).settings() == old(self).settings(),
            final(self).stored() == old(self)@.chunks.len(),
            final(self)@ == (GridModel {
                chunks_num: old(self)@.chunks_num,
                levels: old(self)@.levels,
                chunks: Seq::new(old(self)@.chunks.len(), |k: int| Tree::Leaf(data)),
            }),
            final(self)@.size() == old(self)@.size(),
            forall|p: Seq<int>| #[trigger]
                old(self)@.in_bounds(p) ==> final(self)@.at(p) == data,
    {
        let (allocator, chunks) = Self::uniform_chunks(&self.config, data);
        self.allocator = allocator;
        self.chunks = chunks;
        proof {
            assert(self@.chunks =~= Seq::new(old(self)@.chunks.len(), |k: int| Tree::Leaf(data)));
            assert(self@.size() =~= old(self)@.size());
            self.lemma_model();
            assert forall|p: Seq<int>| #[trigger] old(self)@.in_bounds(p) implies self@.at(p)
                == data by {
                lemma_uniform(self@, data, p);
            }
        }
    }
}

} // verus!
