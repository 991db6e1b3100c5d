use stormcell::allocator::Address;
use stormcell::changes::Changes;
use stormcell::grid::{CellData, Grid2d, GridConfig, GridPreviewCell};
use stormcell::pipeline::Transformer;
use stormcell::quantizer::kernel::KernelQuantizer;
use stormcell::quantizer::neighbors::NeighborsQuantizer;
use stormcell::quantizer::{CellContext, Quantizer};
use stormcell::topology::{Topology, Topology2d};

#[derive(Debug, Clone, Copy, PartialEq, Eq)]
struct Tone(u8);

impl CellData for Tone {
    fn are_homogeneous(&self, other: &Self) -> bool {
        self.0 / 10 == other.0 / 10
    }

    fn scale(&self, _multiplier: usize) -> Self {
        *self
    }
}

fn grid(depth: usize) -> Grid2d<Tone> {
    Grid2d::new(
        GridConfig {
            chunk_max_depth: depth,
            sampler_cache_limit: Some(2),
            ..Default::default()
        },
        Tone(0),
    )
}

/// Emits the column number of every cell it is asked about.
struct Column;

impl Quantizer for Column {
    type CellData = Tone;
    type Topology = Topology2d;

    fn quantize(&self, context: CellContext<Tone, Topology2d>) -> Address {
        context.emitter.emit_leaf(Tone(context.region.start[0] as u8 * 10))
    }
}

/// Splits a cell once, with consecutive values in its children.
struct Split {
    first: u8,
    step: u8,
    merged: bool,
}

impl Quantizer for Split {
    type CellData = Tone;
    type Topology = Topology2d;

    fn quantize(&self, context: CellContext<Tone, Topology2d>) -> Address {
        let children = |emitter: &mut stormcell::quantizer::CellEmitter<Tone, Topology2d>| {
            let mut addresses = Vec::new();
            for slot in 0..4 {
                addresses.push(emitter.emit_leaf(Tone(self.first + slot * self.step)));
            }
            Topology2d::children_from_fn(|slot| addresses[slot])
        };
        if self.merged {
            context
                .emitter
                .emit_group_possibly_merged(children, |cells| self.merge(cells))
        } else {
            context.emitter.emit_group(children)
        }
    }

    fn merge(&self, cells: &[&Tone]) -> Tone {
        Tone(cells.iter().map(|tone| tone.0).max().unwrap())
    }
}

/// Emits, one level down, what a child context says about itself.
struct Inspect;

impl Quantizer for Inspect {
    type CellData = Tone;
    type Topology = Topology2d;

    fn quantize(&self, mut context: CellContext<Tone, Topology2d>) -> Address {
        assert_eq!(context.depth_size(), context.cell_size);
        assert_eq!(context.area(), context.cell_size * context.cell_size);
        let parts = context.subdivide_region();
        assert_eq!(parts.len(), 4);
        assert_eq!(parts[3].index, 3);
        assert_eq!(parts[3].region_coord, [1, 1]);
        assert_eq!(parts[3].region, [2, 2]..[4, 4]);
        assert_eq!(parts[3].cell_size, 2);
        assert_eq!(parts[3].depth, 1);
        assert_eq!(parts[2].clone().region, context.subregion_at(2).region);
        let child = context.subregion(&parts[1]);
        assert_eq!(child.region, [2, 0]..[4, 2]);
        assert_eq!(*child.cell_data, Tone(0));
        let children = context.subdivide(|part| {
            let tone = Tone((part.region.start[0] * 10 + part.region.start[1] * 20) as u8);
            part.emitter.emit_leaf(tone)
        });
        context.emitter.emit_branch(children)
    }
}

#[test]
fn homogeneous_children_are_merged() {
    let same = Split {
        first: 1,
        step: 2,
        merged: true,
    };
    let result = Transformer::new(&same, &grid(1)).execute();
    assert_eq!(result.preview(), [GridPreviewCell::Leaf(Tone(7))]);
}

#[test]
fn differing_children_stay_apart() {
    let apart = Split {
        first: 4,
        step: 2,
        merged: true,
    };
    let result = Transformer::new(&apart, &grid(1)).execute();
    assert_eq!(
        result.preview(),
        [GridPreviewCell::Branch(vec![
            GridPreviewCell::Leaf(Tone(4)),
            GridPreviewCell::Leaf(Tone(6)),
            GridPreviewCell::Leaf(Tone(8)),
            GridPreviewCell::Leaf(Tone(10)),
        ])]
    );
}

#[test]
fn plain_groups_are_not_merged() {
    let plain = Split {
        first: 1,
        step: 1,
        merged: false,
    };
    let result = Transformer::new(&plain, &grid(1)).execute();
    assert_eq!(result.iter().count(), 4);
    let again = Transformer::new(&Column, &result).execute();
    assert_eq!(again.iter().count(), 4);
}

#[test]
fn contexts_describe_their_children() {
    let result = Transformer::new(&Inspect, &grid(2)).execute();
    assert_eq!(
        result.preview(),
        [GridPreviewCell::Branch(vec![
            GridPreviewCell::Leaf(Tone(0)),
            GridPreviewCell::Leaf(Tone(20)),
            GridPreviewCell::Leaf(Tone(40)),
            GridPreviewCell::Leaf(Tone(60)),
        ])]
    );
}

#[test]
fn rules_see_whole_leaves_without_an_adapter() {
    let result = Transformer::new(&Column, &grid(2)).execute();
    assert_eq!(result.preview(), [GridPreviewCell::Leaf(Tone(0))]);
}

#[test]
fn the_kernel_adapter_shows_unit_cells() {
    let kernel = KernelQuantizer { quantizer: Column };
    let result = Transformer::new(&kernel, &grid(2)).execute();
    let mut sampler = result.sampler();
    for x in 0..4 {
        for y in 0..4 {
            let sample = sampler.sample([x, y]).unwrap();
            assert_eq!(*sample.data, Tone(x as u8 * 10));
            assert_eq!(sample.size, 1);
        }
    }
}

#[test]
fn the_neighbourhood_adapter_follows_the_finest_neighbour() {
    let mut changes: Changes<Tone, Topology2d> = Changes::new(4);
    changes.set([0, 0], Tone(90));
    let source = changes.apply(&grid(3));
    for tile_margin in [0, 1] {
        let neighbors = NeighborsQuantizer {
            tile_margin,
            quantizer: Column,
        };
        let result = Transformer::new(&neighbors, &source).execute();
        let mut sampler = result.sampler();
        assert_eq!(sampler.sample([0, 0]).unwrap().size, 1);
        assert_eq!(sampler.sample([3, 1]).unwrap().size, 1);
        assert_eq!(*sampler.sample([3, 1]).unwrap().data, Tone(30));
        assert_eq!(sampler.sample([5, 0]).unwrap().size, 2);
        assert_eq!(*sampler.sample([5, 0]).unwrap().data, Tone(40));
        assert_eq!(sampler.sample([7, 7]).unwrap().size, 2);
    }
}

#[test]
fn the_rule_decides_what_merged_leaves_hold() {
    let mut changes: Changes<Tone, Topology2d> = Changes::new(4);
    changes.set([0, 0], Tone(90));
    let source = changes.apply(&grid(1));
    assert_eq!(source.iter().count(), 4);

    struct Digit;
    impl Quantizer for Digit {
        type CellData = Tone;
        type Topology = Topology2d;

        fn quantize(&self, context: CellContext<Tone, Topology2d>) -> Address {
            let [x, y] = context.region.start;
            context.emitter.emit_leaf(Tone((x + 2 * y) as u8))
        }

        fn merge(&self, cells: &[&Tone]) -> Tone {
            *cells[cells.len() - 1]
        }
    }

    let result = Transformer::new(&Digit, &source).execute();
    assert_eq!(result.preview(), [GridPreviewCell::Leaf(Tone(3))]);
    let kernel = KernelQuantizer { quantizer: Digit };
    let result = Transformer::new(&kernel, &grid(1)).execute();
    assert_eq!(result.preview(), [GridPreviewCell::Leaf(Tone(3))]);
}

#[test]
fn trimming_the_cache_does_not_change_the_result() {
    let mut changes: Changes<Tone, Topology2d> = Changes::new(4);
    changes.set([5, 2], Tone(50));
    let source = changes.apply(&grid(3));
    let kernel = KernelQuantizer { quantizer: Column };
    let usual = Transformer::new(&kernel, &source);
    assert_eq!(usual.cached_samples_evicting_depth, 4);
    let expected = usual.execute().preview();
    for depth in [0, 1, 2] {
        let transformer =
            Transformer::new(&kernel, &source).with_cached_samples_evicting_depth(depth);
        assert_eq!(transformer.cached_samples_evicting_depth, depth);
        assert_eq!(transformer.execute().preview(), expected);
    }
}

#[test]
fn transformed_grids_keep_their_shape() {
    let source = grid(2);
    let result = Transformer::new(&Column, &source).execute();
    assert_eq!(result.size(), source.size());
    assert_eq!(result.chunk_size(), source.chunk_size());
    assert_eq!(result.config().sampler_cache_limit, Some(2));
    assert_eq!(source.preview(), [GridPreviewCell::Leaf(Tone(0))]);
}
