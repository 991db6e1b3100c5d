use stormcell::allocator::Address;
use stormcell::changes::Changes;
use stormcell::grid::{CellData, Grid3d, GridConfig};
use stormcell::pipeline::Transformer;
use stormcell::quantizer::neighbors::NeighborsQuantizer;
use stormcell::quantizer::{CellContext, Quantizer};
use stormcell::topology::Topology3d;

#[derive(Debug, Clone, Copy, PartialEq)]
struct Virus(pub bool);

impl CellData for Virus {
    fn are_homogeneous(&self, other: &Self) -> bool {
        self == other
    }

    fn scale(&self, multiplier: usize) -> Self {
        if self.0 {
            if multiplier > 0 {
                Virus(true)
            } else {
                Virus(false)
            }
        } else {
            Virus(false)
        }
    }
}

struct Contamination;

impl Quantizer for Contamination {
    type CellData = Virus;
    type Topology = Topology3d;

    fn quantize(&self, context: CellContext<Self::CellData, Self::Topology>) -> Address {
        let from = context.region.start.map(|coord| coord.saturating_sub(1));
        let to = context.region.end.map(|coord| coord.saturating_add(1));
        let value = context
            .sampler
            .sample_region(from..to)
            .collect()
            .iter()
            .any(|sample| sample.sample.data.0);

        context.emitter.emit_leaf(Virus(value))
    }
}

#[test]
fn test_neighbors_quantizer() {
    let quantizer = NeighborsQuantizer {
        tile_margin: 1,
        quantizer: Contamination,
    };

    let mut grid = Grid3d::new(
        GridConfig {
            chunk_max_depth: 2,
            sampler_cache_limit: Some(64),
            ..Default::default()
        },
        Virus(false),
    );
    let mut changes = Changes::default();
    changes.set([3, 3, 3], Virus(true));
    grid = changes.apply(&grid);
    let flat = grid.flatten(Virus(false));
    assert_eq!(flat.fields().iter().filter(|v| v.0).count(), 1);
    assert_eq!(
        flat.map_into_3d(&|v| v.0),
        [
            [
                [false, false, false, false],
                [false, false, false, false],
                [false, false, false, false],
                [false, false, false, false]
            ],
            [
                [false, false, false, false],
                [false, false, false, false],
                [false, false, false, false],
                [false, false, false, false]
            ],
            [
                [false, false, false, false],
                [false, false, false, false],
                [false, false, false, false],
                [false, false, false, false]
            ],
            [
                [false, false, false, false],
                [false, false, false, false],
                [false, false, false, false],
                [false, false, false, true]
            ]
        ]
    );

    grid = Transformer::new(&quantizer, &grid).execute();
    let flat = grid.flatten(Virus(false));
    assert_eq!(flat.fields().iter().filter(|v| v.0).count(), 8);
    assert_eq!(
        flat.map_into_3d(&|v| v.0),
        [
            [
                [false, false, false, false],
                [false, false, false, false],
                [false, false, false, false],
                [false, false, false, false]
            ],
            [
                [false, false, false, false],
                [false, false, false, false],
                [false, false, false, false],
                [false, false, false, false]
            ],
            [
                [false, false, false, false],
                [false, false, false, false],
                [false, false, true, true],
                [false, false, true, true]
            ],
            [
                [false, false, false, false],
                [false, false, false, false],
                [false, false, true, true],
                [false, false, true, true]
            ]
        ]
    );

    grid = Transformer::new(&quantizer, &grid).execute();
    let flat = grid.flatten(Virus(false));
    assert_eq!(flat.fields().iter().filter(|v| v.0).count(), 64);
    assert_eq!(
        flat.map_into_3d(&|v| v.0),
        [
            [
                [true, true, true, true],
                [true, true, true, true],
                [true, true, true, true],
                [true, true, true, true]
            ],
            [
                [true, true, true, true],
                [true, true, true, true],
                [true, true, true, true],
                [true, true, true, true]
            ],
            [
                [true, true, true, true],
                [true, true, true, true],
                [true, true, true, true],
                [true, true, true, true]
            ],
            [
                [true, true, true, true],
                [true, true, true, true],
                [true, true, true, true],
                [true, true, true, true]
            ]
        ]
    );
}
