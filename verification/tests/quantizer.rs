use stormcell::allocator::Address;
use stormcell::changes::Changes;
use stormcell::grid::{CellData, Grid3d, GridConfig};
use stormcell::pipeline::Transformer;
use stormcell::quantizer::{CellContext, Quantizer};
use stormcell::topology::Topology3d;

#[derive(Debug, Clone, Copy, PartialEq)]
struct Stability(pub usize);

impl CellData for Stability {
    fn are_homogeneous(&self, other: &Self) -> bool {
        self == other
    }

    fn scale(&self, multiplier: usize) -> Self {
        Stability(self.0 * multiplier)
    }
}

struct Decay {
    pub rate: usize,
}

impl Quantizer for Decay {
    type CellData = Stability;
    type Topology = Topology3d;

    fn quantize(&self, context: CellContext<Self::CellData, Self::Topology>) -> Address {
        let value = context.cell_data.0.saturating_sub(self.rate);

        context.emitter.emit_leaf(Stability(value))
    }
}

fn random(coord: [usize; 3], limit: usize) -> usize {
    let mut x = coord[0] as u64;
    let mut y = coord[1] as u64;
    let mut z = coord[2] as u64;
    x = x.wrapping_mul(73856093);
    y = y.wrapping_mul(19349663);
    z = z.wrapping_mul(83492791);
    let hash = x ^ y ^ z;
    (hash ^ (hash >> 16)) as usize % limit
}

#[test]
fn test_quantizer() {
    let quantizer = Decay { rate: 1 };

    let mut grid = Grid3d::new(
        GridConfig {
            chunk_max_depth: 2,
            sampler_cache_limit: Some(64),
            ..Default::default()
        },
        Stability(0),
    );
    let mut changes = Changes::default();
    for x in 0..grid.size()[0] {
        for y in 0..grid.size()[1] {
            for z in 0..grid.size()[2] {
                changes.set([x, y, z], Stability(random([x, y, z], 5)));
            }
        }
    }
    grid = changes.apply(&grid);
    let flat = grid.flatten(Stability(0));
    assert_eq!(flat.fields().iter().map(|v| v.0).sum::<usize>(), 139);

    grid = Transformer::new(&quantizer, &grid).execute();
    let flat = grid.flatten(Stability(0));
    assert_eq!(flat.fields().iter().map(|v| v.0).sum::<usize>(), 83);

    grid = Transformer::new(&quantizer, &grid).execute();
    let flat = grid.flatten(Stability(0));
    assert_eq!(flat.fields().iter().map(|v| v.0).sum::<usize>(), 44);

    grid = Transformer::new(&quantizer, &grid).execute();
    let flat = grid.flatten(Stability(0));
    assert_eq!(flat.fields().iter().map(|v| v.0).sum::<usize>(), 16);

    grid = Transformer::new(&quantizer, &grid).execute();
    let flat = grid.flatten(Stability(0));
    assert_eq!(flat.fields().iter().map(|v| v.0).sum::<usize>(), 0);
}
