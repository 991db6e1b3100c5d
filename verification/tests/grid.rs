use stormcell::changes::Changes;
use stormcell::grid::{CellData, Grid, Grid3d, GridConfig, GridSample, GridSampleView};
use stormcell::topology::{Topology, Topology2d};

#[derive(Debug, Clone, Copy, PartialEq, Eq)]
struct Data(pub i32);

impl CellData for Data {
    fn are_homogeneous(&self, other: &Self) -> bool {
        self == other
    }

    fn scale(&self, multiplier: usize) -> Self {
        Data(self.0 * multiplier as i32)
    }
}

#[test]
fn test_grid() {
    let grid = Grid3d::new(
        GridConfig {
            chunks_num: [1, 1, 1],
            chunk_max_depth: 0,
            ..Default::default()
        },
        Data(0),
    );
    let mut sampler = grid.sampler();
    assert_eq!(grid.size(), [1, 1, 1]);
    assert_eq!(grid.chunk_size(), 1);
    assert_eq!(sampler.sample([0, 0, 0]).unwrap().data, &Data(0));
    assert!(sampler.sample([1, 1, 1]).is_none());
    assert_eq!(
        sampler
            .sample_region([0, 0, 0]..[2, 2, 2])
            .collect(),
        [GridSampleView {
            sample: GridSample {
                offset: [0, 0, 0],
                depth: 0,
                size: 1,
                data: &Data(0)
            },
            overlap_area: 1
        }]
    );

    let grid = Grid3d::new(
        GridConfig {
            chunks_num: [1, 1, 1],
            chunk_max_depth: 1,
            ..Default::default()
        },
        Data(0),
    );
    let mut sampler = grid.sampler();
    assert_eq!(grid.size(), [2, 2, 2]);
    assert_eq!(grid.chunk_size(), 2);
    assert_eq!(sampler.sample([0, 0, 0]).unwrap().data, &Data(0));
    assert_eq!(sampler.sample([1, 1, 1]).unwrap().data, &Data(0));
    assert_eq!(
        sampler
            .sample_region([0, 0, 0]..[2, 2, 2])
            .collect(),
        [GridSampleView {
            sample: GridSample {
                offset: [0, 0, 0],
                depth: 0,
                size: 2,
                data: &Data(0)
            },
            overlap_area: 8
        }]
    );

    let grid = Grid3d::new(
        GridConfig {
            chunks_num: [2, 2, 2],
            chunk_max_depth: 0,
            ..Default::default()
        },
        Data(0),
    );
    let mut sampler = grid.sampler();
    assert_eq!(grid.size(), [2, 2, 2]);
    assert_eq!(grid.chunk_size(), 1);
    assert_eq!(sampler.sample([0, 0, 0]).unwrap().data, &Data(0));
    assert_eq!(sampler.sample([1, 1, 1]).unwrap().data, &Data(0));

    let grid = Grid3d::new(
        GridConfig {
            chunks_num: [4, 4, 1],
            chunk_max_depth: 3,
            ..Default::default()
        },
        Data(0),
    );
    let mut sampler = grid.sampler();
    assert_eq!(grid.size(), [32, 32, 8]);
    assert_eq!(grid.chunk_size(), 8);
    for index in 0..10 {
        assert_eq!(
            sampler.sample([index, index, index % 8]).unwrap().data,
            &Data(0)
        );
        if index >= 8 {
            assert!(sampler.sample([index, index, index]).is_none());
        }
    }
    assert_eq!(
        sampler
            .sample_region([1, 1, 0]..[9, 9, 1])
            .collect(),
        [
            GridSampleView {
                sample: GridSample {
                    offset: [8, 8, 0],
                    depth: 0,
                    size: 8,
                    data: &Data(0)
                },
                overlap_area: 1
            },
            GridSampleView {
                sample: GridSample {
                    offset: [0, 8, 0],
                    depth: 0,
                    size: 8,
                    data: &Data(0)
                },
                overlap_area: 7
            },
            GridSampleView {
                sample: GridSample {
                    offset: [8, 0, 0],
                    depth: 0,
                    size: 8,
                    data: &Data(0)
                },
                overlap_area: 7
            },
            GridSampleView {
                sample: GridSample {
                    offset: [0, 0, 0],
                    depth: 0,
                    size: 8,
                    data: &Data(0)
                },
                overlap_area: 49
            }
        ]
    );
}

#[test]
fn test_grid_2d() {
    // A quadtree grid: 4 children per branch, [usize; 2] coordinates.
    let grid: Grid<Data, Topology2d> = Grid::new(
        GridConfig {
            chunks_num: [2, 3],
            chunk_max_depth: 2,
            ..Default::default()
        },
        Data(0),
    );
    assert_eq!(grid.size(), [8, 12]);
    assert_eq!(grid.chunk_size(), 4);
    assert_eq!(Topology2d::CHILDREN, 4);

    let mut sampler = grid.sampler();
    assert_eq!(sampler.sample([0, 0]).unwrap().data, &Data(0));
    assert_eq!(sampler.sample([7, 11]).unwrap().data, &Data(0));
    assert!(sampler.sample([8, 0]).is_none());
    assert!(sampler.sample([0, 12]).is_none());

    // A uniform grid collapses to one leaf per chunk (2 * 3 = 6 chunks).
    assert_eq!(grid.iter().count(), 6);

    // Edit a single cell and confirm it subdivides down to a 1x1 leaf.
    let mut changes: Changes<Data, Topology2d> = Changes::new(4);
    changes.set([1, 1], Data(42));
    let grid = changes.apply(&grid);
    let mut sampler = grid.sampler();
    let sample = sampler.sample([1, 1]).unwrap();
    assert_eq!(sample.data, &Data(42));
    assert_eq!(sample.size, 1);
    assert_eq!(sample.area(), 1);
    // Neighboring cell stays the coarse background value.
    assert_eq!(sampler.sample([6, 10]).unwrap().data, &Data(0));

    let flat = grid.flatten(Data(0));
    assert_eq!(flat.size(), [8, 12]);
    assert_eq!(flat.fields().len(), 96);
    assert_eq!(flat.fields().iter().filter(|d| d.0 == 42).count(), 1);
}
