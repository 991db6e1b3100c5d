use stormcell::changes::Changes;
use stormcell::grid::{CellData, Grid, Grid2d, Grid3d, GridConfig, GridPreviewCell};
use stormcell::topology::Topology2d;

#[derive(Debug, Clone, Copy, PartialEq, Eq)]
struct Level(usize);

impl CellData for Level {
    fn are_homogeneous(&self, other: &Self) -> bool {
        self == other
    }

    fn scale(&self, multiplier: usize) -> Self {
        Level(self.0 * multiplier)
    }
}

fn plain(chunks_num: [usize; 2], chunk_max_depth: usize, cache: Option<usize>) -> Grid2d<Level> {
    Grid2d::new(
        GridConfig {
            chunks_num,
            chunk_max_depth,
            sampler_cache_limit: cache,
            ..Default::default()
        },
        Level(0),
    )
}

fn spotted(cache: Option<usize>) -> Grid2d<Level> {
    let mut changes: Changes<Level, Topology2d> = Changes::new(3);
    changes.set([1, 1], Level(5));
    changes.set_region([4, 0]..[8, 2], Level(3));
    changes.apply(&plain([2, 1], 2, cache))
}

#[test]
fn configurations_are_clamped() {
    let grid: Grid<Level, Topology2d> = Grid::new(
        GridConfig {
            chunks_num: [0, 2],
            chunk_max_depth: 1,
            page_capacity: 0,
            pages_capacity: 0,
            sampler_cache_limit: None,
        },
        Level(4),
    );
    assert_eq!(grid.config().chunks_num, [1, 2]);
    assert_eq!(grid.config().page_capacity, 1);
    assert_eq!(grid.config().pages_capacity, 1);
    assert_eq!(grid.size(), [2, 4]);
    assert_eq!(grid.iter().count(), 2);
}

#[test]
fn default_configuration() {
    let config = GridConfig::<Topology2d>::default();
    assert_eq!(config.chunks_num, [1, 1]);
    assert_eq!(config.chunk_max_depth, 0);
    assert_eq!(config.page_capacity, 1024);
    assert_eq!(config.pages_capacity, 32);
    assert_eq!(config.sampler_cache_limit, None);
    assert_eq!(config.clone().page_capacity, 1024);
}

#[test]
fn new_grids_are_uniform() {
    let grid = plain([2, 2], 2, None);
    let mut sampler = grid.sampler();
    for x in 0..8 {
        for y in 0..8 {
            let sample = sampler.sample([x, y]).unwrap();
            assert_eq!(*sample.data, Level(0));
            assert_eq!(sample.size, 4);
            assert_eq!(sample.depth, 0);
        }
    }
}

#[test]
fn resetting_discards_subdivision() {
    let mut grid = spotted(None);
    assert!(grid.iter().count() > 2);
    grid.reset(Level(9));
    assert_eq!(grid.size(), [8, 4]);
    assert_eq!(
        grid.preview(),
        [
            GridPreviewCell::Leaf(Level(9)),
            GridPreviewCell::Leaf(Level(9))
        ]
    );
}

#[test]
fn copies_of_a_grid_are_independent() {
    let mut grid = spotted(Some(4));
    let copy = grid.clone();
    grid.reset(Level(9));
    assert_eq!(copy.preview(), spotted(Some(4)).preview());
    assert_eq!(copy.config().sampler_cache_limit, Some(4));
    assert_eq!(copy.flatten(Level(7)).fields()[9], Level(5));
}

#[test]
fn leaves_cover_every_point_once() {
    let grid = spotted(None);
    let mut seen = vec![0; 32];
    for (range, data) in grid.iter().collect() {
        for x in range.start[0]..range.end[0] {
            for y in range.start[1]..range.end[1] {
                seen[x + 8 * y] += 1;
                assert_eq!(grid.sampler().sample([x, y]).unwrap().data, data);
            }
        }
    }
    assert!(seen.iter().all(|&count| count == 1));
}

#[test]
fn leaves_are_handed_out_one_by_one() {
    let grid = plain([2, 1], 1, None);
    let mut leaves = grid.iter();
    assert_eq!(leaves.next(), Some(([2, 0]..[4, 2], &Level(0))));
    assert_eq!(leaves.next(), Some(([0, 0]..[2, 2], &Level(0))));
    assert_eq!(leaves.next(), None);
    assert_eq!(leaves.next(), None);
}

#[test]
fn caching_does_not_change_samples() {
    let cached = spotted(Some(3));
    let plain = spotted(None);
    let mut with_cache = cached.sampler();
    let mut without_cache = plain.sampler();
    for round in 0..3 {
        for x in 0..9 {
            for y in 0..5 {
                let left = with_cache.sample([x, (y + round) % 5]);
                let right = without_cache.sample([x, (y + round) % 5]);
                assert_eq!(left, right);
            }
        }
        with_cache.evict_least_accessed_samples();
    }
    assert!(with_cache.sample([8, 0]).is_none());
    assert!(with_cache.sample([0, 4]).is_none());
}

#[test]
fn samples_describe_their_leaf() {
    let grid = spotted(None);
    let mut sampler = grid.sampler();
    let sample = sampler.sample([5, 1]).unwrap();
    assert_eq!(sample.range(), [4, 0]..[6, 2]);
    assert_eq!(sample.area(), 4);
    assert_eq!(sample.depth, 1);
    assert_eq!(sample.data_scaled(), Level(12));
    assert_eq!(sampler.grid_size(), [8, 4]);
    assert_eq!(sampler.grid_chunk_size(), 4);
    assert_eq!(sampler.grid_config().chunk_max_depth, 2);
}

#[test]
fn overlaps_of_a_region_add_up() {
    let grid = spotted(None);
    let sampler = grid.sampler();
    let inside = sampler.sample_region([1, 1]..[6, 4]).collect();
    assert_eq!(inside.iter().map(|view| view.overlap_area).sum::<usize>(), 15);
    let beyond = sampler.sample_region([6, 2]..[20, 20]).collect();
    assert_eq!(beyond.iter().map(|view| view.overlap_area).sum::<usize>(), 4);
    let total: usize = sampler
        .sample_region([0, 0]..[8, 4])
        .collect()
        .iter()
        .map(|view| view.data_scaled().0)
        .sum();
    assert_eq!(total, 5 + 8 * 3);
    assert!(sampler.sample_region([8, 0]..[9, 4]).next().is_none());
}

#[test]
fn granularity_is_the_depth_of_the_finest_leaf() {
    let grid = spotted(None);
    let sampler = grid.sampler();
    assert_eq!(sampler.region_granularity_depth([0, 0]..[8, 4]), 2);
    assert_eq!(sampler.region_granularity_depth([2, 0]..[4, 4]), 1);
    assert_eq!(sampler.region_granularity_depth([4, 0]..[8, 4]), 1);
    assert_eq!(sampler.region_granularity_depth([9, 9]..[12, 12]), 0);
    assert_eq!(plain([2, 1], 2, None).sampler().region_granularity_depth([0, 0]..[8, 4]), 0);
}

#[test]
fn regions_without_points_meet_nothing() {
    let grid = spotted(None);
    let sampler = grid.sampler();
    for region in [[2, 2]..[2, 2], [1, 1]..[1, 1], [4, 0]..[4, 4], [3, 0]..[1, 4]] {
        assert_eq!(sampler.region_granularity_depth(region.clone()), 0);
        assert!(sampler.sample_region(region).collect().is_empty());
    }
}

#[test]
fn scaled_values_of_a_region_add_up() {
    let grid = spotted(None);
    let sampler = grid.sampler();
    let mut points = grid.sampler();
    for region in [[0, 0]..[8, 4], [1, 0]..[5, 3], [1, 1]..[2, 2], [5, 1]..[30, 2]] {
        let scaled: usize = sampler
            .sample_region(region.clone())
            .collect()
            .iter()
            .map(|view| view.data_scaled().0)
            .sum();
        let mut single = 0;
        for x in region.start[0]..region.end[0] {
            for y in region.start[1]..region.end[1] {
                single += points.sample([x, y]).map_or(0, |sample| sample.data.0);
            }
        }
        assert_eq!(scaled, single);
    }
}

#[test]
fn flattening_agrees_with_sampling() {
    let grid = spotted(None);
    let flat = grid.flatten(Level(100));
    assert_eq!(flat.size(), [8, 4]);
    let mut sampler = grid.sampler();
    for x in 0..8 {
        for y in 0..4 {
            assert_eq!(&flat.fields()[x + 8 * y], sampler.sample([x, y]).unwrap().data);
        }
    }
    assert_eq!(flat.clone().fields(), flat.fields());
}

#[test]
fn dense_grids_nest_by_layer_and_row() {
    let grid = Grid3d::new(
        GridConfig {
            chunks_num: [3, 2, 1],
            ..Default::default()
        },
        Level(0),
    );
    let mut changes = Changes::default();
    for x in 0..3 {
        for y in 0..2 {
            changes.set([x, y, 0], Level(x + 10 * y));
        }
    }
    let flat = changes.apply(&grid).flatten(Level(0));
    assert_eq!(
        flat.clone().into_3d(),
        [[
            [Level(0), Level(1), Level(2)],
            [Level(10), Level(11), Level(12)]
        ]]
    );
    assert_eq!(flat.map_into_3d(&|level| level.0 * 2), [[[0, 2, 4], [20, 22, 24]]]);
}

#[test]
fn dense_grids_are_shown_layer_by_layer() {
    let grid = Grid3d::new(
        GridConfig {
            chunk_max_depth: 1,
            ..Default::default()
        },
        Level(1),
    );
    let mut changes = Changes::default();
    changes.set([1, 0, 1], Level(20));
    let flat = changes.apply(&grid).flatten(Level(0));
    assert_eq!(
        flat.to_text(|row| format!("{row:?}")),
        "GridFlat([2, 2, 2])\n {0..2 x 0..2 x 0}\n [Level(1), Level(1)]\n [Level(1), Level(1)]\n {0..2 x 0..2 x 1}\n [Level(1), Level(20)]\n [Level(1), Level(1)]\n"
    );
}

fn cells(tree: &GridPreviewCell<Level>) -> usize {
    match tree {
        GridPreviewCell::Leaf(_) => 1,
        GridPreviewCell::Branch(children) => 1 + children.iter().map(cells).sum::<usize>(),
    }
}

#[test]
fn cells_follow_leaves() {
    for grid in [plain([2, 1], 2, None), spotted(None)] {
        let chunks = grid.preview();
        let total: usize = chunks.iter().map(cells).sum();
        let leaves = grid.iter().count();
        assert_eq!(3 * total + chunks.len(), 4 * leaves);
        assert!(total < 2 * leaves);
    }
}

#[test]
fn larger_regions_are_no_coarser() {
    let grid = spotted(None);
    let sampler = grid.sampler();
    let regions = [[3, 3]..[4, 4], [1, 2]..[4, 4], [1, 1]..[6, 4], [0, 0]..[9, 9]];
    let depths: Vec<usize> = regions
        .into_iter()
        .map(|region| sampler.region_granularity_depth(region))
        .collect();
    assert_eq!(depths, [1, 1, 2, 2]);
}

#[test]
fn leaves_start_at_multiples_of_their_edge() {
    let grid = spotted(None);
    for (range, _) in grid.iter().collect() {
        let edge = range.end[0] - range.start[0];
        assert!(range.start.iter().all(|start| start % edge == 0));
    }
}
