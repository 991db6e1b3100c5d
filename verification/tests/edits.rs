use stormcell::changes::Changes;
use stormcell::grid::{CellData, Grid2d, GridConfig, GridPreviewCell};
use stormcell::topology::{Topology2d, Topology3d};

#[derive(Debug, Clone, Copy, PartialEq)]
struct Heat(f64);

impl CellData for Heat {
    fn are_homogeneous(&self, other: &Self) -> bool {
        (self.0 - other.0).abs() < 1.0
    }

    fn scale(&self, multiplier: usize) -> Self {
        Heat(self.0 * multiplier as f64)
    }
}

#[derive(Debug, Clone, Copy, PartialEq, Eq)]
struct Mark(u8);

impl CellData for Mark {
    fn are_homogeneous(&self, other: &Self) -> bool {
        self == other
    }

    fn scale(&self, _multiplier: usize) -> Self {
        *self
    }
}

fn square(depth: usize, mark: u8) -> Grid2d<Mark> {
    Grid2d::new(
        GridConfig {
            chunk_max_depth: depth,
            ..Default::default()
        },
        Mark(mark),
    )
}

#[test]
fn edits_are_found_until_replaced() {
    let mut changes: Changes<Mark, Topology2d> = Changes::new(4);
    assert_eq!(changes.chunk_size(), 4);
    assert_eq!(changes.sample([9, 2]), None);
    changes.set([9, 2], Mark(1));
    changes.set([2, 9], Mark(2));
    assert_eq!(changes.sample([9, 2]), Some(&Mark(1)));
    changes.set([9, 2], Mark(3));
    assert_eq!(changes.sample([9, 2]), Some(&Mark(3)));
    assert_eq!(changes.sample([2, 9]), Some(&Mark(2)));
    assert_eq!(changes.sample([9, 3]), None);
    assert_eq!(changes.sample([usize::MAX, 0]), None);
    changes.clear();
    assert_eq!(changes.sample([9, 2]), None);
    assert!(changes.chunks().is_empty());
    assert_eq!(changes.chunk_size(), 4);
}

#[test]
fn buckets_are_kept_in_order() {
    let mut changes: Changes<Mark, Topology2d> = Changes::new(2);
    for coord in [[5, 0], [0, 5], [0, 0], [4, 1], [2, 2]] {
        changes.set(coord, Mark(coord[0] as u8));
    }
    let keys: Vec<[usize; 2]> = changes.chunks().iter().map(|(key, _)| *key).collect();
    assert_eq!(keys, [[0, 0], [0, 2], [1, 1], [2, 0]]);
    assert_eq!(
        changes.chunks()[3].1,
        [None, Some(Mark(5)), Some(Mark(4)), None]
    );
}

#[test]
fn default_buckets() {
    let changes: Changes<Mark, Topology3d> = Changes::default();
    assert_eq!(changes.chunk_size(), 32);
    assert_eq!(changes.sample([1, 2, 3]), None);
}

#[test]
fn many_edits_are_staged_in_order() {
    let mut changes: Changes<Mark, Topology2d> = Changes::new(3);
    changes.extend(vec![([0, 0], Mark(1)), ([4, 4], Mark(2)), ([0, 0], Mark(3))].into_iter());
    assert_eq!(changes.sample([0, 0]), Some(&Mark(3)));
    assert_eq!(changes.sample([4, 4]), Some(&Mark(2)));
}

#[test]
fn regions_are_staged_and_sampled_in_row_major_order() {
    let mut changes: Changes<Mark, Topology2d> = Changes::new(2);
    changes.set_region([1, 1]..[3, 3], Mark(7));
    changes.set_region([5, 5]..[5, 9], Mark(8));
    assert_eq!(
        changes.sample_region([2, 2]..[4, 4]),
        [
            ([2, 2], Some(&Mark(7))),
            ([3, 2], None),
            ([2, 3], None),
            ([3, 3], None)
        ]
    );
    assert!(changes.sample_region([4, 4]..[4, 5]).is_empty());
    assert_eq!(changes.sample([5, 6]), None);
}

#[test]
fn homogeneous_regions_have_a_value() {
    let mut changes: Changes<Heat, Topology2d> = Changes::new(8);
    let zero = Heat(0.0);
    assert_eq!(changes.is_region_homogeneous([0, 0]..[2, 2], &zero), Some(zero));
    assert_eq!(changes.is_region_homogeneous([0, 0]..[0, 2], &zero), None);
    changes.set([1, 1], Heat(5.0));
    assert_eq!(changes.is_region_homogeneous([0, 0]..[2, 2], &zero), None);
    assert_eq!(changes.is_region_homogeneous([1, 1]..[2, 2], &zero), Some(Heat(5.0)));
}

#[test]
fn drifting_values_have_nothing_in_common() {
    let mut changes: Changes<Heat, Topology2d> = Changes::new(8);
    for x in 0..4 {
        changes.set([x, 0], Heat(x as f64 * 0.75));
    }
    let other = Heat(9.0);
    assert_eq!(changes.is_region_homogeneous([0, 0]..[4, 1], &other), None);
    assert_eq!(changes.is_region_homogeneous([0, 0]..[3, 1], &other), None);
    assert_eq!(changes.is_region_homogeneous([0, 0]..[2, 1], &other), Some(Heat(0.75)));
    assert_eq!(changes.is_region_homogeneous([3, 0]..[4, 1], &other), Some(Heat(2.25)));
}

#[test]
fn every_pair_of_values_counts() {
    #[derive(Debug, Clone, Copy, PartialEq)]
    struct Near(i32);

    impl CellData for Near {
        fn are_homogeneous(&self, other: &Self) -> bool {
            (self.0 - other.0).abs() <= 1
        }

        fn scale(&self, _multiplier: usize) -> Self {
            *self
        }
    }

    let mut changes: Changes<Near, Topology2d> = Changes::new(4);
    changes.set([0, 0], Near(0));
    changes.set([1, 0], Near(1));
    changes.set([2, 0], Near(2));
    let row = [0, 0]..[3, 1];
    assert_eq!(changes.is_region_homogeneous(row.clone(), &Near(0)), None);
    changes.set([2, 0], Near(0));
    assert_eq!(changes.is_region_homogeneous(row, &Near(5)), Some(Near(0)));
    let wide = [0, 0]..[3, 2];
    assert_eq!(changes.is_region_homogeneous(wide.clone(), &Near(1)), Some(Near(1)));
    assert_eq!(changes.is_region_homogeneous(wide.clone(), &Near(2)), None);
    changes.set([1, 1], Near(2));
    assert_eq!(changes.is_region_homogeneous(wide, &Near(1)), None);
}

#[test]
fn a_default_unlike_itself_is_not_homogeneous() {
    let changes: Changes<Heat, Topology2d> = Changes::new(4);
    let nothing = Heat(f64::NAN);
    assert!(changes.is_region_homogeneous([0, 0]..[2, 1], &nothing).is_none());
    assert!(changes.is_region_homogeneous([0, 0]..[1, 1], &nothing).is_some());
}

#[test]
fn drifting_edits_are_not_lost() {
    let grid = Grid2d::new(
        GridConfig {
            chunk_max_depth: 2,
            ..Default::default()
        },
        Heat(0.0),
    );
    let mut changes: Changes<Heat, Topology2d> = Changes::new(8);
    for x in 0..4 {
        for y in 0..4 {
            changes.set([x, y], Heat(x as f64 * 0.75));
        }
    }
    let result = changes.apply(&grid);
    let mut sampler = result.sampler();
    for x in 0..4 {
        for y in 0..4 {
            let found = sampler.sample([x, y]).unwrap().data.0;
            assert!((found - x as f64 * 0.75).abs() < 1.0);
        }
    }
}

#[test]
fn applied_edits_hold_at_their_points() {
    let grid = square(3, 1);
    let mut changes: Changes<Mark, Topology2d> = Changes::new(3);
    changes.set_region([2, 1]..[7, 4], Mark(2));
    changes.set([0, 7], Mark(3));
    changes.set([40, 40], Mark(4));
    let result = changes.apply(&grid);
    let mut sampler = result.sampler();
    for x in 0..8 {
        for y in 0..8 {
            let expected = if (2..7).contains(&x) && (1..4).contains(&y) {
                Mark(2)
            } else if (x, y) == (0, 7) {
                Mark(3)
            } else {
                Mark(1)
            };
            assert_eq!(*sampler.sample([x, y]).unwrap().data, expected);
        }
    }
    assert_eq!(grid.preview(), [GridPreviewCell::Leaf(Mark(1))]);
}

#[test]
fn untouched_regions_stay_coarse() {
    let grid = square(3, 0);
    let mut changes: Changes<Mark, Topology2d> = Changes::new(8);
    changes.set([7, 7], Mark(1));
    let result = changes.apply(&grid);
    assert_eq!(result.iter().count(), 10);
    assert_eq!(result.sampler().sample([0, 0]).unwrap().size, 4);
    let nothing: Changes<Mark, Topology2d> = Changes::new(8);
    assert_eq!(nothing.apply(&result).preview(), result.preview());
}

#[test]
fn undone_edits_restore_the_coarse_grid() {
    let grid = square(2, 0);
    let mut changes: Changes<Mark, Topology2d> = Changes::new(4);
    changes.set([3, 2], Mark(6));
    let edited = changes.apply(&grid);
    let mut back: Changes<Mark, Topology2d> = Changes::new(4);
    back.set([3, 2], Mark(0));
    assert_eq!(back.apply(&edited).preview(), grid.preview());
}

#[test]
fn a_spread_around_the_first_value_stays_subdivided() {
    let grid = Grid2d::new(
        GridConfig {
            chunk_max_depth: 1,
            ..Default::default()
        },
        Heat(0.0),
    );
    let mut changes: Changes<Heat, Topology2d> = Changes::new(2);
    changes.set([1, 0], Heat(0.75));
    changes.set([0, 1], Heat(-0.75));
    changes.set([1, 1], Heat(-0.5));
    let result = changes.apply(&grid);
    assert_eq!(
        result.preview(),
        [GridPreviewCell::Branch(vec![
            GridPreviewCell::Leaf(Heat(0.0)),
            GridPreviewCell::Leaf(Heat(0.75)),
            GridPreviewCell::Leaf(Heat(-0.75)),
            GridPreviewCell::Leaf(Heat(-0.5)),
        ])]
    );
    let nothing: Changes<Heat, Topology2d> = Changes::new(2);
    assert_eq!(nothing.apply(&result).preview(), [GridPreviewCell::Leaf(Heat(0.0))]);
}

#[test]
fn equal_values_give_equal_trees() {
    let mut whole: Changes<Mark, Topology2d> = Changes::new(4);
    whole.set_region([0, 0]..[4, 8], Mark(2));
    whole.set([5, 5], Mark(3));
    let direct = whole.apply(&square(3, 1));

    let mut first: Changes<Mark, Topology2d> = Changes::new(2);
    first.set_region([0, 0]..[8, 8], Mark(9));
    let mut second: Changes<Mark, Topology2d> = Changes::new(5);
    second.set_region([0, 0]..[8, 8], Mark(1));
    second.set_region([0, 0]..[4, 8], Mark(2));
    second.set([5, 5], Mark(3));
    let detour = second.apply(&first.apply(&square(3, 7)));

    assert_eq!(direct.preview(), detour.preview());
    assert_eq!(direct.iter().count(), 10);
}

#[test]
fn settings_do_not_show_in_applied_edits() {
    let results: Vec<_> = [None, Some(1), Some(50)]
        .into_iter()
        .map(|sampler_cache_limit| {
            let grid = Grid2d::new(
                GridConfig {
                    chunk_max_depth: 3,
                    page_capacity: 1,
                    sampler_cache_limit,
                    ..Default::default()
                },
                Mark(1),
            );
            let mut changes: Changes<Mark, Topology2d> = Changes::new(3);
            changes.set_region([2, 3]..[6, 5], Mark(2));
            changes.apply(&grid)
        })
        .collect();
    assert_eq!(results[0].preview(), results[1].preview());
    assert_eq!(results[0].preview(), results[2].preview());
    for x in 0..8 {
        for y in 0..8 {
            let mut left = results[0].sampler();
            let mut right = results[2].sampler();
            right.sample([y, x]);
            assert_eq!(left.sample([x, y]), right.sample([x, y]));
        }
    }
}
