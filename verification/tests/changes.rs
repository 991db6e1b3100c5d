use stormcell::changes::Changes;
use stormcell::grid::{CellData, Grid3d, GridConfig, GridPreviewCell};

#[derive(Debug, Clone, Copy, PartialEq, Eq)]
struct Data(pub i32);

impl CellData for Data {
    fn are_homogeneous(&self, other: &Self) -> bool {
        self == other
    }

    fn scale(&self, multiplier: usize) -> Self {
        Data(self.0 * multiplier as i32)
    }
}

#[test]
fn test_changes() {
    let grid = Grid3d::new(
        GridConfig {
            chunks_num: [1, 1, 1],
            chunk_max_depth: 2,
            ..Default::default()
        },
        Data(0),
    );
    assert_eq!(grid.size(), [4, 4, 4]);
    assert_eq!(
        grid.iter().collect(),
        [([0, 0, 0]..[4, 4, 4], &Data(0))]
    );
    assert_eq!(grid.preview(), [GridPreviewCell::Leaf(Data(0))]);
    let sampler = grid.sampler();
    assert_eq!(sampler.region_granularity_depth([0, 0, 0]..grid.size()), 0);

    let mut changes = Changes::new(2);
    changes.set([0, 0, 0], Data(42));
    assert_eq!(
        changes
            .chunks()
            .iter()
            .map(|(range, items)| (*range, items.clone()))
            .collect::<Vec<_>>(),
        [(
            [0, 0, 0],
            vec![Some(Data(42)), None, None, None, None, None, None, None]
        )]
    );

    let grid = changes.apply(&grid);
    let sampler = grid.sampler();
    assert_eq!(sampler.region_granularity_depth([0, 0, 0]..grid.size()), 2);
    assert_eq!(
        grid.iter().collect(),
        [
            ([2, 2, 2]..[4, 4, 4], &Data(0)),
            ([0, 2, 2]..[2, 4, 4], &Data(0)),
            ([2, 0, 2]..[4, 2, 4], &Data(0)),
            ([0, 0, 2]..[2, 2, 4], &Data(0)),
            ([2, 2, 0]..[4, 4, 2], &Data(0)),
            ([0, 2, 0]..[2, 4, 2], &Data(0)),
            ([2, 0, 0]..[4, 2, 2], &Data(0)),
            ([1, 1, 1]..[2, 2, 2], &Data(0)),
            ([0, 1, 1]..[1, 2, 2], &Data(0)),
            ([1, 0, 1]..[2, 1, 2], &Data(0)),
            ([0, 0, 1]..[1, 1, 2], &Data(0)),
            ([1, 1, 0]..[2, 2, 1], &Data(0)),
            ([0, 1, 0]..[1, 2, 1], &Data(0)),
            ([1, 0, 0]..[2, 1, 1], &Data(0)),
            ([0, 0, 0]..[1, 1, 1], &Data(42))
        ]
    );
    assert_eq!(
        grid.preview(),
        [GridPreviewCell::Branch(vec![
            GridPreviewCell::Branch(vec![
                GridPreviewCell::Leaf(Data(42)),
                GridPreviewCell::Leaf(Data(0)),
                GridPreviewCell::Leaf(Data(0)),
                GridPreviewCell::Leaf(Data(0)),
                GridPreviewCell::Leaf(Data(0)),
                GridPreviewCell::Leaf(Data(0)),
                GridPreviewCell::Leaf(Data(0)),
                GridPreviewCell::Leaf(Data(0))
            ]),
            GridPreviewCell::Leaf(Data(0)),
            GridPreviewCell::Leaf(Data(0)),
            GridPreviewCell::Leaf(Data(0)),
            GridPreviewCell::Leaf(Data(0)),
            GridPreviewCell::Leaf(Data(0)),
            GridPreviewCell::Leaf(Data(0)),
            GridPreviewCell::Leaf(Data(0))
        ])]
    );

    let mut changes = Changes::new(2);
    changes.set_region([0, 0, 0]..[2, 2, 2], Data(42));

    let grid = changes.apply(&grid);
    let sampler = grid.sampler();
    assert_eq!(sampler.region_granularity_depth([0, 0, 0]..grid.size()), 1);
    assert_eq!(
        grid.iter().collect(),
        [
            ([2, 2, 2]..[4, 4, 4], &Data(0)),
            ([0, 2, 2]..[2, 4, 4], &Data(0)),
            ([2, 0, 2]..[4, 2, 4], &Data(0)),
            ([0, 0, 2]..[2, 2, 4], &Data(0)),
            ([2, 2, 0]..[4, 4, 2], &Data(0)),
            ([0, 2, 0]..[2, 4, 2], &Data(0)),
            ([2, 0, 0]..[4, 2, 2], &Data(0)),
            ([0, 0, 0]..[2, 2, 2], &Data(42))
        ]
    );
    assert_eq!(
        grid.preview(),
        [GridPreviewCell::Branch(vec![
            GridPreviewCell::Leaf(Data(42)),
            GridPreviewCell::Leaf(Data(0)),
            GridPreviewCell::Leaf(Data(0)),
            GridPreviewCell::Leaf(Data(0)),
            GridPreviewCell::Leaf(Data(0)),
            GridPreviewCell::Leaf(Data(0)),
            GridPreviewCell::Leaf(Data(0)),
            GridPreviewCell::Leaf(Data(0))
        ])]
    );

    let mut changes = Changes::new(2);
    changes.set_region([0, 0, 0]..[4, 4, 2], Data(42));

    let grid = changes.apply(&grid);
    let sampler = grid.sampler();
    assert_eq!(sampler.region_granularity_depth([0, 0, 0]..grid.size()), 1);
    assert_eq!(
        grid.iter().collect(),
        [
            ([2, 2, 2]..[4, 4, 4], &Data(0)),
            ([0, 2, 2]..[2, 4, 4], &Data(0)),
            ([2, 0, 2]..[4, 2, 4], &Data(0)),
            ([0, 0, 2]..[2, 2, 4], &Data(0)),
            ([2, 2, 0]..[4, 4, 2], &Data(42)),
            ([0, 2, 0]..[2, 4, 2], &Data(42)),
            ([2, 0, 0]..[4, 2, 2], &Data(42)),
            ([0, 0, 0]..[2, 2, 2], &Data(42))
        ]
    );
    assert_eq!(
        grid.preview(),
        [GridPreviewCell::Branch(vec![
            GridPreviewCell::Leaf(Data(42)),
            GridPreviewCell::Leaf(Data(42)),
            GridPreviewCell::Leaf(Data(42)),
            GridPreviewCell::Leaf(Data(42)),
            GridPreviewCell::Leaf(Data(0)),
            GridPreviewCell::Leaf(Data(0)),
            GridPreviewCell::Leaf(Data(0)),
            GridPreviewCell::Leaf(Data(0))
        ])]
    );

    let mut changes = Changes::new(2);
    changes.set_region([0, 0, 2]..[4, 4, 4], Data(42));

    let grid = changes.apply(&grid);
    let sampler = grid.sampler();
    assert_eq!(sampler.region_granularity_depth([0, 0, 0]..grid.size()), 0);
    assert_eq!(
        grid.iter().collect(),
        [([0, 0, 0]..[4, 4, 4], &Data(42))]
    );
    assert_eq!(grid.preview(), [GridPreviewCell::Leaf(Data(42))]);
}
