use stormcell::changes::Changes;
use stormcell::grid::{Grid2d, GridConfig};
use stormcell::life::{cell_color, Cell, Conway};
use stormcell::pipeline::Transformer;
use stormcell::quantizer::kernel::KernelQuantizer;
use stormcell::topology::Topology2d;

fn board(live: &[[usize; 2]]) -> Grid2d<Cell> {
    let grid = Grid2d::<Cell>::new(
        GridConfig {
            chunks_num: [2, 1],
            chunk_max_depth: 2,
            sampler_cache_limit: Some(16),
            ..Default::default()
        },
        Cell(false),
    );
    let mut seed: Changes<Cell, Topology2d> = Changes::new(8);
    for &coord in live {
        seed.set(coord, Cell(true));
    }
    seed.apply(&grid)
}

fn step(grid: &Grid2d<Cell>) -> Grid2d<Cell> {
    let kernel = KernelQuantizer { quantizer: Conway };
    Transformer::new(&kernel, grid).execute()
}

fn live(grid: &Grid2d<Cell>) -> Vec<[usize; 2]> {
    let flat = grid.flatten(Cell(false));
    (0..flat.fields().len())
        .filter(|&index| flat.fields()[index].0)
        .map(|index| [index % 8, index / 8])
        .collect()
}

#[test]
fn a_blinker_turns() {
    let flat = board(&[[2, 1], [3, 1], [4, 1]]);
    let upright = step(&flat);
    assert_eq!(live(&upright), [[3, 0], [3, 1], [3, 2]]);
    assert_eq!(live(&step(&upright)), [[2, 1], [3, 1], [4, 1]]);
}

#[test]
fn a_block_in_the_corner_stays() {
    let block = board(&[[6, 2], [7, 2], [6, 3], [7, 3]]);
    assert_eq!(live(&step(&block)), [[6, 2], [7, 2], [6, 3], [7, 3]]);
}

#[test]
fn lonely_cells_die() {
    let lonely = board(&[[0, 0], [5, 3]]);
    let empty = step(&lonely);
    assert!(live(&empty).is_empty());
    assert_eq!(empty.iter().count(), 2);
}

#[test]
fn crowded_cells_die_and_empty_cells_are_born() {
    let crowded = board(&[[1, 1], [2, 1], [3, 1], [2, 0], [2, 2]]);
    assert_eq!(
        live(&step(&crowded)),
        [[1, 0], [2, 0], [3, 0], [1, 1], [3, 1], [1, 2], [2, 2], [3, 2]]
    );
}

#[test]
fn dead_cells_are_tinted_by_leaf_size() {
    assert_eq!(cell_color(true, 4), (80, 240, 120));
    assert_eq!(cell_color(false, 1), (10, 14, 20));
    assert_eq!(cell_color(false, 8), (10, 14, 62));
    assert_eq!(cell_color(false, 12), (10, 14, 48));
    assert_eq!(cell_color(false, 64), (10, 14, 90));
    assert_eq!(cell_color(false, 0), (10, 14, 90));
}
