use wfc::cell::Cell;
use wfc::model::{Model, Options, DEFAULT_HEIGHT, DEFAULT_WIDTH};
use wfc::tiles::{Edge, Sock, Socket, TileConfig, Tileset};

fn socket(a: u32, b: u32, c: u32) -> Socket {
    Socket(Sock(a), Sock(b), Sock(c))
}

fn tile(image: &str, top: Socket, right: Socket, bottom: Socket, left: Socket) -> TileConfig {
    TileConfig { image: image.to_string(), sockets: (top, right, bottom, left) }
}

fn uniform_tile(image: &str, side: Socket) -> TileConfig {
    tile(image, side, side, side, side)
}

fn options(width: usize, height: usize, seed: Option<u32>) -> Options {
    Options { width: Some(width), height: Some(height), framerate: None, seed }
}

/// Three tiles of which any may lie next to any.
fn free() -> Tileset {
    let side = socket(1, 1, 1);
    Tileset {
        size: 16,
        tiles: vec![uniform_tile("x", side), uniform_tile("y", side), uniform_tile("z", side)],
    }
}

/// Three tiles of which each may lie next to itself only.
fn loners() -> Tileset {
    Tileset {
        size: 16,
        tiles: vec![
            uniform_tile("land", socket(1, 1, 1)),
            uniform_tile("sea", socket(2, 2, 2)),
            uniform_tile("sky", socket(3, 3, 3)),
        ],
    }
}

/// Roads on grass: a plain tile, a road from left to right, and a road from
/// top to bottom. A road must go on where it leaves a tile.
fn roads() -> Tileset {
    let grass = socket(0, 0, 0);
    let road = socket(0, 1, 0);
    Tileset {
        size: 16,
        tiles: vec![
            tile("grass", grass, grass, grass, grass),
            tile("across", grass, road, grass, road),
            tile("down", road, grass, road, grass),
        ],
    }
}

fn images(model: &Model) -> Vec<Vec<Option<String>>> {
    let grid = model.grid();
    let mut rows = Vec::new();
    for y in 0..grid.height() {
        let mut row = Vec::new();
        for x in 0..grid.width() {
            row.push(grid.cell(x, y).unwrap().image().cloned());
        }
        rows.push(row);
    }
    rows
}

fn chosen(model: &Model, tileset: &Tileset) -> Vec<Vec<usize>> {
    let grid = model.grid();
    let mut rows = Vec::new();
    for y in 0..grid.height() {
        let mut row = Vec::new();
        for x in 0..grid.width() {
            let candidates = grid.cell(x, y).unwrap().candidates();
            assert_eq!(candidates.len(), 1);
            assert!(candidates[0] < tileset.tiles.len());
            row.push(candidates[0]);
        }
        rows.push(row);
    }
    rows
}

#[test]
fn new_model_defaults_to_ten_by_ten() {
    assert_eq!(DEFAULT_WIDTH, 10);
    assert_eq!(DEFAULT_HEIGHT, 10);
    let tileset = free();
    let model = Model::new(
        &tileset,
        Options { width: None, height: None, framerate: None, seed: None },
    );
    assert_eq!(model.grid().width(), 10);
    assert_eq!(model.grid().height(), 10);
    assert!(!model.grid().is_finished());
    for y in 0..10 {
        for x in 0..10 {
            assert_eq!(model.grid().cell(x, y).unwrap().candidates(), vec![0, 1, 2]);
        }
    }
}

#[test]
fn new_model_takes_the_size_it_is_given() {
    let tileset = free();
    let model = Model::new(
        &tileset,
        Options { width: Some(3), height: None, framerate: Some(30), seed: Some(1) },
    );
    assert_eq!(model.grid().width(), 3);
    assert_eq!(model.grid().height(), 10);
    let model = Model::new(
        &tileset,
        Options { width: None, height: Some(2), framerate: None, seed: None },
    );
    assert_eq!(model.grid().width(), 10);
    assert_eq!(model.grid().height(), 2);
}

#[test]
fn run_resolves_every_cell_of_free_tiles() {
    let tileset = free();
    let mut model = Model::new(&tileset, options(5, 4, Some(7)));
    model.run();
    assert!(model.grid().is_finished());
    let picked = chosen(&model, &tileset);
    assert_eq!(picked.len(), 4);
    assert_eq!(picked[0].len(), 5);
}

#[test]
fn run_fills_the_grid_with_one_loner() {
    let tileset = loners();
    for seed in 0..10 {
        let mut model = Model::new(&tileset, options(4, 4, Some(seed)));
        model.run();
        assert!(model.grid().is_finished());
        assert!(!model.grid().has_contradiction());
        let picked = chosen(&model, &tileset);
        assert_eq!(picked, vec![vec![picked[0][0]; 4]; 4]);
    }
}

#[test]
fn run_leaves_neighbours_that_fit() {
    let tileset = roads();
    for seed in 0..25 {
        let mut model = Model::new(&tileset, options(6, 5, Some(seed)));
        model.run();
        assert!(model.grid().is_finished());
        let grid = model.grid();
        let mut contradiction = false;
        for y in 0..5 {
            for x in 0..6 {
                let cell = grid.cell(x, y).unwrap();
                assert!(cell.candidates().len() <= 1);
                if cell.is_contradiction() {
                    contradiction = true;
                }
            }
        }
        if contradiction {
            continue;
        }
        let picked = chosen(&model, &tileset);
        for y in 0..5 {
            for x in 0..6 {
                let here = &tileset.tiles[picked[y][x]];
                if x + 1 < 6 {
                    let right = &tileset.tiles[picked[y][x + 1]];
                    assert!(Cell::connects_to(here, right, &Edge::Right));
                    assert!(Cell::connects_to(right, here, &Edge::Left));
                }
                if y + 1 < 5 {
                    let below = &tileset.tiles[picked[y + 1][x]];
                    assert!(Cell::connects_to(here, below, &Edge::Bottom));
                    assert!(Cell::connects_to(below, here, &Edge::Top));
                }
            }
        }
    }
}

#[test]
fn run_with_the_same_seed_repeats_itself() {
    let tileset = free();
    for seed in [0, 1, 42, u32::MAX] {
        let mut first = Model::new(&tileset, options(6, 6, Some(seed)));
        let mut second = Model::new(&tileset, options(6, 6, Some(seed)));
        first.run();
        second.run();
        assert_eq!(images(&first), images(&second));
    }
}

#[test]
fn run_with_different_seeds_differs() {
    let tileset = free();
    let mut outcomes = Vec::new();
    for seed in 0..8 {
        let mut model = Model::new(&tileset, options(6, 6, Some(seed)));
        model.run();
        outcomes.push(images(&model));
    }
    let mut differ = false;
    for outcome in &outcomes {
        if *outcome != outcomes[0] {
            differ = true;
        }
    }
    assert!(differ);
}

#[test]
fn run_without_a_seed_finishes() {
    let tileset = roads();
    let mut model = Model::new(
        &tileset,
        Options { width: Some(4), height: Some(4), framerate: None, seed: None },
    );
    model.run();
    assert!(model.grid().is_finished());
    for y in 0..4 {
        for x in 0..4 {
            assert!(model.grid().cell(x, y).unwrap().candidates().len() <= 1);
        }
    }
}

#[test]
fn run_on_a_grid_without_cells_finishes() {
    let tileset = free();
    let mut model = Model::new(&tileset, options(0, 0, Some(1)));
    model.run();
    assert!(model.grid().is_finished());
    assert!(model.grid().cell(0, 0).is_none());
}

#[test]
fn run_on_an_empty_catalog_finishes_with_contradictions() {
    let tileset = Tileset { size: 16, tiles: vec![] };
    let mut model = Model::new(&tileset, options(2, 2, Some(1)));
    model.run();
    assert!(model.grid().is_finished());
    assert!(model.grid().has_contradiction());
    assert!(model.grid().cell(1, 1).unwrap().is_contradiction());
    assert_eq!(images(&model), vec![vec![None, None], vec![None, None]]);
}

#[test]
fn run_a_second_time_changes_nothing() {
    let tileset = free();
    let mut model = Model::new(&tileset, options(3, 3, Some(4)));
    model.run();
    let end = images(&model);
    model.run();
    assert!(model.grid().is_finished());
    assert_eq!(images(&model), end);
}

#[test]
fn images_name_the_collapsed_tiles() {
    let tileset = loners();
    let mut model = Model::new(&tileset, options(2, 1, Some(3)));
    assert_eq!(images(&model), vec![vec![None, None]]);
    model.run();
    let names = images(&model);
    let first = names[0][0].clone().unwrap();
    assert!(first == "land" || first == "sea" || first == "sky");
    assert_eq!(names[0][1], Some(first));
}

#[test]
fn run_does_not_hold_collapsed_cells_against_each_other() {
    // One tile that does not fit next to itself: every cell is collapsed from
    // the start, so nothing is ever constrained.
    let tileset = Tileset {
        size: 16,
        tiles: vec![uniform_tile("odd", socket(1, 2, 3))],
    };
    let mut model = Model::new(&tileset, options(2, 2, Some(1)));
    model.run();
    assert!(model.grid().is_finished());
    assert!(!model.grid().has_contradiction());
    assert_eq!(chosen(&model, &tileset), vec![vec![0, 0], vec![0, 0]]);
    let odd = &tileset.tiles[0];
    assert!(!Cell::connects_to(odd, odd, &Edge::Right));
    assert!(!Cell::connects_to(odd, odd, &Edge::Bottom));
}
