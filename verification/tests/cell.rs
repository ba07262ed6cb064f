use rand::rngs::StdRng;
use rand::SeedableRng;
use wfc::cell::Cell;
use wfc::tiles::{Edge, Sock, Socket, TileConfig, Tileset};

fn socket(a: u32, b: u32, c: u32) -> Socket {
    Socket(Sock(a), Sock(b), Sock(c))
}

fn tile(image: &str, top: Socket, right: Socket, bottom: Socket, left: Socket) -> TileConfig {
    TileConfig { image: image.to_string(), sockets: (top, right, bottom, left) }
}

/// Three tiles. Only `b` may lie to the right of `a`, only `c` to the right
/// of `b`, and nothing to the right of `c`.
fn chain() -> Tileset {
    let none = socket(0, 1, 2);
    Tileset {
        size: 16,
        tiles: vec![
            tile("a", none, socket(1, 2, 3), none, socket(9, 9, 8)),
            tile("b", none, socket(4, 5, 6), none, socket(3, 2, 1)),
            tile("c", none, socket(7, 7, 8), none, socket(6, 5, 4)),
        ],
    }
}

#[test]
fn new_cell_holds_every_tile() {
    let tileset = chain();
    let cell = Cell::new(&tileset);
    assert_eq!(cell.candidates(), vec![0, 1, 2]);
    assert!(cell.contains(0));
    assert!(cell.contains(2));
    assert!(!cell.contains(3));
}

#[test]
fn new_cell_of_an_empty_catalog_is_a_contradiction() {
    let tileset = Tileset { size: 16, tiles: vec![] };
    let cell = Cell::new(&tileset);
    assert_eq!(cell.candidates(), Vec::<usize>::new());
    assert!(cell.is_contradiction());
    assert!(!cell.is_collapsed());
}

#[test]
fn entropy_is_one_less_than_the_number_of_candidates() {
    let tileset = chain();
    let mut cell = Cell::new(&tileset);
    assert_eq!(cell.entropy(), 2);
    assert!(cell.collapse_to(1));
    assert_eq!(cell.entropy(), 0);
}

#[test]
fn tiles_with_the_same_image_count_once() {
    let plain = socket(0, 0, 0);
    let tileset = Tileset {
        size: 16,
        tiles: vec![
            tile("grass", plain, plain, plain, plain),
            tile("grass", socket(1, 2, 3), plain, plain, plain),
            tile("water", plain, plain, plain, plain),
        ],
    };
    let mut cell = Cell::new(&tileset);
    assert_eq!(cell.candidates(), vec![0, 2]);
    assert_eq!(cell.entropy(), 1);
    assert!(!cell.contains(1));

    let mut rng = StdRng::seed_from_u64(3);
    cell.collapse(&mut rng);
    let left = cell.candidates();
    assert_eq!(left.len(), 1);
    assert!(left[0] == 0 || left[0] == 2);
}

#[test]
fn is_collapsed_only_with_exactly_one_candidate() {
    let tileset = chain();
    let mut cell = Cell::new(&tileset);
    assert!(!cell.is_collapsed());
    assert!(!cell.is_contradiction());
    assert!(cell.collapse_to(2));
    assert!(cell.is_collapsed());
    assert!(!cell.is_contradiction());
}

#[test]
fn constrain_keeps_only_supported_candidates() {
    let tileset = chain();
    let mut left = Cell::new(&tileset);
    assert!(left.collapse_to(0));
    let mut right = Cell::new(&tileset);
    // The neighbour on the left holds only `a`: only `b` may lie to its right.
    assert!(right.constrain(&left, Edge::Left));
    assert_eq!(right.candidates(), vec![1]);
}

#[test]
fn constrain_reports_no_change_when_every_candidate_is_supported() {
    let tileset = chain();
    let full = Cell::new(&tileset);
    let mut cell = Cell::new(&tileset);
    assert!(cell.collapse_to(1));
    let mut other = Cell::new(&tileset);
    assert!(other.constrain(&full, Edge::Right));
    // `a` and `b` have a tile that may lie to their right, `c` has none.
    assert_eq!(other.candidates(), vec![0, 1]);
    assert!(!other.constrain(&full, Edge::Right));
    assert_eq!(other.candidates(), vec![0, 1]);
    // A collapsed cell is left alone, whatever the neighbour holds.
    let copy = cell.clone();
    assert!(!cell.constrain(&copy, Edge::Right));
    assert_eq!(cell.candidates(), vec![1]);
}

#[test]
fn constrain_leaves_a_collapsed_cell_alone() {
    let tileset = chain();
    let mut neighbour = Cell::new(&tileset);
    assert!(neighbour.collapse_to(2));
    let mut cell = Cell::new(&tileset);
    assert!(cell.collapse_to(0));
    // `c` may not lie to the right of `a`, yet the collapsed cell keeps `a`.
    assert!(!cell.constrain(&neighbour, Edge::Right));
    assert_eq!(cell.candidates(), vec![0]);
}

#[test]
fn constrain_can_empty_a_cell() {
    let tileset = chain();
    let mut neighbour = Cell::new(&tileset);
    assert!(neighbour.collapse_to(2));
    let mut cell = Cell::new(&tileset);
    // Nothing may lie to the right of `c`.
    assert!(cell.constrain(&neighbour, Edge::Left));
    assert_eq!(cell.candidates(), Vec::<usize>::new());
    assert!(cell.is_contradiction());
    // An empty cell stays empty.
    assert!(!cell.constrain(&neighbour, Edge::Left));
    assert!(cell.is_contradiction());
}

#[test]
fn constrain_against_an_empty_neighbour_removes_everything() {
    let tileset = chain();
    let mut gone = Cell::new(&tileset);
    let mut last = Cell::new(&tileset);
    assert!(last.collapse_to(2));
    assert!(gone.constrain(&last, Edge::Left));
    assert!(gone.is_contradiction());

    let mut cell = Cell::new(&tileset);
    assert!(cell.constrain(&gone, Edge::Top));
    assert!(cell.is_contradiction());
}

#[test]
fn constrain_never_adds_a_candidate() {
    let tileset = chain();
    let mut neighbours = Vec::new();
    for pick in 0..3 {
        let mut n = Cell::new(&tileset);
        assert!(n.collapse_to(pick));
        neighbours.push(n);
    }
    neighbours.push(Cell::new(&tileset));
    let edges = [Edge::Top, Edge::Right, Edge::Bottom, Edge::Left];

    let mut cell = Cell::new(&tileset);
    let mut size = cell.candidates().len();
    let mut before = cell.candidates();
    for round in 0..3 {
        for (i, neighbour) in neighbours.iter().enumerate() {
            let edge = edges[(i + round) % 4];
            let changed = cell.constrain(neighbour, edge);
            let after = cell.candidates();
            assert!(after.len() <= size);
            assert_eq!(changed, after.len() < size);
            for candidate in &after {
                assert!(before.contains(candidate));
            }
            size = after.len();
            before = after;
        }
    }
}

#[test]
fn collapse_to_a_candidate_leaves_exactly_that_candidate() {
    let tileset = chain();
    let mut cell = Cell::new(&tileset);
    assert!(cell.collapse_to(1));
    assert_eq!(cell.candidates(), vec![1]);
}

#[test]
fn collapse_to_something_else_changes_nothing() {
    let tileset = chain();
    let mut cell = Cell::new(&tileset);
    assert!(!cell.collapse_to(3));
    assert_eq!(cell.candidates(), vec![0, 1, 2]);
    assert!(cell.collapse_to(2));
    assert!(!cell.collapse_to(0));
    assert_eq!(cell.candidates(), vec![2]);
}

#[test]
fn collapse_picks_one_of_the_candidates() {
    let tileset = chain();
    let full = Cell::new(&tileset);
    for seed in 0..40 {
        let mut rng = StdRng::seed_from_u64(seed);
        let mut cell = Cell::new(&tileset);
        // `c` has nothing to its right and leaves: `a` and `b` stay.
        assert!(cell.constrain(&full, Edge::Right));
        let before = cell.candidates();
        assert_eq!(before, vec![0, 1]);

        cell.collapse(&mut rng);
        let after = cell.candidates();
        assert_eq!(after.len(), 1);
        assert!(before.contains(&after[0]));
        assert!(cell.is_collapsed());
        assert_eq!(cell.entropy(), 0);
    }
}

#[test]
fn collapse_reaches_every_candidate() {
    let tileset = chain();
    let mut seen = [false, false, false];
    for seed in 0..200 {
        let mut rng = StdRng::seed_from_u64(seed);
        let mut cell = Cell::new(&tileset);
        cell.collapse(&mut rng);
        seen[cell.candidates()[0]] = true;
    }
    assert_eq!(seen, [true, true, true]);
}

#[test]
fn collapse_of_a_collapsed_cell_keeps_its_tile() {
    let tileset = chain();
    let mut rng = StdRng::seed_from_u64(11);
    let mut cell = Cell::new(&tileset);
    assert!(cell.collapse_to(2));
    cell.collapse(&mut rng);
    assert_eq!(cell.candidates(), vec![2]);
}

#[test]
fn image_is_known_once_the_cell_is_collapsed() {
    let tileset = chain();
    let mut cell = Cell::new(&tileset);
    assert_eq!(cell.image(), None);
    assert!(cell.collapse_to(1));
    assert_eq!(cell.image(), Some(&"b".to_string()));
}

#[test]
fn image_of_a_contradiction_is_unknown() {
    let tileset = Tileset { size: 16, tiles: vec![] };
    let cell = Cell::new(&tileset);
    assert_eq!(cell.image(), None);
}

#[test]
fn clone_holds_the_same_candidates() {
    let tileset = chain();
    let mut cell = Cell::new(&tileset);
    let full = Cell::new(&tileset);
    assert!(cell.constrain(&full, Edge::Right));
    let copy = cell.clone();
    assert_eq!(copy.candidates(), vec![0, 1]);
    assert!(cell.collapse_to(1));
    assert_eq!(cell.candidates(), vec![1]);
    assert_eq!(copy.candidates(), vec![0, 1]);
}
