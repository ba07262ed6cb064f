use wfc::cell::Cell;
use wfc::tiles::{Edge, Sock, Socket, TileConfig, Tileset};

fn socket(a: u32, b: u32, c: u32) -> Socket {
    Socket(Sock(a), Sock(b), Sock(c))
}

fn tile(image: &str, top: Socket, right: Socket, bottom: Socket, left: Socket) -> TileConfig {
    TileConfig { image: image.to_string(), sockets: (top, right, bottom, left) }
}

#[test]
fn opposite_edges_face_each_other() {
    assert_eq!(Edge::Top.opposite(), Edge::Bottom);
    assert_eq!(Edge::Right.opposite(), Edge::Left);
    assert_eq!(Edge::Bottom.opposite(), Edge::Top);
    assert_eq!(Edge::Left.opposite(), Edge::Right);
}

#[test]
fn sockets_fit_when_one_is_the_other_reversed() {
    assert!(socket(1, 2, 3).fits(&socket(3, 2, 1)));
    assert!(socket(4, 4, 4).fits(&socket(4, 4, 4)));
    assert!(socket(1, 2, 1).fits(&socket(1, 2, 1)));
}

#[test]
fn sockets_do_not_fit_when_read_the_same_way() {
    assert!(!socket(1, 2, 3).fits(&socket(1, 2, 3)));
}

#[test]
fn sockets_do_not_fit_when_one_segment_differs() {
    assert!(!socket(1, 2, 3).fits(&socket(3, 2, 2)));
    assert!(!socket(1, 2, 3).fits(&socket(3, 9, 1)));
    assert!(!socket(1, 2, 3).fits(&socket(9, 2, 1)));
}

#[test]
fn socket_returns_the_side_in_top_right_bottom_left_order() {
    let t = tile("t", socket(1, 1, 1), socket(2, 2, 2), socket(3, 3, 3), socket(4, 4, 4));
    assert_eq!(*t.socket(&Edge::Top), socket(1, 1, 1));
    assert_eq!(*t.socket(&Edge::Right), socket(2, 2, 2));
    assert_eq!(*t.socket(&Edge::Bottom), socket(3, 3, 3));
    assert_eq!(*t.socket(&Edge::Left), socket(4, 4, 4));
}

#[test]
fn connects_to_pairs_each_side_with_the_facing_side() {
    let a = tile("a", socket(1, 2, 3), socket(4, 5, 6), socket(7, 8, 9), socket(10, 11, 12));
    let above = tile("above", socket(0, 0, 0), socket(0, 0, 0), socket(3, 2, 1), socket(0, 0, 0));
    let right = tile("right", socket(0, 0, 0), socket(0, 0, 0), socket(0, 0, 0), socket(6, 5, 4));
    let below = tile("below", socket(9, 8, 7), socket(0, 0, 0), socket(0, 0, 0), socket(0, 0, 0));
    let left = tile("left", socket(0, 0, 0), socket(12, 11, 10), socket(0, 0, 0), socket(0, 0, 0));

    assert!(Cell::connects_to(&a, &above, &Edge::Top));
    assert!(Cell::connects_to(&a, &right, &Edge::Right));
    assert!(Cell::connects_to(&a, &below, &Edge::Bottom));
    assert!(Cell::connects_to(&a, &left, &Edge::Left));

    assert!(!Cell::connects_to(&a, &above, &Edge::Right));
    assert!(!Cell::connects_to(&a, &right, &Edge::Top));
    assert!(!Cell::connects_to(&a, &below, &Edge::Left));
    assert!(!Cell::connects_to(&a, &left, &Edge::Bottom));
}

#[test]
fn connects_to_is_symmetric_across_a_border() {
    let tiles = vec![
        tile("a", socket(1, 2, 3), socket(4, 5, 6), socket(7, 8, 9), socket(6, 5, 4)),
        tile("b", socket(9, 8, 7), socket(1, 1, 1), socket(3, 2, 1), socket(6, 5, 4)),
        tile("c", socket(2, 2, 2), socket(4, 5, 6), socket(2, 2, 2), socket(1, 1, 1)),
        tile("d", socket(0, 0, 0), socket(0, 1, 0), socket(0, 0, 0), socket(0, 1, 0)),
    ];
    let mut matches = 0;
    for a in &tiles {
        for b in &tiles {
            let right = Cell::connects_to(a, b, &Edge::Right);
            let top = Cell::connects_to(a, b, &Edge::Top);
            assert_eq!(right, Cell::connects_to(b, a, &Edge::Left));
            assert_eq!(top, Cell::connects_to(b, a, &Edge::Bottom));
            if right {
                matches += 1;
            }
            if top {
                matches += 1;
            }
        }
    }
    assert!(matches > 0);
    assert!(matches < 32);
}

#[test]
fn tiles_are_equal_by_image_alone() {
    let a = tile("grass", socket(1, 1, 1), socket(1, 1, 1), socket(1, 1, 1), socket(1, 1, 1));
    let b = tile("grass", socket(2, 2, 2), socket(3, 3, 3), socket(4, 4, 4), socket(5, 5, 5));
    let c = tile("water", socket(1, 1, 1), socket(1, 1, 1), socket(1, 1, 1), socket(1, 1, 1));
    assert!(a == b);
    assert!(a != c);
}

#[test]
fn sockets_are_equal_segment_by_segment() {
    assert_eq!(socket(1, 2, 3), socket(1, 2, 3));
    assert_ne!(socket(1, 2, 3), socket(3, 2, 1));
    assert_ne!(Sock(1), Sock(2));
}

#[test]
fn variant_at_keeps_the_first_tile_of_each_image() {
    let plain = socket(0, 0, 0);
    let tileset = Tileset {
        size: 16,
        tiles: vec![
            tile("a", plain, plain, plain, plain),
            tile("b", plain, plain, plain, plain),
            tile("a", socket(1, 1, 1), plain, plain, plain),
            tile("c", plain, plain, plain, plain),
            tile("b", plain, socket(2, 2, 2), plain, plain),
        ],
    };
    assert!(tileset.variant_at(0));
    assert!(tileset.variant_at(1));
    assert!(!tileset.variant_at(2));
    assert!(tileset.variant_at(3));
    assert!(!tileset.variant_at(4));
}

#[test]
fn variant_at_rejects_an_index_past_the_catalog() {
    let plain = socket(0, 0, 0);
    let tileset = Tileset { size: 16, tiles: vec![tile("a", plain, plain, plain, plain)] };
    assert!(!tileset.variant_at(1));
    assert!(!tileset.variant_at(usize::MAX));
}
