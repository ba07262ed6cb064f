//! The tile catalog: sockets, tiles, and the rule that says which tiles may
//! sit next to each other.

use vstd::prelude::*;

verus! {

/// One of the four sides of a tile, or the direction in which a neighbour lies.
#[derive(Clone, Copy, PartialEq, Eq, Structural, Debug)]
pub enum Edge {
    Top,
    Right,
    Bottom,
    Left,
}

impl Edge {
    /// The side that faces this one across a shared border.
    pub open spec fn facing(self) -> Edge {
        match self {
            Edge::Top => Edge::Bottom,
            Edge::Right => Edge::Left,
            Edge::Bottom => Edge::Top,
            Edge::Left => Edge::Right,
        }
    }

    /// Computes [`Edge::facing`].
    pub fn opposite(&self) -> (e: Edge)
        ensures
            e == self.facing(),
    {
        match self {
            Edge::Top => Edge::Bottom,
            Edge::Right => Edge::Left,
            Edge::Bottom => Edge::Top,
            Edge::Left => Edge::Right,
        }
    }
}

/// One segment of the pattern along a tile's side.
#[derive(Clone, Copy, PartialEq, Eq, Structural, Hash, Debug)]
pub struct Sock(pub u32);

/// The pattern along one side of a tile: its start, middle and end segment.
#[derive(Clone, Copy, PartialEq, Eq, Structural, Hash, Debug)]
pub struct Socket(pub Sock, pub Sock, pub Sock);

impl Socket {
    /// Two sides fit across a border when one reads as the other reversed.
    pub open spec fn mirrors(self, other: Socket) -> bool {
        &&& self.0 == other.2
        &&& self.1 == other.1
        &&& self.2 == other.0
    }

    /// Computes [`Socket::mirrors`].
    pub fn fits(&self, other: &Socket) -> (b: bool)
        ensures
            b == self.mirrors(*other),
    {
        self.0 == other.2 && self.1 == other.1 && self.2 == other.0
    }
}

/// A tile of the catalog: the image it is drawn with and its four sides, in
/// the order top, right, bottom, left.
#[derive(Debug)]
pub struct TileConfig {
    pub image: String,
    pub sockets: (Socket, Socket, Socket, Socket),
}

impl TileConfig {
    /// The pattern on the given side.
    pub open spec fn side(self, edge: Edge) -> Socket {
        match edge {
            Edge::Top => self.sockets.0,
            Edge::Right => self.sockets.1,
            Edge::Bottom => self.sockets.2,
            Edge::Left => self.sockets.3,
        }
    }

    /// Returns the pattern on the given side.
    pub fn socket(&self, edge: &Edge) -> (s: &Socket)
        ensures
            *s == self.side(*edge),
    {
        match edge {
            Edge::Top => &self.sockets.0,
            Edge::Right => &self.sockets.1,
            Edge::Bottom => &self.sockets.2,
            Edge::Left => &self.sockets.3,
        }
    }
}

/// Two tiles are the same tile when they are drawn with the same image,
/// whatever their sides say.
impl PartialEq for TileConfig {
    fn eq(&self, other: &Self) -> (b: bool) {
        self.image == other.image
    }
}

impl vstd::std_specs::cmp::PartialEqSpecImpl for TileConfig {
    open spec fn obeys_eq_spec() -> bool {
        true
    }

    open spec fn eq_spec(&self, other: &Self) -> bool {
        self.image@ == other.image@
    }
}

impl Eq for TileConfig {}

/// Whether `other` may lie next to `tile` in direction `edge`: the side of
/// `tile` on that edge and the side of `other` that faces it mirror each other.
pub open spec fn connects(tile: TileConfig, other: TileConfig, edge: Edge) -> bool {
    tile.side(edge).mirrors(other.side(edge.facing()))
}

/// A neighbour relation holds in both directions: `other` may lie on one side
/// of `tile` exactly when `tile` may lie on the facing side of `other`. So
/// right and left agree, and so do top and bottom.
pub proof fn lemma_connects_symmetric(tile: TileConfig, other: TileConfig, edge: Edge)
    ensures
        connects(tile, other, edge) == connects(other, tile, edge.facing()),
        edge.facing().facing() == edge,
{
}

/// The catalog: the pixel size of a tile and the tiles in their given order.
#[derive(PartialEq, Debug)]
pub struct Tileset {
    pub size: u32,
    pub tiles: Vec<TileConfig>,
}

impl Tileset {
    /// The tile at `index` is a variant of the catalog when no earlier tile is
    /// drawn with the same image: of several tiles with one image only the
    /// first counts.
    pub open spec fn is_variant(self, index: int) -> bool {
        &&& 0 <= index < self.tiles@.len()
        &&& forall|j: int| 0 <= j < index ==> (#[trigger] self.tiles@[j]).image@ != self.tiles@[index].image@
    }

    /// The indices of the catalog's variants.
    pub open spec fn variants(self) -> Set<usize> {
        Set::new(|i: usize| self.is_variant(i as int))
    }

    /// Decides whether the tile at `index` is a variant.
    pub fn variant_at(&self, index: usize) -> (b: bool)
        ensures
            b == self.is_variant(index as int),
    {
        if index >= self.tiles.len() {
            return false;
        }
        let mut j: usize = 0;
        while j < index
            invariant
                j <= index < self.tiles@.len(),
                forall|k: int| 0 <= k < j ==> (#[trigger] self.tiles@[k]).image@ != self.tiles@[index as int].image@,
            decreases index - j,
        {
            if self.tiles[j] == self.tiles[index] {
                return false;
            }
            j += 1;
        }
        true
    }
}

} // verus!
