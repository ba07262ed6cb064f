//! One grid cell: the catalog variants that are still possible at its place.

use crate::random::pick;
use crate::tiles::{connects, Edge, TileConfig, Tileset};
use crate::wave::{constrained, lemma_constrained_shrinks, supported};
use rand::rngs::StdRng;
use vstd::prelude::*;
use vstd::set_lib::*;

verus! {

/// A cell of the grid. It refers to the catalog it was made for and holds the
/// indices of the variants that are still possible, each once, in increasing
/// order.
#[derive(Debug)]
pub struct Cell<'t> {
    tileset: &'t Tileset,
    possibilities: Vec<usize>,
}

impl<'t> Cell<'t> {
    /// The candidates of the cell, as a set of catalog indices.
    pub closed spec fn view(&self) -> Set<usize> {
        self.possibilities@.to_set()
    }

    /// The catalog that the candidates index into.
    pub closed spec fn catalog(&self) -> Tileset {
        *self.tileset
    }

    /// The candidates are stored in strictly increasing order.
    pub closed spec fn ordered(&self) -> bool {
        forall|i: int, j: int|
            0 <= i < j < self.possibilities@.len() ==> self.possibilities@[i] < self.possibilities@[j]
    }

    /// A cell is well formed when its candidates are variants of its catalog.
    pub open spec fn wf(&self) -> bool {
        &&& self.ordered()
        &&& self@.finite()
        &&& self@.subset_of(self.catalog().variants())
    }

    /// In a well-formed cell the stored list is as long as the set is large,
    /// and every stored index points into the catalog.
    proof fn lemma_stored(&self)
        requires
            self.wf(),
        ensures
            self.possibilities@.len() == self@.len(),
            self.possibilities@.no_duplicates(),
            forall|i: int|
                0 <= i < self.possibilities@.len() ==> (#[trigger] self.possibilities@[i])
                    < self.catalog().tiles@.len(),
    {
        self.possibilities@.unique_seq_to_set();
        assert forall|i: int| 0 <= i < self.possibilities@.len() implies (
        #[trigger] self.possibilities@[i]) < self.catalog().tiles@.len() by {
            assert(self.possibilities@.contains(self.possibilities@[i]));
            assert(self@.contains(self.possibilities@[i]));
        }
    }

    /// A well-formed cell has no more candidates than the catalog has tiles.
    pub proof fn lemma_bounded(&self)
        requires
            self.wf(),
        ensures
            self@.len() <= self.catalog().tiles@.len(),
    {
        self.lemma_stored();
        let stored = self.possibilities@;
        if stored.len() > 0 {
            lemma_increasing_from_index(stored, stored.len() - 1);
        }
    }

    /// A fresh cell: every variant of the catalog is possible.
    pub fn new(tileset: &'t Tileset) -> (cell: Self)
        ensures
            cell.wf(),
            cell.catalog() == *tileset,
            cell@ == tileset.variants(),
    {
        let mut possibilities: Vec<usize> = Vec::new();
        let mut index: usize = 0;
        while index < tileset.tiles.len()
            invariant
                index <= tileset.tiles@.len(),
                forall|i: int, j: int|
                    0 <= i < j < possibilities@.len() ==> possibilities@[i] < possibilities@[j],
                forall|i: int| 0 <= i < possibilities@.len() ==> possibilities@[i] < index,
                forall|i: int|
                    0 <= i < possibilities@.len() ==> tileset.is_variant(
                        (#[trigger] possibilities@[i]) as int,
                    ),
                forall|v: usize|
                    v < index && tileset.is_variant(v as int) ==> #[trigger] possibilities@.contains(v),
            decreases tileset.tiles@.len() - index,
        {
            if tileset.variant_at(index) {
                let ghost before = possibilities@;
                possibilities.push(index);
                assert forall|v: usize|
                    v < index + 1 && tileset.is_variant(v as int) implies #[trigger] possibilities@.contains(
                    v,
                ) by {
                    if v < index {
                        assert(before.contains(v));
                        let k = choose|k: int| 0 <= k < before.len() && before[k] == v;
                        assert(possibilities@[k] == v);
                    } else {
                        assert(possibilities@[possibilities@.len() - 1] == v);
                    }
                }
            }
            index += 1;
        }
        let cell = Cell { tileset, possibilities };
        proof {
            assert(cell@ =~= tileset.variants());
        }
        cell
    }

    /// Whether `other` may lie next to `config` in direction `edge`.
    pub fn connects_to(config: &TileConfig, other: &TileConfig, edge: &Edge) -> (fits: bool)
        ensures
            fits == connects(*config, *other, *edge),
    {
        let own = config.socket(edge);
        let facing = other.socket(&edge.opposite());
        own.fits(facing)
    }

    /// Whether some candidate of `other_cell` may lie next to the tile at
    /// index `tile` in direction `edge`.
    fn has_support(&self, tile: usize, other_cell: &Cell, edge: &Edge) -> (found: bool)
        requires
            self.wf(),
            other_cell.wf(),
            other_cell.catalog() == self.catalog(),
            tile < self.catalog().tiles@.len(),
        ensures
            found == supported(self.catalog(), tile, other_cell@, *edge),
    {
        proof {
            other_cell.lemma_stored();
        }
        let mut j: usize = 0;
        while j < other_cell.possibilities.len()
            invariant
                j <= other_cell.possibilities@.len(),
                other_cell.catalog() == self.catalog(),
                tile < self.catalog().tiles@.len(),
                forall|i: int|
                    0 <= i < other_cell.possibilities@.len() ==> (
                    #[trigger] other_cell.possibilities@[i]) < other_cell.catalog().tiles@.len(),
                forall|i: int|
                    0 <= i < j ==> !connects(
                        self.catalog().tiles@[tile as int],
                        self.catalog().tiles@[(#[trigger] other_cell.possibilities@[i]) as int],
                        *edge,
                    ),
            decreases other_cell.possibilities@.len() - j,
        {
            let candidate = other_cell.possibilities[j];
            if Self::connects_to(&self.tileset.tiles[tile], &self.tileset.tiles[candidate], edge) {
                proof {
                    assert(other_cell.possibilities@.contains(candidate));
                    assert(other_cell@.contains(candidate));
                }
                return true;
            }
            j += 1;
        }
        proof {
            assert forall|n: usize| #[trigger] other_cell@.contains(n) implies !connects(
                self.catalog().tiles@[tile as int],
                self.catalog().tiles@[n as int],
                *edge,
            ) by {
                let k = choose|k: int|
                    0 <= k < other_cell.possibilities@.len() && other_cell.possibilities@[k] == n;
                assert(other_cell.possibilities@[k] == n);
            }
        }
        false
    }

    /// Constrains the cell against the neighbour that lies in direction
    /// `edge`. A collapsed cell is left alone. Any other cell loses every
    /// candidate that no candidate of the neighbour may lie next to. Returns
    /// whether a candidate was removed.
    pub fn constrain(&mut self, other_cell: &Cell, edge: Edge) -> (changed: bool)
        requires
            old(self).wf(),
            other_cell.wf(),
            other_cell.catalog() == old(self).catalog(),
        ensures
            final(self).wf(),
            final(self).catalog() == old(self).catalog(),
            final(self)@ == constrained(old(self).catalog(), old(self)@, other_cell@, edge),
            final(self)@.subset_of(old(self)@),
            final(self)@.len() <= old(self)@.len(),
            changed == (final(self)@ != old(self)@),
            changed == (final(self)@.len() < old(self)@.len()),
    {
        proof {
            self.lemma_stored();
            lemma_constrained_shrinks(self.catalog(), self@, other_cell@, edge);
        }
        if self.is_collapsed() {
            return false;
        }
        let ghost before = self.possibilities@;
        let ghost catalog = self.catalog();
        let count = self.possibilities.len();
        let mut kept: Vec<usize> = Vec::new();
        let mut i: usize = 0;
        while i < count
            invariant
                i <= count,
                count == before.len(),
                self.possibilities@ == before,
                self.catalog() == catalog,
                self.wf(),
                other_cell.wf(),
                other_cell.catalog() == catalog,
                forall|a: int, b: int| 0 <= a < b < before.len() ==> before[a] < before[b],
                forall|a: int| 0 <= a < before.len() ==> (#[trigger] before[a]) < catalog.tiles@.len(),
                forall|a: int, b: int| 0 <= a < b < kept@.len() ==> kept@[a] < kept@[b],
                forall|a: int, m: int|
                    0 <= a < kept@.len() && i <= m < before.len() ==> kept@[a] < before[m],
                forall|a: int|
                    0 <= a < kept@.len() ==> before.contains(#[trigger] kept@[a]) && supported(
                        catalog,
                        kept@[a],
                        other_cell@,
                        edge,
                    ),
                forall|m: int|
                    0 <= m < i && supported(catalog, #[trigger] before[m], other_cell@, edge)
                        ==> kept@.contains(before[m]),
            decreases count - i,
        {
            let possibility = self.possibilities[i];
            if self.has_support(possibility, other_cell, &edge) {
                let ghost earlier = kept@;
                kept.push(possibility);
                proof {
                    assert(before.contains(possibility));
                    assert forall|m: int|
                        0 <= m < i + 1 && supported(
                            catalog,
                            #[trigger] before[m],
                            other_cell@,
                            edge,
                        ) implies kept@.contains(before[m]) by {
                        if m < i {
                            assert(earlier.contains(before[m]));
                            let k = choose|k: int| 0 <= k < earlier.len() && earlier[k] == before[m];
                            assert(kept@[k] == before[m]);
                        } else {
                            assert(kept@[kept@.len() - 1] == before[m]);
                        }
                    }
                }
            }
            i += 1;
        }
        let changed = kept.len() < count;
        self.possibilities = kept;
        proof {
            let target = constrained(catalog, before.to_set(), other_cell@, edge);
            assert(self@ =~= target) by {
                assert forall|v: usize| self@.contains(v) implies target.contains(v) by {
                    let k = choose|k: int|
                        0 <= k < self.possibilities@.len() && self.possibilities@[k] == v;
                    assert(before.contains(self.possibilities@[k]));
                }
                assert forall|v: usize| target.contains(v) implies self@.contains(v) by {
                    assert(before.contains(v));
                    let m = choose|m: int| 0 <= m < before.len() && before[m] == v;
                    assert(supported(catalog, before[m], other_cell@, edge));
                }
            }
            self.possibilities@.unique_seq_to_set();
            if self@.len() == before.to_set().len() {
                lemma_subset_equality(self@, before.to_set());
            }
        }
        changed
    }

    /// The uncertainty of the cell: one less than the number of candidates.
    /// A cell without candidates has no entropy.
    pub fn entropy(&self) -> (e: usize)
        requires
            self.wf(),
            self@.len() >= 1,
        ensures
            e == self@.len() - 1,
    {
        proof {
            self.lemma_stored();
        }
        self.possibilities.len() - 1
    }

    /// Whether exactly one candidate is left.
    pub fn is_collapsed(&self) -> (collapsed: bool)
        requires
            self.wf(),
        ensures
            collapsed == (self@.len() == 1),
    {
        proof {
            self.lemma_stored();
        }
        self.possibilities.len() == 1
    }

    /// Whether no candidate is left: the cell cannot be filled.
    pub fn is_contradiction(&self) -> (empty: bool)
        requires
            self.wf(),
        ensures
            empty == (self@.len() == 0),
    {
        proof {
            self.lemma_stored();
        }
        self.possibilities.len() == 0
    }

    /// Whether the variant at index `tile` is still a candidate.
    pub fn contains(&self, tile: usize) -> (found: bool)
        ensures
            found == self@.contains(tile),
    {
        let mut i: usize = 0;
        while i < self.possibilities.len()
            invariant
                i <= self.possibilities@.len(),
                forall|k: int| 0 <= k < i ==> self.possibilities@[k] != tile,
            decreases self.possibilities@.len() - i,
        {
            if self.possibilities[i] == tile {
                proof {
                    assert(self.possibilities@.contains(tile));
                }
                return true;
            }
            i += 1;
        }
        false
    }

    /// Commits the cell to the variant at index `tile` if that variant is
    /// still a candidate, and says whether it was. A cell that does not hold
    /// the variant is left as it is.
    pub fn collapse_to(&mut self, tile: usize) -> (done: bool)
        requires
            old(self).wf(),
        ensures
            final(self).wf(),
            final(self).catalog() == old(self).catalog(),
            done == old(self)@.contains(tile),
            done ==> final(self)@ == set![tile],
            !done ==> final(self)@ == old(self)@,
    {
        if !self.contains(tile) {
            return false;
        }
        let mut single: Vec<usize> = Vec::new();
        single.push(tile);
        self.possibilities = single;
        proof {
            assert(self.possibilities@[0] == tile);
            assert(self@ =~= set![tile]);
        }
        true
    }

    /// Commits the cell to one of its candidates, drawn at random from `rng`.
    /// The cell must have a candidate left.
    pub fn collapse(&mut self, rng: &mut StdRng)
        requires
            old(self).wf(),
            old(self)@.len() > 0,
        ensures
            final(self).wf(),
            final(self).catalog() == old(self).catalog(),
            final(self)@.len() == 1,
            exists|tile: usize| #[trigger] old(self)@.contains(tile) && final(self)@ == set![tile],
    {
        proof {
            self.lemma_stored();
        }
        let drawn = pick(rng, &self.possibilities);
        match drawn {
            Some(tile) => {
                let done = self.collapse_to(tile);
                proof {
                    assert(done);
                    assert(set![tile].len() == 1) by {
                        assert(set![tile].is_singleton());
                        set![tile].lemma_singleton_size();
                    }
                }
            },
            None => {},
        }
    }

    /// The image of the tile that the cell has collapsed to, or nothing while
    /// the cell is not collapsed.
    pub fn image(&self) -> (image: Option<&'t String>)
        requires
            self.wf(),
        ensures
            image is Some <==> self@.len() == 1,
            image matches Some(name) ==> exists|tile: usize| #[trigger]
                self@.contains(tile) && self@ == set![tile] && *name
                    == self.catalog().tiles@[tile as int].image,
    {
        proof {
            self.lemma_stored();
        }
        if self.possibilities.len() != 1 {
            return None;
        }
        let tile = self.possibilities[0];
        proof {
            assert(self.possibilities@.contains(tile));
            assert(self@.contains(tile));
            assert(self@ =~= set![tile]) by {
                assert forall|v: usize| self@.contains(v) implies v == tile by {
                    let k = choose|k: int|
                        0 <= k < self.possibilities@.len() && self.possibilities@[k] == v;
                    assert(k == 0);
                }
            }
        }
        Some(&self.tileset.tiles[tile].image)
    }

    /// The candidates as a list of catalog indices, in increasing order.
    pub fn candidates(&self) -> (list: Vec<usize>)
        ensures
            list@.to_set() == self@,
            self.wf() ==> list@.len() == self@.len(),
            self.wf() ==> forall|i: int, j: int| 0 <= i < j < list@.len() ==> list@[i] < list@[j],
    {
        proof {
            if self.wf() {
                self.lemma_stored();
            }
        }
        self.possibilities.clone()
    }
}

impl<'t> Clone for Cell<'t> {
    /// A copy of the cell: the same catalog and the same candidates.
    fn clone(&self) -> (copy: Self)
        ensures
            copy@ == self@,
            copy.catalog() == self.catalog(),
            copy.ordered() == self.ordered(),
    {
        Cell { tileset: self.tileset, possibilities: self.possibilities.clone() }
    }
}

/// In a strictly increasing list of indices the element at position `i` is
/// at least `i`.
proof fn lemma_increasing_from_index(list: Seq<usize>, i: int)
    requires
        0 <= i < list.len(),
        forall|a: int, b: int| 0 <= a < b < list.len() ==> list[a] < list[b],
    ensures
        list[i] >= i,
    decreases i,
{
    if i > 0 {
        lemma_increasing_from_index(list, i - 1);
    }
}

} // verus!
