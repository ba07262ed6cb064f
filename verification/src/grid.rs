//! The grid of cells: propagation, the choice of the next cell, and one step
//! of the generation.

use crate::cell::Cell;
use crate::propagation::{
    arc_consistent, lemma_propagated_settles, propagated, settled, sweep, sweep_row, sweep_rows,
    visit, visited,
};
use crate::steps::{
    collapse_step, is_contradiction, is_open, is_selected, lemma_collapse_step_closes,
    lemma_reduces_open_cells, lemma_selected_is, lemma_selected_open, lemma_without_open_cells,
    precedes, selected,
};
use crate::tiles::{Edge, Tileset};
use crate::wave::{
    finite_cells, has_shape, lemma_total_with_cell, lemma_with_cell_reduces, narrows, open_cells,
    openness, reduces, uniform, weight, with_cell, Wave,
};
use rand::rngs::StdRng;
use vstd::prelude::*;

verus! {

/// The settings of a grid: its size in cells, and the frame rate and seed
/// that the run was configured with. The frame rate has no part in the
/// generation; it is kept for whoever draws the grid.
#[derive(Debug)]
pub struct Settings {
    pub width: usize,
    pub height: usize,
    pub framerate: Option<u32>,
    pub seed: Option<u32>,
}

/// A grid of `height` rows of `width` cells over one catalog.
#[derive(Debug)]
pub struct Grid<'t> {
    tileset: &'t Tileset,
    options: Settings,
    cells: Vec<Vec<Cell<'t>>>,
    finished: bool,
}

/// The candidates of every cell of `cells`, row by row.
pub open spec fn wave_of(cells: Seq<Vec<Cell>>) -> Wave {
    Seq::new(cells.len(), |y: int| Seq::new(cells[y]@.len(), |x: int| cells[y]@[x]@))
}

impl<'t> Grid<'t> {
    /// The candidates of every cell: `self@[y][x]` is the set of the cell in
    /// column `x` of row `y`.
    pub closed spec fn view(&self) -> Wave {
        wave_of(self.cells@)
    }

    /// The catalog of the grid.
    pub closed spec fn catalog(&self) -> Tileset {
        *self.tileset
    }

    /// The settings that the grid was made with.
    pub closed spec fn settings(&self) -> Settings {
        self.options
    }

    /// Whether the grid has been marked as finished.
    pub closed spec fn done(&self) -> bool {
        self.finished
    }

    /// Every cell is well formed and belongs to the grid's catalog.
    pub closed spec fn cells_wf(&self) -> bool {
        forall|y: int, x: int|
            0 <= y < self.cells@.len() && 0 <= x < self.cells@[y]@.len() ==> {
                &&& (#[trigger] self.cells@[y]@[x]).wf()
                &&& self.cells@[y]@[x].catalog() == self.catalog()
            }
    }

    /// A grid is well formed when it has the size that its settings give,
    /// every cell holds variants of the catalog only, and, once it is marked
    /// as finished, no cell is open.
    pub open spec fn wf(&self) -> bool {
        &&& self.cells_wf()
        &&& has_shape(self@, self.settings().width as nat, self.settings().height as nat)
        &&& finite_cells(self@)
        &&& forall|y: int, x: int|
            0 <= y < self@.len() && 0 <= x < self@[y].len() ==> (#[trigger] self@[y][x]).subset_of(
                self.catalog().variants(),
            )
        &&& self.done() ==> open_cells(self@) == 0
    }

    /// A fresh grid: every cell holds every variant of the catalog, and the
    /// grid is not finished.
    pub fn new(tileset: &'t Tileset, options: Settings) -> (grid: Self)
        ensures
            grid.wf(),
            grid.catalog() == *tileset,
            grid.settings() == options,
            !grid.done(),
            grid@ == uniform(options.width as nat, options.height as nat, tileset.variants()),
    {
        let mut cells: Vec<Vec<Cell<'t>>> = Vec::new();
        let mut y: usize = 0;
        while y < options.height
            invariant
                y <= options.height,
                cells@.len() == y,
                forall|r: int| 0 <= r < y ==> (#[trigger] cells@[r])@.len() == options.width,
                forall|r: int, c: int|
                    0 <= r < y && 0 <= c < options.width ==> {
                        &&& (#[trigger] cells@[r]@[c]).wf()
                        &&& cells@[r]@[c].catalog() == *tileset
                        &&& cells@[r]@[c]@ == tileset.variants()
                    },
            decreases options.height - y,
        {
            let mut row: Vec<Cell<'t>> = Vec::new();
            let mut x: usize = 0;
            while x < options.width
                invariant
                    x <= options.width,
                    row@.len() == x,
                    forall|c: int|
                        0 <= c < x ==> {
                            &&& (#[trigger] row@[c]).wf()
                            &&& row@[c].catalog() == *tileset
                            &&& row@[c]@ == tileset.variants()
                        },
                decreases options.width - x,
            {
                row.push(Cell::new(tileset));
                x += 1;
            }
            cells.push(row);
            y += 1;
        }
        let grid = Grid { tileset, options, cells, finished: false };
        proof {
            assert(grid@ =~~= uniform(
                options.width as nat,
                options.height as nat,
                tileset.variants(),
            ));
        }
        grid
    }

    /// The number of columns.
    pub fn width(&self) -> (width: usize)
        ensures
            width == self.settings().width,
    {
        self.options.width
    }

    /// The number of rows.
    pub fn height(&self) -> (height: usize)
        ensures
            height == self.settings().height,
    {
        self.options.height
    }

    /// Whether the grid has been marked as finished.
    pub fn is_finished(&self) -> (finished: bool)
        ensures
            finished == self.done(),
    {
        self.finished
    }

    /// The cell in column `x` of row `y`, or nothing when the grid has no
    /// such cell.
    pub fn cell(&self, x: usize, y: usize) -> (found: Option<&Cell<'t>>)
        requires
            self.wf(),
        ensures
            found is Some <==> (x < self.settings().width && y < self.settings().height),
            found matches Some(cell) ==> {
                &&& cell@ == self@[y as int][x as int]
                &&& cell.wf()
                &&& cell.catalog() == self.catalog()
            },
    {
        if y < self.cells.len() {
            if x < self.cells[y].len() {
                assert(self@[y as int].len() == self.settings().width);
                return Some(&self.cells[y][x]);
            }
            assert(self@[y as int].len() == self.settings().width);
        }
        None
    }

    /// Whether some cell is a contradiction: it has no candidate left, so the
    /// choices made so far cannot be completed.
    pub fn has_contradiction(&self) -> (found: bool)
        requires
            self.wf(),
        ensures
            found == exists|x: int, y: int| is_contradiction(self@, x, y),
    {
        let ghost wave = self@;
        let mut y: usize = 0;
        while y < self.options.height
            invariant
                self.wf(),
                wave == self@,
                y <= self.settings().height,
                forall|x2: int, y2: int| y2 < y ==> !is_contradiction(wave, x2, y2),
            decreases self.settings().height - y,
        {
            assert(wave[y as int].len() == self.settings().width);
            let mut x: usize = 0;
            while x < self.options.width
                invariant
                    self.wf(),
                    wave == self@,
                    y < self.settings().height,
                    x <= self.settings().width,
                    wave[y as int].len() == self.settings().width,
                    forall|x2: int, y2: int|
                        precedes(x2, y2, x as int, y as int) ==> !is_contradiction(wave, x2, y2),
                decreases self.settings().width - x,
            {
                let cell = &self.cells[y][x];
                assert(cell@ == wave[y as int][x as int]);
                if cell.is_contradiction() {
                    assert(is_contradiction(wave, x as int, y as int));
                    return true;
                }
                x += 1;
            }
            y += 1;
        }
        false
    }

    /// `after` is `before` with the cell in column `x` of row `y` replaced by
    /// `cell`, and nothing else changed.
    spec fn replaced(before: Self, after: Self, x: int, y: int, cell: Cell<'t>) -> bool {
        &&& after.tileset == before.tileset
        &&& after.options == before.options
        &&& after.finished == before.finished
        &&& after.cells@.len() == before.cells@.len()
        &&& forall|r: int| 0 <= r < before.cells@.len() && r != y ==> after.cells@[r] == before.cells@[r]
        &&& after.cells@[y]@ == before.cells@[y]@.update(x, cell)
    }

    /// Replacing a cell replaces its candidates in the wave, and keeps the
    /// grid well formed where the new cell is well formed and fits the grid.
    proof fn lemma_replaced(before: Self, after: Self, x: int, y: int, cell: Cell<'t>)
        requires
            before.wf(),
            0 <= y < before.cells@.len(),
            0 <= x < before.cells@[y]@.len(),
            Self::replaced(before, after, x, y, cell),
        ensures
            after@ == with_cell(before@, x, y, cell@),
            after.catalog() == before.catalog(),
            after.settings() == before.settings(),
            after.done() == before.done(),
            (cell.wf() && cell.catalog() == before.catalog() && (before.done() ==> cell@.len() < 2))
                ==> after.wf(),
    {
        let wave = before@;
        assert(after@ =~~= with_cell(wave, x, y, cell@));
        if cell.wf() && cell.catalog() == before.catalog() && (before.done() ==> cell@.len() < 2) {
            assert(after.cells_wf()) by {
                assert forall|r: int, c: int|
                    0 <= r < after.cells@.len() && 0 <= c < after.cells@[r]@.len() implies {
                    &&& (#[trigger] after.cells@[r]@[c]).wf()
                    &&& after.cells@[r]@[c].catalog() == after.catalog()
                } by {
                    if r == y && c == x {
                    } else {
                        assert(after.cells@[r]@[c] == before.cells@[r]@[c]);
                    }
                }
            }
            assert(has_shape(after@, after.settings().width as nat, after.settings().height as nat))
                by {
                assert forall|r: int| 0 <= r < after.settings().height implies (
                #[trigger] after@[r]).len() == after.settings().width by {
                    assert(wave[r].len() == before.settings().width);
                }
            }
            assert forall|r: int, c: int|
                0 <= r < after@.len() && 0 <= c < after@[r].len() implies (#[trigger] after@[r][c]).finite()
                && after@[r][c].subset_of(after.catalog().variants()) by {
                if r == y && c == x {
                } else {
                    assert(after@[r][c] == wave[r][c]);
                }
            }
            if before.done() {
                lemma_without_open_cells(wave);
                assert(!is_open(wave, x, y));
                lemma_total_with_cell(wave, x, y, cell@, |cell: Set<usize>| openness(cell));
            }
        }
    }

    /// The cell in column `x` of row `y`, for reading and changing, or
    /// nothing when the grid has no such cell. What the caller leaves in the
    /// cell is what the grid holds there afterwards; nothing else changes.
    pub fn get(&mut self, x: usize, y: usize) -> (found: Option<&mut Cell<'t>>)
        requires
            old(self).wf(),
        ensures
            found is Some <==> (x < old(self).settings().width && y < old(self).settings().height),
            found matches Some(cell) ==> {
                &&& cell@ == old(self)@[y as int][x as int]
                &&& cell.wf()
                &&& cell.catalog() == old(self).catalog()
                &&& final(self)@ == with_cell(old(self)@, x as int, y as int, final(cell)@)
                &&& final(self).catalog() == old(self).catalog()
                &&& final(self).settings() == old(self).settings()
                &&& final(self).done() == old(self).done()
                &&& (final(cell).wf() && final(cell).catalog() == old(self).catalog() && (old(
                    self,
                ).done() ==> final(cell)@.len() < 2)) ==> final(self).wf()
            },
            found is None ==> *final(self) == *old(self),
    {
        if y < self.cells.len() {
            assert(self@[y as int].len() == self.settings().width);
            if x < self.cells[y].len() {
                proof {
                    let before = *self;
                    assert forall|after: Self, cell: Cell<'t>|
                        #![trigger after@, with_cell(before@, x as int, y as int, cell@)]
                        Self::replaced(before, after, x as int, y as int, cell) implies {
                        &&& after@ == with_cell(before@, x as int, y as int, cell@)
                        &&& after.catalog() == before.catalog()
                        &&& after.settings() == before.settings()
                        &&& after.done() == before.done()
                        &&& (cell.wf() && cell.catalog() == before.catalog() && (before.done()
                            ==> cell@.len() < 2)) ==> after.wf()
                    } by {
                        Self::lemma_replaced(before, after, x as int, y as int, cell);
                    }
                }
                return Some(&mut self.cells[y][x]);
            }
        }
        None
    }

    /// Visits the cell in column `x` of row `y`: constrains it against the
    /// neighbours above it, to its right, below it and to its left, as far as
    /// the grid has them. Returns whether the cell lost a candidate.
    fn visit_cell(&mut self, x: usize, y: usize) -> (changed: bool)
        requires
            old(self).wf(),
            x < old(self).settings().width,
            y < old(self).settings().height,
        ensures
            final(self).wf(),
            final(self).catalog() == old(self).catalog(),
            final(self).settings() == old(self).settings(),
            final(self).done() == old(self).done(),
            final(self)@ == visit(old(self).catalog(), old(self)@, x as int, y as int),
            reduces(old(self)@, final(self)@),
            changed ==> weight(final(self)@) < weight(old(self)@),
            !changed ==> final(self)@ == old(self)@,
    {
        let ghost wave = self@;
        let ghost catalog = self.catalog();
        let width = self.options.width;
        let height = self.options.height;
        assert(wave[y as int].len() == width);
        assert(y > 0 ==> wave[y - 1].len() == width);
        assert(y + 1 < height ==> wave[y + 1].len() == width);

        let mut cell = self.cells[y][x].clone();
        let mut changed = false;
        if y > 0 {
            if cell.constrain(&self.cells[y - 1][x], Edge::Top) {
                changed = true;
            }
        }
        if x + 1 < width {
            if cell.constrain(&self.cells[y][x + 1], Edge::Right) {
                changed = true;
            }
        }
        if y + 1 < height {
            if cell.constrain(&self.cells[y + 1][x], Edge::Bottom) {
                changed = true;
            }
        }
        if x > 0 {
            if cell.constrain(&self.cells[y][x - 1], Edge::Left) {
                changed = true;
            }
        }
        proof {
            assert(cell@ == visited(catalog, wave, x as int, y as int));
            assert(changed == (cell@.len() < wave[y as int][x as int].len()));
            lemma_with_cell_reduces(wave, x as int, y as int, cell@);
        }
        self.cells[y][x] = cell;
        proof {
            assert(self@ =~~= with_cell(wave, x as int, y as int, cell@));
            lemma_reduces_open_cells(wave, self@);
            if !changed {
                assert(with_cell(wave, x as int, y as int, cell@) =~~= wave);
            }
        }
        changed
    }

    /// Propagates the constraints through the grid. Every cell is visited in
    /// row-major order and constrained against its neighbours as they are at
    /// that moment; such sweeps are repeated until one of them removes no
    /// candidate anywhere.
    pub fn propagate(&mut self)
        requires
            old(self).wf(),
        ensures
            final(self).wf(),
            final(self).catalog() == old(self).catalog(),
            final(self).settings() == old(self).settings(),
            final(self).done() == old(self).done(),
            final(self)@ == propagated(old(self).catalog(), old(self)@),
            reduces(old(self)@, final(self)@),
            settled(old(self).catalog(), final(self)@),
            arc_consistent(old(self).catalog(), final(self)@),
    {
        let ghost catalog = self.catalog();
        let ghost first = self@;
        proof {
            lemma_propagated_settles(catalog, first);
        }
        loop
            invariant_except_break
                propagated(catalog, self@) == propagated(catalog, first),
            invariant
                finite_cells(first),
                self.wf(),
                self.catalog() == catalog,
                self.settings() == old(self).settings(),
                self.done() == old(self).done(),
            ensures
                self@ == propagated(catalog, first),
            decreases weight(self@),
        {
            let ghost start = self@;
            let mut constrained = false;
            let mut y: usize = 0;
            while y < self.options.height
                invariant
                    self.wf(),
                    self.catalog() == catalog,
                    self.settings() == old(self).settings(),
                    self.done() == old(self).done(),
                    y <= self.settings().height,
                    finite_cells(start),
                    start.len() == self.settings().height,
                    self@ == sweep_rows(catalog, start, y as nat),
                    constrained ==> weight(self@) < weight(start),
                    !constrained ==> self@ == start,
                    weight(self@) <= weight(start),
                decreases self.settings().height - y,
            {
                let ghost above = self@;
                let mut x: usize = 0;
                while x < self.options.width
                    invariant
                        self.wf(),
                        self.catalog() == catalog,
                        self.settings() == old(self).settings(),
                        self.done() == old(self).done(),
                        y < self.settings().height,
                        x <= self.settings().width,
                        above.len() == self.settings().height,
                        above[y as int].len() == self.settings().width,
                        self@ == sweep_row(catalog, above, y as int, x as nat),
                        constrained ==> weight(self@) < weight(start),
                        !constrained ==> self@ == start,
                        weight(self@) <= weight(start),
                    decreases self.settings().width - x,
                {
                    if self.visit_cell(x, y) {
                        constrained = true;
                    }
                    x += 1;
                }
                y += 1;
            }
            proof {
                assert(self@ == sweep(catalog, start));
            }
            if !constrained {
                break;
            }
        }
        proof {
            lemma_propagated_settles(catalog, first);
        }
    }

    /// The cell to collapse next: among the cells that are still open, the
    /// one with the lowest entropy, and of several such the first in
    /// row-major order. Returns nothing when no cell is open. What the caller
    /// leaves in the cell is what the grid holds there afterwards.
    pub fn next_lowest_entropy(&mut self) -> (next: Option<&mut Cell<'t>>)
        requires
            old(self).wf(),
        ensures
            next is None <==> selected(old(self)@) is None,
            next is None ==> *final(self) == *old(self) && open_cells(old(self)@) == 0,
            next matches Some(cell) ==> selected(old(self)@) matches Some(place) && {
                &&& is_selected(old(self)@, place.0, place.1)
                &&& cell@ == old(self)@[place.1][place.0]
                &&& cell@.len() >= 2
                &&& cell.wf()
                &&& cell.catalog() == old(self).catalog()
                &&& final(self)@ == with_cell(old(self)@, place.0, place.1, final(cell)@)
                &&& final(self).catalog() == old(self).catalog()
                &&& final(self).settings() == old(self).settings()
                &&& final(self).done() == old(self).done()
                &&& (final(cell).wf() && final(cell).catalog() == old(self).catalog() && (old(
                    self,
                ).done() ==> final(cell)@.len() < 2)) ==> final(self).wf()
            },
    {
        let ghost wave = self@;
        let limit = self.tileset.tiles.len();
        let mut cell_x: usize = 0;
        let mut cell_y: usize = 0;
        let mut entropy: usize = limit;
        let mut y: usize = 0;
        while y < self.options.height
            invariant
                self.wf(),
                *self == *old(self),
                wave == self@,
                limit == self.catalog().tiles@.len(),
                y <= self.settings().height,
                entropy <= limit,
                entropy == limit ==> forall|x2: int, y2: int| #[trigger]
                    is_open(wave, x2, y2) ==> !(y2 < y),
                entropy < limit ==> {
                    &&& is_open(wave, cell_x as int, cell_y as int)
                    &&& cell_y < y
                    &&& wave[cell_y as int][cell_x as int].len() == entropy + 1
                    &&& forall|x2: int, y2: int| #[trigger]
                        is_open(wave, x2, y2) && y2 < y ==> {
                            &&& entropy + 1 <= wave[y2][x2].len()
                            &&& precedes(x2, y2, cell_x as int, cell_y as int) ==> entropy + 1
                                < wave[y2][x2].len()
                        }
                },
            decreases self.settings().height - y,
        {
            assert(wave[y as int].len() == self.settings().width);
            let mut x: usize = 0;
            while x < self.options.width
                invariant
                    self.wf(),
                    *self == *old(self),
                    wave == self@,
                    limit == self.catalog().tiles@.len(),
                    y < self.settings().height,
                    x <= self.settings().width,
                    wave[y as int].len() == self.settings().width,
                    entropy <= limit,
                    entropy == limit ==> forall|x2: int, y2: int| #[trigger]
                        is_open(wave, x2, y2) ==> !precedes(x2, y2, x as int, y as int),
                    entropy < limit ==> {
                        &&& is_open(wave, cell_x as int, cell_y as int)
                        &&& precedes(cell_x as int, cell_y as int, x as int, y as int)
                        &&& wave[cell_y as int][cell_x as int].len() == entropy + 1
                        &&& forall|x2: int, y2: int| #[trigger]
                            is_open(wave, x2, y2) && precedes(x2, y2, x as int, y as int) ==> {
                                &&& entropy + 1 <= wave[y2][x2].len()
                                &&& precedes(x2, y2, cell_x as int, cell_y as int) ==> entropy + 1
                                    < wave[y2][x2].len()
                            }
                    },
                decreases self.settings().width - x,
            {
                let cell = &self.cells[y][x];
                assert(cell@ == wave[y as int][x as int]);
                proof {
                    cell.lemma_bounded();
                }
                if !cell.is_collapsed() && !cell.is_contradiction() {
                    let e = cell.entropy();
                    if e < entropy {
                        entropy = e;
                        cell_x = x;
                        cell_y = y;
                    }
                }
                x += 1;
            }
            y += 1;
        }
        if entropy == limit {
            proof {
                assert forall|x2: int, y2: int| !is_open(wave, x2, y2) by {
                    if is_open(wave, x2, y2) {
                        assert(!(y2 < y));
                    }
                }
                lemma_without_open_cells(wave);
                lemma_selected_open(wave);
            }
            return None;
        }
        proof {
            assert(is_selected(wave, cell_x as int, cell_y as int));
            lemma_selected_is(wave, cell_x as int, cell_y as int);
            assert(wave[cell_y as int].len() == self.settings().width);
        }
        self.get(cell_x, cell_y)
    }

    /// One step of the generation. Where a cell is still open, the one that
    /// [`Grid::next_lowest_entropy`] selects is collapsed to a candidate drawn
    /// from `rng`, and the grid is propagated. Where none is open, the grid is
    /// marked as finished and left as it is.
    pub fn step(&mut self, rng: &mut StdRng)
        requires
            old(self).wf(),
        ensures
            final(self).wf(),
            final(self).catalog() == old(self).catalog(),
            final(self).settings() == old(self).settings(),
            selected(old(self)@) is None ==> final(self)@ == old(self)@ && final(self).done(),
            selected(old(self)@) is Some ==> final(self).done() == old(self).done() && collapse_step(
                old(self).catalog(),
                old(self)@,
                final(self)@,
            ),
            old(self).done() ==> selected(old(self)@) is None && final(self).done(),
            !final(self).done() ==> open_cells(final(self)@) < open_cells(old(self)@),
            narrows(final(self)@, old(self)@),
    {
        let ghost before = self@;
        let ghost catalog = self.catalog();
        proof {
            lemma_selected_open(before);
            lemma_without_open_cells(before);
        }
        match self.next_lowest_entropy() {
            None => {
                self.finished = true;
                proof {
                    assert(narrows(before, before));
                }
            },
            Some(next) => {
                let ghost place = selected(before)->0;
                let ghost chosen_from = next@;
                next.collapse(rng);
                let ghost tile = choose|tile: usize| #[trigger]
                    chosen_from.contains(tile) && next@ == set![tile];
                proof {
                    assert(chosen_from.contains(tile) && next@ == set![tile]);
                }
                self.propagate();
                proof {
                    assert(before[place.1][place.0].contains(tile));
                    assert(self@ == propagated(
                        catalog,
                        with_cell(before, place.0, place.1, set![tile]),
                    ));
                    assert(collapse_step(catalog, before, self@));
                    lemma_collapse_step_closes(catalog, before, self@);
                }
            },
        }
    }
}

} // verus!
