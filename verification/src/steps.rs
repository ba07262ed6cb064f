//! The steps of a generation on the model: which cell is collapsed next, what
//! one collapsing step does, and how many of them a run can make.

use crate::propagation::{lemma_propagated_settles, propagated};
use crate::tiles::Tileset;
use crate::wave::{
    finite_cells, has_shape, lemma_reduces_transitive, lemma_total_monotone,
    lemma_total_with_cell, lemma_with_cell_reduces, narrows, open_cells, openness, reduces,
    row_total, same_shape, with_cell, Wave,
};
use vstd::prelude::*;
use vstd::set_lib::*;

verus! {

/// The cell in column `x` of row `y` exists and can still be collapsed: it
/// has two candidates or more.
pub open spec fn is_open(wave: Wave, x: int, y: int) -> bool {
    &&& 0 <= y < wave.len()
    &&& 0 <= x < wave[y].len()
    &&& wave[y][x].len() >= 2
}

/// The cell in column `x` of row `y` exists and is a contradiction: it has no
/// candidate left.
pub open spec fn is_contradiction(wave: Wave, x: int, y: int) -> bool {
    &&& 0 <= y < wave.len()
    &&& 0 <= x < wave[y].len()
    &&& wave[y][x].len() == 0
}

/// Row-major order: the first place comes before the second.
pub open spec fn precedes(x1: int, y1: int, x2: int, y2: int) -> bool {
    y1 < y2 || (y1 == y2 && x1 < x2)
}

/// The cell in column `x` of row `y` is the one to collapse next: it is open,
/// no open cell has fewer candidates, and every open cell before it in
/// row-major order has more.
pub open spec fn is_selected(wave: Wave, x: int, y: int) -> bool {
    &&& is_open(wave, x, y)
    &&& forall|x2: int, y2: int| #[trigger]
        is_open(wave, x2, y2) ==> {
            &&& wave[y][x].len() <= wave[y2][x2].len()
            &&& precedes(x2, y2, x, y) ==> wave[y][x].len() < wave[y2][x2].len()
        }
}

/// The place of the cell to collapse next, as column and row, or nothing when
/// no cell is open.
pub open spec fn selected(wave: Wave) -> Option<(int, int)> {
    if exists|x: int, y: int| is_selected(wave, x, y) {
        Some(choose|place: (int, int)| is_selected(wave, place.0, place.1))
    } else {
        None
    }
}

/// At most one cell is the one to collapse next.
pub proof fn lemma_selected_unique(wave: Wave, x1: int, y1: int, x2: int, y2: int)
    requires
        is_selected(wave, x1, y1),
        is_selected(wave, x2, y2),
    ensures
        x1 == x2,
        y1 == y2,
{
    assert(is_open(wave, x1, y1));
    assert(is_open(wave, x2, y2));
}

/// A cell that meets [`is_selected`] is what [`selected`] returns.
pub proof fn lemma_selected_is(wave: Wave, x: int, y: int)
    requires
        is_selected(wave, x, y),
    ensures
        selected(wave) == Some((x, y)),
{
    let witness = (x, y);
    assert(is_selected(wave, witness.0, witness.1));
    let place = choose|place: (int, int)| is_selected(wave, place.0, place.1);
    lemma_selected_unique(wave, x, y, place.0, place.1);
}

/// Where a cell is selected, that cell is open.
pub proof fn lemma_selected_open(wave: Wave)
    ensures
        selected(wave) matches Some(place) ==> is_selected(wave, place.0, place.1),
{
    if exists|x: int, y: int| is_selected(wave, x, y) {
        let (x, y) = choose|x: int, y: int| is_selected(wave, x, y);
        let witness = (x, y);
        assert(is_selected(wave, witness.0, witness.1));
    }
}

/// A row counts no open cell exactly when none of its cells has two
/// candidates.
pub proof fn lemma_row_without_open_cells(row: Seq<Set<usize>>)
    ensures
        row_total(row, |cell: Set<usize>| openness(cell)) == 0 <==> forall|x: int|
            0 <= x < row.len() ==> (#[trigger] row[x]).len() < 2,
    decreases row.len(),
{
    let measure = |cell: Set<usize>| openness(cell);
    if row.len() > 0 {
        lemma_row_without_open_cells(row.drop_last());
        if row_total(row, measure) == 0 {
            assert forall|x: int| 0 <= x < row.len() implies (#[trigger] row[x]).len() < 2 by {
                if x < row.len() - 1 {
                    assert(row.drop_last()[x] == row[x]);
                } else {
                    assert(measure(row.last()) == 0);
                }
            }
        }
        if forall|x: int| 0 <= x < row.len() ==> (#[trigger] row[x]).len() < 2 {
            assert forall|x: int| 0 <= x < row.drop_last().len() implies (
            #[trigger] row.drop_last()[x]).len() < 2 by {
                assert(row.drop_last()[x] == row[x]);
            }
            assert(row[row.len() - 1].len() < 2);
            assert(measure(row.last()) == 0);
        }
    }
}

/// A wave counts no open cell exactly when no cell is open.
pub proof fn lemma_without_open_cells(wave: Wave)
    ensures
        open_cells(wave) == 0 <==> forall|x: int, y: int| !is_open(wave, x, y),
    decreases wave.len(),
{
    let measure = |cell: Set<usize>| openness(cell);
    if wave.len() > 0 {
        let last = wave.len() - 1;
        lemma_without_open_cells(wave.drop_last());
        lemma_row_without_open_cells(wave.last());
        assert(open_cells(wave) == open_cells(wave.drop_last()) + row_total(wave.last(), measure));
        if open_cells(wave) == 0 {
            assert forall|x: int, y: int| !is_open(wave, x, y) by {
                if 0 <= y < last {
                    assert(!is_open(wave.drop_last(), x, y));
                    assert(wave.drop_last()[y] == wave[y]);
                } else if y == last && 0 <= x < wave[y].len() {
                    assert(wave.last()[x].len() < 2);
                }
            }
        }
        if forall|x: int, y: int| !is_open(wave, x, y) {
            assert forall|x: int, y: int| !is_open(wave.drop_last(), x, y) by {
                if 0 <= y < last {
                    assert(wave.drop_last()[y] == wave[y]);
                    assert(!is_open(wave, x, y));
                }
            }
            assert forall|x: int| 0 <= x < wave.last().len() implies (#[trigger] wave.last()[x]).len()
                < 2 by {
                assert(!is_open(wave, x, last));
            }
        }
    } else {
        assert forall|x: int, y: int| !is_open(wave, x, y) by {}
    }
}

/// Removing candidates opens no cell.
pub proof fn lemma_reduces_open_cells(before: Wave, after: Wave)
    requires
        finite_cells(before),
        reduces(before, after),
    ensures
        open_cells(after) <= open_cells(before),
{
    let measure = |cell: Set<usize>| openness(cell);
    assert forall|y: int, x: int| 0 <= y < after.len() && 0 <= x < after[y].len() implies measure(
        #[trigger] after[y][x],
    ) <= measure(before[y][x]) by {
        assert(after[y].len() == before[y].len());
        assert(after[y][x].subset_of(before[y][x]));
        lemma_len_subset(after[y][x], before[y][x]);
    }
    lemma_total_monotone(after, before, measure);
}

/// Committing an open cell to one candidate leaves one open cell fewer.
pub proof fn lemma_collapse_closes(wave: Wave, x: int, y: int, tile: usize)
    requires
        is_open(wave, x, y),
    ensures
        open_cells(with_cell(wave, x, y, set![tile])) + 1 == open_cells(wave),
{
    assert(set![tile].len() == 1) by {
        assert(set![tile].is_singleton());
        set![tile].lemma_singleton_size();
    }
    lemma_total_with_cell(wave, x, y, set![tile], |cell: Set<usize>| openness(cell));
}

/// A row has no more open cells than cells.
pub proof fn lemma_row_open_cells_bounded(row: Seq<Set<usize>>)
    ensures
        row_total(row, |cell: Set<usize>| openness(cell)) <= row.len(),
    decreases row.len(),
{
    if row.len() > 0 {
        lemma_row_open_cells_bounded(row.drop_last());
    }
}

/// A wave has no more open cells than cells.
pub proof fn lemma_open_cells_bounded(wave: Wave, width: nat, height: nat)
    requires
        has_shape(wave, width, height),
    ensures
        open_cells(wave) <= width * height,
    decreases height,
{
    if height > 0 {
        let above = wave.drop_last();
        assert(has_shape(above, width, (height - 1) as nat)) by {
            assert forall|y: int| 0 <= y < height - 1 implies (#[trigger] above[y]).len() == width by {
                assert(above[y] == wave[y]);
            }
        }
        lemma_open_cells_bounded(above, width, (height - 1) as nat);
        lemma_row_open_cells_bounded(wave.last());
        assert(wave[height - 1].len() == width);
        assert(width * (height - 1) + width == width * height) by (nonlinear_arith);
    } else {
        assert(width * height == 0) by (nonlinear_arith)
            requires
                height == 0,
        ;
    }
}

/// One collapsing step: the selected cell is committed to one of its
/// candidates and the result is propagated.
pub open spec fn collapse_step(catalog: Tileset, before: Wave, after: Wave) -> bool {
    &&& selected(before) matches Some(place)
    &&& exists|tile: usize| #[trigger]
        before[place.1][place.0].contains(tile) && after == propagated(
            catalog,
            with_cell(before, place.0, place.1, set![tile]),
        )
}

/// A collapsing step keeps the shape and leaves fewer open cells.
pub proof fn lemma_collapse_step_closes(catalog: Tileset, before: Wave, after: Wave)
    requires
        finite_cells(before),
        collapse_step(catalog, before, after),
    ensures
        finite_cells(after),
        same_shape(after, before),
        narrows(after, before),
        open_cells(after) < open_cells(before),
{
    lemma_selected_open(before);
    let place = selected(before)->0;
    let (x, y) = place;
    let tile = choose|tile: usize| #[trigger]
        before[y][x].contains(tile) && after == propagated(
            catalog,
            with_cell(before, x, y, set![tile]),
        );
    let chosen = with_cell(before, x, y, set![tile]);
    assert(set![tile].subset_of(before[y][x]));
    lemma_with_cell_reduces(before, x, y, set![tile]);
    lemma_collapse_closes(before, x, y, tile);
    lemma_propagated_settles(catalog, chosen);
    lemma_reduces_open_cells(chosen, after);
    lemma_reduces_transitive(before, chosen, after);
}

/// A run of collapsing steps: each wave comes out of the one before it by one
/// such step.
pub open spec fn is_run(catalog: Tileset, trace: Seq<Wave>) -> bool {
    forall|i: int| 0 < i < trace.len() ==> collapse_step(catalog, trace[i - 1], #[trigger] trace[i])
}

/// A run on a grid of `width` by `height` cells makes no more collapsing
/// steps than the grid has open cells at its start, so no more than `width`
/// times `height`. The step after the last of them finds no open cell and
/// finishes the grid.
pub proof fn lemma_run_is_bounded(catalog: Tileset, trace: Seq<Wave>, width: nat, height: nat)
    requires
        trace.len() > 0,
        finite_cells(trace[0]),
        has_shape(trace[0], width, height),
        is_run(catalog, trace),
    ensures
        finite_cells(trace.last()),
        has_shape(trace.last(), width, height),
        narrows(trace.last(), trace[0]),
        (trace.len() - 1) + open_cells(trace.last()) <= open_cells(trace[0]),
        open_cells(trace[0]) <= width * height,
    decreases trace.len(),
{
    lemma_open_cells_bounded(trace[0], width, height);
    if trace.len() > 1 {
        let earlier = trace.drop_last();
        assert(is_run(catalog, earlier)) by {
            assert forall|i: int| 0 < i < earlier.len() implies collapse_step(
                catalog,
                earlier[i - 1],
                #[trigger] earlier[i],
            ) by {
                assert(collapse_step(catalog, trace[i - 1], trace[i]));
            }
        }
        lemma_run_is_bounded(catalog, earlier, width, height);
        let before = earlier.last();
        let after = trace.last();
        assert(collapse_step(catalog, trace[trace.len() - 2], trace[trace.len() - 1]));
        lemma_collapse_step_closes(catalog, before, after);
        assert(narrows(after, trace[0])) by {
            assert forall|y: int, x: int|
                #![trigger after[y][x]]
                #![trigger trace[0][y][x]]
                0 <= y < after.len() && 0 <= x < after[y].len() implies after[y][x].subset_of(
                trace[0][y][x],
            ) by {
                assert(after[y].len() == before[y].len());
                assert(after[y][x].subset_of(before[y][x]));
                assert(before[y][x].subset_of(trace[0][y][x]));
            }
        }
        assert(has_shape(after, width, height)) by {
            assert forall|y: int| 0 <= y < height implies (#[trigger] after[y]).len() == width by {
                assert(after[y].len() == before[y].len());
            }
        }
    } else {
        assert(narrows(trace[0], trace[0]));
    }
}

} // verus!
