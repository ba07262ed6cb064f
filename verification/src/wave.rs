//! The mathematical model of a grid: for every cell the set of catalog indices
//! that are still possible there, what constraining does to a cell, and how
//! waves are measured and compared.
//!
//! Everything here is ghost code: definitions and the lemmas about them. The
//! executable grid states its contracts in these terms.

use crate::tiles::{connects, Edge, Tileset};
use vstd::prelude::*;
use vstd::set_lib::*;

verus! {

/// The candidates of every cell: `wave[y][x]` is the set of the cell in
/// column `x` of row `y`.
pub type Wave = Seq<Seq<Set<usize>>>;

/// Whether the neighbour still has a candidate that may lie next to `tile` in
/// direction `edge`.
pub open spec fn supported(catalog: Tileset, tile: usize, neighbour: Set<usize>, edge: Edge) -> bool {
    exists|other: usize| #[trigger]
        neighbour.contains(other) && connects(
            catalog.tiles@[tile as int],
            catalog.tiles@[other as int],
            edge,
        )
}

/// What is left of `cell` after it has been constrained against the neighbour
/// that lies in direction `edge`: a collapsed cell stays as it is, any other
/// keeps exactly the candidates that the neighbour supports.
pub open spec fn constrained(
    catalog: Tileset,
    cell: Set<usize>,
    neighbour: Set<usize>,
    edge: Edge,
) -> Set<usize> {
    if cell.len() == 1 {
        cell
    } else {
        cell.filter(|tile: usize| supported(catalog, tile, neighbour, edge))
    }
}

/// Constraining only removes candidates, and removes none exactly when it
/// leaves the size as it was.
pub proof fn lemma_constrained_shrinks(
    catalog: Tileset,
    cell: Set<usize>,
    neighbour: Set<usize>,
    edge: Edge,
)
    requires
        cell.finite(),
    ensures
        constrained(catalog, cell, neighbour, edge).subset_of(cell),
        constrained(catalog, cell, neighbour, edge).finite(),
        constrained(catalog, cell, neighbour, edge).len() <= cell.len(),
        constrained(catalog, cell, neighbour, edge).len() == cell.len() ==> constrained(
            catalog,
            cell,
            neighbour,
            edge,
        ) == cell,
{
    let after = constrained(catalog, cell, neighbour, edge);
    cell.lemma_len_filter(|tile: usize| supported(catalog, tile, neighbour, edge));
    if after.len() == cell.len() {
        lemma_subset_equality(after, cell);
    }
}

/// The cell after a series of constrain calls, each against its own neighbour
/// set and direction, in the given order.
pub open spec fn constrained_by_all(
    catalog: Tileset,
    cell: Set<usize>,
    calls: Seq<(Set<usize>, Edge)>,
) -> Set<usize>
    decreases calls.len(),
{
    if calls.len() == 0 {
        cell
    } else {
        constrained(
            catalog,
            constrained_by_all(catalog, cell, calls.drop_last()),
            calls.last().0,
            calls.last().1,
        )
    }
}

/// After any number of constrain calls a cell holds no candidate that it did
/// not hold before, so it is no larger than it was.
pub proof fn lemma_constraining_never_grows(
    catalog: Tileset,
    cell: Set<usize>,
    calls: Seq<(Set<usize>, Edge)>,
)
    requires
        cell.finite(),
    ensures
        constrained_by_all(catalog, cell, calls).subset_of(cell),
        constrained_by_all(catalog, cell, calls).finite(),
        constrained_by_all(catalog, cell, calls).len() <= cell.len(),
    decreases calls.len(),
{
    if calls.len() > 0 {
        let before = constrained_by_all(catalog, cell, calls.drop_last());
        lemma_constraining_never_grows(catalog, cell, calls.drop_last());
        lemma_constrained_shrinks(catalog, before, calls.last().0, calls.last().1);
    }
}

/// Every cell of the wave is a finite set.
pub open spec fn finite_cells(wave: Wave) -> bool {
    forall|y: int, x: int|
        0 <= y < wave.len() && 0 <= x < wave[y].len() ==> (#[trigger] wave[y][x]).finite()
}

/// The wave has `height` rows of `width` cells each.
pub open spec fn has_shape(wave: Wave, width: nat, height: nat) -> bool {
    &&& wave.len() == height
    &&& forall|y: int| 0 <= y < height ==> (#[trigger] wave[y]).len() == width
}

/// Two waves have the same number of rows, and row by row the same number of
/// cells.
pub open spec fn same_shape(a: Wave, b: Wave) -> bool {
    &&& a.len() == b.len()
    &&& forall|y: int|
        #![trigger a[y]]
        #![trigger b[y]]
        0 <= y < a.len() ==> a[y].len() == b[y].len()
}

/// Cell by cell, `after` holds no candidate that `before` does not hold.
pub open spec fn narrows(after: Wave, before: Wave) -> bool {
    &&& same_shape(after, before)
    &&& forall|y: int, x: int|
        #![trigger after[y][x]]
        #![trigger before[y][x]]
        0 <= y < after.len() && 0 <= x < after[y].len() ==> after[y][x].subset_of(before[y][x])
}

/// The wave with the cell in column `x` of row `y` replaced by `cell`.
pub open spec fn with_cell(wave: Wave, x: int, y: int, cell: Set<usize>) -> Wave {
    wave.update(y, wave[y].update(x, cell))
}

/// The sum of `measure` over the cells of a row.
pub open spec fn row_total(row: Seq<Set<usize>>, measure: spec_fn(Set<usize>) -> nat) -> nat
    decreases row.len(),
{
    if row.len() == 0 {
        0
    } else {
        row_total(row.drop_last(), measure) + measure(row.last())
    }
}

/// The sum of `measure` over all cells of a wave.
pub open spec fn total(wave: Wave, measure: spec_fn(Set<usize>) -> nat) -> nat
    decreases wave.len(),
{
    if wave.len() == 0 {
        0
    } else {
        total(wave.drop_last(), measure) + row_total(wave.last(), measure)
    }
}

/// The number of candidates of a cell.
pub open spec fn size_of(cell: Set<usize>) -> nat {
    cell.len()
}

/// One for a cell that can still be collapsed, with two candidates or more,
/// and zero for any other.
pub open spec fn openness(cell: Set<usize>) -> nat {
    if cell.len() >= 2 {
        1
    } else {
        0
    }
}

/// The number of candidates in the whole wave.
pub open spec fn weight(wave: Wave) -> nat {
    total(wave, |cell: Set<usize>| size_of(cell))
}

/// The number of cells that can still be collapsed.
pub open spec fn open_cells(wave: Wave) -> nat {
    total(wave, |cell: Set<usize>| openness(cell))
}

/// Replacing one cell of a row changes the row's sum by the difference of the
/// two cells' measures.
pub proof fn lemma_row_total_update(
    row: Seq<Set<usize>>,
    x: int,
    cell: Set<usize>,
    measure: spec_fn(Set<usize>) -> nat,
)
    requires
        0 <= x < row.len(),
    ensures
        row_total(row.update(x, cell), measure) + measure(row[x]) == row_total(row, measure)
            + measure(cell),
    decreases row.len(),
{
    let changed = row.update(x, cell);
    if x == row.len() - 1 {
        assert(changed.drop_last() =~= row.drop_last());
    } else {
        assert(changed.drop_last() =~= row.drop_last().update(x, cell));
        lemma_row_total_update(row.drop_last(), x, cell, measure);
    }
}

/// Replacing one row of a wave changes the wave's sum by the difference of
/// the two rows' sums.
pub proof fn lemma_total_update(
    wave: Wave,
    y: int,
    row: Seq<Set<usize>>,
    measure: spec_fn(Set<usize>) -> nat,
)
    requires
        0 <= y < wave.len(),
    ensures
        total(wave.update(y, row), measure) + row_total(wave[y], measure) == total(wave, measure)
            + row_total(row, measure),
    decreases wave.len(),
{
    let changed = wave.update(y, row);
    if y == wave.len() - 1 {
        assert(changed.drop_last() =~= wave.drop_last());
    } else {
        assert(changed.drop_last() =~= wave.drop_last().update(y, row));
        lemma_total_update(wave.drop_last(), y, row, measure);
    }
}

/// Replacing one cell of a wave changes the wave's sum by the difference of
/// the two cells' measures.
pub proof fn lemma_total_with_cell(
    wave: Wave,
    x: int,
    y: int,
    cell: Set<usize>,
    measure: spec_fn(Set<usize>) -> nat,
)
    requires
        0 <= y < wave.len(),
        0 <= x < wave[y].len(),
    ensures
        total(with_cell(wave, x, y, cell), measure) + measure(wave[y][x]) == total(wave, measure)
            + measure(cell),
{
    lemma_row_total_update(wave[y], x, cell, measure);
    lemma_total_update(wave, y, wave[y].update(x, cell), measure);
}

/// A row whose cells measure no more than those of another row sums to no
/// more.
pub proof fn lemma_row_total_monotone(
    low: Seq<Set<usize>>,
    high: Seq<Set<usize>>,
    measure: spec_fn(Set<usize>) -> nat,
)
    requires
        low.len() == high.len(),
        forall|x: int| 0 <= x < low.len() ==> measure(#[trigger] low[x]) <= measure(high[x]),
    ensures
        row_total(low, measure) <= row_total(high, measure),
    decreases low.len(),
{
    if low.len() > 0 {
        assert forall|x: int| 0 <= x < low.drop_last().len() implies measure(
            #[trigger] low.drop_last()[x],
        ) <= measure(high.drop_last()[x]) by {
            assert(low.drop_last()[x] == low[x]);
        }
        lemma_row_total_monotone(low.drop_last(), high.drop_last(), measure);
        assert(measure(low[low.len() - 1]) <= measure(high[low.len() - 1]));
    }
}

/// A wave whose cells measure no more than those of another wave sums to no
/// more.
pub proof fn lemma_total_monotone(low: Wave, high: Wave, measure: spec_fn(Set<usize>) -> nat)
    requires
        same_shape(low, high),
        forall|y: int, x: int|
            0 <= y < low.len() && 0 <= x < low[y].len() ==> measure(#[trigger] low[y][x]) <= measure(
                high[y][x],
            ),
    ensures
        total(low, measure) <= total(high, measure),
    decreases low.len(),
{
    if low.len() > 0 {
        let last = low.len() - 1;
        assert(same_shape(low.drop_last(), high.drop_last())) by {
            assert forall|y: int| 0 <= y < low.drop_last().len() implies low.drop_last()[y].len()
                == high.drop_last()[y].len() by {
                assert(low[y].len() == high[y].len());
            }
        }
        assert forall|y: int, x: int|
            0 <= y < low.drop_last().len() && 0 <= x < low.drop_last()[y].len() implies measure(
            #[trigger] low.drop_last()[y][x],
        ) <= measure(high.drop_last()[y][x]) by {
            assert(low.drop_last()[y][x] == low[y][x]);
        }
        lemma_total_monotone(low.drop_last(), high.drop_last(), measure);
        assert(low[last].len() == high[last].len());
        assert forall|x: int| 0 <= x < low[last].len() implies measure(#[trigger] low[last][x])
            <= measure(high[last][x]) by {
            assert(measure(low[last][x]) <= measure(high[last][x]));
        }
        lemma_row_total_monotone(low[last], high[last], measure);
    }
}

/// `after` came out of `before` by removing candidates: it has the same
/// shape, finite cells, no candidate that `before` lacks, no larger weight,
/// and the same weight only when nothing was removed at all.
pub open spec fn reduces(before: Wave, after: Wave) -> bool {
    &&& finite_cells(after)
    &&& narrows(after, before)
    &&& weight(after) <= weight(before)
    &&& weight(after) == weight(before) ==> after == before
}

/// Reductions compose.
pub proof fn lemma_reduces_transitive(first: Wave, second: Wave, third: Wave)
    requires
        reduces(first, second),
        reduces(second, third),
    ensures
        reduces(first, third),
{
    assert(narrows(third, first)) by {
        assert forall|y: int, x: int|
            #![trigger third[y][x]]
            #![trigger first[y][x]]
            0 <= y < third.len() && 0 <= x < third[y].len() implies third[y][x].subset_of(
            first[y][x],
        ) by {
            assert(third[y].len() == second[y].len());
            assert(third[y][x].subset_of(second[y][x]));
            assert(second[y][x].subset_of(first[y][x]));
        }
    }
}

/// Replacing a finite cell by a subset of it reduces the wave.
pub proof fn lemma_with_cell_reduces(wave: Wave, x: int, y: int, cell: Set<usize>)
    requires
        finite_cells(wave),
        0 <= y < wave.len(),
        0 <= x < wave[y].len(),
        cell.subset_of(wave[y][x]),
    ensures
        reduces(wave, with_cell(wave, x, y, cell)),
        cell.len() < wave[y][x].len() ==> weight(with_cell(wave, x, y, cell)) < weight(wave),
{
    let after = with_cell(wave, x, y, cell);
    lemma_len_subset(cell, wave[y][x]);
    lemma_total_with_cell(wave, x, y, cell, |cell: Set<usize>| size_of(cell));
    assert(finite_cells(after)) by {
        assert forall|r: int, c: int| 0 <= r < after.len() && 0 <= c < after[r].len() implies (
        #[trigger] after[r][c]).finite() by {
            if r == y && c == x {
            } else {
                assert(after[r][c] == wave[r][c]);
            }
        }
    }
    assert(narrows(after, wave)) by {
        assert forall|r: int, c: int|
            #![trigger after[r][c]]
            #![trigger wave[r][c]]
            0 <= r < after.len() && 0 <= c < after[r].len() implies after[r][c].subset_of(
            wave[r][c],
        ) by {
            if r == y && c == x {
            } else {
                assert(after[r][c] == wave[r][c]);
            }
        }
    }
    if weight(after) == weight(wave) {
        lemma_subset_equality(cell, wave[y][x]);
        assert(wave[y].update(x, cell) =~= wave[y]);
        assert(after =~= wave);
    }
}

/// The wave of a fresh grid: `height` rows of `width` cells that all hold
/// `cell`.
pub open spec fn uniform(width: nat, height: nat, cell: Set<usize>) -> Wave {
    Seq::new(height, |y: int| Seq::new(width, |x: int| cell))
}

} // verus!
