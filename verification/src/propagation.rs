//! Propagation on the model: what one visit, one sweep and the whole
//! propagation do to a wave, and what holds of the wave they leave.

use crate::tiles::{Edge, Tileset};
use crate::wave::{
    constrained, finite_cells, lemma_constrained_shrinks, lemma_reduces_transitive,
    lemma_with_cell_reduces, reduces, supported, weight, with_cell, Wave,
};
use vstd::prelude::*;

verus! {

/// The cell in column `x` of row `y` after one visit of a sweep: constrained
/// in turn against the neighbours above it, to its right, below it and to its
/// left, as far as the grid has them.
pub open spec fn visited(catalog: Tileset, wave: Wave, x: int, y: int) -> Set<usize> {
    let start = wave[y][x];
    let top = if y > 0 {
        constrained(catalog, start, wave[y - 1][x], Edge::Top)
    } else {
        start
    };
    let right = if x + 1 < wave[y].len() {
        constrained(catalog, top, wave[y][x + 1], Edge::Right)
    } else {
        top
    };
    let bottom = if y + 1 < wave.len() {
        constrained(catalog, right, wave[y + 1][x], Edge::Bottom)
    } else {
        right
    };
    if x > 0 {
        constrained(catalog, bottom, wave[y][x - 1], Edge::Left)
    } else {
        bottom
    }
}

/// The wave after the cell in column `x` of row `y` has been visited.
pub open spec fn visit(catalog: Tileset, wave: Wave, x: int, y: int) -> Wave {
    with_cell(wave, x, y, visited(catalog, wave, x, y))
}

/// The wave after the first `count` cells of row `y` have been visited, from
/// left to right, each against the wave as the visits before it left it.
pub open spec fn sweep_row(catalog: Tileset, wave: Wave, y: int, count: nat) -> Wave
    decreases count,
{
    if count == 0 {
        wave
    } else {
        visit(catalog, sweep_row(catalog, wave, y, (count - 1) as nat), count - 1, y)
    }
}

/// The wave after the first `count` rows have been swept, from top to bottom.
pub open spec fn sweep_rows(catalog: Tileset, wave: Wave, count: nat) -> Wave
    decreases count,
{
    if count == 0 {
        wave
    } else {
        let above = sweep_rows(catalog, wave, (count - 1) as nat);
        sweep_row(catalog, above, count - 1, above[count - 1].len())
    }
}

/// The wave after one sweep over all its cells in row-major order.
pub open spec fn sweep(catalog: Tileset, wave: Wave) -> Wave {
    sweep_rows(catalog, wave, wave.len())
}

/// A visit reduces the wave.
pub proof fn lemma_visit_reduces(catalog: Tileset, wave: Wave, x: int, y: int)
    requires
        finite_cells(wave),
        0 <= y < wave.len(),
        0 <= x < wave[y].len(),
    ensures
        reduces(wave, visit(catalog, wave, x, y)),
        visited(catalog, wave, x, y).subset_of(wave[y][x]),
{
    let start = wave[y][x];
    let top = if y > 0 {
        constrained(catalog, start, wave[y - 1][x], Edge::Top)
    } else {
        start
    };
    let right = if x + 1 < wave[y].len() {
        constrained(catalog, top, wave[y][x + 1], Edge::Right)
    } else {
        top
    };
    let bottom = if y + 1 < wave.len() {
        constrained(catalog, right, wave[y + 1][x], Edge::Bottom)
    } else {
        right
    };
    lemma_constrained_shrinks(catalog, start, wave[y - 1][x], Edge::Top);
    lemma_constrained_shrinks(catalog, top, wave[y][x + 1], Edge::Right);
    lemma_constrained_shrinks(catalog, right, wave[y + 1][x], Edge::Bottom);
    lemma_constrained_shrinks(catalog, bottom, wave[y][x - 1], Edge::Left);
    lemma_with_cell_reduces(wave, x, y, visited(catalog, wave, x, y));
}

/// Visiting the first cells of a row reduces the wave.
pub proof fn lemma_sweep_row_reduces(catalog: Tileset, wave: Wave, y: int, count: nat)
    requires
        finite_cells(wave),
        0 <= y < wave.len(),
        count <= wave[y].len(),
    ensures
        reduces(wave, sweep_row(catalog, wave, y, count)),
    decreases count,
{
    if count > 0 {
        let earlier = sweep_row(catalog, wave, y, (count - 1) as nat);
        lemma_sweep_row_reduces(catalog, wave, y, (count - 1) as nat);
        assert(earlier[y].len() == wave[y].len());
        lemma_visit_reduces(catalog, earlier, count - 1, y);
        lemma_reduces_transitive(wave, earlier, visit(catalog, earlier, count - 1, y));
    }
}

/// Sweeping the first rows reduces the wave.
pub proof fn lemma_sweep_rows_reduces(catalog: Tileset, wave: Wave, count: nat)
    requires
        finite_cells(wave),
        count <= wave.len(),
    ensures
        reduces(wave, sweep_rows(catalog, wave, count)),
    decreases count,
{
    if count > 0 {
        let above = sweep_rows(catalog, wave, (count - 1) as nat);
        lemma_sweep_rows_reduces(catalog, wave, (count - 1) as nat);
        lemma_sweep_row_reduces(catalog, above, count - 1, above[count - 1].len());
        lemma_reduces_transitive(
            wave,
            above,
            sweep_row(catalog, above, count - 1, above[count - 1].len()),
        );
    }
}

/// A sweep only removes candidates, and it removes none exactly when it
/// leaves the weight as it was.
pub proof fn lemma_sweep_reduces(catalog: Tileset, wave: Wave)
    requires
        finite_cells(wave),
    ensures
        reduces(wave, sweep(catalog, wave)),
{
    lemma_sweep_rows_reduces(catalog, wave, wave.len());
}

/// A wave is settled when a sweep removes nothing from it.
pub open spec fn settled(catalog: Tileset, wave: Wave) -> bool {
    sweep(catalog, wave) == wave
}

/// The cell in column `x` of row `y` has nothing to lose: it is collapsed,
/// or each of its candidates has, in every neighbour that the grid has, a
/// candidate that may lie next to it.
pub open spec fn consistent_at(catalog: Tileset, wave: Wave, x: int, y: int) -> bool {
    wave[y][x].len() != 1 ==> forall|tile: usize| #[trigger]
        wave[y][x].contains(tile) ==> {
            &&& y > 0 ==> supported(catalog, tile, wave[y - 1][x], Edge::Top)
            &&& x + 1 < wave[y].len() ==> supported(catalog, tile, wave[y][x + 1], Edge::Right)
            &&& y + 1 < wave.len() ==> supported(catalog, tile, wave[y + 1][x], Edge::Bottom)
            &&& x > 0 ==> supported(catalog, tile, wave[y][x - 1], Edge::Left)
        }
}

/// Every cell of the wave has nothing to lose: the wave is arc-consistent,
/// but for its collapsed cells, which are never constrained.
pub open spec fn arc_consistent(catalog: Tileset, wave: Wave) -> bool {
    forall|x: int, y: int|
        0 <= y < wave.len() && 0 <= x < wave[y].len() ==> #[trigger] consistent_at(
            catalog,
            wave,
            x,
            y,
        )
}

/// A finite cell that is not collapsed keeps all its candidates under a
/// constrain call exactly when the neighbour supports each of them.
proof fn lemma_constrained_fixed(
    catalog: Tileset,
    cell: Set<usize>,
    neighbour: Set<usize>,
    edge: Edge,
)
    requires
        cell.finite(),
        cell.len() != 1,
    ensures
        constrained(catalog, cell, neighbour, edge) == cell <==> forall|tile: usize| #[trigger]
            cell.contains(tile) ==> supported(catalog, tile, neighbour, edge),
{
    let after = constrained(catalog, cell, neighbour, edge);
    if after == cell {
        assert forall|tile: usize| #[trigger] cell.contains(tile) implies supported(
            catalog,
            tile,
            neighbour,
            edge,
        ) by {
            assert(after.contains(tile));
        }
    }
    if forall|tile: usize| #[trigger] cell.contains(tile) ==> supported(catalog, tile, neighbour, edge) {
        assert(after =~= cell);
    }
}

/// A visit leaves a cell as it is exactly when the cell has nothing to lose.
pub proof fn lemma_visited_fixed(catalog: Tileset, wave: Wave, x: int, y: int)
    requires
        finite_cells(wave),
        0 <= y < wave.len(),
        0 <= x < wave[y].len(),
    ensures
        visited(catalog, wave, x, y) == wave[y][x] <==> consistent_at(catalog, wave, x, y),
{
    let start = wave[y][x];
    let top = if y > 0 {
        constrained(catalog, start, wave[y - 1][x], Edge::Top)
    } else {
        start
    };
    let right = if x + 1 < wave[y].len() {
        constrained(catalog, top, wave[y][x + 1], Edge::Right)
    } else {
        top
    };
    let bottom = if y + 1 < wave.len() {
        constrained(catalog, right, wave[y + 1][x], Edge::Bottom)
    } else {
        right
    };
    let left = visited(catalog, wave, x, y);
    lemma_constrained_shrinks(catalog, start, wave[y - 1][x], Edge::Top);
    lemma_constrained_shrinks(catalog, top, wave[y][x + 1], Edge::Right);
    lemma_constrained_shrinks(catalog, right, wave[y + 1][x], Edge::Bottom);
    lemma_constrained_shrinks(catalog, bottom, wave[y][x - 1], Edge::Left);
    if start.len() != 1 {
        if left == start {
            // The four results are nested, so all of them are the cell.
            assert(bottom =~= start);
            assert(right =~= start);
            assert(top =~= start);
        }
        lemma_constrained_fixed(catalog, start, wave[y - 1][x], Edge::Top);
        if top == start {
            lemma_constrained_fixed(catalog, start, wave[y][x + 1], Edge::Right);
            if right == start {
                lemma_constrained_fixed(catalog, start, wave[y + 1][x], Edge::Bottom);
                if bottom == start {
                    lemma_constrained_fixed(catalog, start, wave[y][x - 1], Edge::Left);
                }
            }
        }
    }
}

/// Visiting the first cells of a row leaves the wave as it is exactly when
/// each of those cells has nothing to lose.
proof fn lemma_sweep_row_fixed(catalog: Tileset, wave: Wave, y: int, count: nat)
    requires
        finite_cells(wave),
        0 <= y < wave.len(),
        count <= wave[y].len(),
    ensures
        sweep_row(catalog, wave, y, count) == wave <==> forall|x: int|
            0 <= x < count ==> #[trigger] consistent_at(catalog, wave, x, y),
    decreases count,
{
    if count > 0 {
        let last = count - 1;
        let earlier = sweep_row(catalog, wave, y, last as nat);
        let after = visit(catalog, earlier, last, y);
        lemma_sweep_row_fixed(catalog, wave, y, last as nat);
        lemma_sweep_row_reduces(catalog, wave, y, last as nat);
        assert(earlier[y].len() == wave[y].len());
        lemma_visit_reduces(catalog, earlier, last, y);
        lemma_visited_fixed(catalog, wave, last, y);
        if after == wave {
            assert(earlier == wave);
            assert(after[y][last] == visited(catalog, wave, last, y));
            assert forall|x: int| 0 <= x < count implies #[trigger] consistent_at(
                catalog,
                wave,
                x,
                y,
            ) by {}
        }
        if forall|x: int| 0 <= x < count ==> #[trigger] consistent_at(catalog, wave, x, y) {
            assert(consistent_at(catalog, wave, last, y));
            assert(earlier == wave);
            assert(wave[y].update(last, wave[y][last]) =~= wave[y]);
            assert(after =~= wave);
        }
    }
}

/// Sweeping the first rows leaves the wave as it is exactly when each cell of
/// those rows has nothing to lose.
proof fn lemma_sweep_rows_fixed(catalog: Tileset, wave: Wave, count: nat)
    requires
        finite_cells(wave),
        count <= wave.len(),
    ensures
        sweep_rows(catalog, wave, count) == wave <==> forall|x: int, y: int|
            0 <= y < count && 0 <= x < wave[y].len() ==> #[trigger] consistent_at(
                catalog,
                wave,
                x,
                y,
            ),
    decreases count,
{
    if count > 0 {
        let last = count - 1;
        let above = sweep_rows(catalog, wave, last as nat);
        let after = sweep_row(catalog, above, last, above[last].len());
        lemma_sweep_rows_fixed(catalog, wave, last as nat);
        lemma_sweep_rows_reduces(catalog, wave, last as nat);
        assert(above[last].len() == wave[last].len());
        lemma_sweep_row_reduces(catalog, above, last, above[last].len());
        lemma_sweep_row_fixed(catalog, wave, last, wave[last].len());
        if after == wave {
            assert(above == wave);
            assert forall|x: int, y: int|
                0 <= y < count && 0 <= x < wave[y].len() implies #[trigger] consistent_at(
                catalog,
                wave,
                x,
                y,
            ) by {}
        }
        if forall|x: int, y: int|
            0 <= y < count && 0 <= x < wave[y].len() ==> #[trigger] consistent_at(catalog, wave, x, y) {
            assert(above == wave);
            assert forall|x: int| 0 <= x < wave[last].len() implies #[trigger] consistent_at(
                catalog,
                wave,
                x,
                last,
            ) by {}
            assert(after == wave);
        }
    }
}

/// A sweep removes nothing exactly when the wave is arc-consistent.
pub proof fn lemma_settled_iff_arc_consistent(catalog: Tileset, wave: Wave)
    requires
        finite_cells(wave),
    ensures
        settled(catalog, wave) <==> arc_consistent(catalog, wave),
{
    lemma_sweep_rows_fixed(catalog, wave, wave.len());
}

/// The fixed point that propagation reaches: the wave swept again and again
/// until a sweep removes nothing.
pub open spec fn propagated(catalog: Tileset, wave: Wave) -> Wave
    decreases weight(wave),
    when finite_cells(wave)
{
    let next = sweep(catalog, wave);
    if next == wave {
        wave
    } else {
        proof {
            lemma_sweep_reduces(catalog, wave);
        }
        propagated(catalog, next)
    }
}

/// Propagation only removes candidates and ends in a settled wave.
pub proof fn lemma_propagated_settles(catalog: Tileset, wave: Wave)
    requires
        finite_cells(wave),
    ensures
        reduces(wave, propagated(catalog, wave)),
        settled(catalog, propagated(catalog, wave)),
        arc_consistent(catalog, propagated(catalog, wave)),
    decreases weight(wave),
{
    let next = sweep(catalog, wave);
    lemma_sweep_reduces(catalog, wave);
    if next != wave {
        lemma_propagated_settles(catalog, next);
        lemma_reduces_transitive(wave, next, propagated(catalog, next));
    }
    lemma_settled_iff_arc_consistent(catalog, propagated(catalog, wave));
}

/// Propagating a second time changes nothing: what propagation returns is
/// its own fixed point.
pub proof fn lemma_propagated_idempotent(catalog: Tileset, wave: Wave)
    requires
        finite_cells(wave),
    ensures
        propagated(catalog, propagated(catalog, wave)) == propagated(catalog, wave),
{
    lemma_propagated_settles(catalog, wave);
}

} // verus!
