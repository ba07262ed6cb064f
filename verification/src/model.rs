//! The solver: a grid, the catalog it is generated from, and the source of
//! randomness that decides how cells collapse.

use crate::grid::{Grid, Settings};
use crate::random::{from_system, seeded};
use crate::steps::{collapse_step, is_open, is_run, lemma_without_open_cells, selected};
use crate::tiles::Tileset;
use crate::wave::{narrows, open_cells, uniform, Wave};
use rand::rngs::StdRng;
use vstd::prelude::*;

verus! {

/// The number of columns of a grid whose width is not given.
pub const DEFAULT_WIDTH: usize = 10;

/// The number of rows of a grid whose height is not given.
pub const DEFAULT_HEIGHT: usize = 10;

/// The seed of the generator when none is given and the operating system has
/// no entropy to offer.
pub const FALLBACK_SEED: u64 = 0;

/// What a run can be configured with. With a seed the generator is seeded
/// from it, so that a run can be repeated by the same build of the library;
/// without one it is seeded by the operating system. No contract depends on
/// what the generator draws. The frame rate is handed on to the grid's
/// settings and has no part in the generation.
pub struct Options {
    pub width: Option<usize>,
    pub height: Option<usize>,
    pub framerate: Option<u32>,
    pub seed: Option<u32>,
}

impl Options {
    /// The settings that these options stand for, with the default size
    /// where none is given.
    pub open spec fn settings(self) -> Settings {
        Settings {
            width: match self.width {
                Some(width) => width,
                None => DEFAULT_WIDTH,
            },
            height: match self.height {
                Some(height) => height,
                None => DEFAULT_HEIGHT,
            },
            framerate: self.framerate,
            seed: self.seed,
        }
    }
}

/// A generation run over one catalog.
pub struct Model<'t> {
    tileset: &'t Tileset,
    grid: Grid<'t>,
    rng: StdRng,
}

impl<'t> Model<'t> {
    /// The grid of the run, for use in contracts.
    pub closed spec fn spec_grid(&self) -> &Grid<'t> {
        &self.grid
    }

    /// The candidates of every cell of the grid.
    pub open spec fn view(&self) -> Wave {
        self.grid()@
    }

    /// The catalog of the run.
    pub closed spec fn catalog(&self) -> Tileset {
        *self.tileset
    }

    /// The settings of the grid.
    pub open spec fn settings(&self) -> Settings {
        self.grid().settings()
    }

    /// Whether the grid has been marked as finished.
    pub open spec fn done(&self) -> bool {
        self.grid().done()
    }

    /// The grid is well formed and generated from the model's catalog.
    pub open spec fn wf(&self) -> bool {
        &&& self.grid().wf()
        &&& self.grid().catalog() == self.catalog()
    }

    /// A model with a fresh grid of the configured size, 10 by 10 where no
    /// size is given, in which every cell holds every variant of the catalog.
    pub fn new(tileset: &'t Tileset, options: Options) -> (model: Self)
        ensures
            model.wf(),
            model.catalog() == *tileset,
            model.settings() == options.settings(),
            !model.done(),
            model@ == uniform(
                options.settings().width as nat,
                options.settings().height as nat,
                tileset.variants(),
            ),
    {
        let settings = Settings {
            width: match options.width {
                Some(width) => width,
                None => DEFAULT_WIDTH,
            },
            height: match options.height {
                Some(height) => height,
                None => DEFAULT_HEIGHT,
            },
            framerate: options.framerate,
            seed: options.seed,
        };
        let rng = match options.seed {
            Some(seed) => seeded(seed as u64),
            None => match from_system() {
                Some(rng) => rng,
                None => seeded(FALLBACK_SEED),
            },
        };
        let grid = Grid::new(tileset, settings);
        Model { tileset, grid, rng }
    }

    /// Runs the generation to its end: steps the grid until it is finished.
    /// Afterwards no cell is open: each holds one candidate, or none where
    /// the choices made have led into a contradiction. The grid reaches that
    /// state by a run of collapsing steps, each of which collapses the
    /// selected cell to one of its candidates and propagates.
    pub fn run(&mut self)
        requires
            old(self).wf(),
        ensures
            final(self).wf(),
            final(self).catalog() == old(self).catalog(),
            final(self).settings() == old(self).settings(),
            final(self).done(),
            open_cells(final(self)@) == 0,
            forall|x: int, y: int| !is_open(final(self)@, x, y),
            narrows(final(self)@, old(self)@),
            exists|trace: Seq<Wave>|
                {
                    &&& #[trigger] is_run(old(self).catalog(), trace)
                    &&& trace.len() >= 1
                    &&& trace[0] == old(self)@
                    &&& trace.last() == final(self)@
                },
    {
        let ghost catalog = self.catalog();
        let ghost first = self@;
        let ghost mut trace: Seq<Wave> = seq![first];
        proof {
            assert(narrows(first, first));
        }
        loop
            invariant
                self.wf(),
                self.catalog() == catalog,
                self.settings() == old(self).settings(),
                is_run(catalog, trace),
                trace.len() >= 1,
                trace[0] == first,
                trace.last() == self@,
                narrows(self@, first),
            ensures
                self.done(),
            decreases open_cells(self@),
        {
            let ghost before = self@;
            let ghost earlier = trace;
            self.grid.step(&mut self.rng);
            proof {
                if selected(before) is Some {
                    trace = earlier.push(self@);
                    assert forall|i: int| 0 < i < trace.len() implies collapse_step(
                        catalog,
                        trace[i - 1],
                        #[trigger] trace[i],
                    ) by {
                        if i < earlier.len() {
                            assert(trace[i] == earlier[i]);
                            assert(trace[i - 1] == earlier[i - 1]);
                        }
                    }
                }
                assert(narrows(self@, first)) by {
                    assert forall|y: int, x: int|
                        #![trigger self@[y][x]]
                        #![trigger first[y][x]]
                        0 <= y < self@.len() && 0 <= x < self@[y].len() implies self@[y][x].subset_of(
                        first[y][x],
                    ) by {
                        assert(self@[y].len() == before[y].len());
                        assert(self@[y][x].subset_of(before[y][x]));
                        assert(before[y][x].subset_of(first[y][x]));
                    }
                }
            }
            if self.grid.is_finished() {
                break;
            }
        }
        proof {
            lemma_without_open_cells(self@);
            assert(is_run(catalog, trace));
        }
    }

    /// The grid of the run.
    #[verifier::when_used_as_spec(spec_grid)]
    pub fn grid(&self) -> (grid: &Grid<'t>)
        ensures
            grid == self.grid(),
    {
        &self.grid
    }
}

} // verus!
