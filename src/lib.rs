//! Iterative stencil loops over a two-dimensional grid.
//!
//! A simulation repeatedly updates every cell of a `width` x `height` grid in
//! lock-step: each cell's next value is computed from its own current value
//! and the current values of the cells at a fixed list of offsets, and only
//! once every cell has computed its next value are the new values committed.
//! The grid is split into one rectangular block per worker; after every
//! `steps / output_steps` steps a snapshot of the whole grid is taken.
use vstd::prelude::*;

pub mod cadence;
pub mod cell;
pub mod grid;
pub mod partition;
pub mod schedule;
pub mod text;
pub mod topology;
pub mod withcall;

pub use cell::Cell;
pub use grid::{Grid, IslOutput, OutputType};
pub use partition::{compute_number_of_block_rows, decompose, InvalidThreadNumber, Partition};
pub use withcall::WithCall;

use grid::{initial_ok, run_ok};
use partition::decompose_fails;

verus! {

/// The settings of a simulation.
pub struct IslParams<T, F, H> {
    /// Size of the grid, `(width, height)`.
    pub dimension: (usize, usize),
    /// Computes a cell's next value from its own value and its neighbours'.
    pub op: F,
    /// Number of workers.
    pub runners: usize,
    /// Initial value of cell `(x, y)`.
    pub height: H,
    /// Number of steps.
    pub steps: usize,
    /// Number of snapshots asked for.
    pub output_steps: usize,
    /// Neighbour offsets `(dx, dy)`, in the order in which `op` receives the
    /// neighbours' values.
    pub neighbours: Vec<(i8, i8)>,
    /// Kind of history returned.
    pub output_type: OutputType,
    /// Marks the cell value type.
    pub r_type: core::marker::PhantomData<T>,
}

impl<T, F, H> IslParams<T, F, H> where
    F: Fn(&T, Vec<Option<&T>>) -> T,
    H: Fn(usize, usize) -> T,
 {
    /// Sets the parameters of a simulation.
    ///
    /// * `dimension` - the size of the grid, `(x, y)`.
    /// * `operation` - computes each cell's new value.
    /// * `runners` - number of workers; the cell count must be divisible by it.
    /// * `init` - each cell's initial value from its position.
    /// * `steps` - number of iterations.
    /// * `output_steps` - number of snapshots, evenly spread over the run.
    /// * `neighbours` - each cell's neighbours, by their offsets.
    /// * `output_type` - whether snapshots are returned as values or as text.
    pub fn new(
        dimension: (usize, usize),
        operation: F,
        runners: usize,
        init: H,
        steps: usize,
        output_steps: usize,
        neighbours: Vec<(i8, i8)>,
        output_type: OutputType,
    ) -> (r: Self)
        ensures
            r.dimension == dimension,
            r.op == operation,
            r.runners == runners,
            r.height == init,
            r.steps == steps,
            r.output_steps == output_steps,
            r.neighbours == neighbours,
            r.output_type == output_type,
    {
        IslParams {
            dimension,
            op: operation,
            runners,
            height: init,
            steps,
            output_steps,
            neighbours,
            output_type,
            r_type: core::marker::PhantomData,
        }
    }
}

/// `out` is what a simulation with these settings returns: there are start
/// values given by `init`, and a run of `steps` steps from them whose
/// snapshots `out` holds.
pub open spec fn isl_result<F: Fn(&T, Vec<Option<&T>>) -> T, H: Fn(usize, usize) -> T, T: Clone>(
    op: F,
    init: H,
    width: int,
    height: int,
    offsets: Seq<(i8, i8)>,
    steps: int,
    output_steps: int,
    output_type: OutputType,
    out: IslOutput<T>,
) -> bool {
    exists|start: Seq<T>, end: Seq<T>|
        initial_ok(init, width, height, start) && run_ok(
            op,
            width,
            height,
            offsets,
            start,
            steps,
            output_steps,
            output_type,
            out,
            end,
        )
}

/// Runs a simulation and returns its snapshots.
///
/// Fails, before any state is built, when the grid cannot be split among
/// `runners` workers; in particular when its cell count is not divisible by
/// `runners`.
pub fn run_isl<T, F, H>(options: IslParams<T, F, H>) -> (res: Result<IslOutput<T>, InvalidThreadNumber>) where
    T: Clone + core::fmt::Debug,
    F: Fn(&T, Vec<Option<&T>>) -> T,
    H: Fn(usize, usize) -> T,

    requires
        options.runners >= 1,
        options.output_steps >= 1,
        options.dimension.0 * options.dimension.1 <= usize::MAX,
        forall|a: &T, b: Vec<Option<&T>>| #[trigger] options.op.requires((a, b)),
        forall|x: usize, y: usize| #[trigger] options.height.requires((x, y)),
    ensures
        res is Err <==> decompose_fails(
            options.dimension.0 as int,
            options.dimension.1 as int,
            options.runners as int,
        ),
        (options.dimension.0 * options.dimension.1) % (options.runners as int) != 0 ==> res is Err,
        res is Ok ==> isl_result(
            options.op,
            options.height,
            options.dimension.0 as int,
            options.dimension.1 as int,
            options.neighbours@,
            options.steps as int,
            options.output_steps as int,
            options.output_type,
            res->Ok_0,
        ),
{
    let IslParams { dimension, op, runners, height, steps, output_steps, neighbours, output_type, .. } =
        options;
    let op = WithCall::new(op);
    let r_grid = Grid::new(dimension, op, runners, height, steps, output_steps, neighbours, output_type);
    match r_grid {
        Ok(mut grid) => {
            let ghost start = grid.values@;
            let out = grid.calculate();
            proof {
                assert(initial_ok(options.height, dimension.0 as int, dimension.1 as int, start));
            }
            Ok(out)
        },
        Err(e) => Err(e),
    }
}

} // verus!
