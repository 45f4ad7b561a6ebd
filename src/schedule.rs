//! The per-worker schedule of a threaded run: which phase comes next, when
//! to wait at a barrier, and when the sampling worker takes a snapshot.
use crate::cadence::{interval, lemma_tick, Cadence};
use vstd::prelude::*;

verus! {

/// What a worker does next.
#[derive(Debug, Clone, Copy, PartialEq, Eq)]
pub enum Phase {
    /// Wait until every worker is ready to start the step.
    AwaitStart,
    /// Compute the next value of each cell of the worker's block.
    Compute,
    /// Wait until every worker has computed.
    AwaitSync,
    /// Commit the next value of each cell of the worker's block.
    Commit,
    /// Wait until every worker has committed.
    AwaitWrite,
    /// Take a snapshot of the whole grid (the worker of rank 0 only).
    Sample,
    /// The run is over.
    Done,
}

/// The state of one worker of a run of `steps` steps.
pub struct Worker {
    pub rank: usize,
    pub steps: usize,
    /// Steps finished so far.
    pub step: usize,
    pub phase: Phase,
    pub cadence: Cadence,
}

impl Worker {
    pub open spec fn wf(&self) -> bool {
        &&& self.step <= self.steps
        &&& (self.phase == Phase::Done <==> self.step == self.steps)
        &&& if self.phase == Phase::Sample {
            &&& self.rank == 0
            &&& self.step < self.steps
            &&& self.cadence.after(self.step + 1)
        } else {
            self.cadence.after(self.step as int)
        }
    }

    /// The worker of rank `rank` before a run of `steps` steps that takes a
    /// snapshot every `steps / output_steps` steps.
    pub fn new(rank: usize, steps: usize, output_steps: usize) -> (w: Worker)
        requires
            output_steps >= 1,
        ensures
            w.wf(),
            w.rank == rank,
            w.steps == steps,
            w.step == 0,
            w.phase == (if steps == 0 {
                Phase::Done
            } else {
                Phase::AwaitStart
            }),
            w.cadence.every == interval(steps as int, output_steps as int),
    {
        let phase = if steps == 0 {
            Phase::Done
        } else {
            Phase::AwaitStart
        };
        Worker { rank, steps, step: 0, phase, cadence: Cadence::new(steps, output_steps) }
    }

    /// Moves on to the next phase: the three barriers enclose the compute
    /// and the commit phase; after the last barrier of a step the worker of
    /// rank 0 samples when a snapshot is due, and the step ends.
    pub fn advance(&mut self)
        requires
            old(self).wf(),
        ensures
            final(self).wf(),
            final(self).rank == old(self).rank,
            final(self).steps == old(self).steps,
            final(self).cadence.every == old(self).cadence.every,
            ({
                let o = *old(self);
                let f = *final(self);
                let due = o.rank == 0 && o.cadence.every > 0 && (o.step + 1) % (o.cadence.every as int)
                    == 0;
                match o.phase {
                    Phase::AwaitStart => f.phase == Phase::Compute && f.step == o.step,
                    Phase::Compute => f.phase == Phase::AwaitSync && f.step == o.step,
                    Phase::AwaitSync => f.phase == Phase::Commit && f.step == o.step,
                    Phase::Commit => f.phase == Phase::AwaitWrite && f.step == o.step,
                    Phase::AwaitWrite => if due {
                        f.phase == Phase::Sample && f.step == o.step
                    } else {
                        &&& f.step == o.step + 1
                        &&& f.phase == if f.step == o.steps {
                            Phase::Done
                        } else {
                            Phase::AwaitStart
                        }
                    },
                    Phase::Sample => {
                        &&& f.step == o.step + 1
                        &&& f.phase == if f.step == o.steps {
                            Phase::Done
                        } else {
                            Phase::AwaitStart
                        }
                    },
                    Phase::Done => f.phase == Phase::Done && f.step == o.step,
                }
            }),
    {
        match self.phase {
            Phase::AwaitStart => {
                self.phase = Phase::Compute;
            },
            Phase::Compute => {
                self.phase = Phase::AwaitSync;
            },
            Phase::AwaitSync => {
                self.phase = Phase::Commit;
            },
            Phase::Commit => {
                self.phase = Phase::AwaitWrite;
            },
            Phase::AwaitWrite => {
                proof {
                    lemma_tick(self.cadence.every as int, self.step as int);
                }
                let due = self.cadence.tick();
                if due && self.rank == 0 {
                    self.phase = Phase::Sample;
                } else {
                    self.finish_step();
                }
            },
            Phase::Sample => {
                self.finish_step();
            },
            Phase::Done => {},
        }
    }

    fn finish_step(&mut self)
        requires
            old(self).step < old(self).steps,
            old(self).cadence.after(old(self).step + 1),
        ensures
            final(self).rank == old(self).rank,
            final(self).steps == old(self).steps,
            final(self).cadence == old(self).cadence,
            final(self).step == old(self).step + 1,
            final(self).phase == if final(self).step == old(self).steps {
                Phase::Done
            } else {
                Phase::AwaitStart
            },
    {
        self.step = self.step + 1;
        self.phase = if self.step == self.steps {
            Phase::Done
        } else {
            Phase::AwaitStart
        };
    }
}

} // verus!
