//! The sampling cadence of a run: a snapshot every `steps / output_steps`
//! steps.
use vstd::arithmetic::div_mod::{
    lemma_div_is_ordered, lemma_fundamental_div_mod, lemma_fundamental_div_mod_converse,
};
use vstd::arithmetic::mul::lemma_mul_is_commutative;
use vstd::prelude::*;

verus! {

/// Steps between two snapshots.
pub open spec fn interval(steps: int, output_steps: int) -> int {
    steps / output_steps
}

/// Number of snapshots that a run of `steps` steps emits.
pub open spec fn sample_count(steps: int, output_steps: int) -> int {
    let every = interval(steps, output_steps);
    if every == 0 {
        0
    } else {
        steps / every
    }
}

/// Number of snapshots emitted after `done` steps, and the counter's value
/// then.
pub open spec fn samples_after(every: int, done: int) -> int {
    if every == 0 {
        0
    } else {
        done / every
    }
}

pub open spec fn counter_after(every: int, done: int) -> int {
    if every == 0 {
        done
    } else {
        done % every
    }
}

/// Counts the steps of a run and says after which of them a snapshot is due.
pub struct Cadence {
    pub every: usize,
    pub counter: usize,
}

impl Cadence {
    /// The state after `done` steps.
    pub open spec fn after(&self, done: int) -> bool {
        self.counter == counter_after(self.every as int, done)
    }

    pub fn new(steps: usize, output_steps: usize) -> (c: Cadence)
        requires
            output_steps >= 1,
        ensures
            c.every == interval(steps as int, output_steps as int),
            c.after(0),
    {
        Cadence { every: steps / output_steps, counter: 0 }
    }

    /// Records one more step; returns whether a snapshot is due after it.
    pub fn tick(&mut self) -> (due: bool)
        requires
            old(self).counter < usize::MAX,
        ensures
            final(self).every == old(self).every,
            due == (old(self).counter + 1 == old(self).every),
            final(self).counter == (if due {
                0
            } else {
                old(self).counter + 1
            }),
    {
        self.counter = self.counter + 1;
        if self.counter == self.every {
            self.counter = 0;
            true
        } else {
            false
        }
    }
}

/// One more step after `done`: a snapshot is due exactly when the step count
/// reaches a multiple of the interval, and the counts move on accordingly.
pub proof fn lemma_tick(every: int, done: int)
    requires
        every >= 0,
        done >= 0,
    ensures
        (counter_after(every, done) + 1 == every) <==> (every > 0 && (done + 1) % every == 0),
        counter_after(every, done + 1) == (if counter_after(every, done) + 1 == every {
            0
        } else {
            counter_after(every, done) + 1
        }),
        samples_after(every, done + 1) == samples_after(every, done) + (if counter_after(every, done)
            + 1 == every {
            1int
        } else {
            0
        }),
        counter_after(every, done) + 1 == every ==> done + 1 == (samples_after(every, done) + 1)
            * every,
        counter_after(every, done) <= done,
{
    if every > 0 {
        lemma_fundamental_div_mod(done, every);
        let q = done / every;
        let r = done % every;
        lemma_mul_is_commutative(every, q);
        if r + 1 == every {
            assert((q + 1) * every == q * every + every) by (nonlinear_arith);
            lemma_fundamental_div_mod_converse(done + 1, every, q + 1, 0);
        } else {
            lemma_fundamental_div_mod_converse(done + 1, every, q, r + 1);
        }
        assert(r <= done) by {
            assert(0 <= every * q) by (nonlinear_arith)
                requires
                    every > 0,
                    q >= 0 || done >= 0,
                    done == every * q + r,
                    0 <= r < every,
            ;
        }
    }
}

/// A run of `steps` steps with `1 <= output_steps <= steps` emits at least
/// `output_steps` and at most `steps` snapshots, and exactly `output_steps`
/// when `output_steps` divides `steps`.
pub proof fn lemma_sample_count_bounds(steps: int, output_steps: int)
    requires
        1 <= output_steps <= steps,
    ensures
        output_steps <= sample_count(steps, output_steps) <= steps,
        steps % output_steps == 0 ==> sample_count(steps, output_steps) == output_steps,
{
    let every = steps / output_steps;
    lemma_fundamental_div_mod(steps, output_steps);
    assert(every >= 1) by {
        lemma_div_is_ordered(output_steps, steps, output_steps);
        vstd::arithmetic::div_mod::lemma_div_by_self(output_steps);
    }
    lemma_fundamental_div_mod(steps, every);
    // steps = output_steps * every + rest, with rest < output_steps
    assert(output_steps <= steps / every) by {
        lemma_mul_is_commutative(output_steps, every);
        vstd::arithmetic::div_mod::lemma_div_multiples_vanish(output_steps, every);
        lemma_div_is_ordered(output_steps * every, steps, every);
    }
    assert(steps / every <= steps) by {
        vstd::arithmetic::div_mod::lemma_div_is_ordered_by_denominator(steps, 1, every);
    }
    if steps % output_steps == 0 {
        lemma_fundamental_div_mod_converse(steps, every, output_steps, 0);
        lemma_mul_is_commutative(output_steps, every);
    }
}

} // verus!
