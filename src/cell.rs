//! The cell update unit: a cell's neighbour list and its private next value.
use crate::withcall::WithCall;
use vstd::prelude::*;

verus! {

/// The values that a neighbour list reads from `values`.
pub open spec fn gathered<T>(values: Seq<T>, neighbours: Seq<Option<usize>>) -> Seq<Option<T>> {
    neighbours.map_values(
        |o: Option<usize>|
            match o {
                Some(j) => Some(values[j as int]),
                None => None,
            },
    )
}

/// `next` is a value that `op` may return for a cell holding `own` whose
/// neighbours hold `neighbours`.
pub open spec fn transition_ok<F: Fn(&T, Vec<Option<&T>>) -> T, T>(
    op: F,
    own: T,
    neighbours: Seq<Option<T>>,
    next: T,
) -> bool {
    exists|v: Vec<Option<&T>>|
        v@ == neighbours.map_values(
            |o: Option<T>|
                match o {
                    Some(t) => Some(&t),
                    None => None,
                },
        ) && #[trigger] op.ensures((&own, v), next)
}

/// All neighbour indices lie below `n`.
pub open spec fn neighbours_below(neighbours: Seq<Option<usize>>, n: int) -> bool {
    forall|j: int| 0 <= j < neighbours.len() && #[trigger] neighbours[j] is Some ==> neighbours[j]->0 < n
}

/// One grid cell as its owning worker sees it: the index of its shared
/// current value, the indices of its neighbours' current values (`None` at
/// the grid's edge), and a private buffer for the next value.
pub struct Cell<T> {
    pub index: usize,
    pub neighbours: Vec<Option<usize>>,
    pub next_val: T,
}

fn gather<'a, T>(values: &'a Vec<T>, neighbours: &Vec<Option<usize>>) -> (r: Vec<Option<&'a T>>)
    requires
        neighbours_below(neighbours@, values.len() as int),
    ensures
        r@ == gathered(values@, neighbours@).map_values(
            |o: Option<T>|
                match o {
                    Some(t) => Some(&t),
                    None => None,
                },
        ),
{
    let mut r: Vec<Option<&'a T>> = Vec::with_capacity(neighbours.len());
    let mut i: usize = 0;
    while i < neighbours.len()
        invariant
            i <= neighbours.len(),
            r.len() == i,
            neighbours_below(neighbours@, values.len() as int),
            forall|k: int|
                0 <= k < i ==> #[trigger] r[k] == match neighbours[k] {
                    Some(j) => Some(&values[j as int]),
                    None => None,
                },
        decreases neighbours.len() - i,
    {
        match neighbours[i] {
            Some(j) => r.push(Some(&values[j])),
            None => r.push(None),
        }
        i += 1;
    }
    proof {
        assert(r@ =~= gathered(values@, neighbours@).map_values(
            |o: Option<T>|
                match o {
                    Some(t) => Some(&t),
                    None => None,
                },
        ));
    }
    r
}

impl<T> Cell<T> {
    /// Computes the cell's next value from the current `values` into the
    /// private buffer; no shared value changes.
    pub fn run<F>(&mut self, op: &WithCall<F, T>, values: &Vec<T>)
        where F: Fn(&T, Vec<Option<&T>>) -> T,
        requires
            old(self).index < values.len(),
            neighbours_below(old(self).neighbours@, values.len() as int),
            op.accepts_all(),
        ensures
            final(self).index == old(self).index,
            final(self).neighbours == old(self).neighbours,
            transition_ok(
                op.func(),
                values[old(self).index as int],
                gathered(values@, old(self).neighbours@),
                final(self).next_val,
            ),
    {
        let nbs = gather(values, &self.neighbours);
        let own = &values[self.index];
        assert(op.func().requires((own, nbs)));
        self.next_val = op.run(own, nbs);
    }

    /// Commits the next value into the shared `values`; the buffer receives
    /// the value it replaced.
    pub fn write(&mut self, values: &mut Vec<T>)
        requires
            old(self).index < old(values).len(),
        ensures
            final(values)@ == old(values)@.update(old(self).index as int, old(self).next_val),
            final(self).next_val == old(values)[old(self).index as int],
            final(self).index == old(self).index,
            final(self).neighbours == old(self).neighbours,
    {
        values.set_and_swap(self.index, &mut self.next_val);
    }
}

} // verus!
