//! The transition function of a simulation.
use vstd::prelude::*;

verus! {

/// Holds the function that computes a cell's next value from its own value
/// and the values of its neighbours (`None` for a neighbour outside the
/// grid), in the order of the neighbour offsets.
pub struct WithCall<F, T> {
    fp: F,
    r_type: core::marker::PhantomData<T>,
}

impl<F, T> WithCall<F, T> where F: Fn(&T, Vec<Option<&T>>) -> T {
    /// The wrapped function.
    pub closed spec fn func(&self) -> F {
        self.fp
    }

    /// The wrapped function may be called on any arguments.
    pub open spec fn accepts_all(&self) -> bool {
        forall|a: &T, b: Vec<Option<&T>>| #[trigger] self.func().requires((a, b))
    }

    pub fn new(fp: F) -> (r: Self)
        ensures
            r.func() == fp,
    {
        WithCall { fp, r_type: core::marker::PhantomData }
    }

    /// Calls the wrapped function.
    pub fn run(&self, a: &T, b: Vec<Option<&T>>) -> (r: T)
        requires
            self.func().requires((a, b)),
        ensures
            self.func().ensures((a, b), r),
    {
        (self.fp)(a, b)
    }
}

} // verus!
