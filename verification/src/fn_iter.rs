//! An iterator over the values returned by a function.
use vstd::prelude::*;

verus! {

/// An iterator that yields values returned by a function.
pub struct FnIter<F>(F);

/// Iterate over a function: each call of `next` calls it.
pub fn func<T, F: Fn() -> Option<T>>(f: F) -> (r: FnIter<F>)
    ensures
        r.function() == f,
{
    FnIter(f)
}

impl<F> FnIter<F> {
    /// The function called by `next`.
    pub closed spec fn function(&self) -> F {
        self.0
    }
}

impl<T, F: Fn() -> Option<T>> FnIter<F> {
    /// Call the function and return what it returned.
    pub fn next(&mut self) -> (r: Option<T>)
        requires
            call_requires(old(self).function(), ()),
        ensures
            call_ensures(old(self).function(), (), r),
            final(self).function() == old(self).function(),
    {
        (self.0)()
    }
}

} // verus!
