//! Mapping adaptors with a fixed kind of function: inside `Ok`, inside `Err`, or by `Into`.
use vstd::prelude::*;
use core::marker::PhantomData;
use vstd::std_specs::convert::IntoSpec;
use crate::Itertools;
use crate::size_hint::SizeHint;

verus! {

/// A function applied by `MapSpecialCase` to each item.
pub trait MapSpecialCaseFn<T>: Sized {
    /// The type of the results.
    type Out;

    /// What `call` needs of its argument.
    spec fn call_pre(&self, t: T) -> bool;

    /// What holds of an argument and the result that `call` returns for it.
    spec fn call_post(&self, t: T, out: Self::Out) -> bool;

    /// Apply the function.
    fn call(&mut self, t: T) -> (r: Self::Out)
        requires
            old(self).call_pre(t),
        ensures
            old(self).call_post(t, r),
            *final(self) == *old(self),
    ;
}

/// An iterator adaptor that applies a `MapSpecialCaseFn` to each item.
pub struct MapSpecialCase<I, F> {
    iter: I,
    f: F,
}

impl<I: Itertools, F> MapSpecialCase<I, F> {
    /// The items of the underlying iterator still to be mapped.
    pub closed spec fn inner_rest(&self) -> Seq<I::Item> {
        self.iter.rest()
    }

    /// The invariant of the adaptor.
    pub closed spec fn wf(&self) -> bool {
        self.iter.wf()
    }

    /// The function applied to the items.
    pub closed spec fn func(&self) -> F {
        self.f
    }

    /// The size hint of the underlying iterator.
    pub closed spec fn spec_size_hint(&self) -> (usize, Option<usize>) {
        self.iter.spec_size_hint()
    }

    /// The size hint of the underlying iterator: one item out for each item in.
    pub fn size_hint(&self) -> (r: SizeHint)
        requires
            self.wf(),
        ensures
            r.0 <= self.inner_rest().len(),
            r.1 matches Some(h) ==> self.inner_rest().len() <= h,
            r == self.spec_size_hint(),
    {
        self.iter.size_hint()
    }
}

impl<I: Itertools, F: MapSpecialCaseFn<I::Item>> MapSpecialCase<I, F> {
    /// The function applied to the next item of the underlying iterator.
    pub fn next(&mut self) -> (r: Option<F::Out>)
        requires
            old(self).wf(),
            old(self).inner_rest().len() > 0 ==> old(self).func().call_pre(
                old(self).inner_rest()[0],
            ),
        ensures
            final(self).wf(),
            final(self).func() == old(self).func(),
            match r {
                None => old(self).inner_rest().len() == 0 && final(self).inner_rest().len() == 0,
                Some(y) => old(self).inner_rest().len() > 0 && old(self).func().call_post(
                    old(self).inner_rest()[0],
                    y,
                ) && final(self).inner_rest() == old(self).inner_rest().drop_first(),
            },
    {
        match self.iter.next() {
            None => None,
            Some(i) => Some(self.f.call(i)),
        }
    }
}

/// Applies a function to the value inside `Ok`; an `Err` passes unchanged.
pub struct MapSpecialCaseFnOk<F>(pub F);

impl<F, T, U, E> MapSpecialCaseFn<Result<T, E>> for MapSpecialCaseFnOk<F> where F: Fn(T) -> U {
    type Out = Result<U, E>;

    open spec fn call_pre(&self, t: Result<T, E>) -> bool {
        t matches Ok(v) ==> call_requires(self.0, (v,))
    }

    open spec fn call_post(&self, t: Result<T, E>, out: Result<U, E>) -> bool {
        match t {
            Ok(v) => out matches Ok(u) && call_ensures(self.0, (v,), u),
            Err(e) => out == Err::<U, E>(e),
        }
    }

    fn call(&mut self, t: Result<T, E>) -> (r: Result<U, E>) {
        match t {
            Ok(v) => Ok((self.0)(v)),
            Err(e) => Err(e),
        }
    }
}

/// Create a new `MapOk` iterator: `f` is applied to the values inside `Ok`.
pub fn map_ok<I, F, T, U, E>(iter: I, f: F) -> (r: MapSpecialCase<I, MapSpecialCaseFnOk<F>>) where
    I: Itertools<Item = Result<T, E>>,
    F: Fn(T) -> U,

    requires
        iter.wf(),
    ensures
        r.wf(),
        r.inner_rest() == iter.rest(),
        r.func() == MapSpecialCaseFnOk(f),
{
    MapSpecialCase { iter, f: MapSpecialCaseFnOk(f) }
}

/// Converts each item by `Into`.
pub struct MapSpecialCaseFnInto<U>(PhantomData<U>);

impl<T: Into<U>, U> MapSpecialCaseFn<T> for MapSpecialCaseFnInto<U> {
    type Out = U;

    open spec fn call_pre(&self, t: T) -> bool {
        true
    }

    open spec fn call_post(&self, t: T, out: U) -> bool {
        <T as IntoSpec<U>>::obeys_into_spec() ==> out == <T as IntoSpec<U>>::into_spec(t)
    }

    fn call(&mut self, t: T) -> (r: U) {
        t.into()
    }
}

/// Create a new `MapInto` iterator: each item is converted by `Into`.
pub fn map_into<I: Itertools, R>(iter: I) -> (r: MapSpecialCase<I, MapSpecialCaseFnInto<R>>)
    requires
        iter.wf(),
    ensures
        r.wf(),
        r.inner_rest() == iter.rest(),
{
    MapSpecialCase { iter, f: MapSpecialCaseFnInto(PhantomData) }
}

/// Applies a function to the error inside `Err`; an `Ok` passes unchanged.
pub struct MapSpecialCaseFnErr<F>(pub F);

impl<F, T, E, E2> MapSpecialCaseFn<Result<T, E>> for MapSpecialCaseFnErr<F> where
    F: Fn(E) -> E2,
 {
    type Out = Result<T, E2>;

    open spec fn call_pre(&self, t: Result<T, E>) -> bool {
        t matches Err(e) ==> call_requires(self.0, (e,))
    }

    open spec fn call_post(&self, t: Result<T, E>, out: Result<T, E2>) -> bool {
        match t {
            Ok(v) => out == Ok::<T, E2>(v),
            Err(e) => out matches Err(e2) && call_ensures(self.0, (e,), e2),
        }
    }

    fn call(&mut self, r: Result<T, E>) -> (out: Result<T, E2>) {
        match r {
            Ok(v) => Ok(v),
            Err(e) => Err((self.0)(e)),
        }
    }
}

/// Create a new `MapErr` iterator: `f` is applied to the errors inside `Err`.
pub fn map_err<I, F, T, E, E2>(iter: I, f: F) -> (r: MapSpecialCase<I, MapSpecialCaseFnErr<F>>) where
    I: Itertools<Item = Result<T, E>>,
    F: Fn(E) -> E2,

    requires
        iter.wf(),
    ensures
        r.wf(),
        r.inner_rest() == iter.rest(),
        r.func() == MapSpecialCaseFnErr(f),
{
    MapSpecialCase { iter, f: MapSpecialCaseFnErr(f) }
}

/// Converts the error inside `Err` by `Into`; an `Ok` passes unchanged.
pub struct MapSpecialCaseFnErrInto<E2>(PhantomData<E2>);

impl<T, E: Into<E2>, E2> MapSpecialCaseFn<Result<T, E>> for MapSpecialCaseFnErrInto<E2> {
    type Out = Result<T, E2>;

    open spec fn call_pre(&self, t: Result<T, E>) -> bool {
        true
    }

    open spec fn call_post(&self, t: Result<T, E>, out: Result<T, E2>) -> bool {
        match t {
            Ok(v) => out == Ok::<T, E2>(v),
            Err(e) => out matches Err(e2) && (<E as IntoSpec<E2>>::obeys_into_spec() ==> e2
                == <E as IntoSpec<E2>>::into_spec(e)),
        }
    }

    fn call(&mut self, r: Result<T, E>) -> (out: Result<T, E2>) {
        match r {
            Ok(v) => Ok(v),
            Err(e) => Err(e.into()),
        }
    }
}

/// Create a new `ErrInto` iterator: the errors inside `Err` are converted by `Into`.
pub fn err_into<I, T, E, E2>(iter: I) -> (r: MapSpecialCase<I, MapSpecialCaseFnErrInto<E2>>) where
    I: Itertools<Item = Result<T, E>>,
    E: Into<E2>,

    requires
        iter.wf(),
    ensures
        r.wf(),
        r.inner_rest() == iter.rest(),
{
    MapSpecialCase { iter, f: MapSpecialCaseFnErrInto(PhantomData) }
}

} // verus!
