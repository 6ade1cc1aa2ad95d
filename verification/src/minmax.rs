//! The result of looking for the smallest and the largest item at once.
use vstd::prelude::*;

verus! {

/// The result of `minmax`.
#[derive(PartialEq, Debug)]
pub enum MinMaxResult<T> {
    /// Empty iterator
    NoElements,
    /// Iterator with one element, so the minimum and maximum are the same
    OneElement(T),
    /// More than one element in the iterator, the first element is not larger than the second
    MinMax(T, T),
}

impl<T: Copy> MinMaxResult<T> {
    /// `None` for no elements, otherwise the pair of the minimum and the maximum.
    pub fn into_option(self) -> (r: Option<(T, T)>)
        ensures
            r == match self {
                MinMaxResult::NoElements => None,
                MinMaxResult::OneElement(x) => Some((x, x)),
                MinMaxResult::MinMax(x, y) => Some((x, y)),
            },
    {
        match self {
            MinMaxResult::NoElements => None,
            MinMaxResult::OneElement(x) => Some((x, x)),
            MinMaxResult::MinMax(x, y) => Some((x, y)),
        }
    }
}

/// The smallest and the largest integer of `v`; the minimum comes first.
pub fn minmax(v: &[i64]) -> (r: MinMaxResult<i64>)
    ensures
        v@.len() == 0 <==> r is NoElements,
        v@.len() == 1 ==> r == MinMaxResult::OneElement(v@[0]),
        r matches MinMaxResult::MinMax(lo, hi) ==> v@.len() >= 2 && v@.contains(lo) && v@.contains(hi)
            && forall|i: int| 0 <= i < v@.len() ==> lo <= #[trigger] v@[i] <= hi,
        v@.len() >= 2 ==> r is MinMax,
{
    if v.len() == 0 {
        return MinMaxResult::NoElements;
    }
    if v.len() == 1 {
        return MinMaxResult::OneElement(v[0]);
    }
    let mut lo = v[0];
    let mut hi = v[0];
    let mut k: usize = 1;
    while k < v.len()
        invariant
            1 <= k <= v@.len(),
            v@.contains(lo),
            v@.contains(hi),
            forall|i: int| 0 <= i < k ==> lo <= #[trigger] v@[i] <= hi,
        decreases v@.len() - k,
    {
        if v[k] < lo {
            lo = v[k];
        }
        if v[k] > hi {
            hi = v[k];
        }
        k = k + 1;
    }
    MinMaxResult::MinMax(lo, hi)
}

} // verus!
