//! The error of `all_equal_value`.
use vstd::prelude::*;

verus! {

/// Value returned for the error case of `all_equal_value`: the first two items that differ,
/// or `None` when there was no item.
#[derive(Clone, Debug, PartialEq, Eq)]
pub struct AllEqualValueError<Item>(pub Option<[Item; 2]>);

/// Whether all items of `v` are equal: `Ok` with the common value, or the first pair that
/// differs, or `None` for no items.
pub fn all_equal_value(v: &[i64]) -> (r: Result<i64, AllEqualValueError<i64>>)
    ensures
        v@.len() == 0 ==> r == Err::<i64, AllEqualValueError<i64>>(AllEqualValueError(None)),
        v@.len() > 0 && (forall|i: int| 0 <= i < v@.len() ==> #[trigger] v@[i] == v@[0]) ==> r == Ok::<
            i64,
            AllEqualValueError<i64>,
        >(v@[0]),
        r matches Err(AllEqualValueError(Some(pair))) ==> exists|k: int|
            0 < k < v@.len() && pair[0] == v@[k - 1] && pair[1] == #[trigger] v@[k] && pair[0] != pair[1]
                && forall|i: int| 0 <= i < k ==> #[trigger] v@[i] == v@[0],
        r is Ok || v@.len() == 0 || r matches Err(AllEqualValueError(Some(_))),
{
    if v.len() == 0 {
        return Err(AllEqualValueError(None));
    }
    let first = v[0];
    let mut k: usize = 1;
    while k < v.len()
        invariant
            1 <= k <= v@.len(),
            first == v@[0],
            forall|i: int| 0 <= i < k ==> v@[i] == first,
        decreases v@.len() - k,
    {
        if v[k] != first {
            let pair = [v[k - 1], v[k]];
            assert(pair[0] == v@[k - 1]);
            return Err(AllEqualValueError(Some(pair)));
        }
        k = k + 1;
    }
    Ok(first)
}

} // verus!
