//! Copying the items of an iterator of references into a slice.
use vstd::prelude::*;
use crate::Itertools;

verus! {

/// The slice was too short for the items.
#[derive(Debug, PartialEq, Eq, Structural)]
pub enum Error {
    /// End of slice reached
    EndOfSlice,
}

/// Copying all items of an iterator into a slice, returning their number; the method returns
/// `Error::EndOfSlice` if the slice is too short.
pub trait CollectIntoSlice<'t, It: 't + Copy>: Itertools<Item = &'t It> {
    /// Copy the items into the front of `slice` and return their number, or
    /// `Err(Error::EndOfSlice)` when there are more items than slots; the slots are filled in
    /// either case.
    fn collect_into_slice(self, slice: &mut [It]) -> (r: Result<usize, Error>)
        requires
            self.wf(),
        ensures
            final(slice)@.len() == old(slice)@.len(),
            ({
                let s = self.rest();
                let n = old(slice)@.len();
                let m = if s.len() <= n { s.len() } else { n };
                &&& forall|k: int| 0 <= k < m ==> #[trigger] final(slice)@[k] == *s[k]
                &&& forall|k: int| m <= k < n ==> #[trigger] final(slice)@[k] == old(slice)@[k]
                &&& r == if s.len() <= n {
                    Ok::<usize, Error>(s.len() as usize)
                } else {
                    Err(Error::EndOfSlice)
                }
            }),
    {
        let ghost s = self.rest();
        let mut iter = self;
        let mut nwritten: usize = 0;
        while nwritten < slice.len()
            invariant
                iter.wf(),
                s == self.rest(),
                nwritten <= slice@.len(),
                slice@.len() == old(slice)@.len(),
                nwritten <= s.len(),
                iter.rest() == s.skip(nwritten as int),
                forall|k: int| 0 <= k < nwritten ==> #[trigger] slice@[k] == *s[k],
                forall|k: int| nwritten <= k < slice@.len() ==> #[trigger] slice@[k] == old(slice)@[k],
            decreases slice@.len() - nwritten,
        {
            let ghost before = iter.rest();
            match iter.next() {
                Some(item) => {
                    slice[nwritten] = *item;
                    proof {
                        assert(iter.rest() =~= s.skip(nwritten + 1));
                    }
                    nwritten = nwritten + 1;
                },
                None => {
                    proof {
                        assert(s.len() == nwritten);
                    }
                    return Ok(nwritten);
                },
            }
        }
        match iter.next() {
            None => Ok(nwritten),
            _ => Err(Error::EndOfSlice),
        }
    }
}

impl<'t, It: 't + Copy, I: Itertools<Item = &'t It>> CollectIntoSlice<'t, It> for I {}

} // verus!
