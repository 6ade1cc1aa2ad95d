//! Concatenating the items of an iterator of vectors.
use vstd::prelude::*;
use crate::Itertools;

verus! {

/// The concatenation of the sequences of `s`, in order.
pub open spec fn flatten_seqs<T>(s: Seq<Seq<T>>) -> Seq<T>
    decreases s.len(),
{
    if s.len() == 0 {
        Seq::empty()
    } else {
        s[0] + flatten_seqs(s.drop_first())
    }
}

/// The items of each vector of `iter`, one vector after the other: the first vector extended
/// by the others; the empty vector when there is none.
pub fn concat<T, I: Itertools<Item = Vec<T>>>(iter: I) -> (r: Vec<T>)
    requires
        iter.wf(),
    ensures
        r@ == flatten_seqs(iter.rest().map_values(|v: Vec<T>| v@)),
{
    let ghost all = iter.rest().map_values(|v: Vec<T>| v@);
    let mut it = iter;
    let mut acc: Vec<T> = match it.next() {
        None => {
            return Vec::new();
        },
        Some(first) => first,
    };
    proof {
        let r = it.rest().map_values(|v: Vec<T>| v@);
        assert(all =~= seq![acc@] + r);
        assert(all.drop_first() =~= r);
        assert(flatten_seqs(all) == all[0] + flatten_seqs(all.drop_first()));
    }
    loop
        invariant
            it.wf(),
            all == iter.rest().map_values(|v: Vec<T>| v@),
            flatten_seqs(all) == acc@ + flatten_seqs(it.rest().map_values(|v: Vec<T>| v@)),
        decreases it.rest().len(),
    {
        let ghost before = it.rest();
        match it.next() {
            None => {
                proof {
                    assert(it.rest().map_values(|v: Vec<T>| v@) =~= Seq::<Seq<T>>::empty());
                    assert(acc@ + Seq::<T>::empty() =~= acc@);
                }
                return acc;
            },
            Some(b) => {
                let mut b = b;
                let ghost bv = b@;
                let ghost a0 = acc@;
                proof {
                    let r = it.rest().map_values(|v: Vec<T>| v@);
                    let br = before.map_values(|v: Vec<T>| v@);
                    assert(br =~= seq![bv] + r);
                    assert(br.drop_first() =~= r);
                    assert(flatten_seqs(br) == bv + flatten_seqs(r));
                    assert(a0 + (bv + flatten_seqs(r)) =~= (a0 + bv) + flatten_seqs(r));
                }
                acc.append(&mut b);
            },
        }
    }
}

} // verus!
