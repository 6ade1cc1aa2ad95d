//! Grouping the values of an iterator by key into a hash map of vectors.
use vstd::prelude::*;
use std::collections::HashMap;
use crate::Itertools;
use crate::adaptors::group_by::KeyFn;
use crate::grouping_map::{group_seqs, vec_views, into_group_map};

verus! {

broadcast use vstd::std_specs::hash::group_hash_axioms;

/// Each value of `s` with its key.
pub open spec fn keyed<V, F: KeyFn<V>>(s: Seq<V>, f: F) -> Seq<(i64, V)> {
    s.map_values(|v: V| (f.spec_key(v), v))
}

/// For each key of the pairs of `iter`, the vector of its values, in order. The hasher does
/// not change the result, and this implementation hashes with the standard one.
pub fn into_group_map_with_hasher<V, I: Itertools<Item = (i64, V)>, S>(iter: I, hash_builder: S) -> (r: HashMap<i64, Vec<V>>)
    requires
        iter.wf(),
    ensures
        vec_views(r@) == group_seqs(iter.rest()),
{
    into_group_map(iter)
}

/// For each key that `f` gives to the values of `iter`, the vector of the values of that key,
/// in order. The hasher does not change the result, and this implementation hashes with the
/// standard one.
pub fn into_group_map_by_with_hasher<V, I: Itertools<Item = V>, F: KeyFn<V>, S>(
    iter: I,
    f: F,
    hash_builder: S,
) -> (r: HashMap<i64, Vec<V>>)
    requires
        iter.wf(),
    ensures
        vec_views(r@) == group_seqs(keyed(iter.rest(), f)),
{
    group_by_key(iter, f)
}

/// For each key that `f` gives to the values of `iter`, the vector of the values of that key,
/// in order.
pub fn group_by_key<V, I: Itertools<Item = V>, F: KeyFn<V>>(iter: I, f: F) -> (r: HashMap<i64, Vec<V>>)
    requires
        iter.wf(),
    ensures
        vec_views(r@) == group_seqs(keyed(iter.rest(), f)),
{
    let ghost all = iter.rest();
    let mut map: HashMap<i64, Vec<V>> = HashMap::new();
    let mut it = iter;
    let ghost mut n: int = 0;
    loop
        invariant
            it.wf(),
            all == iter.rest(),
            0 <= n <= all.len(),
            it.rest() == all.skip(n),
            vec_views(map@) == group_seqs(keyed(all.take(n), f)),
        decreases it.rest().len(),
    {
        match it.next() {
            Some(val) => {
                let key = f.key(&val);
                proof {
                    assert(keyed(all.take(n + 1), f).drop_last() =~= keyed(all.take(n), f));
                    assert(keyed(all.take(n + 1), f).last() == (key, val));
                    assert(vec_views(map@).contains_key(key) == map@.contains_key(key));
                }
                let mut vals = match map.remove(&key) {
                    Some(v) => v,
                    None => Vec::new(),
                };
                vals.push(val);
                map.insert(key, vals);
                proof {
                    n = n + 1;
                    assert(it.rest() =~= all.skip(n));
                    assert(vec_views(map@) =~= group_seqs(keyed(all.take(n), f)));
                }
            },
            None => {
                proof {
                    assert(all.take(n) =~= all);
                }
                return map;
            },
        }
    }
}

} // verus!
