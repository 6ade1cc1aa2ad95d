//! A hash map from the keys of the items of an iterator to the vectors of the items.
use vstd::prelude::*;
use std::collections::HashMap;
use crate::Itertools;
use crate::adaptors::group_by::KeyFn;
use crate::grouping_map::{group_seqs, vec_views};
use crate::group_map::{keyed, group_by_key};

verus! {

/// For each key that `get_key` gives to the items of `iter`, the vector of the items of that
/// key, in order.
pub fn to_lookup<I: Itertools, F: KeyFn<I::Item>>(iter: I, get_key: F) -> (r: HashMap<i64, Vec<I::Item>>)
    requires
        iter.wf(),
    ensures
        vec_views(r@) == group_seqs(keyed(iter.rest(), get_key)),
{
    group_by_key(iter, get_key)
}

} // verus!
