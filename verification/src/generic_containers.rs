//! A common interface of the maps that hold the groups of the grouping operations: hash maps,
//! ordered maps and vectors of key-value pairs.
use vstd::prelude::*;
use std::collections::{BTreeMap, HashMap};
use crate::grouping_map::AggregateFn;

verus! {

broadcast use {vstd::std_specs::hash::group_hash_axioms, vstd::std_specs::btree::group_btree_axioms};

/// The result accumulated so far for `key` in `m`, if any.
pub open spec fn acc_of<V>(m: Map<i64, V>, key: i64) -> Option<V> {
    if m.contains_key(key) {
        Some(m[key])
    } else {
        None
    }
}

/// The map after `aggregate`: the operation's result for `key`, or no entry when it gives
/// `None`.
pub open spec fn aggregated<V>(m: Map<i64, V>, key: i64, r: Option<V>) -> Map<i64, V> {
    match r {
        Some(v) => m.insert(key, v),
        None => m.remove(key),
    }
}

/// A map from keys to values.
pub trait KeyValueMap: Sized {
    type Value;

    /// The entries of the map.
    spec fn contents(&self) -> Map<i64, Self::Value>;

    /// The internal invariant of the map.
    spec fn wf(&self) -> bool;

    /// Set the value of `key`; return its previous value, if any.
    fn insert(&mut self, key: i64, value: Self::Value) -> (r: Option<Self::Value>)
        requires
            old(self).wf(),
        ensures
            final(self).wf(),
            final(self).contents() == old(self).contents().insert(key, value),
            r == acc_of(old(self).contents(), key),
    ;

    /// Remove the entry of `key`; return its value, if any.
    fn remove(&mut self, key: &i64) -> (r: Option<Self::Value>)
        requires
            old(self).wf(),
        ensures
            final(self).wf(),
            final(self).contents() == old(self).contents().remove(*key),
            r == acc_of(old(self).contents(), *key),
    ;

    /// Replace the value of `key` by what `operation` makes of it and of `t`; remove the
    /// entry when that is `None`.
    fn aggregate<T, F: AggregateFn<T, Self::Value>>(&mut self, key: i64, t: T, operation: F)
        requires
            old(self).wf(),
        ensures
            final(self).wf(),
            final(self).contents() == aggregated(
                old(self).contents(),
                key,
                operation.spec_apply(acc_of(old(self).contents(), key), key, t),
            ),
    {
        let opt_value = self.remove(&key);
        match operation.apply(opt_value, &key, t) {
            Some(value) => {
                self.insert(key, value);
            },
            None => {},
        }
    }
}

impl<V> KeyValueMap for HashMap<i64, V> {
    type Value = V;

    open spec fn contents(&self) -> Map<i64, V> {
        self@
    }

    open spec fn wf(&self) -> bool {
        true
    }

    fn insert(&mut self, key: i64, value: V) -> (r: Option<V>) {
        HashMap::insert(self, key, value)
    }

    fn remove(&mut self, key: &i64) -> (r: Option<V>) {
        let r = HashMap::remove(self, key);
        proof {
            assert(self@ =~= old(self)@.remove(*key));
        }
        r
    }
}

impl<V> KeyValueMap for BTreeMap<i64, V> {
    type Value = V;

    open spec fn contents(&self) -> Map<i64, V> {
        self@
    }

    open spec fn wf(&self) -> bool {
        true
    }

    fn insert(&mut self, key: i64, value: V) -> (r: Option<V>) {
        BTreeMap::insert(self, key, value)
    }

    fn remove(&mut self, key: &i64) -> (r: Option<V>) {
        let r = BTreeMap::remove(self, key);
        proof {
            assert(self@ =~= old(self)@.remove(*key));
        }
        r
    }
}

/// Some pair of `s` has the key `k`.
pub open spec fn has_key_at<V>(s: Seq<(i64, V)>, k: i64) -> bool {
    exists|i: int| 0 <= i < s.len() && (#[trigger] s[i]).0 == k
}

/// The entries of a list of key-value pairs.
pub open spec fn assoc<V>(s: Seq<(i64, V)>) -> Map<i64, V> {
    Map::new(
        |k: i64| has_key_at(s, k),
        |k: i64| s[choose|i: int| 0 <= i < s.len() && (#[trigger] s[i]).0 == k].1,
    )
}

/// No key occurs twice.
pub open spec fn unique_keys<V>(s: Seq<(i64, V)>) -> bool {
    forall|i: int, j: int| 0 <= i < j < s.len() ==> (#[trigger] s[i]).0 != (#[trigger] s[j]).0
}

/// A list of pairs with unique keys holds exactly the entries of `m` when its keys are those
/// of `m` and each pair agrees with `m`.
proof fn lemma_assoc_is<V>(s: Seq<(i64, V)>, m: Map<i64, V>)
    requires
        unique_keys(s),
        forall|k: i64| #[trigger] m.contains_key(k) <==> has_key_at(s, k),
        forall|j: int| 0 <= j < s.len() ==> m[(#[trigger] s[j]).0] == s[j].1,
    ensures
        assoc(s) == m,
{
    assert forall|k: i64| #[trigger] assoc(s).contains_key(k) implies assoc(s)[k] == m[k] by {
        let i = choose|i: int| 0 <= i < s.len() && (#[trigger] s[i]).0 == k;
        assert(m[s[i].0] == s[i].1);
    }
    assert(assoc(s) =~= m);
}

impl<V> KeyValueMap for Vec<(i64, V)> {
    type Value = V;

    open spec fn contents(&self) -> Map<i64, V> {
        assoc(self@)
    }

    open spec fn wf(&self) -> bool {
        unique_keys(self@)
    }

    fn insert(&mut self, key: i64, value: V) -> (r: Option<V>) {
        let ghost s = self@;
        let ghost m = assoc(s);
        let mut i: usize = 0;
        while i < self.len()
            invariant
                self@ == s,
                s == old(self)@,
                m == assoc(s),
                unique_keys(s),
                i <= s.len(),
                forall|j: int| 0 <= j < i ==> s[j].0 != key,
            decreases s.len() - i,
        {
            if self[i].0 == key {
                let mut pair = (key, value);
                core::mem::swap(&mut self[i], &mut pair);
                proof {
                    assert(self@ == s.update(i as int, (key, value)));
                    assert(m.contains_key(key) && m[key] == s[i as int].1) by {
                        assert(has_key_at(s, key));
                        let c = choose|c: int| 0 <= c < s.len() && (#[trigger] s[c]).0 == key;
                        assert(c == i);
                    }
                    assert forall|k: i64| #[trigger] m.insert(key, value).contains_key(k) <==> has_key_at(self@, k) by {
                        if has_key_at(s, k) {
                            let c = choose|c: int| 0 <= c < s.len() && (#[trigger] s[c]).0 == k;
                            assert(self@[c].0 == k);
                        }
                        if has_key_at(self@, k) {
                            let c = choose|c: int| 0 <= c < self@.len() && (#[trigger] self@[c]).0 == k;
                            assert(s[c].0 == k);
                        }
                    }
                    assert forall|j: int| 0 <= j < self@.len() implies m.insert(key, value)[(#[trigger] self@[j]).0] == self@[j].1 by {
                        if j != i {
                            assert(s[j].0 != key);
                            assert(has_key_at(s, s[j].0));
                            let c = choose|c: int| 0 <= c < s.len() && (#[trigger] s[c]).0 == s[j].0;
                            assert(c == j);
                        }
                    }
                    lemma_assoc_is(self@, m.insert(key, value));
                }
                return Some(pair.1);
            }
            i = i + 1;
        }
        self.push((key, value));
        proof {
            assert(!has_key_at(s, key));
            assert forall|k: i64| #[trigger] m.insert(key, value).contains_key(k) <==> has_key_at(self@, k) by {
                if has_key_at(s, k) {
                    let c = choose|c: int| 0 <= c < s.len() && (#[trigger] s[c]).0 == k;
                    assert(self@[c].0 == k);
                }
                if k == key {
                    assert(self@[s.len() as int].0 == k);
                }
                if has_key_at(self@, k) && k != key {
                    let c = choose|c: int| 0 <= c < self@.len() && (#[trigger] self@[c]).0 == k;
                    assert(s[c].0 == k);
                }
            }
            assert forall|j: int| 0 <= j < self@.len() implies m.insert(key, value)[(#[trigger] self@[j]).0] == self@[j].1 by {
                if j < s.len() {
                    assert(s[j] == self@[j]);
                    assert(has_key_at(s, s[j].0));
                    let c = choose|c: int| 0 <= c < s.len() && (#[trigger] s[c]).0 == s[j].0;
                    assert(c == j);
                }
            }
            lemma_assoc_is(self@, m.insert(key, value));
        }
        None
    }

    fn remove(&mut self, key: &i64) -> (r: Option<V>) {
        let ghost s = self@;
        let ghost m = assoc(s);
        let mut i: usize = 0;
        while i < self.len()
            invariant
                self@ == s,
                s == old(self)@,
                m == assoc(s),
                unique_keys(s),
                i <= s.len(),
                forall|j: int| 0 <= j < i ==> s[j].0 != *key,
            decreases s.len() - i,
        {
            if self[i].0 == *key {
                let pair = self.swap_remove(i);
                proof {
                    let t = self@;
                    assert(t == s.update(i as int, s.last()).drop_last());
                    assert(m.contains_key(*key) && m[*key] == pair.1) by {
                        assert(has_key_at(s, *key));
                        let c = choose|c: int| 0 <= c < s.len() && (#[trigger] s[c]).0 == *key;
                        assert(c == i);
                    }
                    assert forall|a: int, b: int| 0 <= a < b < t.len() implies (#[trigger] t[a]).0 != (#[trigger] t[b]).0 by {
                        if a == i {
                            assert(t[a] == s[s.len() - 1]);
                        } else if b == i {
                            assert(t[b] == s[s.len() - 1]);
                        }
                    }
                    assert forall|k: i64| #[trigger] m.remove(*key).contains_key(k) <==> has_key_at(t, k) by {
                        if has_key_at(s, k) && k != *key {
                            let c = choose|c: int| 0 <= c < s.len() && (#[trigger] s[c]).0 == k;
                            if c == s.len() - 1 {
                                assert(t[i as int].0 == k);
                            } else {
                                assert(t[c].0 == k);
                            }
                        }
                        if has_key_at(t, k) {
                            let c = choose|c: int| 0 <= c < t.len() && (#[trigger] t[c]).0 == k;
                            if c == i {
                                assert(s[s.len() - 1].0 == k);
                            } else {
                                assert(s[c].0 == k);
                            }
                        }
                    }
                    assert forall|j: int| 0 <= j < t.len() implies m.remove(*key)[(#[trigger] t[j]).0] == t[j].1 by {
                        let jj = if j == i { s.len() - 1 } else { j };
                        assert(t[j] == s[jj]);
                        assert(has_key_at(s, s[jj].0));
                        let c = choose|c: int| 0 <= c < s.len() && (#[trigger] s[c]).0 == s[jj].0;
                        assert(c == jj);
                    }
                    lemma_assoc_is(t, m.remove(*key));
                }
                return Some(pair.1);
            }
            i = i + 1;
        }
        proof {
            assert(!has_key_at(s, *key));
            assert(m.remove(*key) =~= m);
        }
        None
    }

    fn aggregate<T, F: AggregateFn<T, V>>(&mut self, key: i64, t: T, operation: F) {
        let opt_value = KeyValueMap::remove(self, &key);
        match operation.apply(opt_value, &key, t) {
            Some(value) => {
                let ghost s = self@;
                self.push((key, value));
                proof {
                    let m = assoc(s);
                    assert(!m.contains_key(key));
                    assert(!has_key_at(s, key));
                    assert forall|a: int, b: int| 0 <= a < b < self@.len() implies (#[trigger] self@[a]).0 != (#[trigger] self@[b]).0 by {
                        if b == s.len() {
                            assert(s[a].0 != key);
                        }
                    }
                    assert forall|k: i64| #[trigger] m.insert(key, value).contains_key(k) <==> has_key_at(self@, k) by {
                        if has_key_at(s, k) {
                            let c = choose|c: int| 0 <= c < s.len() && (#[trigger] s[c]).0 == k;
                            assert(self@[c].0 == k);
                        }
                        if k == key {
                            assert(self@[s.len() as int].0 == k);
                        }
                        if has_key_at(self@, k) && k != key {
                            let c = choose|c: int| 0 <= c < self@.len() && (#[trigger] self@[c]).0 == k;
                            assert(s[c].0 == k);
                        }
                    }
                    assert forall|j: int| 0 <= j < self@.len() implies m.insert(key, value)[(#[trigger] self@[j]).0] == self@[j].1 by {
                        if j < s.len() {
                            assert(s[j] == self@[j]);
                            assert(has_key_at(s, s[j].0));
                            let c = choose|c: int| 0 <= c < s.len() && (#[trigger] s[c]).0 == s[j].0;
                            assert(c == j);
                        }
                    }
                    lemma_assoc_is(self@, m.insert(key, value));
                    assert(m.insert(key, value) =~= old(self).contents().remove(key).insert(key, value));
                }
            },
            None => {},
        }
    }
}

} // verus!
