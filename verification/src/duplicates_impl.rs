//! An iterator adaptor over the items whose key has occurred exactly once before: the second
//! occurrence of each key.
use vstd::prelude::*;
use std::collections::HashMap;
use crate::Itertools;
use crate::size_hint::SizeHint;
use crate::adaptors::group_by::KeyFn;

verus! {

broadcast use vstd::std_specs::hash::group_hash_axioms;

/// A key paired with a value, or a value that is its own key.
pub trait KeyXorValue<V>: Sized {
    spec fn spec_key(&self) -> i64;

    spec fn spec_value(&self) -> V;

    /// The key.
    fn key_ref(&self) -> (r: &i64)
        ensures
            *r == self.spec_key(),
    ;

    /// The key, by value.
    fn key(self) -> (r: i64)
        ensures
            r == self.spec_key(),
    ;

    /// The value.
    fn value(self) -> (r: V)
        ensures
            r == self.spec_value(),
    ;
}

/// How the key of a value is found.
pub trait KeyMethod<V> {
    type Container: KeyXorValue<V>;

    spec fn spec_key(&self, v: V) -> i64;

    /// Pair the value with its key.
    fn make(&self, v: V) -> (c: Self::Container)
        ensures
            c.spec_key() == self.spec_key(v),
            c.spec_value() == v,
    ;
}

/// The value is its own key.
pub struct ById;

/// The key is computed by a key function.
pub struct ByFn<F>(pub F);

/// A key and a value.
pub struct KeyValue<V>(pub i64, pub V);

/// A value that is its own key.
pub struct JustValue(pub i64);

impl<V> KeyXorValue<V> for KeyValue<V> {
    open spec fn spec_key(&self) -> i64 {
        self.0
    }

    open spec fn spec_value(&self) -> V {
        self.1
    }

    fn key_ref(&self) -> (r: &i64) {
        &self.0
    }

    fn key(self) -> (r: i64) {
        self.0
    }

    fn value(self) -> (r: V) {
        self.1
    }
}

impl KeyXorValue<i64> for JustValue {
    open spec fn spec_key(&self) -> i64 {
        self.0
    }

    open spec fn spec_value(&self) -> i64 {
        self.0
    }

    fn key_ref(&self) -> (r: &i64) {
        &self.0
    }

    fn key(self) -> (r: i64) {
        self.0
    }

    fn value(self) -> (r: i64) {
        self.0
    }
}

impl KeyMethod<i64> for ById {
    type Container = JustValue;

    open spec fn spec_key(&self, v: i64) -> i64 {
        v
    }

    fn make(&self, v: i64) -> (c: JustValue) {
        JustValue(v)
    }
}

impl<V, F: KeyFn<V>> KeyMethod<V> for ByFn<F> {
    type Container = KeyValue<V>;

    open spec fn spec_key(&self, v: V) -> i64 {
        self.0.spec_key(v)
    }

    fn make(&self, v: V) -> (c: KeyValue<V>) {
        let k = self.0.key(&v);
        KeyValue(k, v)
    }
}

/// The items of `s` whose key occurs exactly once before them, counting the occurrences
/// recorded in `seen` (`false`: once, `true`: twice or more).
pub open spec fn dup_seq<V, F: KeyMethod<V>>(s: Seq<V>, seen: Map<i64, bool>, km: F) -> Seq<V>
    decreases s.len(),
{
    if s.len() == 0 {
        Seq::empty()
    } else {
        let k = km.spec_key(s[0]);
        if !seen.contains_key(k) {
            dup_seq(s.drop_first(), seen.insert(k, false), km)
        } else if seen[k] {
            dup_seq(s.drop_first(), seen, km)
        } else {
            seq![s[0]] + dup_seq(s.drop_first(), seen.insert(k, true), km)
        }
    }
}

/// The keys seen once so far.
pub open spec fn pending_keys(seen: Map<i64, bool>) -> Set<i64> {
    seen.dom().filter(|k: i64| !seen[k])
}

/// The most duplicates that `n` more items can bring when `p` keys have been seen once.
pub open spec fn dup_bound(n: nat, p: nat) -> nat {
    if n <= p {
        n
    } else {
        p + ((n - p) as nat) / 2
    }
}

proof fn lemma_dup_bound<V, F: KeyMethod<V>>(s: Seq<V>, seen: Map<i64, bool>, km: F)
    requires
        seen.dom().finite(),
    ensures
        dup_seq(s, seen, km).len() <= dup_bound(s.len(), pending_keys(seen).len()),
    decreases s.len(),
{
    if s.len() > 0 {
        let k = km.spec_key(s[0]);
        let p = pending_keys(seen).len();
        let n = s.len();
        if !seen.contains_key(k) {
            let m2 = seen.insert(k, false);
            assert(pending_keys(m2) =~= pending_keys(seen).insert(k));
            lemma_dup_bound(s.drop_first(), m2, km);
        } else if seen[k] {
            lemma_dup_bound(s.drop_first(), seen, km);
        } else {
            let m2 = seen.insert(k, true);
            assert(pending_keys(m2) =~= pending_keys(seen).remove(k));
            assert(pending_keys(seen).contains(k));
            lemma_dup_bound(s.drop_first(), m2, km);
        }
    }
}

proof fn lemma_dup_bound_mono(n1: nat, n2: nat, p: nat)
    requires
        n1 <= n2,
    ensures
        dup_bound(n1, p) <= dup_bound(n2, p),
{
}

/// The record of the keys seen so far.
pub struct Meta<F> {
    used: HashMap<i64, bool>,
    pending: usize,
    key_method: F,
}

impl<F> Meta<F> {
    pub closed spec fn wf(&self) -> bool {
        &&& self.used@.dom().finite()
        &&& self.pending == pending_keys(self.used@).len()
    }

    pub closed spec fn seen(&self) -> Map<i64, bool> {
        self.used@
    }

    pub closed spec fn km(&self) -> F {
        self.key_method
    }

    /// Record the key of `item`; hand the item back when it is the second occurrence of its
    /// key.
    fn filter<V>(&mut self, item: V) -> (r: Option<V>) where F: KeyMethod<V>
        requires
            old(self).wf(),
        ensures
            final(self).wf(),
            final(self).km() == old(self).km(),
            ({
                let k = old(self).km().spec_key(item);
                let seen = old(self).seen();
                if !seen.contains_key(k) {
                    r is None && final(self).seen() == seen.insert(k, false)
                } else if seen[k] {
                    r is None && final(self).seen() == seen
                } else {
                    r == Some(item) && final(self).seen() == seen.insert(k, true)
                }
            }),
    {
        let ghost seen = self.used@;
        let kv = self.key_method.make(item);
        let k = *kv.key_ref();
        match self.used.get(&k) {
            None => {
                self.used.insert(kv.key(), false);
                proof {
                    assert(pending_keys(self.used@) =~= pending_keys(seen).insert(k));
                    assert(!pending_keys(seen).contains(k));
                    let _ = vstd::std_specs::hash::spec_hash_map_len(&self.used);
                    vstd::set_lib::lemma_len_subset(pending_keys(self.used@), self.used@.dom());
                }
                self.pending = self.pending + 1;
                None
            },
            Some(true) => None,
            Some(_) => {
                self.used.insert(k, true);
                proof {
                    assert(pending_keys(self.used@) =~= pending_keys(seen).remove(k));
                    assert(pending_keys(seen).contains(k));
                }
                self.pending = self.pending - 1;
                Some(kv.value())
            },
        }
    }
}

/// An iterator adaptor over the items whose key has occurred exactly once before.
pub struct DuplicatesBy<I, F> {
    iter: I,
    meta: Meta<F>,
}

impl<I: Itertools, F: KeyMethod<I::Item>> DuplicatesBy<I, F> {
    /// Create a new `DuplicatesBy` with nothing seen yet.
    pub fn new(iter: I, key_method: F) -> (r: Self)
        requires
            iter.wf(),
        ensures
            r.wf(),
            r.rest() == dup_seq(iter.rest(), Map::empty(), key_method),
    {
        let r = DuplicatesBy { iter, meta: Meta { used: HashMap::new(), pending: 0, key_method } };
        proof {
            assert(pending_keys(r.meta.used@) =~= Set::empty());
        }
        r
    }
}

impl<I: Itertools, F: KeyMethod<I::Item>> Itertools for DuplicatesBy<I, F> {
    type Item = I::Item;

    closed spec fn rest(&self) -> Seq<I::Item> {
        dup_seq(self.iter.rest(), self.meta.seen(), self.meta.km())
    }

    closed spec fn wf(&self) -> bool {
        self.iter.wf() && self.meta.wf()
    }

    fn next(&mut self) -> (r: Option<I::Item>) {
        loop
            invariant
                self.wf(),
                self.rest() == old(self).rest(),
            decreases self.iter.rest().len(),
        {
            match self.iter.next() {
                Some(v) => {
                    match self.meta.filter(v) {
                        Some(x) => {
                            return Some(x);
                        },
                        None => {},
                    }
                },
                None => {
                    return None;
                },
            }
        }
    }

    /// No lower bound; at most the pending keys, one item each, and one duplicate for every
    /// two further items.
    closed spec fn spec_size_hint(&self) -> (usize, Option<usize>) {
        (0, match self.iter.spec_size_hint().1 {
            Some(hi) => Some(if hi <= self.meta.pending { hi } else { (self.meta.pending + (hi - self.meta.pending) / 2) as usize }),
            None => None,
        })
    }

    fn size_hint(&self) -> (r: SizeHint) {
        let (_, hi0) = self.iter.size_hint();
        let pending = self.meta.pending;
        let hi = match hi0 {
            Some(hi) => Some(if hi <= pending {
                hi
            } else {
                pending + (hi - pending) / 2
            }),
            None => None,
        };
        proof {
            lemma_dup_bound(self.iter.rest(), self.meta.seen(), self.meta.km());
            if hi is Some {
                lemma_dup_bound_mono(self.iter.rest().len(), hi0.unwrap() as nat, pending as nat);
            }
        }
        let r = (0, hi);
        assert(r == self.spec_size_hint());
        r
    }
}

/// The duplicates of the items of `iter` by the key `f`. The hasher does not change which
/// items come out, and this implementation hashes with the standard one.
pub fn duplicates_by_with_hasher<I: Itertools, F: KeyFn<I::Item>, S>(
    iter: I,
    f: F,
    hash_builder: S,
) -> (r: DuplicatesBy<I, ByFn<F>>)
    requires
        iter.wf(),
    ensures
        r.wf(),
        r.rest() == dup_seq(iter.rest(), Map::empty(), ByFn(f)),
{
    DuplicatesBy::new(iter, ByFn(f))
}

/// The duplicates of the items of `iter`, each item being its own key. The hasher does not
/// change which items come out, and this implementation hashes with the standard one.
pub fn duplicates_with_hasher<I: Itertools<Item = i64>, S>(iter: I, hash_builder: S) -> (r: DuplicatesBy<I, ById>)
    requires
        iter.wf(),
    ensures
        r.wf(),
        r.rest() == dup_seq(iter.rest(), Map::empty(), ById),
{
    DuplicatesBy::new(iter, ById)
}

} // verus!
