//! SQL-like joins of two iterators of key-value pairs, the right one collected into a hash map.
use vstd::prelude::*;
use std::collections::HashMap;
use crate::Itertools;
use crate::merge_join::EitherOrBoth;
use crate::size_hint::SizeHint;

verus! {

broadcast use vstd::std_specs::hash::group_hash_axioms;

/// The map built by inserting the pairs of `s` in order: the last value of a key wins.
pub open spec fn map_of<V>(s: Seq<(i64, V)>) -> Map<i64, V>
    decreases s.len(),
{
    if s.len() == 0 {
        Map::empty()
    } else {
        map_of(s.drop_last()).insert(s.last().0, s.last().1)
    }
}

/// Collect the pairs of `right` into a hash map.
fn build_map<V, R: Itertools<Item = (i64, V)>>(right: R) -> (m: HashMap<i64, V>)
    requires
        right.wf(),
    ensures
        m@ == map_of(right.rest()),
{
    let ghost all = right.rest();
    let mut map: HashMap<i64, V> = HashMap::new();
    let mut it = right;
    let ghost mut n: int = 0;
    loop
        invariant
            it.wf(),
            all == right.rest(),
            0 <= n <= all.len(),
            it.rest() == all.skip(n),
            map@ == map_of(all.take(n)),
        decreases it.rest().len(),
    {
        match it.next() {
            Some((k, v)) => {
                map.insert(k, v);
                proof {
                    assert(all.take(n + 1).drop_last() =~= all.take(n));
                    n = n + 1;
                    assert(it.rest() =~= all.skip(n));
                }
            },
            None => {
                proof {
                    assert(all.take(n) =~= all);
                }
                return map;
            },
        }
    }
}

/// The pairs `(lv, rv)` for each left pair `(k, lv)` whose key the map holds, `rv` its value.
pub open spec fn inner_seq<LV, RV>(left: Seq<(i64, LV)>, m: Map<i64, RV>) -> Seq<(LV, RV)>
    decreases left.len(),
{
    if left.len() == 0 {
        Seq::empty()
    } else if m.contains_key(left[0].0) {
        seq![(left[0].1, m[left[0].0])] + inner_seq(left.drop_first(), m)
    } else {
        inner_seq(left.drop_first(), m)
    }
}

/// The left values whose key the map does not hold.
pub open spec fn left_excl_seq<LV, RV>(left: Seq<(i64, LV)>, m: Map<i64, RV>) -> Seq<LV>
    decreases left.len(),
{
    if left.len() == 0 {
        Seq::empty()
    } else if m.contains_key(left[0].0) {
        left_excl_seq(left.drop_first(), m)
    } else {
        seq![left[0].1] + left_excl_seq(left.drop_first(), m)
    }
}

/// Each left value, with the map's value for its key where there is one.
pub open spec fn left_outer_seq<LV, RV>(left: Seq<(i64, LV)>, m: Map<i64, RV>) -> Seq<EitherOrBoth<LV, RV>> {
    left.map_values(|p: (i64, LV)| if m.contains_key(p.0) {
        EitherOrBoth::Both(p.1, m[p.0])
    } else {
        EitherOrBoth::Left(p.1)
    })
}

proof fn lemma_filter_len<LV, RV>(left: Seq<(i64, LV)>, m: Map<i64, RV>)
    ensures
        inner_seq(left, m).len() <= left.len(),
        left_excl_seq(left, m).len() <= left.len(),
    decreases left.len(),
{
    if left.len() > 0 {
        lemma_filter_len(left.drop_first(), m);
    }
}

/// An iterator adaptor over the pairs of values of the left pairs whose key the right pairs
/// hold.
pub struct HashJoinInner<L, RV> {
    left: L,
    map: HashMap<i64, RV>,
}

impl<LV, RV: Copy, L: Itertools<Item = (i64, LV)>> HashJoinInner<L, RV> {
    /// Create a new `HashJoinInner`.
    pub fn new<R: Itertools<Item = (i64, RV)>>(left: L, right: R) -> (r: Self)
        requires
            left.wf(),
            right.wf(),
        ensures
            r.wf(),
            r.rest() == inner_seq(left.rest(), map_of(right.rest())),
    {
        let map = build_map(right);
        HashJoinInner { left, map }
    }
}

impl<LV, RV: Copy, L: Itertools<Item = (i64, LV)>> Itertools for HashJoinInner<L, RV> {
    type Item = (LV, RV);

    closed spec fn rest(&self) -> Seq<(LV, RV)> {
        inner_seq(self.left.rest(), self.map@)
    }

    closed spec fn wf(&self) -> bool {
        self.left.wf()
    }

    fn next(&mut self) -> (r: Option<(LV, RV)>) {
        loop
            invariant
                self.wf(),
                self.rest() == old(self).rest(),
            decreases self.left.rest().len(),
        {
            let ghost s = self.left.rest();
            match self.left.next() {
                Some((lk, lv)) => {
                    proof {
                        assert(s.drop_first() == self.left.rest());
                    }
                    match self.map.get(&lk) {
                        Some(rv) => {
                            return Some((lv, *rv));
                        },
                        None => {},
                    }
                },
                None => {
                    return None;
                },
            }
        }
    }

    /// No lower bound; at most the items of the left iterator.
    closed spec fn spec_size_hint(&self) -> (usize, Option<usize>) {
        (0, self.left.spec_size_hint().1)
    }

    fn size_hint(&self) -> (r: SizeHint) {
        let (_, hi) = self.left.size_hint();
        proof {
            lemma_filter_len(self.left.rest(), self.map@);
        }
        let r = (0, hi);
        assert(r == self.spec_size_hint());
        r
    }
}

/// An iterator adaptor over the values of the left pairs whose key the right pairs do not
/// hold.
pub struct HashJoinLeftExcl<L, RV> {
    left: L,
    map: HashMap<i64, RV>,
}

impl<LV, RV, L: Itertools<Item = (i64, LV)>> HashJoinLeftExcl<L, RV> {
    /// Create a new `HashJoinLeftExcl`.
    pub fn new<R: Itertools<Item = (i64, RV)>>(left: L, right: R) -> (r: Self)
        requires
            left.wf(),
            right.wf(),
        ensures
            r.wf(),
            r.rest() == left_excl_seq(left.rest(), map_of(right.rest())),
    {
        let map = build_map(right);
        HashJoinLeftExcl { left, map }
    }
}

impl<LV, RV, L: Itertools<Item = (i64, LV)>> Itertools for HashJoinLeftExcl<L, RV> {
    type Item = LV;

    closed spec fn rest(&self) -> Seq<LV> {
        left_excl_seq(self.left.rest(), self.map@)
    }

    closed spec fn wf(&self) -> bool {
        self.left.wf()
    }

    fn next(&mut self) -> (r: Option<LV>) {
        loop
            invariant
                self.wf(),
                self.rest() == old(self).rest(),
            decreases self.left.rest().len(),
        {
            let ghost s = self.left.rest();
            match self.left.next() {
                Some((lk, lv)) => {
                    proof {
                        assert(s.drop_first() == self.left.rest());
                    }
                    match self.map.get(&lk) {
                        Some(_) => {},
                        None => {
                            return Some(lv);
                        },
                    }
                },
                None => {
                    return None;
                },
            }
        }
    }

    /// No lower bound; at most the items of the left iterator.
    closed spec fn spec_size_hint(&self) -> (usize, Option<usize>) {
        (0, self.left.spec_size_hint().1)
    }

    fn size_hint(&self) -> (r: SizeHint) {
        let (_, hi) = self.left.size_hint();
        proof {
            lemma_filter_len(self.left.rest(), self.map@);
        }
        let r = (0, hi);
        assert(r == self.spec_size_hint());
        r
    }
}

/// An iterator adaptor over the left values, each with the right value of its key where the
/// right pairs hold it.
pub struct HashJoinLeftOuter<L, RV> {
    left: L,
    map: HashMap<i64, RV>,
}

impl<LV, RV: Copy, L: Itertools<Item = (i64, LV)>> HashJoinLeftOuter<L, RV> {
    /// Create a new `HashJoinLeftOuter`.
    pub fn new<R: Itertools<Item = (i64, RV)>>(left: L, right: R) -> (r: Self)
        requires
            left.wf(),
            right.wf(),
        ensures
            r.wf(),
            r.rest() == left_outer_seq(left.rest(), map_of(right.rest())),
    {
        let map = build_map(right);
        HashJoinLeftOuter { left, map }
    }
}

impl<LV, RV: Copy, L: Itertools<Item = (i64, LV)>> Itertools for HashJoinLeftOuter<L, RV> {
    type Item = EitherOrBoth<LV, RV>;

    closed spec fn rest(&self) -> Seq<EitherOrBoth<LV, RV>> {
        left_outer_seq(self.left.rest(), self.map@)
    }

    closed spec fn wf(&self) -> bool {
        self.left.wf()
    }

    fn next(&mut self) -> (r: Option<EitherOrBoth<LV, RV>>) {
        let ghost s = self.left.rest();
        match self.left.next() {
            Some((lk, lv)) => {
                proof {
                    assert(self.rest() =~= old(self).rest().drop_first());
                }
                match self.map.get(&lk) {
                    Some(rv) => Some(EitherOrBoth::Both(lv, *rv)),
                    None => Some(EitherOrBoth::Left(lv)),
                }
            },
            None => None,
        }
    }

    /// One item for each left item.
    closed spec fn spec_size_hint(&self) -> (usize, Option<usize>) {
        self.left.spec_size_hint()
    }

    fn size_hint(&self) -> (r: SizeHint) {
        let r = self.left.size_hint();
        assert(r == self.spec_size_hint());
        r
    }
}


/// The keys of `s`, each once, in the order of their first occurrence.
pub open spec fn first_keys<V>(s: Seq<(i64, V)>) -> Seq<i64>
    decreases s.len(),
{
    if s.len() == 0 {
        Seq::empty()
    } else {
        let ks = first_keys(s.drop_last());
        if ks.contains(s.last().0) {
            ks
        } else {
            ks.push(s.last().0)
        }
    }
}

/// Whether some pair of `s` has the key `k`.
pub open spec fn holds_key<V>(s: Seq<(i64, V)>, k: i64) -> bool {
    exists|i: int| 0 <= i < s.len() && (#[trigger] s[i]).0 == k
}

/// Each value of `m` together with a flag that no left pair has matched it yet.
pub open spec fn unmatched_map<RV>(m: Map<i64, RV>) -> Map<i64, (RV, bool)> {
    Map::new(|k: i64| m.contains_key(k), |k: i64| (m[k], false))
}

/// The values of a map of flagged values.
pub open spec fn values_of<RV>(m: Map<i64, (RV, bool)>) -> Map<i64, RV> {
    Map::new(|k: i64| m.contains_key(k), |k: i64| m[k].0)
}

/// In the order of `keys`, the value of each key that is neither flagged as matched in `m`
/// nor the key of a pair of `left`.
pub open spec fn excl_values<LV, RV>(keys: Seq<i64>, m: Map<i64, (RV, bool)>, left: Seq<(i64, LV)>) -> Seq<RV>
    decreases keys.len(),
{
    if keys.len() == 0 {
        Seq::empty()
    } else {
        let t = excl_values(keys.drop_first(), m, left);
        if !m[keys[0]].1 && !holds_key(left, keys[0]) {
            seq![m[keys[0]].0] + t
        } else {
            t
        }
    }
}

/// The right values, one per key in the order of its first occurrence (the last value of a
/// key wins), whose key no left pair has.
pub open spec fn right_excl_seq<LV, RV>(left: Seq<(i64, LV)>, right: Seq<(i64, RV)>) -> Seq<RV> {
    excl_values(first_keys(right), unmatched_map(map_of(right)), left)
}

proof fn lemma_holds_key_first<V>(s: Seq<(i64, V)>, j: i64)
    requires
        s.len() > 0,
    ensures
        holds_key(s, j) == (s[0].0 == j || holds_key(s.drop_first(), j)),
{
    if holds_key(s, j) {
        let i = choose|i: int| 0 <= i < s.len() && (#[trigger] s[i]).0 == j;
        if i > 0 {
            assert(s.drop_first()[i - 1] == s[i]);
        }
    }
    if holds_key(s.drop_first(), j) {
        let i = choose|i: int| 0 <= i < s.drop_first().len() && (#[trigger] s.drop_first()[i]).0 == j;
        assert(s[i + 1] == s.drop_first()[i]);
    }
    if s[0].0 == j {
        assert(holds_key(s, j));
    }
}

proof fn lemma_excl_values_congruent<LV, RV>(
    keys: Seq<i64>,
    m1: Map<i64, (RV, bool)>,
    l1: Seq<(i64, LV)>,
    m2: Map<i64, (RV, bool)>,
    l2: Seq<(i64, LV)>,
)
    requires
        forall|j: i64| #[trigger] keys.contains(j) ==> m1[j].0 == m2[j].0 && ((!m1[j].1
            && !holds_key(l1, j)) == (!m2[j].1 && !holds_key(l2, j))),
    ensures
        excl_values(keys, m1, l1) == excl_values(keys, m2, l2),
    decreases keys.len(),
{
    if keys.len() > 0 {
        assert(keys.contains(keys[0]));
        assert forall|j: i64| #[trigger] keys.drop_first().contains(j) implies keys.contains(j) by {
            let i = choose|i: int| 0 <= i < keys.drop_first().len() && keys.drop_first()[i] == j;
            assert(keys[i + 1] == j);
        }
        lemma_excl_values_congruent(keys.drop_first(), m1, l1, m2, l2);
    }
}

proof fn lemma_first_keys<V>(s: Seq<(i64, V)>)
    ensures
        first_keys(s).no_duplicates(),
        first_keys(s).to_set() == map_of(s).dom(),
    decreases s.len(),
{
    if s.len() > 0 {
        lemma_first_keys(s.drop_last());
        let ks = first_keys(s.drop_last());
        if !ks.contains(s.last().0) {
            assert forall|x: i64| #[trigger] ks.push(s.last().0).to_set().contains(x) <==> ks.to_set().insert(s.last().0).contains(x) by {
                if x == s.last().0 {
                    assert(ks.push(s.last().0)[ks.len() as int] == x);
                }
                if ks.contains(x) {
                    let i = choose|i: int| 0 <= i < ks.len() && ks[i] == x;
                    assert(ks.push(s.last().0)[i] == x);
                }
            }
        }
        assert(first_keys(s).to_set() =~= map_of(s).dom());
    }
}

/// Collect the pairs of `right` into a map of flagged values, and its keys in the order of
/// their first occurrence.
fn build_flagged<V, R: Itertools<Item = (i64, V)>>(right: R) -> (r: (HashMap<i64, (V, bool)>, Vec<i64>))
    requires
        right.wf(),
    ensures
        r.0@ == unmatched_map(map_of(right.rest())),
        r.1@ == first_keys(right.rest()),
{
    let ghost all = right.rest();
    let mut map: HashMap<i64, (V, bool)> = HashMap::new();
    let mut keys: Vec<i64> = Vec::new();
    let mut it = right;
    let ghost mut n: int = 0;
    loop
        invariant
            it.wf(),
            all == right.rest(),
            0 <= n <= all.len(),
            it.rest() == all.skip(n),
            map@ == unmatched_map(map_of(all.take(n))),
            keys@ == first_keys(all.take(n)),
        decreases it.rest().len(),
    {
        match it.next() {
            Some((k, v)) => {
                proof {
                    lemma_first_keys(all.take(n));
                    assert(all.take(n + 1).drop_last() =~= all.take(n));
                    assert(keys@.contains(k) == map@.contains_key(k)) by {
                        assert(keys@.to_set().contains(k) == keys@.contains(k));
                    }
                }
                if !map.contains_key(&k) {
                    keys.push(k);
                }
                map.insert(k, (v, false));
                proof {
                    n = n + 1;
                    assert(it.rest() =~= all.skip(n));
                    assert(map@ =~= unmatched_map(map_of(all.take(n))));
                }
            },
            None => {
                proof {
                    assert(all.take(n) =~= all);
                }
                return (map, keys);
            },
        }
    }
}


/// The pairs of `inner_seq`, each as `Both`.
pub open spec fn inner_both<LV, RV>(left: Seq<(i64, LV)>, m: Map<i64, RV>) -> Seq<EitherOrBoth<LV, RV>> {
    inner_seq(left, m).map_values(|p: (LV, RV)| EitherOrBoth::Both(p.0, p.1))
}

/// The values of `excl_values`, each as `Right`.
pub open spec fn excl_rights<LV, RV>(keys: Seq<i64>, m: Map<i64, (RV, bool)>, left: Seq<(i64, LV)>) -> Seq<EitherOrBoth<LV, RV>> {
    excl_values(keys, m, left).map_values(|v: RV| EitherOrBoth::Right(v))
}

/// The inner join as `Both`, then the right values whose key no left pair has, as `Right`.
pub open spec fn right_outer_seq<LV, RV>(left: Seq<(i64, LV)>, right: Seq<(i64, RV)>) -> Seq<EitherOrBoth<LV, RV>> {
    inner_both(left, map_of(right)) + excl_rights(first_keys(right), unmatched_map(map_of(right)), left)
}

/// The left outer join, then the right values whose key no left pair has, as `Right`.
pub open spec fn full_outer_seq<LV, RV>(left: Seq<(i64, LV)>, right: Seq<(i64, RV)>) -> Seq<EitherOrBoth<LV, RV>> {
    left_outer_seq(left, map_of(right)) + excl_rights(first_keys(right), unmatched_map(map_of(right)), left)
}

/// The state shared by the joins that also yield right values: `map` holds, for the keys of
/// `keys` from `pos` on, the right value and whether a left pair matched it.
pub open spec fn flagged_wf<RV>(map: Map<i64, (RV, bool)>, keys: Seq<i64>, pos: int) -> bool {
    &&& 0 <= pos <= keys.len()
    &&& keys.no_duplicates()
    &&& map.dom() == keys.skip(pos).to_set()
}

proof fn lemma_skip_step(keys: Seq<i64>, pos: int)
    requires
        0 <= pos < keys.len(),
        keys.no_duplicates(),
    ensures
        keys.skip(pos)[0] == keys[pos],
        keys.skip(pos).drop_first() == keys.skip(pos + 1),
        !keys.skip(pos + 1).contains(keys[pos]),
        keys.skip(pos).to_set().remove(keys[pos]) == keys.skip(pos + 1).to_set(),
{
    assert(keys.skip(pos).drop_first() =~= keys.skip(pos + 1));
    if keys.skip(pos + 1).contains(keys[pos]) {
        let i = choose|i: int| 0 <= i < keys.skip(pos + 1).len() && #[trigger] keys.skip(pos + 1)[i] == keys[pos];
        assert(keys[pos + 1 + i] == keys[pos]);
    }
    assert forall|x: i64| #[trigger] keys.skip(pos).to_set().remove(keys[pos]).contains(x) <==> keys.skip(pos + 1).to_set().contains(x) by {
        if keys.skip(pos).contains(x) && x != keys[pos] {
            let i = choose|i: int| 0 <= i < keys.skip(pos).len() && #[trigger] keys.skip(pos)[i] == x;
            assert(i != 0);
            assert(keys.skip(pos + 1)[i - 1] == x);
        }
        if keys.skip(pos + 1).contains(x) {
            let i = choose|i: int| 0 <= i < keys.skip(pos + 1).len() && #[trigger] keys.skip(pos + 1)[i] == x;
            assert(keys.skip(pos)[i + 1] == x);
        }
    }
    assert(keys.skip(pos).to_set().remove(keys[pos]) =~= keys.skip(pos + 1).to_set());
}

/// One left pair consumed while the map still holds every key: flagging its key, if the map
/// holds it, keeps the right values that are still to come.
proof fn lemma_flag_step<LV, RV>(
    keys: Seq<i64>,
    m1: Map<i64, (RV, bool)>,
    m2: Map<i64, (RV, bool)>,
    s: Seq<(i64, LV)>,
)
    requires
        s.len() > 0,
        m1.dom() == keys.to_set(),
        m1.contains_key(s[0].0) ==> m2 == m1.insert(s[0].0, (m1[s[0].0].0, true)),
        !m1.contains_key(s[0].0) ==> m2 == m1,
    ensures
        excl_values(keys, m1, s) == excl_values(keys, m2, s.drop_first()),
        values_of(m2) == values_of(m1),
        m2.dom() == m1.dom(),
{
    assert forall|j: i64| #[trigger] keys.contains(j) implies m1[j].0 == m2[j].0 && ((!m1[j].1
        && !holds_key(s, j)) == (!m2[j].1 && !holds_key(s.drop_first(), j))) by {
        lemma_holds_key_first(s, j);
        assert(keys.to_set().contains(j));
    }
    lemma_excl_values_congruent(keys, m1, s, m2, s.drop_first());
    assert(values_of(m2) =~= values_of(m1));
    assert(m2.dom() =~= m1.dom());
}

/// One key visited after the left pairs ran out: its entry leaves the map.
proof fn lemma_drain_step<LV, RV>(keys: Seq<i64>, pos: int, m: Map<i64, (RV, bool)>, left: Seq<(i64, LV)>)
    requires
        flagged_wf(m, keys, pos),
        pos < keys.len(),
        left.len() == 0,
    ensures
        m.contains_key(keys[pos]),
        flagged_wf(m.remove(keys[pos]), keys, pos + 1),
        excl_values(keys.skip(pos), m, left) == if !m[keys[pos]].1 {
            seq![m[keys[pos]].0] + excl_values(keys.skip(pos + 1), m.remove(keys[pos]), left)
        } else {
            excl_values(keys.skip(pos + 1), m.remove(keys[pos]), left)
        },
{
    lemma_skip_step(keys, pos);
    let k = keys[pos];
    assert(keys.skip(pos).contains(k)) by {
        assert(keys.skip(pos)[0] == k);
    }
    assert(m.remove(k).dom() =~= keys.skip(pos + 1).to_set());
    assert forall|j: i64| #[trigger] keys.skip(pos + 1).contains(j) implies m[j].0 == m.remove(k)[j].0 && ((!m[j].1
        && !holds_key(left, j)) == (!m.remove(k)[j].1 && !holds_key(left, j))) by {
    }
    lemma_excl_values_congruent(keys.skip(pos + 1), m, left, m.remove(k), left);
    assert(!holds_key(left, k));
}

proof fn lemma_unmatched_values<RV>(m: Map<i64, RV>)
    ensures
        values_of(unmatched_map(m)) == m,
        unmatched_map(m).dom() == m.dom(),
{
    assert(values_of(unmatched_map(m)) =~= m);
    assert(unmatched_map(m).dom() =~= m.dom());
}

/// An iterator adaptor over the right values whose key no left pair has.
///
/// The left pairs are read first; then the right values come, one per key in the order of
/// the key's first occurrence among the right pairs.
pub struct HashJoinRightExcl<L, RV> {
    left: L,
    map: HashMap<i64, (RV, bool)>,
    keys: Vec<i64>,
    pos: usize,
    draining: bool,
}

impl<LV, RV, L: Itertools<Item = (i64, LV)>> HashJoinRightExcl<L, RV> {
    /// Create a new `HashJoinRightExcl`.
    pub fn new<R: Itertools<Item = (i64, RV)>>(left: L, right: R) -> (r: Self)
        requires
            left.wf(),
            right.wf(),
        ensures
            r.wf(),
            r.rest() == right_excl_seq(left.rest(), right.rest()),
    {
        let (map, keys) = build_flagged(right);
        proof {
            lemma_first_keys(right.rest());
            lemma_unmatched_values(map_of(right.rest()));
            assert(keys@.skip(0) =~= keys@);
        }
        HashJoinRightExcl { left, map, keys, pos: 0, draining: false }
    }
}

impl<LV, RV, L: Itertools<Item = (i64, LV)>> Itertools for HashJoinRightExcl<L, RV> {
    type Item = RV;

    closed spec fn rest(&self) -> Seq<RV> {
        excl_values(self.keys@.skip(self.pos as int), self.map@, self.left.rest())
    }

    closed spec fn wf(&self) -> bool {
        &&& self.left.wf()
        &&& flagged_wf(self.map@, self.keys@, self.pos as int)
        &&& !self.draining ==> self.pos == 0
        &&& self.draining ==> self.left.rest().len() == 0
    }

    fn next(&mut self) -> (r: Option<RV>) {
        loop
            invariant
                self.wf(),
                self.rest() == old(self).rest(),
            decreases (if self.draining { 0int } else { 1int }), self.left.rest().len(), self.keys.len() - self.pos,
        {
            if !self.draining {
                let ghost s = self.left.rest();
                let ghost m1 = self.map@;
                proof {
                    assert(self.keys@.skip(0) =~= self.keys@);
                }
                match self.left.next() {
                    Some((lk, _)) => {
                        match self.map.remove(&lk) {
                            Some((rv, _)) => {
                                self.map.insert(lk, (rv, true));
                                proof {
                                    assert(self.map@ =~= m1.insert(lk, (m1[lk].0, true)));
                                }
                            },
                            None => {
                                proof {
                                    assert(self.map@ =~= m1);
                                }
                            },
                        }
                        proof {
                            lemma_flag_step(self.keys@, m1, self.map@, s);
                        }
                    },
                    None => {
                        self.draining = true;
                        proof {
                            assert(self.left.rest() =~= s);
                        }
                    },
                }
            } else {
                if self.pos < self.keys.len() {
                    let k = self.keys[self.pos];
                    proof {
                        lemma_drain_step(self.keys@, self.pos as int, self.map@, self.left.rest());
                    }
                    self.pos = self.pos + 1;
                    match self.map.remove(&k) {
                        Some((rv, matched)) => {
                            if !matched {
                                return Some(rv);
                            }
                        },
                        None => {},
                    }
                } else {
                    return None;
                }
            }
        }
    }

    /// No bounds are known.
    closed spec fn spec_size_hint(&self) -> (usize, Option<usize>) {
        (0, None)
    }

    fn size_hint(&self) -> (r: SizeHint) {
        let r = (0, None);
        assert(r == self.spec_size_hint());
        r
    }
}


/// An iterator adaptor over the inner join as `Both`, then the right values whose key no left
/// pair has, as `Right`, one per key in the order of the key's first occurrence.
pub struct HashJoinRightOuter<L, RV> {
    left: L,
    map: HashMap<i64, (RV, bool)>,
    keys: Vec<i64>,
    pos: usize,
    draining: bool,
}

impl<LV, RV: Copy, L: Itertools<Item = (i64, LV)>> HashJoinRightOuter<L, RV> {
    /// Create a new `HashJoinRightOuter`.
    pub fn new<R: Itertools<Item = (i64, RV)>>(left: L, right: R) -> (r: Self)
        requires
            left.wf(),
            right.wf(),
        ensures
            r.wf(),
            r.rest() == right_outer_seq(left.rest(), right.rest()),
    {
        let (map, keys) = build_flagged(right);
        proof {
            lemma_first_keys(right.rest());
            lemma_unmatched_values(map_of(right.rest()));
            assert(keys@.skip(0) =~= keys@);
        }
        HashJoinRightOuter { left, map, keys, pos: 0, draining: false }
    }
}

impl<LV, RV: Copy, L: Itertools<Item = (i64, LV)>> Itertools for HashJoinRightOuter<L, RV> {
    type Item = EitherOrBoth<LV, RV>;

    closed spec fn rest(&self) -> Seq<EitherOrBoth<LV, RV>> {
        inner_both(self.left.rest(), values_of(self.map@)) + excl_rights(self.keys@.skip(self.pos as int), self.map@, self.left.rest())
    }

    closed spec fn wf(&self) -> bool {
        &&& self.left.wf()
        &&& flagged_wf(self.map@, self.keys@, self.pos as int)
        &&& !self.draining ==> self.pos == 0
        &&& self.draining ==> self.left.rest().len() == 0
    }

    fn next(&mut self) -> (r: Option<EitherOrBoth<LV, RV>>) {
        loop
            invariant
                self.wf(),
                self.rest() == old(self).rest(),
            decreases (if self.draining { 0int } else { 1int }), self.left.rest().len(), self.keys.len() - self.pos,
        {
            if !self.draining {
                let ghost s = self.left.rest();
                let ghost m1 = self.map@;
                let ghost before = self.rest();
                proof {
                    assert(self.keys@.skip(0) =~= self.keys@);
                }
                match self.left.next() {
                    Some((lk, lv)) => {
                        match self.map.remove(&lk) {
                            Some((rv, _)) => {
                                self.map.insert(lk, (rv, true));
                                proof {
                                    assert(self.map@ =~= m1.insert(lk, (m1[lk].0, true)));
                                    lemma_flag_step(self.keys@, m1, self.map@, s);
                                    assert(inner_both(s, values_of(m1)) =~= seq![EitherOrBoth::Both(lv, rv)] + inner_both(s.drop_first(), values_of(m1)));
                                    assert(self.rest() =~= before.drop_first());
                                }
                                return Some(EitherOrBoth::Both(lv, rv));
                            },
                            None => {
                                proof {
                                    assert(self.map@ =~= m1);
                                    lemma_flag_step(self.keys@, m1, self.map@, s);
                                }
                                proof {
                                    assert(self.rest() =~= before);
                                }
                            },
                        }
                    },
                    None => {
                        self.draining = true;
                        proof {
                            assert(self.left.rest() =~= s);
                        }
                    },
                }
            } else {
                if self.pos < self.keys.len() {
                    let k = self.keys[self.pos];
                    let ghost before = self.rest();
                    let ghost m = self.map@;
                    proof {
                        lemma_drain_step(self.keys@, self.pos as int, self.map@, self.left.rest());
                        assert(inner_both(self.left.rest(), values_of(m)) =~= Seq::empty());
                        assert(inner_both(self.left.rest(), values_of(m.remove(k))) =~= Seq::empty());
                    }
                    self.pos = self.pos + 1;
                    match self.map.remove(&k) {
                        Some((rv, matched)) => {
                            if !matched {
                                proof {
                                    assert(self.rest() =~= before.drop_first());
                                }
                                return Some(EitherOrBoth::Right(rv));
                            }
                            proof {
                                assert(self.rest() =~= before);
                            }
                        },
                        None => {},
                    }
                } else {
                    proof {
                        assert(inner_both(self.left.rest(), values_of(self.map@)) =~= Seq::empty());
                        assert(self.keys@.skip(self.pos as int) =~= Seq::empty());
                    }
                    return None;
                }
            }
        }
    }

    /// No bounds are known.
    closed spec fn spec_size_hint(&self) -> (usize, Option<usize>) {
        (0, None)
    }

    fn size_hint(&self) -> (r: SizeHint) {
        let r = (0, None);
        assert(r == self.spec_size_hint());
        r
    }
}

/// An iterator adaptor over the left outer join, then the right values whose key no left pair
/// has, as `Right`, one per key in the order of the key's first occurrence.
pub struct HashJoinFullOuter<L, RV> {
    left: L,
    map: HashMap<i64, (RV, bool)>,
    keys: Vec<i64>,
    pos: usize,
    draining: bool,
}

impl<LV, RV: Copy, L: Itertools<Item = (i64, LV)>> HashJoinFullOuter<L, RV> {
    /// Create a new `HashJoinFullOuter`.
    pub fn new<R: Itertools<Item = (i64, RV)>>(left: L, right: R) -> (r: Self)
        requires
            left.wf(),
            right.wf(),
        ensures
            r.wf(),
            r.rest() == full_outer_seq(left.rest(), right.rest()),
    {
        let (map, keys) = build_flagged(right);
        proof {
            lemma_first_keys(right.rest());
            lemma_unmatched_values(map_of(right.rest()));
            assert(keys@.skip(0) =~= keys@);
        }
        HashJoinFullOuter { left, map, keys, pos: 0, draining: false }
    }
}

impl<LV, RV: Copy, L: Itertools<Item = (i64, LV)>> Itertools for HashJoinFullOuter<L, RV> {
    type Item = EitherOrBoth<LV, RV>;

    closed spec fn rest(&self) -> Seq<EitherOrBoth<LV, RV>> {
        left_outer_seq(self.left.rest(), values_of(self.map@)) + excl_rights(self.keys@.skip(self.pos as int), self.map@, self.left.rest())
    }

    closed spec fn wf(&self) -> bool {
        &&& self.left.wf()
        &&& flagged_wf(self.map@, self.keys@, self.pos as int)
        &&& !self.draining ==> self.pos == 0
        &&& self.draining ==> self.left.rest().len() == 0
    }

    fn next(&mut self) -> (r: Option<EitherOrBoth<LV, RV>>) {
        loop
            invariant
                self.wf(),
                self.rest() == old(self).rest(),
            decreases (if self.draining { 0int } else { 1int }), self.left.rest().len(), self.keys.len() - self.pos,
        {
            if !self.draining {
                let ghost s = self.left.rest();
                let ghost m1 = self.map@;
                let ghost before = self.rest();
                proof {
                    assert(self.keys@.skip(0) =~= self.keys@);
                }
                match self.left.next() {
                    Some((lk, lv)) => {
                        match self.map.remove(&lk) {
                            Some((rv, _)) => {
                                self.map.insert(lk, (rv, true));
                                proof {
                                    assert(self.map@ =~= m1.insert(lk, (m1[lk].0, true)));
                                    lemma_flag_step(self.keys@, m1, self.map@, s);
                                    assert(left_outer_seq(s, values_of(m1)) =~= seq![EitherOrBoth::Both(lv, rv)] + left_outer_seq(s.drop_first(), values_of(m1)));
                                    assert(self.rest() =~= before.drop_first());
                                }
                                return Some(EitherOrBoth::Both(lv, rv));
                            },
                            None => {
                                proof {
                                    assert(self.map@ =~= m1);
                                    lemma_flag_step(self.keys@, m1, self.map@, s);
                                }
                                proof {
                                    assert(left_outer_seq(s, values_of(m1)) =~= seq![EitherOrBoth::Left(lv)] + left_outer_seq(s.drop_first(), values_of(m1)));
                                    assert(self.rest() =~= before.drop_first());
                                }
                                return Some(EitherOrBoth::Left(lv));
                            },
                        }
                    },
                    None => {
                        self.draining = true;
                        proof {
                            assert(self.left.rest() =~= s);
                        }
                    },
                }
            } else {
                if self.pos < self.keys.len() {
                    let k = self.keys[self.pos];
                    let ghost before = self.rest();
                    let ghost m = self.map@;
                    proof {
                        lemma_drain_step(self.keys@, self.pos as int, self.map@, self.left.rest());
                        assert(left_outer_seq(self.left.rest(), values_of(m)) =~= Seq::empty());
                        assert(left_outer_seq(self.left.rest(), values_of(m.remove(k))) =~= Seq::empty());
                    }
                    self.pos = self.pos + 1;
                    match self.map.remove(&k) {
                        Some((rv, matched)) => {
                            if !matched {
                                proof {
                                    assert(self.rest() =~= before.drop_first());
                                }
                                return Some(EitherOrBoth::Right(rv));
                            }
                            proof {
                                assert(self.rest() =~= before);
                            }
                        },
                        None => {},
                    }
                } else {
                    proof {
                        assert(left_outer_seq(self.left.rest(), values_of(self.map@)) =~= Seq::empty());
                        assert(self.keys@.skip(self.pos as int) =~= Seq::empty());
                    }
                    return None;
                }
            }
        }
    }

    /// No bounds are known.
    closed spec fn spec_size_hint(&self) -> (usize, Option<usize>) {
        (0, None)
    }

    fn size_hint(&self) -> (r: SizeHint) {
        let r = (0, None);
        assert(r == self.spec_size_hint());
        r
    }
}

} // verus!
