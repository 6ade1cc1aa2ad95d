//! Merge of any number of iterators of integers, by a binary min-heap keyed on each
//! iterator's first item.
//!
//! When every base iterator is sorted ascending, the merged sequence is sorted; whatever
//! the base iterators, it holds each of their items exactly once.
use vstd::prelude::*;
use vstd::multiset::Multiset;
use crate::Itertools;
use crate::size_hint::SizeHint;
use crate::merge_join::is_sorted;

verus! {

broadcast use vstd::multiset::group_multiset_axioms;

/// A heap entry: the first item of a base iterator and the items after it.
pub type Node = (i64, Seq<i64>);

/// The index of the parent of entry `j` in the heap.
pub open spec fn parent(j: int) -> int {
    (j - 1) / 2
}

/// Entry `j` does not come before its parent.
pub open spec fn ordered_at(h: Seq<Node>, j: int) -> bool {
    h[parent(j)].0 <= h[j].0
}

/// The heap order holds below every entry from `start` on.
pub open spec fn heap_from(h: Seq<Node>, start: int) -> bool {
    forall|j: int| 0 < j < h.len() && parent(j) >= start ==> #[trigger] ordered_at(h, j)
}

/// The two entries at `i` and `j` exchanged.
pub open spec fn swap_at<T>(s: Seq<T>, i: int, j: int) -> Seq<T> {
    s.update(i, s[j]).update(j, s[i])
}

/// The child of `p` with the smaller first item, the left one on a tie.
pub open spec fn min_child(h: Seq<Node>, p: int) -> int {
    if 2 * p + 2 < h.len() && h[2 * p + 2].0 < h[2 * p + 1].0 {
        2 * p + 2
    } else {
        2 * p + 1
    }
}

/// Move the entry at `p` down, swapping it with its smaller child, until no child comes
/// before it.
pub open spec fn sift_down_spec(h: Seq<Node>, p: int) -> Seq<Node>
    decreases h.len() - p,
{
    if p < 0 || 2 * p + 1 >= h.len() {
        h
    } else {
        let c = min_child(h, p);
        if h[p].0 <= h[c].0 {
            h
        } else {
            sift_down_spec(swap_at(h, p, c), c)
        }
    }
}

/// Sift down every entry from `i` back to the root.
pub open spec fn heapify_from(h: Seq<Node>, i: int) -> Seq<Node>
    decreases i + 1,
{
    if i < 0 {
        h
    } else {
        heapify_from(sift_down_spec(h, i), i - 1)
    }
}

/// Arrange the entries into a heap.
pub open spec fn heapify_spec(h: Seq<Node>) -> Seq<Node> {
    heapify_from(h, h.len() / 2 - 1)
}

/// All items of an entry.
pub open spec fn node_items(n: Node) -> Seq<i64> {
    seq![n.0] + n.1
}

/// All items of all entries, counted with multiplicity.
pub open spec fn all_items(h: Seq<Node>) -> Multiset<i64>
    decreases h.len(),
{
    if h.len() == 0 {
        Multiset::empty()
    } else {
        all_items(h.drop_last()).add(node_items(h.last()).to_multiset())
    }
}

/// The heap after its first item has been taken: the root entry moves on to its next item,
/// or leaves the heap when it has none, and the new root is sifted down.
pub open spec fn kstep(h: Seq<Node>) -> Seq<Node> {
    if h[0].1.len() > 0 {
        sift_down_spec(h.update(0, (h[0].1[0], h[0].1.drop_first())), 0)
    } else {
        sift_down_spec(h.update(0, h.last()).drop_last(), 0)
    }
}

/// The items that the merge yields from the heap `h`.
pub open spec fn kmerge_seq(h: Seq<Node>) -> Seq<i64>
    decreases all_items(h).len(),
{
    if h.len() == 0 {
        Seq::empty()
    } else {
        proof {
            lemma_kstep_items(h);
        }
        seq![h[0].0] + kmerge_seq(kstep(h))
    }
}

proof fn lemma_all_items_update(h: Seq<Node>, i: int, x: Node)
    requires
        0 <= i < h.len(),
    ensures
        all_items(h.update(i, x)).add(node_items(h[i]).to_multiset()) == all_items(h).add(
            node_items(x).to_multiset(),
        ),
    decreases h.len(),
{
    let u = h.update(i, x);
    let mx = node_items(x).to_multiset();
    let mi = node_items(h[i]).to_multiset();
    let ml = node_items(h.last()).to_multiset();
    assert(all_items(u) == all_items(u.drop_last()).add(node_items(u.last()).to_multiset()));
    assert(all_items(h) == all_items(h.drop_last()).add(ml));
    if i == h.len() - 1 {
        assert(u.drop_last() =~= h.drop_last());
        assert(u.last() == x);
        let a = all_items(h.drop_last());
        assert forall|v: i64| #[trigger] all_items(u).add(mi).count(v) == all_items(h).add(mx).count(v) by {
            assert(all_items(u).count(v) == a.count(v) + mx.count(v));
            assert(all_items(h).count(v) == a.count(v) + mi.count(v));
        }
    } else {
        assert(u.drop_last() =~= h.drop_last().update(i, x));
        assert(h.drop_last()[i] == h[i]);
        assert(u.last() == h.last());
        lemma_all_items_update(h.drop_last(), i, x);
        let a = all_items(h.drop_last());
        let b = all_items(u.drop_last());
        assert forall|v: i64| #[trigger] all_items(u).add(mi).count(v) == all_items(h).add(mx).count(v) by {
            assert(b.add(mi).count(v) == a.add(mx).count(v));
            assert(all_items(u).count(v) == b.count(v) + ml.count(v));
            assert(all_items(h).count(v) == a.count(v) + ml.count(v));
        }
    }
    assert(all_items(u).add(mi) =~= all_items(h).add(mx));
}

proof fn lemma_all_items_swap(h: Seq<Node>, i: int, j: int)
    requires
        0 <= i < h.len(),
        0 <= j < h.len(),
    ensures
        all_items(swap_at(h, i, j)) == all_items(h),
{
    let u = h.update(i, h[j]);
    lemma_all_items_update(h, i, h[j]);
    lemma_all_items_update(u, j, h[i]);
    if i == j {
        assert(swap_at(h, i, j) =~= h);
    } else {
        assert(u[j] == h[j]);
        let a = all_items(swap_at(h, i, j));
        let b = all_items(h);
        let mj = node_items(h[j]).to_multiset();
        assert(a.add(mj) == b.add(mj));
        assert forall|v: i64| a.count(v) == b.count(v) by {
            assert(a.add(mj).count(v) == b.add(mj).count(v));
        }
        assert(a =~= b);
    }
}

/// Sifting down rearranges the entries only.
proof fn lemma_sift_down_items(h: Seq<Node>, p: int)
    ensures
        all_items(sift_down_spec(h, p)) == all_items(h),
        sift_down_spec(h, p).len() == h.len(),
    decreases h.len() - p,
{
    if p < 0 || 2 * p + 1 >= h.len() {
    } else {
        let c = min_child(h, p);
        if h[p].0 > h[c].0 {
            lemma_all_items_swap(h, p, c);
            lemma_sift_down_items(swap_at(h, p, c), c);
        }
    }
}

/// Sifting down keeps every property that each entry has.
proof fn lemma_sift_down_keeps(h: Seq<Node>, p: int, pred: spec_fn(Node) -> bool)
    requires
        forall|k: int| 0 <= k < h.len() ==> pred(#[trigger] h[k]),
    ensures
        forall|k: int| 0 <= k < sift_down_spec(h, p).len() ==> pred(#[trigger] sift_down_spec(h, p)[k]),
    decreases h.len() - p,
{
    if p < 0 || 2 * p + 1 >= h.len() {
        assert(sift_down_spec(h, p) == h);
    } else {
        let c = min_child(h, p);
        if h[p].0 <= h[c].0 {
            assert(sift_down_spec(h, p) == h);
        } else {
            let s = swap_at(h, p, c);
            assert(sift_down_spec(h, p) == sift_down_spec(s, c));
            assert forall|k: int| 0 <= k < s.len() implies pred(#[trigger] s[k]) by {
                if k == p {
                    assert(pred(h[c]));
                } else if k == c {
                    assert(pred(h[p]));
                } else {
                    assert(pred(h[k]));
                }
            }
            lemma_sift_down_keeps(s, c, pred);
        }
    }
}

/// The entry at `p` sifted down lands in a heap, provided that the heap order held below
/// every entry of the subtree of `start` but `p`, and that the parent of `p` comes before
/// the children of `p`.
proof fn lemma_sift_down_heap(h: Seq<Node>, start: int, p: int)
    requires
        0 <= start <= p < h.len(),
        p == start || (parent(p) >= start && forall|j: int|
            0 < j < h.len() && parent(j) == p ==> h[parent(p)].0 <= #[trigger] h[j].0),
        forall|j: int|
            0 < j < h.len() && parent(j) >= start && parent(j) != p ==> #[trigger] ordered_at(h, j),
    ensures
        heap_from(sift_down_spec(h, p), start),
    decreases h.len() - p,
{
    if 2 * p + 1 >= h.len() {
        assert forall|j: int| 0 < j < h.len() && parent(j) >= start implies #[trigger] ordered_at(h, j) by {
            assert(parent(j) != p);
        }
    } else {
        let c = min_child(h, p);
        if h[p].0 <= h[c].0 {
            assert forall|j: int| 0 < j < h.len() && parent(j) >= start implies #[trigger] ordered_at(h, j) by {
                if parent(j) == p {
                    assert(j == 2 * p + 1 || j == 2 * p + 2);
                }
            }
        } else {
            let s = swap_at(h, p, c);
            assert(parent(c) == p);
            assert forall|j: int| 0 < j < s.len() && parent(j) == c implies s[parent(c)].0 <= #[trigger] s[j].0 by {
                assert(ordered_at(h, j));
                assert(j != p && j != c);
            }
            assert forall|j: int|
                0 < j < s.len() && parent(j) >= start && parent(j) != c implies #[trigger] ordered_at(s, j) by {
                if j == c {
                } else if parent(j) == p {
                    assert(j == 2 * p + 1 || j == 2 * p + 2);
                } else if j == p {
                    assert(h[parent(p)].0 <= h[c].0);
                } else {
                    assert(ordered_at(h, j));
                    assert(parent(j) != c);
                }
            }
            lemma_sift_down_heap(s, start, c);
        }
    }
}

proof fn lemma_heapify_from(h: Seq<Node>, i: int)
    requires
        -1 <= i < h.len(),
        heap_from(h, i + 1),
    ensures
        heap_from(heapify_from(h, i), 0),
        all_items(heapify_from(h, i)) == all_items(h),
        heapify_from(h, i).len() == h.len(),
    decreases i + 1,
{
    if i >= 0 {
        assert forall|j: int| 0 < j < h.len() && parent(j) >= i && parent(j) != i implies #[trigger] ordered_at(h, j) by {
        }
        lemma_sift_down_heap(h, i, i);
        lemma_sift_down_items(h, i);
        lemma_heapify_from(sift_down_spec(h, i), i - 1);
    }
}

/// Heapifying gives a heap of the same entries.
pub proof fn lemma_heapify(h: Seq<Node>)
    ensures
        heap_from(heapify_spec(h), 0),
        all_items(heapify_spec(h)) == all_items(h),
        heapify_spec(h).len() == h.len(),
{
    if h.len() == 0 {
    } else {
        assert forall|j: int| 0 < j < h.len() && parent(j) >= h.len() / 2 implies #[trigger] ordered_at(h, j) by {
        }
        lemma_heapify_from(h, h.len() / 2 - 1);
    }
}

/// Taking the first item of a heap takes that item out of its items.
pub proof fn lemma_kstep_items(h: Seq<Node>)
    requires
        h.len() > 0,
    ensures
        all_items(h) == all_items(kstep(h)).insert(h[0].0),
        all_items(kstep(h)).len() < all_items(h).len(),
{
    let t = h[0].1;
    if t.len() > 0 {
        let x = (t[0], t.drop_first());
        let u = h.update(0, x);
        lemma_all_items_update(h, 0, x);
        assert(node_items(x) =~= t);
        assert(node_items(h[0]) =~= seq![h[0].0] + t);
        assert(node_items(h[0]).to_multiset() =~= t.to_multiset().insert(h[0].0)) by {
            broadcast use vstd::seq_lib::group_to_multiset_ensures;
            assert(node_items(h[0]) =~= t.insert(0, h[0].0));
        }
        lemma_sift_down_items(u, 0);
        let a = all_items(kstep(h));
        let mt = t.to_multiset();
        assert(a == all_items(u));
        assert forall|v: i64| all_items(h).count(v) == a.insert(h[0].0).count(v) by {
            assert(all_items(u).add(t.to_multiset().insert(h[0].0)).count(v) == all_items(h).add(mt).count(v));
        }
        assert(all_items(h) =~= all_items(kstep(h)).insert(h[0].0));
    } else {
        let u = h.update(0, h.last());
        lemma_all_items_update(h, 0, h.last());
        assert(node_items(h[0]) =~= seq![h[0].0]);
        assert(node_items(h[0]).to_multiset() =~= Multiset::singleton(h[0].0)) by {
            broadcast use vstd::seq_lib::group_to_multiset_ensures;
            assert(seq![h[0].0] =~= Seq::<i64>::empty().push(h[0].0));
        }
        if h.len() == 1 {
            assert(u.drop_last() =~= Seq::<Node>::empty());
            assert(h.drop_last() =~= Seq::<Node>::empty());
        } else {
            assert(u.last() == h.last());
        }
        lemma_sift_down_items(u.drop_last(), 0);
        let a = all_items(kstep(h));
        let ml = node_items(h.last()).to_multiset();
        assert(a == all_items(u.drop_last()));
        assert(all_items(u) == all_items(u.drop_last()).add(ml));
        assert forall|v: i64| all_items(h).count(v) == a.insert(h[0].0).count(v) by {
            assert(all_items(u).add(Multiset::singleton(h[0].0)).count(v) == all_items(h).add(ml).count(v));
        }
        assert(all_items(h) =~= all_items(kstep(h)).insert(h[0].0));
    }
}


/// The merge yields every item of the heap exactly once.
pub proof fn lemma_kmerge_items(h: Seq<Node>)
    ensures
        kmerge_seq(h).to_multiset() == all_items(h),
    decreases all_items(h).len(),
{
    broadcast use vstd::seq_lib::group_to_multiset_ensures;

    if h.len() == 0 {
        assert(kmerge_seq(h) =~= Seq::<i64>::empty());
        assert(kmerge_seq(h).to_multiset() =~= all_items(h));
    } else {
        lemma_kstep_items(h);
        lemma_kmerge_items(kstep(h));
        let r = kmerge_seq(kstep(h));
        assert(kmerge_seq(h) =~= r.insert(0, h[0].0));
        assert(kmerge_seq(h).to_multiset() =~= all_items(h));
    }
}

/// In a heap, no entry comes before the root.
pub proof fn lemma_root_min(h: Seq<Node>, k: int)
    requires
        heap_from(h, 0),
        0 <= k < h.len(),
    ensures
        h[0].0 <= h[k].0,
    decreases k,
{
    if k > 0 {
        assert(ordered_at(h, k));
        lemma_root_min(h, parent(k));
    }
}

/// Every entry of `h` has a first item of at least `v`.
pub open spec fn heads_at_least(v: i64) -> spec_fn(Node) -> bool {
    |n: Node| v <= n.0
}

/// The items of the entry are sorted.
pub open spec fn node_sorted(n: Node) -> bool {
    is_sorted(node_items(n))
}

/// A step of the merge keeps the heap order and the sorted entries, and no entry left
/// comes before the item just taken.
proof fn lemma_kstep_sorted(h: Seq<Node>)
    requires
        h.len() > 0,
        heap_from(h, 0),
        forall|k: int| 0 <= k < h.len() ==> node_sorted(#[trigger] h[k]),
    ensures
        heap_from(kstep(h), 0),
        forall|k: int| 0 <= k < kstep(h).len() ==> node_sorted(#[trigger] kstep(h)[k]),
        forall|k: int| 0 <= k < kstep(h).len() ==> h[0].0 <= (#[trigger] kstep(h)[k]).0,
{
    let t = h[0].1;
    let u = if t.len() > 0 {
        h.update(0, (t[0], t.drop_first()))
    } else {
        h.update(0, h.last()).drop_last()
    };
    assert(kstep(h) == sift_down_spec(u, 0));
    assert(node_sorted(h[0]));
    assert forall|k: int| 0 <= k < u.len() implies node_sorted(#[trigger] u[k]) && h[0].0 <= u[k].0 by {
        if k == 0 && t.len() > 0 {
            let s0 = node_items(h[0]);
            assert(node_items(u[0]) =~= s0.drop_first());
            assert(s0[1] == t[0]);
            assert(s0[0] <= s0[1]);
            assert forall|i: int, j: int| 0 <= i < j < s0.drop_first().len() implies s0.drop_first()[i] <= s0.drop_first()[j] by {
                assert(s0[i + 1] <= s0[j + 1]);
            }
        } else if k == 0 {
            assert(u[0] == h[h.len() - 1]);
            assert(node_sorted(h[h.len() - 1]));
            lemma_root_min(h, h.len() - 1);
        } else {
            assert(u[k] == h[k]);
            assert(node_sorted(h[k]));
            lemma_root_min(h, k);
        }
    }
    if u.len() > 0 {
        assert forall|j: int| 0 < j < u.len() && parent(j) >= 0 && parent(j) != 0 implies #[trigger] ordered_at(u, j) by {
            assert(ordered_at(h, j));
        }
        lemma_sift_down_heap(u, 0, 0);
    }
    lemma_sift_down_keeps(u, 0, |n: Node| node_sorted(n));
    lemma_sift_down_keeps(u, 0, heads_at_least(h[0].0));
    assert forall|k: int| 0 <= k < kstep(h).len() implies node_sorted(#[trigger] kstep(h)[k]) by {
        assert((|n: Node| node_sorted(n))(kstep(h)[k]));
    }
    assert forall|k: int| 0 <= k < kstep(h).len() implies h[0].0 <= (#[trigger] kstep(h)[k]).0 by {
        assert(heads_at_least(h[0].0)(kstep(h)[k]));
    }
}

/// From a heap of sorted entries the merge yields a sorted sequence, starting with the
/// root's first item.
pub proof fn lemma_kmerge_sorted(h: Seq<Node>)
    requires
        heap_from(h, 0),
        forall|k: int| 0 <= k < h.len() ==> node_sorted(#[trigger] h[k]),
    ensures
        is_sorted(kmerge_seq(h)),
        h.len() > 0 ==> kmerge_seq(h)[0] == h[0].0,
    decreases all_items(h).len(),
{
    if h.len() > 0 {
        lemma_kstep_items(h);
        lemma_kstep_sorted(h);
        lemma_kmerge_sorted(kstep(h));
        let r = kmerge_seq(kstep(h));
        let s = kmerge_seq(h);
        assert(s =~= seq![h[0].0] + r);
        if r.len() > 0 {
            assert(r[0] == kstep(h)[0].0);
            assert(h[0].0 <= kstep(h)[0].0);
        }
        assert forall|i: int, j: int| 0 <= i < j < s.len() implies s[i] <= s[j] by {
            if i == 0 && j > 1 {
                assert(r[0] <= r[j - 1]);
            } else if i > 0 {
                assert(r[i - 1] <= r[j - 1]);
            }
        }
    }
}


/// The item sequences of the iterators of `js`.
pub open spec fn rests<J: Itertools<Item = i64>>(js: Seq<J>) -> Seq<Seq<i64>> {
    js.map_values(|j: J| j.rest())
}

/// A heap entry for each nonempty sequence of `ss`, in order.
pub open spec fn init_nodes(ss: Seq<Seq<i64>>) -> Seq<Node>
    decreases ss.len(),
{
    if ss.len() == 0 {
        Seq::empty()
    } else {
        let p = init_nodes(ss.drop_last());
        if ss.last().len() > 0 {
            p.push((ss.last()[0], ss.last().drop_first()))
        } else {
            p
        }
    }
}

/// All items of all sequences of `ss`, counted with multiplicity.
pub open spec fn flat_items(ss: Seq<Seq<i64>>) -> Multiset<i64>
    decreases ss.len(),
{
    if ss.len() == 0 {
        Multiset::empty()
    } else {
        flat_items(ss.drop_last()).add(ss.last().to_multiset())
    }
}

/// The sequence that `kmerge_new` yields from the item sequences `ss`.
pub open spec fn kmerge_of(ss: Seq<Seq<i64>>) -> Seq<i64> {
    kmerge_seq(heapify_spec(init_nodes(ss)))
}

proof fn lemma_init_nodes(ss: Seq<Seq<i64>>)
    ensures
        all_items(init_nodes(ss)) == flat_items(ss),
        (forall|k: int| 0 <= k < ss.len() ==> is_sorted(#[trigger] ss[k])) ==> forall|k: int|
            0 <= k < init_nodes(ss).len() ==> node_sorted(#[trigger] init_nodes(ss)[k]),
    decreases ss.len(),
{
    if ss.len() > 0 {
        let d = ss.drop_last();
        lemma_init_nodes(d);
        let l = ss.last();
        if (forall|k: int| 0 <= k < ss.len() ==> is_sorted(#[trigger] ss[k])) {
            assert forall|k: int| 0 <= k < d.len() implies is_sorted(#[trigger] d[k]) by {
                assert(is_sorted(ss[k]));
            }
            assert(is_sorted(ss[ss.len() - 1]));
        }
        if l.len() > 0 {
            let n = (l[0], l.drop_first());
            assert(node_items(n) =~= l);
            let p = init_nodes(d);
            assert(p.push(n).drop_last() =~= p);
        } else {
            broadcast use vstd::seq_lib::group_to_multiset_ensures;
            assert(l.to_multiset().len() == 0);
            assert(l.to_multiset() =~= Multiset::empty());
            assert(flat_items(ss) =~= flat_items(d));
        }
    }
}

proof fn lemma_sorted_of_kmerge_of(ss: Seq<Seq<i64>>)
    ensures
        kmerge_of(ss).to_multiset() == flat_items(ss),
        (forall|k: int| 0 <= k < ss.len() ==> is_sorted(#[trigger] ss[k])) ==> is_sorted(kmerge_of(ss)),
{
    let h = init_nodes(ss);
    lemma_init_nodes(ss);
    lemma_heapify(h);
    lemma_kmerge_items(heapify_spec(h));
    if (forall|k: int| 0 <= k < ss.len() ==> is_sorted(#[trigger] ss[k])) {
        lemma_heapify_keeps(h);
        lemma_kmerge_sorted(heapify_spec(h));
    }
}

proof fn lemma_heapify_from_keeps(h: Seq<Node>, i: int)
    requires
        forall|k: int| 0 <= k < h.len() ==> node_sorted(#[trigger] h[k]),
    ensures
        forall|k: int| 0 <= k < heapify_from(h, i).len() ==> node_sorted(#[trigger] heapify_from(h, i)[k]),
    decreases i + 1,
{
    if i >= 0 {
        lemma_sift_down_keeps(h, i, |n: Node| node_sorted(n));
        let s = sift_down_spec(h, i);
        assert forall|k: int| 0 <= k < s.len() implies node_sorted(#[trigger] s[k]) by {
            assert((|n: Node| node_sorted(n))(s[k]));
        }
        lemma_heapify_from_keeps(s, i - 1);
        assert(heapify_from(h, i) == heapify_from(s, i - 1));
    } else {
        assert(heapify_from(h, i) == h);
    }
}

proof fn lemma_heapify_keeps(h: Seq<Node>)
    requires
        forall|k: int| 0 <= k < h.len() ==> node_sorted(#[trigger] h[k]),
    ensures
        forall|k: int| 0 <= k < heapify_spec(h).len() ==> node_sorted(#[trigger] heapify_spec(h)[k]),
{
    lemma_heapify_from_keeps(h, h.len() / 2 - 1);
}

/// A base iterator with its first item taken out.
struct HeadTail<J> {
    head: i64,
    tail: J,
}

impl<J: Itertools<Item = i64>> HeadTail<J> {
    spec fn node(&self) -> Node {
        (self.head, self.tail.rest())
    }

    /// Take the first item of `it`, if it has one.
    fn new(it: J) -> (r: Option<Self>)
        requires
            it.wf(),
        ensures
            match r {
                None => it.rest().len() == 0,
                Some(ht) => {
                    &&& it.rest().len() > 0
                    &&& ht.node() == (it.rest()[0], it.rest().drop_first())
                    &&& ht.tail.wf()
                },
            },
    {
        let mut it = it;
        match it.next() {
            Some(h) => Some(HeadTail { head: h, tail: it }),
            None => None,
        }
    }

    /// Move on to the next item and hand out the previous head; `None` when the tail is
    /// exhausted, the head staying in place.
    fn next(&mut self) -> (r: Option<i64>)
        requires
            old(self).tail.wf(),
        ensures
            final(self).tail.wf(),
            match r {
                Some(x) => {
                    &&& old(self).node().1.len() > 0
                    &&& x == old(self).head
                    &&& final(self).node() == (old(self).node().1[0], old(self).node().1.drop_first())
                },
                None => old(self).node().1.len() == 0 && final(self).node() == old(self).node(),
            },
    {
        match self.tail.next() {
            Some(next) => {
                let mut x = next;
                core::mem::swap(&mut x, &mut self.head);
                Some(x)
            },
            None => {
                proof {
                    assert(self.tail.rest() =~= old(self).tail.rest());
                }
                None
            },
        }
    }

    /// The size hint of the whole sequence, head included.
    fn size_hint(&self) -> (r: SizeHint)
        requires
            self.tail.wf(),
        ensures
            crate::size_hint::within(r, 1 + self.tail.rest().len() as int),
            r == crate::size_hint::add_scalar_spec(self.tail.spec_size_hint(), 1),
    {
        crate::size_hint::add_scalar(self.tail.size_hint(), 1)
    }
}

/// The sum of the size hints of the heap's sequences, each with its head.
spec fn heap_hint<J: Itertools<Item = i64>>(heap: Seq<HeadTail<J>>) -> (usize, Option<usize>)
    decreases heap.len(),
{
    if heap.len() == 0 {
        (0, Some(0))
    } else {
        crate::size_hint::add_spec(
            heap_hint(heap.drop_last()),
            crate::size_hint::add_scalar_spec(heap.last().tail.spec_size_hint(), 1),
        )
    }
}

/// The heap entries of a vector of base iterators.
spec fn nodes<J: Itertools<Item = i64>>(heap: Seq<HeadTail<J>>) -> Seq<Node> {
    heap.map_values(|ht: HeadTail<J>| ht.node())
}

spec fn tails_wf<J: Itertools<Item = i64>>(heap: Seq<HeadTail<J>>) -> bool {
    forall|k: int| 0 <= k < heap.len() ==> (#[trigger] heap[k]).tail.wf()
}

/// Sift the entry at `index` down.
fn sift_down<J: Itertools<Item = i64>>(heap: &mut Vec<HeadTail<J>>, index: usize)
    requires
        tails_wf(old(heap)@),
    ensures
        tails_wf(final(heap)@),
        nodes(final(heap)@) == sift_down_spec(nodes(old(heap)@), index as int),
{
    let ghost target = sift_down_spec(nodes(heap@), index as int);
    let mut pos = index;
    loop
        invariant
            tails_wf(heap@),
            target == sift_down_spec(nodes(old(heap)@), index as int),
            sift_down_spec(nodes(heap@), pos as int) == target,
        decreases heap.len() - pos,
    {
        let ghost h = nodes(heap@);
        if pos >= heap.len() / 2 {
            return;
        }
        let mut child = 2 * pos + 1;
        if child + 1 < heap.len() && heap[child + 1].head < heap[child].head {
            child = child + 1;
        }
        assert(child == min_child(h, pos as int));
        if heap[pos].head <= heap[child].head {
            return;
        }
        crate::inplacemut::InplaceMappable::swap(heap, pos, child);
        proof {
            assert(nodes(heap@) =~= swap_at(h, pos as int, child as int));
        }
        pos = child;
    }
}

/// Arrange the entries into a heap.
fn heapify<J: Itertools<Item = i64>>(data: &mut Vec<HeadTail<J>>)
    requires
        tails_wf(old(data)@),
    ensures
        tails_wf(final(data)@),
        nodes(final(data)@) == heapify_spec(nodes(old(data)@)),
{
    let ghost target = heapify_spec(nodes(data@));
    let mut i = data.len() / 2;
    while i > 0
        invariant
            tails_wf(data@),
            target == heapify_spec(nodes(old(data)@)),
            heapify_from(nodes(data@), i - 1) == target,
        decreases i,
    {
        i = i - 1;
        sift_down(data, i);
    }
}

/// An iterator adaptor that merges any number of base iterators of integers in ascending
/// order. If every base iterator is sorted ascending, the result is sorted.
pub struct KMerge<J> {
    heap: Vec<HeadTail<J>>,
}

/// Create a `KMerge` over the iterators that `iter` yields.
pub fn kmerge_new<J: Itertools<Item = i64>, I: Itertools<Item = J>>(iter: I) -> (r: KMerge<J>)
    requires
        iter.wf(),
        forall|k: int| 0 <= k < iter.rest().len() ==> (#[trigger] iter.rest()[k]).wf(),
    ensures
        r.wf(),
        r.rest() == kmerge_of(rests(iter.rest())),
        r.rest().to_multiset() == flat_items(rests(iter.rest())),
        (forall|k: int| 0 <= k < iter.rest().len() ==> is_sorted(#[trigger] iter.rest()[k].rest())) ==> is_sorted(r.rest()),
{
    let ghost all = iter.rest();
    let mut heap: Vec<HeadTail<J>> = Vec::new();
    let mut it = iter;
    let ghost mut n: int = 0;
    loop
        invariant
            it.wf(),
            all == iter.rest(),
            0 <= n <= all.len(),
            it.rest() == all.skip(n),
            forall|k: int| 0 <= k < all.len() ==> (#[trigger] all[k]).wf(),
            tails_wf(heap@),
            nodes(heap@) == init_nodes(rests(all.take(n))),
        ensures
            tails_wf(heap@),
            nodes(heap@) == init_nodes(rests(all)),
        decreases it.rest().len(),
    {
        match it.next() {
            Some(j) => {
                proof {
                    assert(all[n] == j);
                    assert(rests(all.take(n + 1)).drop_last() =~= rests(all.take(n)));
                    assert(rests(all.take(n + 1)).last() == j.rest());
                }
                match HeadTail::new(j) {
                    Some(ht) => {
                        heap.push(ht);
                    },
                    None => {},
                }
                proof {
                    n = n + 1;
                    assert(it.rest() =~= all.skip(n));
                    assert(nodes(heap@) =~= init_nodes(rests(all.take(n))));
                }
            },
            None => {
                proof {
                    assert(all.take(n) =~= all);
                }
                break;
            },
        }
    }
    heapify(&mut heap);
    proof {
        lemma_heapify(init_nodes(rests(all)));
        lemma_sorted_of_kmerge_of(rests(all));
        if forall|k: int| 0 <= k < all.len() ==> is_sorted(#[trigger] all[k].rest()) {
            assert forall|k: int| 0 <= k < rests(all).len() implies is_sorted(#[trigger] rests(all)[k]) by {
                assert(is_sorted(all[k].rest()));
            }
        }
    }
    KMerge { heap }
}

impl<J: Itertools<Item = i64>> Itertools for KMerge<J> {
    type Item = i64;

    closed spec fn rest(&self) -> Seq<i64> {
        kmerge_seq(nodes(self.heap@))
    }

    closed spec fn wf(&self) -> bool {
        &&& tails_wf(self.heap@)
        &&& heap_from(nodes(self.heap@), 0)
    }

    fn next(&mut self) -> (r: Option<i64>) {
        if self.heap.len() == 0 {
            return None;
        }
        let ghost h = nodes(self.heap@);
        let result = match self.heap[0].next() {
            Some(x) => x,
            None => self.heap.swap_remove(0).head,
        };
        proof {
            if h[0].1.len() > 0 {
                assert(nodes(self.heap@) =~= h.update(0, (h[0].1[0], h[0].1.drop_first())));
            } else {
                assert(nodes(self.heap@) =~= h.update(0, h.last()).drop_last());
            }
        }
        sift_down(&mut self.heap, 0);
        proof {
            assert(nodes(self.heap@) == kstep(h));
            lemma_kstep_heap(h);
        }
        Some(result)
    }

    /// The sum of the size hints of the base iterators, each with its head.
    closed spec fn spec_size_hint(&self) -> (usize, Option<usize>) {
        heap_hint(self.heap@)
    }

    fn size_hint(&self) -> (r: SizeHint) {
        let ghost h = nodes(self.heap@);
        let mut acc: SizeHint = (0, Some(0));
        let mut i: usize = 0;
        while i < self.heap.len()
            invariant
                tails_wf(self.heap@),
                h == nodes(self.heap@),
                i <= self.heap.len(),
                crate::size_hint::within(acc, all_items(h.take(i as int)).len() as int),
                acc == heap_hint(self.heap@.take(i as int)),
            decreases self.heap.len() - i,
        {
            let sh = self.heap[i].size_hint();
            proof {
                broadcast use vstd::seq_lib::group_to_multiset_ensures;
                assert(h.take(i + 1).drop_last() =~= h.take(i as int));
                assert(node_items(h[i as int]).len() == 1 + self.heap[i as int].tail.rest().len());
                assert(self.heap@.take(i + 1).drop_last() =~= self.heap@.take(i as int));
            }
            acc = crate::size_hint::add(acc, sh);
            i = i + 1;
        }
        proof {
            assert(h.take(i as int) =~= h);
            assert(self.heap@.take(i as int) =~= self.heap@);
            lemma_kmerge_items(h);
            broadcast use vstd::seq_lib::group_to_multiset_ensures;
        }
        let r = acc;
        assert(r == self.spec_size_hint());
        r
    }
}

/// A step of the merge keeps the heap order.
proof fn lemma_kstep_heap(h: Seq<Node>)
    requires
        h.len() > 0,
        heap_from(h, 0),
    ensures
        heap_from(kstep(h), 0),
{
    let t = h[0].1;
    let u = if t.len() > 0 {
        h.update(0, (t[0], t.drop_first()))
    } else {
        h.update(0, h.last()).drop_last()
    };
    assert(kstep(h) == sift_down_spec(u, 0));
    if u.len() > 0 {
        assert forall|j: int| 0 < j < u.len() && parent(j) >= 0 && parent(j) != 0 implies #[trigger] ordered_at(u, j) by {
            assert(ordered_at(h, j));
        }
        lemma_sift_down_heap(u, 0, 0);
    }
}

} // verus!
