//! The `k` smallest items of an iterator.
use vstd::prelude::*;
use vstd::multiset::Multiset;
use crate::Itertools;

verus! {

broadcast use {vstd::multiset::group_multiset_axioms, vstd::seq_lib::group_to_multiset_ensures};

/// `kept` holds `min(k, |all|)` items of `all`, and none of the items left out is smaller
/// than any item kept.
pub open spec fn is_k_smallest(kept: Multiset<i64>, all: Multiset<i64>, k: nat) -> bool {
    &&& kept.len() == if k <= all.len() { k } else { all.len() }
    &&& kept.subset_of(all)
    &&& forall|x: i64, y: i64| kept.contains(x) && all.sub(kept).contains(y) ==> x <= y
}

/// The position of a largest item of a nonempty vector.
fn max_index(v: &Vec<i64>) -> (j: usize)
    requires
        v.len() > 0,
    ensures
        j < v.len(),
        forall|i: int| 0 <= i < v.len() ==> v@[i] <= v@[j as int],
{
    let mut j: usize = 0;
    let mut i: usize = 1;
    while i < v.len()
        invariant
            v.len() > 0,
            j < v.len(),
            1 <= i <= v.len(),
            forall|a: int| 0 <= a < i ==> v@[a] <= v@[j as int],
        decreases v.len() - i,
    {
        if v[i] > v[j] {
            j = i;
        }
        i = i + 1;
    }
    j
}

proof fn lemma_max_of_multiset(v: Seq<i64>, j: int, x: i64)
    requires
        0 <= j < v.len(),
        forall|i: int| 0 <= i < v.len() ==> v[i] <= v[j],
        v.to_multiset().contains(x),
    ensures
        x <= v[j],
{
    assert(v.contains(x));
}

/// The `k` smallest items of `iter`, in no particular order.
pub fn k_smallest<I: Itertools<Item = i64>>(iter: I, k: usize) -> (r: Vec<i64>)
    requires
        iter.wf(),
    ensures
        is_k_smallest(r@.to_multiset(), iter.rest().to_multiset(), k as nat),
{
    if k == 0 {
        let r: Vec<i64> = Vec::new();
        proof {
            assert(r@.to_multiset() =~= Multiset::empty());
            let all = iter.rest().to_multiset();
            assert(all.sub(Multiset::empty()) =~= all);
        }
        return r;
    }
    let ghost all = iter.rest();
    let mut heap: Vec<i64> = Vec::new();
    let ghost mut out: Multiset<i64> = Multiset::empty();
    let ghost mut n: int = 0;
    let mut it = iter;
    proof {
        assert(heap@.to_multiset() =~= Multiset::empty());
        assert(all.take(0).to_multiset() =~= Multiset::empty());
    }
    loop
        invariant
            it.wf(),
            all == iter.rest(),
            k > 0,
            0 <= n <= all.len(),
            it.rest() == all.skip(n),
            all.take(n).to_multiset() == heap@.to_multiset().add(out),
            heap.len() == if k <= n { k as int } else { n },
            heap.len() < k ==> out.len() == 0,
            forall|x: i64, y: i64| heap@.to_multiset().contains(x) && out.contains(y) ==> x <= y,
        decreases it.rest().len(),
    {
        match it.next() {
            Some(y) => {
                let ghost h = heap@;
                proof {
                    assert(all.take(n + 1) =~= all.take(n).push(y));
                }
                if heap.len() < k {
                    heap.push(y);
                    proof {
                        assert(out =~= Multiset::empty());
                        assert(heap@.to_multiset() =~= h.to_multiset().insert(y));
                        assert(all.take(n + 1).to_multiset() =~= heap@.to_multiset().add(out));
                    }
                } else {
                    let j = max_index(&heap);
                    let m = heap[j];
                    if m > y {
                        heap.set(j, y);
                        proof {
                            assert(h.to_multiset().contains(m)) by {
                                assert(h[j as int] == m);
                            }
                            crate::free::lemma_update_multiset(h, j as int, y);
                            let hm = heap@.to_multiset();
                            assert(hm =~= h.to_multiset().remove(m).insert(y));
                            let out0 = out;
                            out = out.insert(m);
                            assert(all.take(n + 1).to_multiset() =~= hm.add(out));
                            assert forall|x: i64, z: i64| hm.contains(x) && out.contains(z) implies x <= z by {
                                if x != y {
                                    assert(h.to_multiset().contains(x));
                                    lemma_max_of_multiset(h, j as int, x);
                                    if z != m {
                                        assert(out0.contains(z));
                                    }
                                } else if z != m {
                                    assert(out0.contains(z));
                                    assert(h.to_multiset().contains(m) && out0.contains(z));
                                }
                            }
                        }
                    } else {
                        proof {
                            let out0 = out;
                            out = out.insert(y);
                            assert(all.take(n + 1).to_multiset() =~= heap@.to_multiset().add(out));
                            assert forall|x: i64, z: i64| heap@.to_multiset().contains(x) && out.contains(z) implies x <= z by {
                                if z == y {
                                    lemma_max_of_multiset(h, j as int, x);
                                } else {
                                    assert(out0.contains(z));
                                }
                            }
                        }
                    }
                }
                proof {
                    n = n + 1;
                    assert(it.rest() =~= all.skip(n));
                }
            },
            None => {
                proof {
                    assert(all.take(n) =~= all);
                    let hm = heap@.to_multiset();
                    let am = all.to_multiset();
                    assert(am.sub(hm) =~= out);
                    assert(hm.subset_of(am));
                    assert(hm.len() == heap@.len());
                    assert(am.len() == all.len());
                }
                return heap;
            },
        }
    }
}

} // verus!
