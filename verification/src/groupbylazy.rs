//! Lazy grouping of consecutive items with equal keys: each group is read on demand, and
//! items are buffered only when a later group is asked for before an earlier one is done.
use vstd::prelude::*;
use crate::{Itertools, VecIter};
use crate::adaptors::opt_seq;
use crate::adaptors::group_by::{KeyFn, run_len, group_runs, lemma_run_len_bound};

verus! {

/// `None` for "no group", as the index of the last dropped group.
pub open spec fn no_group() -> usize {
    usize::MAX
}

/// Facts about the first run of `u`.
proof fn lemma_run_step<T, F: KeyFn<T>>(f: F, k: i64, u: Seq<T>)
    requires
        u.len() > 0,
    ensures
        f.spec_key(u[0]) == k ==> run_len(f, k, u) == 1 + run_len(f, k, u.drop_first())
            && u.take(run_len(f, k, u) as int) == seq![u[0]] + u.drop_first().take(
            run_len(f, k, u.drop_first()) as int,
        ) && u.skip(run_len(f, k, u) as int) == u.drop_first().skip(
            run_len(f, k, u.drop_first()) as int,
        ),
        f.spec_key(u[0]) != k ==> run_len(f, k, u) == 0,
{
    if f.spec_key(u[0]) == k {
        let u1 = u.drop_first();
        let r1 = run_len(f, k, u1);
        lemma_run_len_bound(f, k, u1);
        assert(u.take((1 + r1) as int) =~= seq![u[0]] + u1.take(r1 as int));
        assert(u.skip((1 + r1) as int) =~= u1.skip(r1 as int));
    }
}

/// The items of a run of key `k` all have the key `k`.
proof fn lemma_run_keyed<T, F: KeyFn<T>>(f: F, k: i64, u: Seq<T>)
    ensures
        forall|i: int| 0 <= i < run_len(f, k, u) ==> #[trigger] f.spec_key(u[i]) == k,
    decreases u.len(),
{
    if u.len() > 0 && f.spec_key(u[0]) == k {
        lemma_run_keyed(f, k, u.drop_first());
        lemma_run_len_bound(f, k, u.drop_first());
        assert forall|i: int| 0 <= i < run_len(f, k, u) implies #[trigger] f.spec_key(u[i]) == k by {
            if i > 0 {
                assert(u[i] == u.drop_first()[i - 1]);
            }
        }
    }
}

/// The shared state of a lazy grouping.
struct GroupInner<I: Itertools, F> {
    key: F,
    iter: I,
    current_key: Option<i64>,
    current_elt: Option<I::Item>,
    /// The source is exhausted.
    done: bool,
    /// Index of the group being read from the source.
    top: usize,
    /// Least index for which items may still be buffered.
    bot: usize,
    /// Group index of `buffer[0]`.
    bufbot: usize,
    /// Buffered groups, from `bufbot`.
    buffer: Vec<VecIter<I::Item>>,
    /// Index of the last group dropped, `no_group()` when none.
    dropped_group: usize,
    /// Every group index dropped so far.
    dropped: Ghost<Set<int>>,
}

impl<I: Itertools, F: KeyFn<I::Item>> GroupInner<I, F> {
    /// The run of the current key at the front of the unread items; with no key yet, the
    /// first run of the unread items.
    spec fn cont(&self) -> Seq<I::Item> {
        let u = self.iter.rest();
        match self.current_key {
            Some(k) => u.take(run_len(self.key, k, u) as int),
            None => if u.len() > 0 {
                u.take(run_len(self.key, self.key.spec_key(u[0]), u) as int)
            } else {
                Seq::empty()
            },
        }
    }

    /// The groups after the current one, all still unread.
    spec fn later(&self) -> Seq<(i64, Seq<I::Item>)> {
        let u = self.iter.rest();
        group_runs(self.key, u.skip(self.cont().len() as int))
    }

    /// The items of group `g` not yet handed out (where `g` was not dropped).
    spec fn remaining(&self, g: int) -> Seq<I::Item> {
        let nbuf = self.buffer@.len() as int;
        if g < self.bot {
            Seq::empty()
        } else if g < self.bufbot + nbuf {
            self.buffer@[g - self.bufbot].rest()
        } else if g < self.top {
            Seq::empty()
        } else if g == self.top {
            opt_seq(self.current_elt) + self.cont()
        } else if g - self.top - 1 < self.later().len() {
            self.later()[g - self.top - 1].1
        } else {
            Seq::empty()
        }
    }

    spec fn wf(&self) -> bool {
        let u = self.iter.rest();
        let nbuf = self.buffer@.len() as int;
        &&& self.iter.wf()
        &&& self.bufbot <= self.bot
        &&& nbuf == 0 ==> self.bufbot == self.bot
        &&& !self.done ==> self.bot <= self.top && nbuf <= self.top - self.bufbot
        &&& self.done ==> self.bot <= self.top + 1 && nbuf <= self.top + 1 - self.bufbot && u.len()
            == 0
        &&& forall|t: int|
            0 <= t < nbuf ==> (#[trigger] self.buffer@[t]).wf() && (self.bufbot + t < self.bot
                ==> self.buffer@[t].rest().len() == 0)
        &&& self.current_elt is Some ==> self.current_key is Some
        &&& self.done ==> self.current_elt is None
        &&& self.current_elt matches Some(x) ==> self.key.spec_key(x) == self.current_key->0
        &&& self.current_key is None ==> self.top == 0 || u.len() == 0
        &&& self.top + u.len() + 2 < usize::MAX
        &&& self.dropped_group != no_group() ==> self.dropped@.contains(self.dropped_group as int)
    }

    /// Take the next item from the source; mark the source done when it has none.
    fn next_element(&mut self) -> (r: Option<I::Item>)
        requires
            old(self).iter.wf(),
            !old(self).done,
        ensures
            final(self).iter.wf(),
            final(self).key == old(self).key,
            final(self).current_key == old(self).current_key,
            final(self).current_elt == old(self).current_elt,
            final(self).top == old(self).top,
            final(self).bot == old(self).bot,
            final(self).bufbot == old(self).bufbot,
            final(self).buffer == old(self).buffer,
            final(self).dropped_group == old(self).dropped_group,
            final(self).dropped == old(self).dropped,
            match r {
                None => old(self).iter.rest().len() == 0 && final(self).iter.rest().len() == 0
                    && final(self).done,
                Some(x) => old(self).iter.rest().len() > 0 && x == old(self).iter.rest()[0]
                    && final(self).iter.rest() == old(self).iter.rest().drop_first()
                    && !final(self).done,
            },
    {
        match self.iter.next() {
            None => {
                self.done = true;
                None
            },
            otherwise => otherwise,
        }
    }

    /// Take the next item of a buffered group.
    fn lookup_buffer(&mut self, client: usize) -> (r: Option<I::Item>)
        requires
            old(self).wf(),
            old(self).bufbot <= client,
            client < old(self).top || (client == old(self).top && old(self).buffer@.len()
                > old(self).top - old(self).bufbot),
        ensures
            final(self).wf(),
            final(self).key == old(self).key,
            final(self).dropped == old(self).dropped,
            final(self).dropped_group == old(self).dropped_group,
            final(self).top == old(self).top,
            final(self).done == old(self).done,
            final(self).current_elt == old(self).current_elt,
            final(self).current_key == old(self).current_key,
            old(self).bufbot + old(self).buffer@.len() <= old(self).top ==> final(self).bufbot
                + final(self).buffer@.len() <= final(self).top,
            ({
                let g = client as int;
                &&& r == if old(self).remaining(g).len() > 0 {
                    Some(old(self).remaining(g)[0])
                } else {
                    None::<I::Item>
                }
                &&& final(self).remaining(g) == if old(self).remaining(g).len() > 0 {
                    old(self).remaining(g).drop_first()
                } else {
                    old(self).remaining(g)
                }
                &&& forall|h: int| h != g ==> #[trigger] final(self).remaining(h) == old(self).remaining(h)
            }),
    {
        let ghost g = client as int;
        let bufidx = client - self.bufbot;
        if client < self.bot {
            return None;
        }
        let elt = if bufidx < self.buffer.len() {
            self.buffer[bufidx].next()
        } else {
            None
        };
        proof {
            assert forall|h: int| h != g implies #[trigger] self.remaining(h) == old(self).remaining(h) by {
            }
            if elt is Some {
                assert(self.remaining(g) =~= old(self).remaining(g).drop_first());
            }
        }
        if elt.is_none() && client == self.bot {
            let ghost mid = *self;
            self.bot = self.bot + 1;
            while self.bot - self.bufbot < self.buffer.len() && self.buffer[self.bot - self.bufbot].len() == 0
                invariant
                    self.bufbot <= self.bot,
                    self.bot <= mid.bot + 1 || self.bot <= self.bufbot + self.buffer@.len(),
                    mid.bot < self.bot,
                    self.bot <= self.top + 1,
                    self.top + 2 < usize::MAX,
                    self.bufbot + self.buffer@.len() <= self.top + 1,
                    self.buffer == mid.buffer,
                    self.bufbot == mid.bufbot,
                    self.top == mid.top,
                    self.done == mid.done,
                    self.iter == mid.iter,
                    self.key == mid.key,
                    self.current_key == mid.current_key,
                    self.current_elt == mid.current_elt,
                    self.dropped == mid.dropped,
                    self.dropped_group == mid.dropped_group,
                    forall|t: int|
                        0 <= t < self.buffer@.len() ==> (#[trigger] self.buffer@[t]).wf() && (self.bufbot + t < self.bot
                            ==> self.buffer@[t].rest().len() == 0),
                decreases self.bufbot + self.buffer@.len() - self.bot,
            {
                self.bot = self.bot + 1;
            }
            let ghost after_loop = *self;
            let nclear = self.bot - self.bufbot;
            if nclear > 0 && nclear >= self.buffer.len() / 2 {
                if nclear >= self.buffer.len() {
                    self.buffer.clear();
                } else {
                    let rest = self.buffer.split_off(nclear);
                    self.buffer = rest;
                }
                self.bufbot = self.bot;
            }
            proof {
                assert forall|h: int| h != g implies #[trigger] self.remaining(h) == old(self).remaining(h) by {
                    assert(mid.remaining(h) == old(self).remaining(h));
                    if h < self.bot {
                        if h >= old(self).bot && h < old(self).bufbot + old(self).buffer@.len() {
                            assert(after_loop.buffer@[h - after_loop.bufbot].rest().len() == 0);
                            assert(mid.remaining(h) =~= Seq::<I::Item>::empty());
                        }
                    }
                }
                assert(self.remaining(g) =~= old(self).remaining(g));
            }
        }
        elt
    }

    /// Buffer `group` as the items of group `top`, filling the slots of the groups before it
    /// that were not buffered with empty ones.
    fn push_next_group(&mut self, group: Vec<I::Item>)
        requires
            old(self).bufbot <= old(self).bot <= old(self).top,
            old(self).buffer@.len() <= old(self).top - old(self).bufbot,
            old(self).buffer@.len() == 0 ==> old(self).bufbot == old(self).bot,
            old(self).top + 2 < usize::MAX,
            forall|t: int|
                0 <= t < old(self).buffer@.len() ==> (#[trigger] old(self).buffer@[t]).wf() && (
                old(self).bufbot + t < old(self).bot ==> old(self).buffer@[t].rest().len() == 0),
        ensures
            final(self).key == old(self).key,
            final(self).iter == old(self).iter,
            final(self).current_key == old(self).current_key,
            final(self).current_elt == old(self).current_elt,
            final(self).done == old(self).done,
            final(self).top == old(self).top,
            final(self).dropped == old(self).dropped,
            final(self).dropped_group == old(self).dropped_group,
            final(self).bufbot <= final(self).bot <= final(self).top,
            final(self).buffer@.len() == final(self).top + 1 - final(self).bufbot,
            forall|t: int|
                0 <= t < final(self).buffer@.len() ==> (#[trigger] final(self).buffer@[t]).wf() && (
                final(self).bufbot + t < final(self).bot ==> final(self).buffer@[t].rest().len() == 0),
            final(self).buffer@[final(self).top - final(self).bufbot].rest() == group@,
            forall|g: int| g < old(self).top ==> #[trigger] final(self).remaining(g) == old(self).remaining(g),
            forall|g: int| g > old(self).top ==> #[trigger] final(self).remaining(g) == old(self).remaining(g),
    {
        while self.top - self.bufbot > self.buffer.len()
            invariant
                self.key == old(self).key,
                self.iter == old(self).iter,
                self.current_key == old(self).current_key,
                self.current_elt == old(self).current_elt,
                self.done == old(self).done,
                self.top == old(self).top,
                self.dropped == old(self).dropped,
                self.dropped_group == old(self).dropped_group,
                self.bufbot <= self.bot <= self.top,
                old(self).bufbot <= self.bufbot,
                self.buffer@.len() <= self.top - self.bufbot,
                self.buffer@.len() == 0 ==> self.bufbot == self.bot,
                forall|t: int|
                    0 <= t < self.buffer@.len() ==> (#[trigger] self.buffer@[t]).wf() && (self.bufbot + t
                        < self.bot ==> self.buffer@[t].rest().len() == 0),
                forall|g: int| g < old(self).top ==> #[trigger] self.remaining(g) == old(self).remaining(g),
                forall|g: int| g > old(self).top ==> #[trigger] self.remaining(g) == old(self).remaining(g),
            decreases self.top - self.bufbot - self.buffer@.len(),
        {
            let ghost before = *self;
            if self.buffer.len() == 0 {
                self.bufbot = self.bufbot + 1;
                self.bot = self.bot + 1;
            } else {
                let e: Vec<I::Item> = Vec::new();
                let empty = VecIter::new(e);
                self.buffer.push(empty);
            }
            proof {
                assert forall|g: int| g < old(self).top implies #[trigger] self.remaining(g) == old(self).remaining(g) by {
                    assert(before.remaining(g) == old(self).remaining(g));
                    if g == before.bufbot + before.buffer@.len() {
                        assert(self.remaining(g) =~= Seq::<I::Item>::empty());
                        assert(before.remaining(g) =~= Seq::<I::Item>::empty());
                    }
                }
                assert forall|g: int| g > old(self).top implies #[trigger] self.remaining(g) == old(self).remaining(g) by {
                    assert(before.remaining(g) == old(self).remaining(g));
                }
            }
        }
        let ghost before = *self;
        self.buffer.push(VecIter::new(group));
        proof {
            assert forall|g: int| g < old(self).top implies #[trigger] self.remaining(g) == old(self).remaining(g) by {
                assert(before.remaining(g) == old(self).remaining(g));
            }
            assert forall|g: int| g > old(self).top implies #[trigger] self.remaining(g) == old(self).remaining(g) by {
                assert(before.remaining(g) == old(self).remaining(g));
            }
        }
    }

    /// Group `top + 1` is asked for: read the rest of group `top` into the buffer (unless it
    /// was dropped) and return the first item of the next group.
    fn step_buffering(&mut self, client: usize) -> (r: Option<I::Item>)
        requires
            old(self).wf(),
            !old(self).done,
            client == old(self).top + 1,
            old(self).bufbot + old(self).buffer@.len() <= old(self).top,
        ensures
            final(self).wf(),
            final(self).key == old(self).key,
            final(self).dropped == old(self).dropped,
            final(self).dropped_group == old(self).dropped_group,
            final(self).top >= old(self).top,
            r is Some ==> final(self).top == client && final(self).current_key is Some
                && final(self).current_elt is None && !final(self).done,
            r matches Some(x) ==> final(self).current_key == Some(old(self).key.spec_key(x)),
            r is None ==> final(self).done && final(self).top == old(self).top,
            ({
                let g = client as int;
                &&& r == if old(self).remaining(g).len() > 0 {
                    Some(old(self).remaining(g)[0])
                } else {
                    None::<I::Item>
                }
                &&& final(self).remaining(g) == if old(self).remaining(g).len() > 0 {
                    old(self).remaining(g).drop_first()
                } else {
                    old(self).remaining(g)
                }
                &&& forall|h: int|
                    h != g && (h == old(self).top ==> old(self).top != old(self).dropped_group) ==> #[trigger] final(self).remaining(h)
                        == old(self).remaining(h)
            }),
    {
        let ghost top = self.top as int;
        let ghost r0 = old(self).remaining(top);
        let ghost later0 = old(self).later();
        let dropped = self.top == self.dropped_group;
        let mut group: Vec<I::Item> = Vec::new();
        match self.current_elt.take() {
            Some(elt) => {
                if !dropped {
                    group.push(elt);
                }
            },
            None => {},
        }
        let mut first_elt: Option<I::Item> = None;
        loop
            invariant_except_break
                self.iter.wf(),
                !self.done,
                first_elt is None,
                later0 == self.later(),
                !dropped ==> r0 == group@ + self.cont(),
            invariant
                self.top == old(self).top,
                self.key == old(self).key,
                self.buffer == old(self).buffer,
                self.bot == old(self).bot,
                self.bufbot == old(self).bufbot,
                self.dropped == old(self).dropped,
                self.dropped_group == old(self).dropped_group,
                dropped == (self.top == self.dropped_group),
                self.current_elt is None,
                self.current_key is None ==> self.top == 0 || self.iter.rest().len() == 0,
                self.top + self.iter.rest().len() + 2 < usize::MAX,
                self.iter.rest().len() <= old(self).iter.rest().len(),
                later0 == old(self).later(),
                r0 == old(self).remaining(top),
            ensures
                self.iter.wf(),
                match first_elt {
                    Some(x) => {
                        &&& !self.done
                        &&& later0.len() > 0
                        &&& later0[0].1.len() > 0
                        &&& x == later0[0].1[0]
                        &&& self.current_key == Some(later0[0].0)
                        &&& self.cont() == later0[0].1.drop_first()
                        &&& self.later() == later0.drop_first()
                        &&& self.iter.rest().len() < old(self).iter.rest().len()
                        &&& self.key.spec_key(x) == later0[0].0
                    },
                    None => self.done && self.iter.rest().len() == 0 && later0.len() == 0,
                },
                !dropped ==> r0 == group@,
            decreases self.iter.rest().len(),
        {
            let ghost u = self.iter.rest();
            match self.next_element() {
                None => {
                    proof {
                        assert(u =~= Seq::<I::Item>::empty());
                        assert(self.cont() =~= Seq::<I::Item>::empty());
                        assert(group@ + self.cont() =~= group@);
                        assert(u.skip(0) =~= u);
                        assert(later0 =~= Seq::<(i64, Seq<I::Item>)>::empty());
                    }
                    break;
                },
                Some(elt) => {
                    let key = self.key.key(&elt);
                    let ghost ck = self.current_key;
                    match self.current_key.take() {
                        None => {},
                        Some(old_key) => {
                            if old_key != key {
                                self.current_key = Some(key);
                                first_elt = Some(elt);
                                proof {
                                    lemma_run_step(self.key, old_key, u);
                                    lemma_run_step(self.key, key, u);
                                    assert(u.take(0) =~= Seq::<I::Item>::empty());
                                    assert(group@ + Seq::<I::Item>::empty() =~= group@);
                                    assert(u.skip(0) =~= u);
                                    let u1 = self.iter.rest();
                                    let r = run_len(self.key, key, u);
                                    lemma_run_len_bound(self.key, key, u);
                                    lemma_run_len_bound(self.key, key, u1);
                                    assert(later0 == group_runs(self.key, u));
                                    assert(group_runs(self.key, u) == seq![(key, u.take(r as int))] + group_runs(self.key, u.skip(r as int)));
                                    assert(self.cont().len() == run_len(self.key, key, u1));
                                    assert(self.later() =~= later0.drop_first());
                                    assert(self.cont() =~= later0[0].1.drop_first());
                                    assert(later0[0].1.len() > 0);
                                }
                                break;
                            }
                        },
                    }
                    self.current_key = Some(key);
                    proof {
                        lemma_run_step(self.key, key, u);
                        let u1 = self.iter.rest();
                        lemma_run_len_bound(self.key, key, u);
                        lemma_run_len_bound(self.key, key, u1);
                        assert(self.cont() =~= u.take(run_len(self.key, key, u) as int).drop_first());
                        if !dropped {
                            assert(group@.push(elt) + self.cont() =~= group@ + (seq![elt] + self.cont()));
                        }
                    }
                    if !dropped {
                        group.push(elt);
                    }
                },
            }
        }
        let ghost mid = *self;
        if !dropped {
            self.push_next_group(group);
        }
        proof {
            assert forall|h: int| h > top implies #[trigger] self.remaining(h) == mid.remaining(h) by {
            }
        }
        let ghost after_push = *self;
        proof {
            assert forall|h: int| h < top implies #[trigger] after_push.remaining(h) == mid.remaining(h) by {
            }
        }
        if first_elt.is_some() {
            self.top = self.top + 1;
        }
        proof {
            let g = client as int;
            if first_elt is Some {
                assert(old(self).remaining(g) == later0[0].1);
                assert(self.remaining(g) =~= later0[0].1.drop_first());
                assert forall|h: int| h != g && (h == top ==> !dropped) implies #[trigger] self.remaining(h) == old(self).remaining(h) by {
                    if h < top {
                        assert(mid.remaining(h) == old(self).remaining(h));
                        assert(after_push.remaining(h) == mid.remaining(h));
                        assert(self.remaining(h) == after_push.remaining(h));
                        assert(self.remaining(h) == old(self).remaining(h));
                    } else if h == top {
                        assert(self.remaining(h) == group@);
                        assert(self.remaining(h) == old(self).remaining(h));
                    } else if h > g {
                        assert(self.later() == later0.drop_first());
                        if h - g - 1 < self.later().len() {
                            assert(self.later()[h - g - 1] == later0[h - top - 1]);
                        }
                    }
                }
            } else {
                assert(self.iter.rest() =~= Seq::<I::Item>::empty());
                assert(self.later() =~= Seq::<(i64, Seq<I::Item>)>::empty()) by {
                    assert(self.iter.rest().skip(self.cont().len() as int) =~= Seq::<I::Item>::empty());
                }
                assert(old(self).remaining(g) =~= Seq::<I::Item>::empty());
                assert(self.remaining(g) =~= Seq::<I::Item>::empty());
                assert forall|h: int| h != g && (h == top ==> !dropped) implies #[trigger] self.remaining(h) == old(self).remaining(h) by {
                    if h < top {
                        assert(mid.remaining(h) == old(self).remaining(h));
                        assert(after_push.remaining(h) == mid.remaining(h));
                    } else if h == top {
                        assert(self.remaining(h) == group@);
                    } else {
                        assert(self.remaining(h) =~= Seq::<I::Item>::empty());
                        assert(old(self).remaining(h) =~= Seq::<I::Item>::empty());
                    }
                }
            }
        }
        first_elt
    }

    /// The next item of group `client`, from the buffer or from the source.
    fn step(&mut self, client: usize) -> (r: Option<I::Item>)
        requires
            old(self).wf(),
            client <= old(self).top + 1 || old(self).done,
            !old(self).dropped@.contains(client as int),
        ensures
            final(self).wf(),
            final(self).key == old(self).key,
            final(self).dropped == old(self).dropped,
            final(self).dropped_group == old(self).dropped_group,
            final(self).top >= old(self).top,
            old(self).done ==> final(self).done,
            final(self).top <= old(self).top + 1,
            final(self).top == old(self).top + 1 ==> (r is None && client == old(self).top
                && final(self).current_elt is Some && !final(self).done) || (r is Some && client
                == old(self).top + 1),
            r is None && client >= old(self).top && final(self).top == old(self).top
                ==> final(self).done,
            r is Some && client >= old(self).top && old(self).bufbot + old(self).buffer@.len()
                <= old(self).top ==> final(self).current_key == Some(old(self).key.spec_key(r->0)),
            r is Some && client >= old(self).top && old(self).bufbot + old(self).buffer@.len()
                <= old(self).top ==> final(self).top == client
                && final(self).current_key is Some && final(self).current_elt is None
                && !final(self).done,
            client < old(self).top ==> final(self).top == old(self).top && final(self).done
                == old(self).done && final(self).current_elt == old(self).current_elt
                && final(self).current_key == old(self).current_key,
            client < old(self).top && old(self).bufbot + old(self).buffer@.len() <= old(self).top
                ==> final(self).bufbot + final(self).buffer@.len() <= final(self).top,
            ({
                let g = client as int;
                &&& r == if old(self).remaining(g).len() > 0 {
                    Some(old(self).remaining(g)[0])
                } else {
                    None::<I::Item>
                }
                &&& final(self).remaining(g) == if old(self).remaining(g).len() > 0 {
                    old(self).remaining(g).drop_first()
                } else {
                    old(self).remaining(g)
                }
                &&& forall|h: int|
                    h != g && !old(self).dropped@.contains(h) ==> #[trigger] final(self).remaining(h)
                        == old(self).remaining(h)
            }),
    {
        if client < self.bufbot {
            None
        } else if client < self.top || (client == self.top && self.buffer.len() > self.top - self.bufbot) {
            self.lookup_buffer(client)
        } else if self.done {
            proof {
                let g = client as int;
                assert(self.cont() =~= Seq::<I::Item>::empty());
                assert(self.later() =~= Seq::<(i64, Seq<I::Item>)>::empty()) by {
                    assert(self.iter.rest().skip(self.cont().len() as int) =~= Seq::<I::Item>::empty());
                }
                assert(self.remaining(g) =~= Seq::<I::Item>::empty());
            }
            None
        } else if self.top == client {
            self.step_current()
        } else {
            self.step_buffering(client)
        }
    }

    /// The key of group `client`, whose first item was just handed out; one more item is
    /// read from the source to find where the group ends.
    fn group_key(&mut self, client: usize) -> (r: i64)
        requires
            old(self).wf(),
            client == old(self).top,
            old(self).current_key is Some,
            old(self).current_elt is None,
            !old(self).done,
        ensures
            final(self).wf(),
            final(self).key == old(self).key,
            final(self).dropped == old(self).dropped,
            final(self).dropped_group == old(self).dropped_group,
            final(self).top >= old(self).top,
            final(self).top <= old(self).top + 1,
            final(self).top == old(self).top + 1 ==> final(self).current_elt is Some
                && !final(self).done,
            final(self).bufbot == old(self).bufbot,
            final(self).buffer == old(self).buffer,
            r == old(self).current_key->0,
            forall|i: int|
                0 <= i < old(self).remaining(client as int).len() ==> #[trigger] old(self).key.spec_key(
                    old(self).remaining(client as int)[i],
                ) == r,
            forall|h: int| #[trigger] final(self).remaining(h) == old(self).remaining(h),
    {
        let ghost u = self.iter.rest();
        let old_key = self.current_key.take().unwrap();
        proof {
            lemma_run_keyed(self.key, old_key, u);
            lemma_run_len_bound(self.key, old_key, u);
            assert(old(self).remaining(client as int) =~= u.take(run_len(self.key, old_key, u) as int));
        }
        match self.next_element() {
            Some(elt) => {
                let key = self.key.key(&elt);
                if old_key != key {
                    self.top = self.top + 1;
                }
                self.current_key = Some(key);
                self.current_elt = Some(elt);
                proof {
                    lemma_run_step(self.key, old_key, u);
                    lemma_run_step(self.key, key, u);
                    let u1 = self.iter.rest();
                    lemma_run_len_bound(self.key, key, u);
                    lemma_run_len_bound(self.key, key, u1);
                    let r = run_len(self.key, key, u);
                    assert(self.cont().len() == run_len(self.key, key, u1));
                    if old_key != key {
                        assert(u.skip(0) =~= u);
                        assert(u.take(0) =~= Seq::<I::Item>::empty());
                        assert(old(self).later() == group_runs(self.key, u));
                        assert(group_runs(self.key, u) == seq![(key, u.take(r as int))] + group_runs(self.key, u.skip(r as int)));
                        assert(self.later() =~= old(self).later().drop_first());
                        assert(self.remaining(self.top as int) =~= old(self).later()[0].1);
                        assert forall|h: int| #[trigger] self.remaining(h) == old(self).remaining(h) by {
                            if h == client {
                                assert(old(self).remaining(h) =~= Seq::<I::Item>::empty());
                                assert(self.remaining(h) =~= Seq::<I::Item>::empty());
                            }
                        }
                    } else {
                        assert(self.later() =~= old(self).later());
                        assert(self.remaining(client as int) =~= old(self).remaining(client as int));
                        assert forall|h: int| #[trigger] self.remaining(h) == old(self).remaining(h) by {
                        }
                    }
                }
            },
            None => {
                proof {
                    assert(u =~= Seq::<I::Item>::empty());
                    assert(self.cont() =~= Seq::<I::Item>::empty());
                    assert(old(self).cont() =~= Seq::<I::Item>::empty());
                    assert(self.later() =~= old(self).later());
                    assert forall|h: int| #[trigger] self.remaining(h) == old(self).remaining(h) by {
                    }
                }
            },
        }
        old_key
    }

    /// Note that group `client` was dropped: its items are no longer buffered.
    fn drop_group(&mut self, client: usize)
        requires
            old(self).wf(),
            client < no_group(),
        ensures
            final(self).wf(),
            final(self).key == old(self).key,
            final(self).top == old(self).top,
            final(self).done == old(self).done,
            final(self).dropped@ == old(self).dropped@.insert(client as int),
            final(self).current_elt == old(self).current_elt,
            final(self).current_key == old(self).current_key,
            final(self).bufbot == old(self).bufbot,
            final(self).buffer == old(self).buffer,
            forall|h: int| #[trigger] final(self).remaining(h) == old(self).remaining(h),
    {
        if self.dropped_group == usize::MAX || client > self.dropped_group {
            self.dropped_group = client;
        }
        self.dropped = Ghost(self.dropped@.insert(client as int));
        proof {
            assert forall|h: int| #[trigger] self.remaining(h) == old(self).remaining(h) by {
            }
        }
    }

    /// Read the next item of the current group straight from the source, without buffering.
    fn step_current(&mut self) -> (r: Option<I::Item>)
        requires
            old(self).wf(),
            !old(self).done,
            old(self).bufbot + old(self).buffer@.len() <= old(self).top,
        ensures
            final(self).wf(),
            final(self).key == old(self).key,
            final(self).dropped == old(self).dropped,
            final(self).dropped_group == old(self).dropped_group,
            final(self).top >= old(self).top,
            final(self).top <= old(self).top + 1,
            final(self).bufbot + final(self).buffer@.len() <= final(self).top,
            final(self).top == old(self).top + 1 ==> r is None && final(self).current_elt is Some
                && !final(self).done,
            r is Some ==> final(self).top == old(self).top && final(self).current_key is Some
                && final(self).current_elt is None && !final(self).done,
            r matches Some(x) ==> final(self).current_key == Some(old(self).key.spec_key(x)),
            final(self).top == old(self).top && r is None ==> final(self).done,
            ({
                let g = old(self).top as int;
                &&& r == if old(self).remaining(g).len() > 0 {
                    Some(old(self).remaining(g)[0])
                } else {
                    None::<I::Item>
                }
                &&& final(self).remaining(g) == if old(self).remaining(g).len() > 0 {
                    old(self).remaining(g).drop_first()
                } else {
                    old(self).remaining(g)
                }
                &&& forall|h: int| h != g ==> #[trigger] final(self).remaining(h) == old(self).remaining(h)
            }),
    {
        let ghost g = self.top as int;
        let ghost u = self.iter.rest();
        if self.current_elt.is_some() {
            let elt = self.current_elt.take();
            proof {
                assert(self.remaining(g) =~= old(self).remaining(g).drop_first());
                assert forall|h: int| h != g implies #[trigger] self.remaining(h) == old(self).remaining(h) by {
                }
            }
            return elt;
        }
        match self.next_element() {
            None => {
                proof {
                    assert(u =~= Seq::<I::Item>::empty());
                    assert(old(self).cont() =~= Seq::<I::Item>::empty());
                    assert(self.cont() =~= Seq::<I::Item>::empty());
                    assert(old(self).remaining(g) =~= Seq::<I::Item>::empty());
                    assert(self.remaining(g) =~= Seq::<I::Item>::empty());
                    assert forall|h: int| h != g implies #[trigger] self.remaining(h) == old(self).remaining(h) by {
                    }
                }
                None
            },
            Some(elt) => {
                let key = self.key.key(&elt);
                match self.current_key {
                    None => {},
                    Some(old_key) => {
                        if old_key != key {
                            self.current_key = Some(key);
                            self.current_elt = Some(elt);
                            self.top = self.top + 1;
                            proof {
                                lemma_run_step(self.key, old_key, u);
                                lemma_run_step(self.key, key, u);
                                assert(old(self).cont() =~= Seq::<I::Item>::empty());
                                assert(old(self).remaining(g) =~= Seq::<I::Item>::empty());
                                assert(u.skip(0) =~= u);
                                assert(old(self).later() == group_runs(self.key, u));
                                let u1 = self.iter.rest();
                                let r = run_len(self.key, key, u);
                                lemma_run_len_bound(self.key, key, u);
                                lemma_run_len_bound(self.key, key, u1);
                                assert(group_runs(self.key, u) == seq![(key, u.take(r as int))] + group_runs(self.key, u.skip(r as int)));
                                assert(self.cont().len() == run_len(self.key, key, u1));
                                assert(self.later() == group_runs(self.key, u.skip(r as int)));
                                assert(self.remaining(g + 1) =~= old(self).later()[0].1);
                                assert(self.later() =~= old(self).later().drop_first());
                                assert forall|h: int| h != g implies #[trigger] self.remaining(h) == old(self).remaining(h) by {
                                }
                            }
                            return None;
                        }
                    },
                }
                self.current_key = Some(key);
                proof {
                    lemma_run_step(self.key, key, u);
                    let u1 = self.iter.rest();
                    lemma_run_len_bound(self.key, key, u);
                    lemma_run_len_bound(self.key, key, u1);
                    assert(old(self).cont().len() == run_len(self.key, key, u));
                    assert(self.cont().len() == run_len(self.key, key, u1));
                    assert(self.remaining(g) =~= old(self).remaining(g).drop_first());
                    assert(self.later() =~= old(self).later());
                    assert forall|h: int| h != g implies #[trigger] self.remaining(h) == old(self).remaining(h) by {
                    }
                }
                Some(elt)
            },
        }
    }
}

/// The storage of a lazy grouping of the items of an iterator into runs of equal keys.
///
/// Groups are asked for in order with `next_group`; the items of each group are read with
/// `Group::next`. Items are buffered only when a later group is asked for while an earlier
/// one still has items to hand out.
pub struct GroupByLazy<I: Itertools, F> {
    inner: GroupInner<I, F>,
    /// The index of the next group to hand out.
    index: usize,
}

/// Create a new lazy grouping of the items of `iter` by the key function `f`.
pub fn new<I: Itertools, F: KeyFn<I::Item>>(iter: I, f: F) -> (r: GroupByLazy<I, F>)
    requires
        iter.wf(),
        iter.rest().len() + 3 < usize::MAX,
    ensures
        r.wf(),
        r.index() == 0,
        r.key_fn() == f,
        forall|g: int| !#[trigger] r.is_dropped(g),
        forall|g: int| #[trigger] r.remaining(g) == if 0 <= g < group_runs(f, iter.rest()).len() {
            group_runs(f, iter.rest())[g].1
        } else {
            Seq::empty()
        },
{
    let r = GroupByLazy {
        inner: GroupInner {
            key: f,
            iter,
            current_key: None,
            current_elt: None,
            done: false,
            top: 0,
            bot: 0,
            bufbot: 0,
            buffer: Vec::new(),
            dropped_group: usize::MAX,
            dropped: Ghost(Set::empty()),
        },
        index: 0,
    };
    proof {
        let u = iter.rest();
        assert forall|g: int| #[trigger] r.remaining(g) == if 0 <= g < group_runs(f, u).len() {
            group_runs(f, u)[g].1
        } else {
            Seq::empty()
        } by {
            if u.len() > 0 {
                let k = f.spec_key(u[0]);
                let n = run_len(f, k, u);
                lemma_run_len_bound(f, k, u);
                assert(group_runs(f, u) == seq![(k, u.take(n as int))] + group_runs(f, u.skip(n as int)));
                assert(r.inner.cont() == u.take(n as int));
                assert(r.inner.remaining(0) =~= u.take(n as int));
            } else {
                assert(r.inner.cont() =~= Seq::<I::Item>::empty());
                assert(r.inner.later() =~= Seq::<(i64, Seq<I::Item>)>::empty()) by {
                    assert(u.skip(0) =~= u);
                }
                assert(r.inner.remaining(g) =~= Seq::<I::Item>::empty());
            }
        }
    }
    r
}

impl<I: Itertools, F: KeyFn<I::Item>> GroupByLazy<I, F> {
    /// The items of group `g` not yet handed out (for a group that was not dropped).
    pub closed spec fn remaining(&self, g: int) -> Seq<I::Item> {
        self.inner.remaining(g)
    }

    /// Group `g` was dropped.
    pub closed spec fn is_dropped(&self, g: int) -> bool {
        self.inner.dropped@.contains(g)
    }

    /// The index of the next group to hand out.
    pub closed spec fn index(&self) -> nat {
        self.index as nat
    }

    /// The key function.
    pub closed spec fn key_fn(&self) -> F {
        self.inner.key
    }

    pub closed spec fn wf(&self) -> bool {
        &&& self.inner.wf()
        &&& self.inner.top <= self.index
        &&& self.index <= self.inner.top + 1 || self.inner.done
        &&& self.index == self.inner.top ==> !self.inner.done && (self.inner.current_elt is Some
            || self.inner.current_key is None) && self.inner.bufbot + self.inner.buffer@.len()
            <= self.inner.top
    }

    /// The next item of group `client`, which was handed out already and not dropped.
    pub fn step(&mut self, client: usize) -> (r: Option<I::Item>)
        requires
            old(self).wf(),
            client < old(self).index(),
            !old(self).is_dropped(client as int),
        ensures
            final(self).wf(),
            final(self).index() == old(self).index(),
            final(self).key_fn() == old(self).key_fn(),
            forall|h: int| #[trigger] final(self).is_dropped(h) == old(self).is_dropped(h),
            ({
                let g = client as int;
                &&& r == if old(self).remaining(g).len() > 0 {
                    Some(old(self).remaining(g)[0])
                } else {
                    None::<I::Item>
                }
                &&& final(self).remaining(g) == if old(self).remaining(g).len() > 0 {
                    old(self).remaining(g).drop_first()
                } else {
                    old(self).remaining(g)
                }
                &&& forall|h: int|
                    h != g && !old(self).is_dropped(h) ==> #[trigger] final(self).remaining(h)
                        == old(self).remaining(h)
            }),
    {
        self.inner.step(client)
    }

    /// Note that group `client` will not be read any more.
    pub fn drop_group(&mut self, client: usize)
        requires
            old(self).wf(),
            client < old(self).index(),
        ensures
            final(self).wf(),
            final(self).index() == old(self).index(),
            final(self).key_fn() == old(self).key_fn(),
            forall|h: int| #[trigger] final(self).is_dropped(h) == (old(self).is_dropped(h) || h == client),
            forall|h: int| #[trigger] final(self).remaining(h) == old(self).remaining(h),
    {
        self.inner.drop_group(client)
    }

    /// The next group: its key, and the group itself holding its first item. The key is
    /// that of every item of the group.
    pub fn next_group(&mut self) -> (r: Option<(i64, Group<I::Item>)>)
        requires
            old(self).wf(),
            old(self).index() + 1 < usize::MAX,
            !old(self).is_dropped(old(self).index() as int),
        ensures
            final(self).wf(),
            final(self).index() == old(self).index() + 1,
            final(self).key_fn() == old(self).key_fn(),
            forall|h: int| #[trigger] final(self).is_dropped(h) == old(self).is_dropped(h),
            ({
                let g = old(self).index() as int;
                &&& match r {
                    None => old(self).remaining(g).len() == 0 && final(self).remaining(g).len() == 0,
                    Some((k, grp)) => {
                        &&& old(self).remaining(g).len() > 0
                        &&& grp.index() == g
                        &&& grp.held() == seq![old(self).remaining(g)[0]]
                        &&& final(self).remaining(g) == old(self).remaining(g).drop_first()
                        &&& forall|i: int|
                            0 <= i < old(self).remaining(g).len() ==> #[trigger] old(self).key_fn().spec_key(
                                old(self).remaining(g)[i],
                            ) == k
                    },
                }
                &&& forall|h: int|
                    h != g && !old(self).is_dropped(h) ==> #[trigger] final(self).remaining(h)
                        == old(self).remaining(h)
            }),
    {
        let index = self.index;
        self.index = index + 1;
        let ghost before = self.inner;
        match self.inner.step(index) {
            None => {
                proof {
                    assert(self.inner.top <= self.index);
                    assert(self.index <= self.inner.top + 1 || self.inner.done);
                    assert(self.wf());
                }
                None
            },
            Some(elt) => {
                proof {
                    assert(before.bufbot + before.buffer@.len() <= before.top);
                    assert(self.inner.top == index);
                }
                let ghost mid = self.inner;
                let key = self.inner.group_key(index);
                proof {
                    assert(self.wf());
                    let g = index as int;
                    assert(mid.remaining(g) == before.remaining(g).drop_first());
                    assert forall|i: int| 0 <= i < before.remaining(g).len() implies #[trigger] before.key.spec_key(before.remaining(g)[i]) == key by {
                        if i > 0 {
                            assert(before.remaining(g)[i] == mid.remaining(g)[i - 1]);
                        } else {
                            assert(before.key.spec_key(elt) == key);
                        }
                    }
                }
                Some((key, Group { index, first: Some(elt) }))
            },
        }
    }
}

/// An iterator over the groups of a lazy grouping: it hands out each group with its key.
pub struct Groups<'a, I: Itertools, F> {
    parent: &'a mut GroupByLazy<I, F>,
}

impl<'a, I: Itertools, F: KeyFn<I::Item>> Groups<'a, I, F> {
    /// The groups of `parent`, from the next one on.
    pub fn new(parent: &'a mut GroupByLazy<I, F>) -> (r: Self)
        ensures
            *r.parent() == *old(parent),
    {
        Groups { parent }
    }

    /// The lazy grouping the groups come from.
    pub closed spec fn parent(&self) -> &GroupByLazy<I, F> {
        &*self.parent
    }

    /// The next group and its key.
    pub fn next(&mut self) -> (r: Option<(i64, Group<I::Item>)>)
        requires
            old(self).parent().wf(),
            old(self).parent().index() + 1 < usize::MAX,
            !old(self).parent().is_dropped(old(self).parent().index() as int),
        ensures
            final(self).parent().wf(),
            final(self).parent().index() == old(self).parent().index() + 1,
            final(self).parent().key_fn() == old(self).parent().key_fn(),
            forall|h: int| #[trigger] final(self).parent().is_dropped(h) == old(self).parent().is_dropped(h),
            ({
                let g = old(self).parent().index() as int;
                &&& match r {
                    None => old(self).parent().remaining(g).len() == 0 && final(self).parent().remaining(g).len() == 0,
                    Some((k, grp)) => {
                        &&& old(self).parent().remaining(g).len() > 0
                        &&& grp.index() == g
                        &&& grp.held() == seq![old(self).parent().remaining(g)[0]]
                        &&& final(self).parent().remaining(g) == old(self).parent().remaining(g).drop_first()
                        &&& forall|i: int|
                            0 <= i < old(self).parent().remaining(g).len() ==> #[trigger] old(self).parent().key_fn().spec_key(
                                old(self).parent().remaining(g)[i],
                            ) == k
                    },
                }
                &&& forall|h: int|
                    h != g && !old(self).parent().is_dropped(h) ==> #[trigger] final(self).parent().remaining(h)
                        == old(self).parent().remaining(h)
            }),
    {
        self.parent.next_group()
    }

    /// The next item of `group`, one of the groups handed out.
    pub fn next_in(&mut self, group: &mut Group<I::Item>) -> (r: Option<I::Item>)
        requires
            old(self).parent().wf(),
            old(group).index() < old(self).parent().index(),
            !old(self).parent().is_dropped(old(group).index() as int),
        ensures
            final(self).parent().wf(),
            final(group).index() == old(group).index(),
            final(self).parent().index() == old(self).parent().index(),
            forall|h: int| #[trigger] final(self).parent().is_dropped(h) == old(self).parent().is_dropped(h),
            ({
                let all = old(group).held() + old(self).parent().remaining(old(group).index() as int);
                &&& r == if all.len() > 0 {
                    Some(all[0])
                } else {
                    None::<I::Item>
                }
                &&& final(group).held() + final(self).parent().remaining(old(group).index() as int) == if all.len() > 0 {
                    all.drop_first()
                } else {
                    all
                }
                &&& forall|h: int|
                    h != old(group).index() && !old(self).parent().is_dropped(h) ==> #[trigger] final(self).parent().remaining(h)
                        == old(self).parent().remaining(h)
            }),
    {
        group.next(self.parent)
    }
}

/// The items of one group of a lazy grouping.
pub struct Group<T> {
    index: usize,
    first: Option<T>,
}

impl<T> Group<T> {
    /// The index of the group.
    pub closed spec fn index(&self) -> nat {
        self.index as nat
    }

    /// The item held by the group itself, handed out before those of the grouping.
    pub closed spec fn held(&self) -> Seq<T> {
        opt_seq(self.first)
    }

    /// The next item of the group: the one it holds, then those of `parent`.
    pub fn next<I: Itertools<Item = T>, F: KeyFn<T>>(&mut self, parent: &mut GroupByLazy<I, F>) -> (r:
        Option<T>)
        requires
            old(parent).wf(),
            old(self).index() < old(parent).index(),
            !old(parent).is_dropped(old(self).index() as int),
        ensures
            final(parent).wf(),
            final(parent).index() == old(parent).index(),
            final(self).index() == old(self).index(),
            forall|h: int| #[trigger] final(parent).is_dropped(h) == old(parent).is_dropped(h),
            ({
                let all = old(self).held() + old(parent).remaining(old(self).index() as int);
                &&& r == if all.len() > 0 {
                    Some(all[0])
                } else {
                    None::<T>
                }
                &&& final(self).held() + final(parent).remaining(old(self).index() as int) == if all.len() > 0 {
                    all.drop_first()
                } else {
                    all
                }
                &&& forall|h: int|
                    h != old(self).index() && !old(parent).is_dropped(h) ==> #[trigger] final(parent).remaining(h)
                        == old(parent).remaining(h)
            }),
    {
        if self.first.is_some() {
            let elt = self.first.take();
            proof {
                assert(old(self).held() + old(parent).remaining(old(self).index() as int) =~= seq![elt->0] + (self.held() + parent.remaining(self.index() as int)));
            }
            return elt;
        }
        let r = parent.step(self.index);
        proof {
            assert(self.held() =~= Seq::<T>::empty());
            assert(old(self).held() + old(parent).remaining(old(self).index() as int) =~= old(parent).remaining(old(self).index() as int));
            assert(self.held() + parent.remaining(self.index() as int) =~= parent.remaining(self.index() as int));
        }
        r
    }

    /// Drop the group: its items are no longer kept for it.
    pub fn drop<I: Itertools<Item = T>, F: KeyFn<T>>(self, parent: &mut GroupByLazy<I, F>)
        requires
            old(parent).wf(),
            self.index() < old(parent).index(),
        ensures
            final(parent).wf(),
            final(parent).index() == old(parent).index(),
            forall|h: int| #[trigger] final(parent).is_dropped(h) == (old(parent).is_dropped(h) || h == self.index()),
            forall|h: int| #[trigger] final(parent).remaining(h) == old(parent).remaining(h),
    {
        parent.drop_group(self.index)
    }
}

} // verus!
