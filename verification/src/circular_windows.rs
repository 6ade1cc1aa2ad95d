//! Windows of a fixed length over an iterator, wrapping round to its first items.
use vstd::prelude::*;
use crate::Itertools;

verus! {

/// The window of `n` items that starts at position `i` of `s`, wrapping round to the start.
pub open spec fn circular_window<T>(s: Seq<T>, n: nat, i: int) -> Seq<T> {
    Seq::new(n, |j: int| s[(i + j) % (s.len() as int)])
}

/// The circular windows of `n` items of `s`: one for each position.
pub open spec fn circular_windows<T>(s: Seq<T>, n: nat) -> Seq<Seq<T>> {
    Seq::new(s.len(), |i: int| circular_window(s, n, i))
}

proof fn lemma_mod_small(x: int, n: int)
    requires
        0 < n,
        0 <= x < 2 * n,
    ensures
        x % n == if x < n { x } else { x - n },
{
    if x < n {
        assert(x % n == x) by (nonlinear_arith)
            requires
                0 <= x < n,
        ;
    } else {
        assert(x % n == x - n) by (nonlinear_arith)
            requires
                n <= x < 2 * n,
        ;
    }
}

proof fn lemma_mod_shift(x: int, k: int)
    requires
        0 < k,
        0 <= x,
    ensures
        (x + k) % k == x % k,
        0 <= x % k < k,
{
    assert((x + k) % k == x % k) by (nonlinear_arith)
        requires
            0 < k,
            0 <= x,
    ;
    assert(0 <= x % k < k) by (nonlinear_arith)
        requires
            0 < k,
    ;
}

/// The state once the first window has been made.
struct CircularArrayWindowsInner<T> {
    /// The first `n` items of the input, repeated cyclically where it has fewer.
    prefix: Vec<T>,
    /// How many items of `prefix` have been used after the input ran out; `None` while the
    /// input has not run out.
    prefix_pos: Option<usize>,
    /// The items of the window made last, as a ring starting at `ringpos`.
    ringbuf: Vec<T>,
    ringpos: usize,
}

/// An iterator over the windows of `n` consecutive items of an iterator, wrapping round to
/// its first items: as many windows as items, each window starting at one of them.
pub struct CircularArrayWindows<I: Itertools> {
    iter: I,
    n: usize,
    inner: Option<CircularArrayWindowsInner<I::Item>>,
    input: Ghost<Seq<I::Item>>,
    emitted: Ghost<nat>,
}

/// Create a new `CircularArrayWindows` of windows of `n` items.
pub fn circular_array_windows<I: Itertools>(iter: I, n: usize) -> (r: CircularArrayWindows<I>)
    requires
        iter.wf(),
    ensures
        r.wf(),
        r.rest() == circular_windows(iter.rest(), n as nat),
        r.window_len() == n,
{
    let ghost s = iter.rest();
    let r = CircularArrayWindows { iter, n, inner: None, input: Ghost(s), emitted: Ghost(0) };
    assert(r.rest() =~= circular_windows(s, n as nat));
    r
}

impl<I: Itertools> CircularArrayWindows<I> {
    /// The source iterator, in its current state.
    pub closed spec fn source(&self) -> I {
        self.iter
    }

    /// The number of windows still to come: one for each item of the input not yet at the
    /// start of a window. The source's lower size hint must be its exact length, as for an
    /// iterator of known length.
    pub fn len(&self) -> (r: usize)
        requires
            self.wf(),
            self.source().spec_size_hint().0 == self.source().rest().len(),
            self.rest().len() <= usize::MAX,
        ensures
            r == self.rest().len(),
    {
        let source_len = self.iter.size_hint().0;
        let n = self.n;
        match &self.inner {
            None => source_len,
            Some(inner) => match inner.prefix_pos {
                None => if n == 0 {
                    source_len
                } else {
                    source_len + (n - 1)
                },
                Some(p) => if n == 0 {
                    0
                } else {
                    n - 1 - p
                },
            },
        }
    }

    /// The length of the windows.
    pub closed spec fn window_len(&self) -> nat {
        self.n as nat
    }

    /// The windows still to be yielded.
    pub closed spec fn rest(&self) -> Seq<Seq<I::Item>> {
        let s = self.input@;
        let e = self.emitted@;
        Seq::new((s.len() - e) as nat, |i: int| circular_window(s, self.n as nat, e + i))
    }

    pub closed spec fn wf(&self) -> bool {
        let s = self.input@;
        let k = s.len() as int;
        let e = self.emitted@ as int;
        let n = self.n as int;
        &&& self.iter.wf()
        &&& match self.inner {
            None => self.iter.rest() == s && e == 0,
            Some(inn) => {
                let c = if n == 0 { e } else { e - 1 + n };
                &&& 1 <= e <= k
                &&& inn.prefix@.len() == n
                &&& inn.ringbuf@.len() == n
                &&& n >= 1 ==> inn.ringpos < n
                &&& forall|j: int| 0 <= j < n ==> #[trigger] inn.prefix@[j] == s[j % k]
                &&& forall|j: int|
                    0 <= j < n ==> #[trigger] inn.ringbuf@[(inn.ringpos + j) % n] == s[(e - 1 + j)
                        % k]
                &&& match inn.prefix_pos {
                    None => c <= k && self.iter.rest() == s.skip(c),
                    Some(p) => self.iter.rest().len() == 0 && c == k + p && (n == 0 ==> p == 0)
                        && (n >= 1 ==> p < n),
                }
            },
        }
    }
}

impl<T: Copy> CircularArrayWindowsInner<T> {
    /// The window made last: the ring read from `ringpos`.
    fn make_window(&self) -> (r: Vec<T>)
        requires
            self.ringbuf@.len() >= 1 ==> self.ringpos < self.ringbuf@.len(),
        ensures
            r@ == Seq::new(
                self.ringbuf@.len(),
                |j: int| self.ringbuf@[(self.ringpos + j) % (self.ringbuf@.len() as int)],
            ),
    {
        let n = self.ringbuf.len();
        let mut r: Vec<T> = Vec::new();
        let mut i: usize = 0;
        while i < n
            invariant
                i <= n,
                n == self.ringbuf@.len(),
                n >= 1 ==> self.ringpos < n,
                r@.len() == i,
                forall|j: int| 0 <= j < i ==> #[trigger] r@[j] == self.ringbuf@[(self.ringpos + j) % (n as int)],
            decreases n - i,
        {
            proof {
                lemma_mod_small(i + self.ringpos, n as int);
            }
            let t = n - i;
            let idx = if self.ringpos < t {
                self.ringpos + i
            } else {
                self.ringpos - t
            };
            r.push(self.ringbuf[idx]);
            i = i + 1;
        }
        assert(r@ =~= Seq::new(n as nat, |j: int| self.ringbuf@[(self.ringpos + j) % (n as int)]));
        r
    }
}

impl<I: Itertools> CircularArrayWindows<I> where I::Item: Copy {
    /// Read the first `n` items, `first` and those after it, repeating them cyclically where
    /// the input has fewer.
    fn make_inner(first: I::Item, iter: &mut I, n: usize) -> (r: CircularArrayWindowsInner<
        I::Item,
    >)
        requires
            old(iter).wf(),
        ensures
            final(iter).wf(),
            ({
                let s = seq![first] + old(iter).rest();
                let k = s.len() as int;
                &&& r.prefix@.len() == n
                &&& r.ringbuf@ == r.prefix@
                &&& r.ringpos == 0
                &&& forall|j: int| 0 <= j < n ==> #[trigger] r.prefix@[j] == s[j % k]
                &&& match r.prefix_pos {
                    None => (n == 0 ==> final(iter).rest() == old(iter).rest()) && (n >= 1 ==> n
                        <= k && final(iter).rest() == s.skip(n as int)),
                    Some(p) => n >= 1 && k < n && p == n - k && final(iter).rest().len() == 0,
                }
            }),
    {
        let ghost s = seq![first] + iter.rest();
        let mut items: Vec<I::Item> = Vec::new();
        let mut prefix_pos: Option<usize> = None;
        if n > 0 {
            items.push(first);
        }
        let mut i: usize = 1;
        while i < n
            invariant
                n >= 1 ==> 1 <= i <= n,
                n == 0 ==> i == 1,
                iter.wf(),
                s == seq![first] + old(iter).rest(),
                prefix_pos is None,
                i <= s.len(),
                n >= 1 ==> iter.rest() == s.skip(i as int),
                n == 0 ==> iter.rest() == s.skip(1),
                n >= 1 ==> items@.len() == i,
                n == 0 ==> items@.len() == 0,
                forall|j: int| 0 <= j < items@.len() ==> #[trigger] items@[j] == s[j],
            decreases n - i,
        {
            match iter.next() {
                None => {
                    let k = i;
                    proof {
                        assert forall|t: int| 0 <= t < k implies #[trigger] items@[t] == s[t % (k as int)] by {
                            lemma_mod_small(t, k as int);
                        }
                    }
                    let mut j: usize = i;
                    while j < n
                        invariant
                            k <= j <= n,
                            k == i,
                            i < n,
                            iter.wf(),
                            iter.rest().len() == 0,
                            k == s.len(),
                            k >= 1,
                            items@.len() == j,
                            forall|t: int| 0 <= t < j ==> #[trigger] items@[t] == s[t % (k as int)],
                        decreases n - j,
                    {
                        proof {
                            lemma_mod_shift(j - k, k as int);
                        }
                        let x = items[j - k];
                        items.push(x);
                        j = j + 1;
                    }
                    prefix_pos = Some(n - i);
                    let ringbuf = copy_items(&items);
                    return CircularArrayWindowsInner { prefix: items, prefix_pos, ringbuf, ringpos: 0 };
                },
                Some(item) => {
                    items.push(item);
                },
            }
            i = i + 1;
        }
        proof {
            assert forall|j: int| 0 <= j < n implies #[trigger] items@[j] == s[j % s.len() as int] by {
                lemma_mod_small(j, s.len() as int);
            }
        }
        let ringbuf = copy_items(&items);
        CircularArrayWindowsInner { prefix: items, prefix_pos, ringbuf, ringpos: 0 }
    }
}

impl<T: Copy> CircularArrayWindowsInner<T> {
    /// Read the next item of the input followed by the repeated prefix, and put it at the end
    /// of the ring; `false`, with nothing read, when windows of one item have run out.
    fn read_item<I: Itertools<Item = T>>(&mut self, iter: &mut I) -> (r: bool)
        requires
            old(iter).wf(),
            old(self).ringbuf@.len() == old(self).prefix@.len(),
            old(self).ringbuf@.len() >= 1 ==> old(self).ringpos < old(self).ringbuf@.len(),
            old(self).prefix_pos matches Some(p) ==> p + 1 < old(self).ringbuf@.len(),
        ensures
            final(iter).wf(),
            final(self).prefix@ == old(self).prefix@,
            final(self).ringbuf@.len() == old(self).ringbuf@.len(),
            final(self).ringbuf@.len() >= 1 ==> final(self).ringpos < final(self).ringbuf@.len(),
            ({
                let n = old(self).ringbuf@.len() as int;
                let src: Option<T> = match old(self).prefix_pos {
                    Some(p) => Some(old(self).prefix@[p as int]),
                    None => if old(iter).rest().len() > 0 {
                        Some(old(iter).rest()[0])
                    } else if n > 1 {
                        Some(old(self).prefix@[0])
                    } else {
                        None
                    },
                };
                &&& r == src is Some
                &&& final(self).prefix_pos == match old(self).prefix_pos {
                    Some(p) => Some((p + 1) as usize),
                    None => if old(iter).rest().len() > 0 {
                        None
                    } else if n > 1 {
                        Some(1usize)
                    } else {
                        Some(0usize)
                    },
                }
                &&& final(iter).rest() == if old(self).prefix_pos is None && old(iter).rest().len() > 0 {
                    old(iter).rest().drop_first()
                } else {
                    old(iter).rest()
                }
                &&& if src is Some && n > 0 {
                    &&& final(self).ringbuf@ == old(self).ringbuf@.update(old(self).ringpos as int, src->0)
                    &&& final(self).ringpos == (old(self).ringpos + 1) % n
                } else {
                    &&& final(self).ringbuf@ == old(self).ringbuf@
                    &&& final(self).ringpos == old(self).ringpos
                }
            }),
    {
        let n = self.ringbuf.len();
        let item = match self.prefix_pos {
            Some(pos) => {
                let item = self.prefix[pos];
                self.prefix_pos = Some(pos + 1);
                item
            },
            None => match iter.next() {
                Some(item) => item,
                None => {
                    if n > 1 {
                        self.prefix_pos = Some(1);
                        self.prefix[0]
                    } else {
                        self.prefix_pos = Some(0);
                        return false;
                    }
                },
            },
        };
        if n > 0 {
            self.ringbuf.set(self.ringpos, item);
            self.ringpos = if self.ringpos + 1 < n {
                self.ringpos + 1
            } else {
                0
            };
            proof {
                lemma_mod_small(old(self).ringpos + 1, n as int);
            }
        }
        true
    }
}

impl<I: Itertools> CircularArrayWindows<I> where I::Item: Copy {
    /// The next window, as the vector of its items.
    pub fn next(&mut self) -> (r: Option<Vec<I::Item>>)
        requires
            old(self).wf(),
        ensures
            final(self).wf(),
            final(self).window_len() == old(self).window_len(),
            match r {
                None => old(self).rest().len() == 0 && final(self).rest().len() == 0,
                Some(w) => old(self).rest().len() > 0 && w@ == old(self).rest()[0]
                    && final(self).rest() == old(self).rest().drop_first(),
            },
    {
        let ghost s = self.input@;
        let ghost k = s.len() as int;
        let ghost e = self.emitted@ as int;
        let n = self.n;
        match self.inner.take() {
            None => match self.iter.next() {
                None => {
                    proof {
                        assert(old(self).rest().len() == 0);
                        assert(self.iter.rest() =~= s);
                    }
                    None
                },
                Some(first) => {
                    proof {
                        assert(s =~= seq![first] + self.iter.rest());
                    }
                    let inner = Self::make_inner(first, &mut self.iter, n);
                    let w = inner.make_window();
                    self.inner = Some(inner);
                    self.emitted = Ghost(1);
                    proof {
                        assert forall|j: int| 0 <= j < n implies #[trigger] inner.ringbuf@[(inner.ringpos + j) % (n as int)] == s[(0 + j) % k] by {
                            lemma_mod_small(j, n as int);
                        }
                        assert(w@ =~= circular_window(s, n as nat, 0));
                        assert(final(self).rest() =~= old(self).rest().drop_first());
                    }
                    Some(w)
                },
            },
            Some(inner) => {
                let mut inner = inner;
                match inner.prefix_pos {
                    Some(pos) => {
                        if pos + 1 >= n {
                            self.inner = Some(inner);
                            return None;
                        }
                    },
                    None => {},
                }
                let ghost old_inner = inner;
                let ghost c = if n == 0 { e } else { e - 1 + n };
                let ghost rest0 = self.iter.rest();
                if inner.read_item(&mut self.iter) {
                    proof {
                        let item = if n > 0 {
                            inner.ringbuf@[old_inner.ringpos as int]
                        } else {
                            s[0]
                        };
                        if n > 0 {
                            match old_inner.prefix_pos {
                                Some(p) => {
                                    lemma_mod_shift(p as int, k);
                                    assert(old_inner.prefix@[p as int] == s[(p as int) % k]);
                                },
                                None => {
                                    if rest0.len() > 0 {
                                        lemma_mod_small(c, k);
                                        assert(rest0[0] == s[c]);
                                    } else {
                                        assert(c == k);
                                        lemma_mod_small(0, k);
                                        lemma_mod_shift(0, k);
                                        assert(old_inner.prefix@[0] == s[0int % k]);
                                    }
                                },
                            }
                            assert(item == s[c % k]);
                            assert forall|j: int| 0 <= j < n implies #[trigger] inner.ringbuf@[(inner.ringpos + j) % (n as int)] == s[(e + j) % k] by {
                                lemma_mod_small(old_inner.ringpos + 1, n as int);
                                lemma_mod_small(inner.ringpos + j, n as int);
                                lemma_mod_small(old_inner.ringpos + (j + 1), n as int);
                                if j < n - 1 {
                                    assert(old_inner.ringbuf@[(old_inner.ringpos + (j + 1)) % (n as int)] == s[(e - 1 + (j + 1)) % k]);
                                }
                            }
                        }
                    }
                    let w = inner.make_window();
                    self.inner = Some(inner);
                    self.emitted = Ghost((e + 1) as nat);
                    proof {
                        assert(e < k);
                        if self.inner->0.prefix_pos is None {
                            assert(self.iter.rest() =~= s.skip(c + 1));
                        }
                        assert(self.wf());
                        assert(w@ =~= circular_window(s, n as nat, e));
                        assert(final(self).rest() =~= old(self).rest().drop_first());
                    }
                    Some(w)
                } else {
                    self.inner = Some(inner);
                    proof {
                        assert(self.wf());
                    }
                    None
                }
            },
        }
    }
}

/// A copy of a vector of copyable items.
fn copy_items<T: Copy>(v: &Vec<T>) -> (r: Vec<T>)
    ensures
        r@ == v@,
{
    let mut r: Vec<T> = Vec::new();
    let mut k: usize = 0;
    while k < v.len()
        invariant
            k <= v@.len(),
            r@ == v@.take(k as int),
        decreases v@.len() - k,
    {
        r.push(v[k]);
        k = k + 1;
        assert(r@ =~= v@.take(k as int));
    }
    assert(r@ =~= v@);
    r
}

} // verus!
