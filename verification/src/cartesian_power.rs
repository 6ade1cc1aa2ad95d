//! Cartesian powers: all lists of `pow` items drawn from `base` items, in lexicographic order.
use vstd::prelude::*;
use crate::size_hint::SizeHint;
use crate::Itertools;

verus! {

/// `b` raised to the power `e`.
pub open spec fn power(b: nat, e: nat) -> nat
    decreases e,
{
    if e == 0 {
        1
    } else {
        b * power(b, (e - 1) as nat)
    }
}

/// The number written by the digits `ds` in base `b`, most significant digit first.
pub open spec fn digits_value(ds: Seq<usize>, b: nat) -> nat
    decreases ds.len(),
{
    if ds.len() == 0 {
        0
    } else {
        digits_value(ds.drop_last(), b) * b + ds.last() as nat
    }
}

/// Every digit of `ds` is below `b`.
pub open spec fn in_base(ds: Seq<usize>, b: nat) -> bool {
    forall|i: int| 0 <= i < ds.len() ==> ds[i] < b
}

/// `n` zero digits.
pub open spec fn zeros(n: nat) -> Seq<usize> {
    Seq::new(n, |i: int| 0usize)
}

/// The marker left after a full round: the first digit is `base`, the others are zero.
pub open spec fn round_marker(base: nat, pow: nat) -> Seq<usize> {
    Seq::new(pow, |i: int| if i == 0 { base as usize } else { 0usize })
}

pub proof fn lemma_power_pos(b: nat, e: nat)
    requires
        b > 0,
    ensures
        power(b, e) > 0,
    decreases e,
{
    if e > 0 {
        lemma_power_pos(b, (e - 1) as nat);
        assert(b * power(b, (e - 1) as nat) > 0) by (nonlinear_arith)
            requires
                b > 0,
                power(b, (e - 1) as nat) > 0,
        ;
    }
}

pub proof fn lemma_power_mono(b: nat, e1: nat, e2: nat)
    requires
        b > 0,
        e1 <= e2,
    ensures
        power(b, e1) <= power(b, e2),
    decreases e2,
{
    if e1 < e2 {
        lemma_power_mono(b, e1, (e2 - 1) as nat);
        lemma_power_pos(b, (e2 - 1) as nat);
        assert(power(b, (e2 - 1) as nat) <= b * power(b, (e2 - 1) as nat)) by (nonlinear_arith)
            requires
                b > 0,
        ;
    }
}

/// The value of a concatenation of digit strings.
pub proof fn lemma_value_concat(a: Seq<usize>, c: Seq<usize>, b: nat)
    ensures
        digits_value(a + c, b) == digits_value(a, b) * power(b, c.len()) + digits_value(c, b),
    decreases c.len(),
{
    if c.len() == 0 {
        assert(a + c =~= a);
        assert(digits_value(c, b) == 0);
        assert(power(b, 0) == 1);
        assert(digits_value(a, b) * 1 == digits_value(a, b));
    } else {
        let c1 = c.drop_last();
        assert((a + c).drop_last() =~= a + c1);
        assert((a + c).last() == c.last());
        lemma_value_concat(a, c1, b);
        let x = digits_value(a, b);
        let p = power(b, c1.len());
        let y = digits_value(c1, b);
        assert(power(b, c.len()) == b * p);
        assert((x * p + y) * b + c.last() == x * (b * p) + (y * b + c.last())) by (nonlinear_arith);
    }
}

/// A single digit is worth itself.
pub proof fn lemma_value_single(d: usize, b: nat)
    ensures
        digits_value(seq![d], b) == d,
{
    let s = seq![d];
    assert(s.drop_last() =~= Seq::<usize>::empty());
    assert(digits_value(Seq::<usize>::empty(), b) == 0);
    assert(s.last() == d);
    assert(digits_value(s, b) == digits_value(s.drop_last(), b) * b + d);
    assert(0 * b == 0);
}

/// Digits below `b` make a number below `b` to the power of their count.
pub proof fn lemma_value_bound(ds: Seq<usize>, b: nat)
    requires
        in_base(ds, b),
    ensures
        digits_value(ds, b) < power(b, ds.len()),
    decreases ds.len(),
{
    if ds.len() > 0 {
        let d = ds.drop_last();
        lemma_value_bound(d, b);
        let x = digits_value(d, b);
        let p = power(b, d.len());
        assert(x * b + ds.last() < b * p) by (nonlinear_arith)
            requires
                x < p,
                ds.last() < b,
        ;
    }
}

/// Zero digits have the value zero.
pub proof fn lemma_value_zeros(n: nat, b: nat)
    ensures
        digits_value(zeros(n), b) == 0,
    decreases n,
{
    if n > 0 {
        assert(zeros(n).drop_last() =~= zeros((n - 1) as nat));
        lemma_value_zeros((n - 1) as nat, b);
        assert(zeros(n).last() == 0);
        assert(0 * b == 0);
    }
}

/// Digits that are all `b - 1` make `b` to the power of their count, minus one.
pub proof fn lemma_value_all_max(ds: Seq<usize>, b: nat)
    requires
        b > 0,
        forall|i: int| 0 <= i < ds.len() ==> ds[i] == b - 1,
    ensures
        digits_value(ds, b) + 1 == power(b, ds.len()),
    decreases ds.len(),
{
    if ds.len() > 0 {
        lemma_value_all_max(ds.drop_last(), b);
        let x = digits_value(ds.drop_last(), b);
        let p = power(b, (ds.len() - 1) as nat);
        assert(x * b + (b - 1) + 1 == b * (x + 1)) by (nonlinear_arith);
    }
}

/// Compute `b` to the power `e`, or `None` when it does not fit in `usize`.
pub fn checked_pow(b: usize, e: u32) -> (r: Option<usize>)
    ensures
        r == if power(b as nat, e as nat) <= usize::MAX {
            Some(power(b as nat, e as nat) as usize)
        } else {
            None::<usize>
        },
{
    let mut acc: usize = 1;
    let mut i: u32 = 0;
    while i < e
        invariant
            i <= e,
            acc as nat == power(b as nat, i as nat),
        decreases e - i,
    {
        match acc.checked_mul(b) {
            Some(p) => {
                proof {
                    assert(p == b * acc) by (nonlinear_arith)
                        requires
                            p == acc * b,
                    ;
                }
                acc = p;
                i = i + 1;
            },
            None => {
                proof {
                    assert(power(b as nat, (i + 1) as nat) == b * power(b as nat, i as nat));
                    if b > 0 {
                        lemma_power_mono(b as nat, (i + 1) as nat, e as nat);
                    }
                }
                return None;
            },
        }
    }
    Some(acc)
}

/// Add one to the digits `indices` in base `base`. Return `false` when the count wraps
/// around: then every digit is zero.
pub fn inbounds_increment(indices: &mut Vec<usize>, base: usize) -> (r: bool)
    requires
        in_base(old(indices)@, base as nat),
    ensures
        final(indices)@.len() == old(indices)@.len(),
        r ==> in_base(final(indices)@, base as nat) && digits_value(final(indices)@, base as nat)
            == digits_value(old(indices)@, base as nat) + 1,
        !r ==> final(indices)@ == zeros(old(indices)@.len()) && digits_value(
            old(indices)@,
            base as nat,
        ) + 1 == power(base as nat, old(indices)@.len()),
{
    let ghost o = indices@;
    let ghost b = base as nat;
    let n = indices.len();
    let mut p = n;
    while p > 0
        invariant
            p <= n,
            o == old(indices)@,
            n == o.len(),
            b == base as nat,
            indices@.len() == n,
            in_base(o, b),
            forall|j: int| 0 <= j < p ==> indices@[j] == o[j],
            forall|j: int| p <= j < n ==> o[j] == b - 1,
            forall|j: int| p <= j < n ==> indices@[j] == 0,
        decreases p,
    {
        assert(indices@[p - 1] == o[p - 1]);
        assert(o[p - 1] < b);
        let d = indices[p - 1] + 1;
        if d < base {
            indices.set(p - 1, d);
            proof {
                let pre = o.subrange(0, p - 1);
                let suf = o.subrange(p as int, n as int);
                let z = zeros((n - p) as nat);
                assert(o =~= pre.push(o[p - 1]) + suf);
                assert forall|j: int| 0 <= j < n implies indices@[j] == (pre.push(d) + z)[j] by {
                    if j < p - 1 {
                        assert(indices@[j] == o[j]);
                    } else if j == p - 1 {
                        assert(pre.push(d)[j] == d);
                    } else {
                        assert(indices@[j] == 0);
                        assert(z[j - p] == 0);
                    }
                }
                assert(indices@ =~= pre.push(d) + z);
                lemma_value_concat(pre.push(o[p - 1]), suf, b);
                lemma_value_concat(pre.push(d), z, b);
                assert(pre.push(o[p - 1]).drop_last() =~= pre);
                assert(pre.push(d).drop_last() =~= pre);
                lemma_value_all_max(suf, b);
                lemma_value_zeros((n - p) as nat, b);
                let x = digits_value(pre, b);
                let q = power(b, (n - p) as nat);
                assert((x * b + o[p - 1]) * q + (q - 1) + 1 == (x * b + d) * q) by (nonlinear_arith)
                    requires
                        d == o[p - 1] + 1,
                ;
            }
            return true;
        }
        indices.set(p - 1, 0);
        p = p - 1;
    }
    proof {
        assert forall|j: int| 0 <= j < n implies indices@[j] == zeros(n as nat)[j] by {
            assert(indices@[j] == 0);
        }
        assert(indices@ =~= zeros(n as nat));
        if n > 0 {
            assert(o[0] < b);
            lemma_value_all_max(o, b);
        } else {
            assert(o.len() == 0);
        }
    }
    false
}

/// Add `n` to the digits `indices` in base `base`. Return `false` when the sum does not fit:
/// then every digit is zero.
pub fn inbounds_increment_by(n: usize, indices: &mut Vec<usize>, base: usize) -> (r: bool)
    requires
        base > 0,
        old(indices)@.len() > 0,
        in_base(old(indices)@, base as nat),
        old(indices)@.last() + n <= usize::MAX,
    ensures
        final(indices)@.len() == old(indices)@.len(),
        r ==> in_base(final(indices)@, base as nat) && digits_value(final(indices)@, base as nat)
            == digits_value(old(indices)@, base as nat) + n,
        !r ==> final(indices)@ == zeros(old(indices)@.len()) && digits_value(
            old(indices)@,
            base as nat,
        ) + n >= power(base as nat, old(indices)@.len()),
{
    let ghost o = indices@;
    let ghost b = base as nat;
    let len = indices.len();
    let mut q = n;
    let mut p = len;
    proof {
        assert(o.subrange(0, len as int) =~= o);
        assert(o.subrange(len as int, len as int) =~= Seq::<usize>::empty());
        assert(indices@.subrange(len as int, len as int) =~= Seq::<usize>::empty());
        assert(digits_value(Seq::<usize>::empty(), b) == 0);
        assert(power(b, 0) == 1);
        assert((digits_value(o, b) + n) * 1 == digits_value(o, b) + n);
    }
    while p > 0
        invariant
            p <= len,
            o == old(indices)@,
            len == o.len(),
            len > 0,
            b == base,
            b > 0,
            indices@.len() == len,
            in_base(o, b),
            forall|j: int| 0 <= j < p ==> indices@[j] == o[j],
            in_base(indices@.subrange(p as int, len as int), b),
            digits_value(o, b) + n == (digits_value(o.subrange(0, p as int), b) + q) * power(
                b,
                (len - p) as nat,
            ) + digits_value(indices@.subrange(p as int, len as int), b),
            p == len ==> q == n,
            p < len ==> q > 0,
            p > 0 ==> o[p - 1] + q <= usize::MAX,
        decreases p,
    {
        assert(indices@[p - 1] == o[p - 1]);
        let s = indices[p - 1] + q;
        let q2 = s / base;
        let d = s % base;
        let ghost before = indices@;
        indices.set(p - 1, d);
        proof {
            let pre = o.subrange(0, p - 1);
            let old_suf = old(indices)@;
            assert(o.subrange(0, p as int) =~= pre.push(o[p - 1]));
            assert(pre.push(o[p - 1]).drop_last() =~= pre);
            let suf = indices@.subrange(p as int, len as int);
            assert(suf =~= before.subrange(p as int, len as int));
            let nsuf = indices@.subrange(p - 1, len as int);
            assert(nsuf =~= seq![d] + suf);
            lemma_value_concat(seq![d], suf, b);
            assert(seq![d].drop_last() =~= Seq::<usize>::empty());
            assert(digits_value(Seq::<usize>::empty(), b) == 0);
            lemma_value_single(d, b);
            let x = digits_value(pre, b);
            let k = (len - p) as nat;
            let pk = power(b, k);
            assert(power(b, (k + 1) as nat) == b * pk);
            assert(d < base);
            assert(s == q2 * base + d) by (nonlinear_arith)
                requires
                    q2 == s / base,
                    d == s % base,
                    base > 0,
            ;
            assert((x * b + o[p - 1] + q) * pk == (x + q2) * (b * pk) + d * pk) by (nonlinear_arith)
                requires
                    o[p - 1] + q == q2 * b + d,
            ;
            assert forall|i: int| 0 <= i < nsuf.len() implies nsuf[i] < b by {
                if i > 0 {
                    assert(nsuf[i] == suf[i - 1]);
                }
            }
            if p > 1 {
                // the next step cannot overflow
                assert(q2 * base <= s) by (nonlinear_arith)
                    requires
                        q2 == s / base,
                        base > 0,
                        s >= 0,
                ;
                if base == 1 {
                    assert(o[p - 2] == 0);
                    assert(q2 == s);
                    assert(o[p - 1] == 0);
                } else {
                    assert(q2 + base - 1 <= usize::MAX) by (nonlinear_arith)
                        requires
                            q2 * base <= s,
                            s <= usize::MAX,
                            base >= 2,
                            base <= usize::MAX,
                    ;
                }
            }
        }
        if q2 == 0 {
            proof {
                let pre = o.subrange(0, p - 1);
                let nsuf = indices@.subrange(p - 1, len as int);
                assert(indices@ =~= pre + nsuf);
                lemma_value_concat(pre, nsuf, b);
                assert forall|j: int| 0 <= j < len implies indices@[j] < b by {
                    if j >= p - 1 {
                        assert(nsuf[j - (p - 1)] == indices@[j]);
                    }
                }
            }
            return true;
        }
        q = q2;
        p = p - 1;
    }
    proof {
        assert(o.subrange(0, 0) =~= Seq::<usize>::empty());
        assert(indices@.subrange(0, len as int) =~= indices@);
        assert(q > 0);
        assert(q * power(b, len as nat) >= power(b, len as nat)) by (nonlinear_arith)
            requires
                q >= 1,
        ;
    }
    let mut i: usize = 0;
    while i < len
        invariant
            i <= len,
            o == old(indices)@,
            len == o.len(),
            digits_value(o, b) + n >= power(b, len as nat),
            indices@.len() == len,
            forall|j: int| 0 <= j < i ==> indices@[j] == 0,
        decreases len - i,
    {
        indices.set(i, 0);
        i = i + 1;
    }
    assert(indices@ =~= zeros(len as nat));
    false
}

} // verus!

verus! {

/// The digits `b - 1 - d` of the digits `d` of `ds`.
pub open spec fn complement(ds: Seq<usize>, b: nat) -> Seq<usize> {
    Seq::new(ds.len(), |i: int| (b - 1 - ds[i]) as usize)
}

/// A number and its complement add up to the largest number of that many digits.
pub proof fn lemma_value_complement(ds: Seq<usize>, b: nat)
    requires
        in_base(ds, b),
        b <= usize::MAX,
    ensures
        digits_value(complement(ds, b), b) + digits_value(ds, b) + 1 == power(b, ds.len()),
    decreases ds.len(),
{
    if ds.len() > 0 {
        let c = complement(ds, b);
        assert(c.drop_last() =~= complement(ds.drop_last(), b));
        lemma_value_complement(ds.drop_last(), b);
        let x = digits_value(c.drop_last(), b);
        let y = digits_value(ds.drop_last(), b);
        assert(c.last() == b - 1 - ds.last());
        assert(x * b + (b - 1 - ds.last()) + (y * b + ds.last()) + 1 == b * (x + y + 1))
            by (nonlinear_arith)
            requires
                ds.last() < b,
        ;
    }
}

/// The number of items that the iterator of `(base, pow, values)` yields before its next `None`.
pub open spec fn indices_remaining(base: nat, pow: nat, values: Option<Seq<usize>>) -> nat {
    if pow == 0 {
        if values is None { 1 } else { 0 }
    } else if base == 0 {
        0
    } else {
        match values {
            None => power(base, pow),
            Some(vs) => if vs[0] == base {
                power(base, pow)
            } else {
                (power(base, pow) - 1 - digits_value(vs, base)) as nat
            },
        }
    }
}

/// The size hint of the round of `(base, pow, values)`, as `size_hint_with_base` gives it:
/// exact where the count can be computed in `usize`, else no upper bound and a saturated lower
/// bound.
pub open spec fn indices_hint(base: nat, pow: nat, values: Option<Seq<usize>>) -> (usize, Option<usize>) {
    let rem = indices_remaining(base, pow, values);
    let fits = if pow == 0 || base == 0 {
        true
    } else if values matches Some(vs) && vs[0] != base {
        rem <= usize::MAX && power(base, (pow - 1) as nat) <= usize::MAX
    } else {
        power(base, pow) <= usize::MAX
    };
    if fits {
        (rem as usize, Some(rem as usize))
    } else {
        (usize::MAX, None)
    }
}

/// When a whole round fits in `usize`, the size hint of any state of the round is exact: both
/// bounds are the number of lists still to come before the next `None`.
pub proof fn lemma_hint_exact_when_round_fits(base: nat, pow: nat, values: Option<Seq<usize>>)
    requires
        base <= usize::MAX,
        power(base, pow) <= usize::MAX,
        values matches Some(vs) ==> vs.len() == pow && (in_base(vs, base) || vs == round_marker(base, pow)),
    ensures
        indices_hint(base, pow, values) == (
            indices_remaining(base, pow, values) as usize,
            Some(indices_remaining(base, pow, values) as usize),
        ),
        indices_remaining(base, pow, values) <= usize::MAX,
{
    if pow > 0 && base > 0 {
        lemma_power_mono(base, (pow - 1) as nat, pow);
        if values is Some {
            let vs = values->0;
            if vs[0] != base {
                assert(in_base(vs, base)) by {
                    if vs == round_marker(base, pow) {
                        assert(vs[0] == base);
                    }
                }
                lemma_value_bound(vs, base);
            }
        }
    } else if pow == 0 {
    } else {
        if values is Some {
            let vs = values->0;
            assert(vs.len() > 0);
            if in_base(vs, base) {
                assert(vs[0] < base);
            }
        }
    }
}

/// All lists of `pow` indices below `base`, in lexicographic order.
///
/// The iterator hands out references to the indices it holds. It is cycling: after it has
/// yielded `None`, it starts over from the first list.
pub struct Indices {
    base: usize,
    pow: u32,
    values: Option<Vec<usize>>,
}

/// A vector of `n` zeros.
fn zero_vec(n: usize) -> (v: Vec<usize>)
    ensures
        v@ == zeros(n as nat),
{
    let mut v: Vec<usize> = Vec::new();
    while v.len() < n
        invariant
            v.len() <= n,
            forall|j: int| 0 <= j < v.len() ==> v@[j] == 0,
        decreases n - v.len(),
    {
        v.push(0);
    }
    assert(v@ =~= zeros(n as nat));
    v
}

impl Indices {
    pub closed spec fn base_v(&self) -> nat {
        self.base as nat
    }

    pub closed spec fn pow_v(&self) -> nat {
        self.pow as nat
    }

    /// The indices yielded last, if any.
    pub closed spec fn values_v(&self) -> Option<Seq<usize>> {
        match self.values {
            Some(v) => Some(v@),
            None => None,
        }
    }

    pub open spec fn wf(&self) -> bool {
        self.values_v() matches Some(vs) ==> vs.len() == self.pow_v() && (in_base(
            vs,
            self.base_v(),
        ) || vs == round_marker(self.base_v(), self.pow_v()))
    }

    /// The number of lists yielded before the next `None`.
    pub open spec fn remaining(&self) -> nat {
        indices_remaining(self.base_v(), self.pow_v(), self.values_v())
    }

    /// Create a new `base^pow` lending iterator.
    pub fn new(base: usize, pow: u32) -> (r: Self)
        ensures
            r.wf(),
            r.base_v() == base,
            r.pow_v() == pow,
            r.values_v() is None,
    {
        Indices { base, pow, values: None }
    }

    fn values_slice(&self) -> (r: Option<&[usize]>)
        ensures
            r matches Some(s) ==> self.values_v() == Some(s@),
            r is None <==> self.values_v() is None,
    {
        match &self.values {
            Some(v) => Some(v.as_slice()),
            None => None,
        }
    }

    /// Step the iterator, yielding a reference to the updated indices, or `None` when the
    /// round is over.
    pub fn next(&mut self) -> (r: Option<&[usize]>)
        requires
            old(self).wf(),
        ensures
            final(self).wf(),
            final(self).base_v() == old(self).base_v(),
            final(self).pow_v() == old(self).pow_v(),
            r matches Some(s) ==> final(self).values_v() == Some(s@),
            old(self).pow_v() == 0 ==> if old(self).values_v() is None {
                r matches Some(s) && s@.len() == 0
            } else {
                r is None && final(self).values_v() is None
            },
            old(self).pow_v() > 0 && old(self).base_v() == 0 ==> r is None && final(self).values_v()
                == old(self).values_v(),
            old(self).pow_v() > 0 && old(self).base_v() > 0 ==> match old(self).values_v() {
                None => r matches Some(s) && s@ == zeros(old(self).pow_v()),
                Some(vs) => if vs[0] == old(self).base_v() {
                    r matches Some(s) && s@ == zeros(old(self).pow_v())
                } else if digits_value(vs, old(self).base_v()) + 1 < power(
                    old(self).base_v(),
                    old(self).pow_v(),
                ) {
                    r matches Some(s) && s@.len() == old(self).pow_v() && in_base(
                        s@,
                        old(self).base_v(),
                    ) && digits_value(s@, old(self).base_v()) == digits_value(
                        vs,
                        old(self).base_v(),
                    ) + 1
                } else {
                    r is None && final(self).values_v() == Some(
                        round_marker(old(self).base_v(), old(self).pow_v()),
                    )
                },
            },
            r is Some ==> final(self).remaining() + 1 == old(self).remaining(),
            r is None ==> old(self).remaining() == 0,
    {
        proof {
            lemma_value_zeros(self.pow as nat, self.base as nat);
            if self.values_v() is Some {
                let vs = self.values_v()->0;
                if vs[0] != self.base && self.base > 0 && self.pow > 0 {
                    assert(in_base(vs, self.base as nat)) by {
                        if vs == round_marker(self.base as nat, self.pow as nat) {
                            assert(vs[0] == self.base);
                        }
                    }
                    lemma_value_bound(vs, self.base as nat);
                }
            }
            if self.pow > 0 && self.base > 0 {
                lemma_power_pos(self.base as nat, self.pow as nat);
            }
        }
        let base = self.base;
        if self.pow == 0 {
            if self.values.is_none() {
                self.values = Some(Vec::new());
            } else {
                self.values = None;
                return None;
            }
        } else if base == 0 {
            return None;
        } else {
            match self.values.take() {
                None => {
                    self.values = Some(zero_vec(self.pow as usize));
                },
                Some(mut vs) => {
                    if vs[0] == base {
                        vs.set(0, 0);
                        proof {
                            assert(vs@ =~= zeros(self.pow as nat));
                        }
                        self.values = Some(vs);
                    } else {
                        proof {
                            assert(in_base(vs@, base as nat)) by {
                                if vs@ == round_marker(base as nat, self.pow as nat) {
                                    assert(vs@[0] == base);
                                }
                            }
                        }
                        if inbounds_increment(&mut vs, base) {
                            proof {
                                lemma_value_bound(vs@, base as nat);
                            }
                            self.values = Some(vs);
                        } else {
                            vs.set(0, base);
                            proof {
                                assert(vs@ =~= round_marker(base as nat, self.pow as nat));
                            }
                            self.values = Some(vs);
                            return None;
                        }
                    }
                },
            }
        }
        self.values_slice()
    }
}


impl Indices {
    /// The position, counted from the first list, that `nth(n)` moves to in the current round.
    pub open spec fn nth_target(&self, n: nat) -> nat {
        match self.values_v() {
            None => n,
            Some(vs) => if vs[0] == self.base_v() {
                n
            } else {
                digits_value(vs, self.base_v()) + n + 1
            },
        }
    }

    /// Same as `next`, but skip `n` steps; return `None` when this would run past the end of
    /// the round. It saturates: the round resumes only on a further call.
    pub fn nth(&mut self, n: usize) -> (r: Option<&[usize]>)
        requires
            old(self).wf(),
            old(self).values_v() matches Some(vs) ==> (old(self).pow_v() > 0 && old(self).base_v()
                > 0 && vs[0] != old(self).base_v() ==> vs.last() + n + 1 <= usize::MAX),
        ensures
            final(self).wf(),
            final(self).base_v() == old(self).base_v(),
            final(self).pow_v() == old(self).pow_v(),
            r matches Some(s) ==> final(self).values_v() == Some(s@),
            old(self).pow_v() == 0 ==> if old(self).values_v() is None && n == 0 {
                r matches Some(s) && s@.len() == 0
            } else {
                r is None && final(self).values_v() is None
            },
            old(self).pow_v() > 0 && old(self).base_v() == 0 ==> r is None && final(self).values_v()
                == old(self).values_v(),
            old(self).pow_v() > 0 && old(self).base_v() > 0 ==> if old(self).nth_target(n as nat)
                < power(old(self).base_v(), old(self).pow_v()) {
                r matches Some(s) && s@.len() == old(self).pow_v() && in_base(
                    s@,
                    old(self).base_v(),
                ) && digits_value(s@, old(self).base_v()) == old(self).nth_target(n as nat)
            } else {
                r is None && final(self).values_v() == Some(
                    round_marker(old(self).base_v(), old(self).pow_v()),
                )
            },
    {
        let base = self.base;
        let pow = self.pow;
        if pow == 0 {
            if self.values.is_none() && n == 0 {
                self.values = Some(Vec::new());
                return self.values_slice();
            }
            self.values = None;
            return None;
        }
        if base == 0 {
            return None;
        }
        let (mut vs, step) = match self.values.take() {
            None => {
                let z = zero_vec(pow as usize);
                proof {
                    lemma_value_zeros(pow as nat, base as nat);
                }
                (z, n)
            },
            Some(mut vs) => {
                if vs[0] == base {
                    vs.set(0, 0);
                    proof {
                        assert(vs@ =~= zeros(pow as nat));
                        lemma_value_zeros(pow as nat, base as nat);
                    }
                    (vs, n)
                } else {
                    proof {
                        assert(in_base(vs@, base as nat)) by {
                            if vs@ == round_marker(base as nat, pow as nat) {
                                assert(vs@[0] == base);
                            }
                        }
                    }
                    (vs, n + 1)
                }
            },
        };
        proof {
            assert(in_base(vs@, base as nat));
            assert(digits_value(vs@, base as nat) + step == old(self).nth_target(n as nat));
        }
        if inbounds_increment_by(step, &mut vs, base) {
            proof {
                lemma_value_bound(vs@, base as nat);
            }
            self.values = Some(vs);
            self.values_slice()
        } else {
            vs.set(0, base);
            proof {
                assert(vs@ =~= round_marker(base as nat, pow as nat));
            }
            self.values = Some(vs);
            None
        }
    }

    /// Bounds on the number of lists left in the current round.
    pub fn size_hint(&self) -> (r: SizeHint)
        requires
            self.wf(),
        ensures
            r.1 matches Some(x) ==> r.0 == x && x == self.remaining(),
            r.1 is None ==> r.0 == usize::MAX,
            r == indices_hint(self.base_v(), self.pow_v(), self.values_v()),
            power(self.base_v(), self.pow_v()) <= usize::MAX ==> r == (
                self.remaining() as usize,
                Some(self.remaining() as usize),
            ),
    {
        proof {
            if power(self.base_v(), self.pow_v()) <= usize::MAX {
                lemma_hint_exact_when_round_fits(self.base_v(), self.pow_v(), self.values_v());
            }
        }
        self.size_hint_with_base(self.base)
    }

    /// The size hint of the round, reading the indices in base `base`.
    pub fn size_hint_with_base(&self, base: usize) -> (r: SizeHint)
        requires
            self.wf(),
            base >= self.base_v(),
        ensures
            r.1 matches Some(x) ==> r.0 == x && x == indices_remaining(
                base as nat,
                self.pow_v(),
                self.values_v(),
            ),
            r.1 is None ==> r.0 == usize::MAX,
            self.pow_v() == 0 || base == 0 ==> r.1 is Some,
            self.pow_v() > 0 && base > 0 && (self.values_v() matches Some(vs) ==> vs[0] == base)
                ==> (r.1 is Some <==> power(base as nat, self.pow_v()) <= usize::MAX),
            self.pow_v() > 0 && base > 0 && (self.values_v() matches Some(vs) && vs[0] != base)
                ==> (r.1 is Some <==> (indices_remaining(base as nat, self.pow_v(), self.values_v())
                <= usize::MAX && power(base as nat, (self.pow_v() - 1) as nat) <= usize::MAX)),
            r == indices_hint(base as nat, self.pow_v(), self.values_v()),
    {
        let pow = self.pow;
        if pow == 0 {
            if self.values.is_none() {
                return (1, Some(1));
            } else {
                return (0, Some(0));
            }
        }
        if base == 0 {
            return (0, Some(0));
        }
        match &self.values {
            None => {
                match checked_pow(base, pow) {
                    Some(x) => (x, Some(x)),
                    None => (usize::MAX, None),
                }
            },
            Some(vs) => {
                if vs[0] == base {
                    match checked_pow(base, pow) {
                        Some(x) => (x, Some(x)),
                        None => (usize::MAX, None),
                    }
                } else {
                    proof {
                        let b = base as nat;
                        assert forall|i: int| 0 <= i < vs@.len() implies vs@[i] < b by {
                            if vs@ == round_marker(self.base_v(), self.pow_v()) {
                                if i == 0 {
                                    assert(vs@[0] == self.base_v());
                                }
                            } else {
                                assert(vs@[i] < self.base_v());
                            }
                        }
                    }
                    count_from_digits(vs, base)
                }
            },
        }
    }
}

/// The value of the digits from position `k - 1` on, split at position `k`.
proof fn lemma_suffix_step(comp: Seq<usize>, k: int, b: nat)
    requires
        0 < k <= comp.len(),
    ensures
        digits_value(comp.subrange(k - 1, comp.len() as int), b) == comp[k - 1] * power(
            b,
            (comp.len() - k) as nat,
        ) + digits_value(comp.subrange(k, comp.len() as int), b),
        digits_value(comp, b) >= digits_value(comp.subrange(k - 1, comp.len() as int), b),
{
    let len = comp.len() as int;
    let tail = comp.subrange(k, len);
    let mid = seq![comp[k - 1]] + tail;
    assert(comp.subrange(k - 1, len) =~= mid);
    lemma_value_concat(seq![comp[k - 1]], tail, b);
    lemma_value_single(comp[k - 1], b);
    assert(comp =~= comp.subrange(0, k - 1) + mid);
    lemma_value_concat(comp.subrange(0, k - 1), mid, b);
    let x = digits_value(comp.subrange(0, k - 1), b);
    let q = power(b, mid.len());
    assert(x * q >= 0) by (nonlinear_arith)
        requires
            x >= 0,
            q >= 0,
    ;
}

/// The number of lists that come after the digits `vs` in base `base`: the value of their
/// complement, computed with checked arithmetic.
fn count_from_digits(vs: &Vec<usize>, base: usize) -> (r: SizeHint)
    requires
        vs@.len() > 0,
        vs@.len() <= u32::MAX,
        base > 0,
        in_base(vs@, base as nat),
    ensures
        ({
            let b = base as nat;
            let rem = power(b, vs@.len()) - 1 - digits_value(vs@, b);
            &&& r.1 matches Some(x) ==> r.0 == x && x == rem
            &&& r.1 is None ==> r.0 == usize::MAX
            &&& r.1 is Some <==> (rem <= usize::MAX && power(b, (vs@.len() - 1) as nat)
                <= usize::MAX)
        }),
{
    let ghost b = base as nat;
    let ghost comp = complement(vs@, b);
    let len = vs.len();
    proof {
        lemma_value_complement(vs@, b);
        assert(comp.subrange(len as int, len as int) =~= Seq::<usize>::empty());
    }
    let mut r: usize = 0;
    let mut rank: usize = 0;
    while rank < len
        invariant
            len == vs@.len(),
            len > 0,
            b == base as nat,
            b > 0,
            in_base(vs@, b),
            comp == complement(vs@, b),
            rank <= len,
            len <= u32::MAX,
            rank > 0 ==> power(b, (rank - 1) as nat) <= usize::MAX,
            r == digits_value(comp.subrange(len - rank, len as int), b),
            digits_value(comp, b) + digits_value(vs@, b) + 1 == power(b, len as nat),
        decreases len - rank,
    {
        let i = vs[len - 1 - rank];
        let complement = base - 1 - i;
        let ghost k = len - rank;
        proof {
            lemma_suffix_step(comp, k, b);
            assert(comp[k - 1] == complement);
            lemma_power_mono(b, rank as nat, (len - 1) as nat);
            lemma_power_pos(b, rank as nat);
        }
        let p = match checked_pow(base, rank as u32) {
            Some(p) => p,
            None => {
                return (usize::MAX, None);
            },
        };
        let increment = match complement.checked_mul(p) {
            Some(x) => x,
            None => {
                return (usize::MAX, None);
            },
        };
        r = match r.checked_add(increment) {
            Some(x) => x,
            None => {
                return (usize::MAX, None);
            },
        };
        rank = rank + 1;
    }
    proof {
        assert(comp.subrange(0, len as int) =~= comp);
        lemma_power_mono(b, (len - 1) as nat, (len - 1) as nat);
    }
    (r, Some(r))
}


/// The `pow` digits of `c` in base `b`, most significant first.
pub open spec fn digits_of(c: nat, b: nat, pow: nat) -> Seq<usize>
    decreases pow,
{
    if pow == 0 {
        Seq::empty()
    } else {
        digits_of(c / b, b, (pow - 1) as nat).push((c % b) as usize)
    }
}

/// The list at position `c` among all lists of `pow` items of `items`, in lexicographic
/// order of positions.
pub open spec fn power_list<T>(items: Seq<T>, pow: nat, c: nat) -> Seq<T> {
    digits_of(c, items.len(), pow).map_values(|j: usize| items[j as int])
}

/// Digits below the base are the digits of their value.
pub proof fn lemma_digits_unique(s: Seq<usize>, b: nat)
    requires
        b > 0,
        in_base(s, b),
    ensures
        s == digits_of(digits_value(s, b), b, s.len()),
    decreases s.len(),
{
    if s.len() > 0 {
        let d = s.drop_last();
        lemma_digits_unique(d, b);
        let v = digits_value(s, b);
        vstd::arithmetic::div_mod::lemma_fundamental_div_mod_converse(
            v as int,
            b as int,
            digits_value(d, b) as int,
            s.last() as int,
        );
        assert(s =~= d.push(s.last()));
    }
}

/// A number below the base is written with leading zeros and itself.
pub proof fn lemma_low_digits(k: nat, b: nat, pow: nat)
    requires
        pow > 0,
        k < b,
        k <= usize::MAX,
    ensures
        digits_of(k, b, pow) == zeros((pow - 1) as nat).push(k as usize),
        digits_value(zeros((pow - 1) as nat).push(k as usize), b) == k,
{
    let s = zeros((pow - 1) as nat).push(k as usize);
    assert(s.drop_last() =~= zeros((pow - 1) as nat));
    lemma_value_zeros((pow - 1) as nat, b);
    assert(0 * b == 0);
    assert(in_base(s, b));
    lemma_digits_unique(s, b);
}

/// Powers grow with the base.
pub proof fn lemma_power_base_mono(b1: nat, b2: nat, e: nat)
    requires
        b1 <= b2,
    ensures
        power(b1, e) <= power(b2, e),
    decreases e,
{
    if e > 0 {
        lemma_power_base_mono(b1, b2, (e - 1) as nat);
        let p1 = power(b1, (e - 1) as nat);
        let p2 = power(b2, (e - 1) as nat);
        assert(b1 * p1 <= b2 * p2) by (nonlinear_arith)
            requires
                b1 <= b2,
                p1 <= p2,
        ;
    }
}

/// The items at the positions `idx`.
fn pick_items<T: Copy>(items: &Vec<T>, idx: &[usize]) -> (r: Vec<T>)
    requires
        forall|i: int| 0 <= i < idx@.len() ==> idx@[i] < items@.len(),
    ensures
        r@ == idx@.map_values(|j: usize| items@[j as int]),
{
    let mut r: Vec<T> = Vec::new();
    let mut i: usize = 0;
    while i < idx.len()
        invariant
            i <= idx@.len(),
            forall|k: int| 0 <= k < idx@.len() ==> idx@[k] < items@.len(),
            r@ == idx@.take(i as int).map_values(|j: usize| items@[j as int]),
        decreases idx@.len() - i,
    {
        r.push(items[idx[i]]);
        i = i + 1;
        proof {
            assert(idx@.take(i as int).drop_last() =~= idx@.take(i - 1));
            assert(r@ =~= idx@.take(i as int).map_values(|j: usize| items@[j as int]));
        }
    }
    assert(idx@.take(i as int) =~= idx@);
    r
}

/// All lists of `pow` items of the base iterator, in lexicographic order; the items are
/// collected as they are first needed. The iterator is cycling: after it has yielded
/// `None`, it starts over.
pub struct CartesianPower<I: Itertools> {
    iter: Option<I>,
    items: Vec<I::Item>,
    indices: Indices,
}

/// Create a new `CartesianPower` over the lists of `pow` items of `iter`.
pub fn cartesian_power<I: Itertools>(iter: I, pow: u32) -> (r: CartesianPower<I>) where I::Item: Copy
    requires
        iter.wf(),
        iter.rest().len() < usize::MAX,
    ensures
        r.wf(),
        r.full() == iter.rest(),
        r.pow_v() == pow,
        r.yielded() == 0,
{
    let r = CartesianPower { iter: Some(iter), items: Vec::new(), indices: Indices::new(0, pow) };
    assert(r.full() =~= iter.rest());
    r
}

impl<I: Itertools> CartesianPower<I> where I::Item: Copy {
    /// All items of the base iterator.
    pub closed spec fn full(&self) -> Seq<I::Item> {
        self.items@ + match self.iter {
            Some(it) => it.rest(),
            None => Seq::empty(),
        }
    }

    pub closed spec fn pow_v(&self) -> nat {
        self.indices.pow_v()
    }

    /// The number of lists yielded in the current round.
    pub closed spec fn yielded(&self) -> nat {
        match self.indices.values_v() {
            None => 0,
            Some(vs) => if self.indices.pow_v() == 0 {
                1
            } else if vs[0] == self.indices.base_v() {
                0
            } else {
                digits_value(vs, self.indices.base_v()) + 1
            },
        }
    }

    pub closed spec fn wf(&self) -> bool {
        &&& self.indices.wf()
        &&& self.items@.len() == self.indices.base_v()
        &&& self.full().len() < usize::MAX
        &&& self.iter matches Some(it) ==> {
            &&& it.wf()
            &&& self.indices.pow_v() > 0 ==> match self.indices.values_v() {
                None => self.indices.base_v() == 0,
                Some(vs) => self.indices.base_v() > 0 && vs == zeros((self.indices.pow_v() - 1) as nat).push(
                    (self.indices.base_v() - 1) as usize,
                ),
            }
        }
    }

    /// Pull one more item from the base iterator, if it still has one.
    fn pull(&mut self) -> (pulled: bool)
        requires
            old(self).indices.wf(),
            old(self).items@.len() == old(self).indices.base_v(),
            old(self).full().len() < usize::MAX,
            old(self).iter matches Some(it) && it.wf(),
        ensures
            final(self).full() == old(self).full(),
            final(self).indices.pow_v() == old(self).indices.pow_v(),
            final(self).indices.values_v() == old(self).indices.values_v(),
            final(self).indices.wf(),
            final(self).items@.len() == final(self).indices.base_v(),
            final(self).full().len() < usize::MAX,
            final(self).iter matches Some(it) ==> it.wf(),
            pulled ==> final(self).iter is Some && final(self).indices.base_v() == old(
                self,
            ).indices.base_v() + 1,
            !pulled ==> final(self).iter is None && final(self).indices.base_v() == old(
                self,
            ).indices.base_v() && final(self).items@ == final(self).full(),
    {
        let ghost f = self.full();
        let mut it = self.iter.take().unwrap();
        match it.next() {
            Some(x) => {
                self.indices.base = self.indices.base + 1;
                self.items.push(x);
                self.iter = Some(it);
                proof {
                    assert(self.full() =~= f);
                }
                true
            },
            None => {
                proof {
                    assert(self.full() =~= f);
                }
                false
            },
        }
    }
}


impl<I: Itertools> CartesianPower<I> where I::Item: Copy {
    /// The list of items at the indices `idx`.
    fn items_at(&self, idx: &[usize]) -> (r: Vec<I::Item>)
        requires
            forall|i: int| 0 <= i < idx@.len() ==> idx@[i] < self.items@.len(),
        ensures
            r@ == idx@.map_values(|j: usize| self.items@[j as int]),
    {
        pick_items(&self.items, idx)
    }

    /// Advance the indices to the next list, collecting one more item while the base iterator
    /// still has some; `true` when a list is to be yielded.
    fn increment_indices(&mut self) -> (more: bool)
        requires
            old(self).wf(),
        ensures
            final(self).wf(),
            final(self).full() == old(self).full(),
            final(self).pow_v() == old(self).pow_v(),
            old(self).yielded() < power(old(self).full().len(), old(self).pow_v()) ==> {
                &&& more
                &&& final(self).yielded() == old(self).yielded() + 1
                &&& final(self).indices.values_v() matches Some(vs) && vs.len() == old(self).pow_v()
                    && in_base(vs, final(self).items@.len())
                    && vs.map_values(|j: usize| final(self).items@[j as int]) == power_list(
                    old(self).full(),
                    old(self).pow_v(),
                    old(self).yielded(),
                )
            },
            old(self).yielded() >= power(old(self).full().len(), old(self).pow_v()) ==> !more
                && final(self).yielded() == 0,
    {
        let ghost f = self.full();
        let ghost n = f.len();
        let ghost pow = self.indices.pow_v();
        let ghost c = self.yielded();
        let ghost vs0 = self.indices.values_v();
        let ghost k = self.indices.base_v();
        let ghost was_some = self.iter is Some;
        if self.iter.is_some() {
            self.pull();
        }
        let ghost b = self.indices.base_v();
        proof {
            assert(self.items@.len() == b);
            assert(self.iter is Some ==> b == k + 1 && b <= n);
            assert(self.iter is None ==> b == n);
            if pow > 0 && was_some && k > 0 {
                let v = vs0.unwrap();
                assert(v == zeros((pow - 1) as nat).push((k - 1) as usize));
                lemma_low_digits((k - 1) as nat, k, pow);
                lemma_low_digits((k - 1) as nat, b, pow);
                assert(v[0] != b) by {
                    if pow > 1 {
                        assert(v[0] == zeros((pow - 1) as nat)[0]);
                    }
                }
                assert(c == digits_value(v, b) + 1);
                assert(in_base(v, b));
            }
            if pow > 0 && !was_some && vs0 is Some && vs0.unwrap()[0] != b {
                assert(in_base(vs0.unwrap(), b)) by {
                    if vs0.unwrap() == round_marker(b, pow) {
                        assert(vs0.unwrap()[0] == b);
                    }
                }
            }
            if pow > 0 && b > 0 {
                lemma_power_pos(b, pow);
                assert(power(b, 0) == 1);
                assert(power(b, 1) == b * power(b, 0));
                lemma_power_mono(b, 1, pow);
                lemma_power_base_mono(b, n, pow);
                lemma_value_zeros(pow, b);
            }
        }
        let r = self.indices.next();
        let more = r.is_some();
        proof {
            assert(self.full() == f);
            if more {
                let vs = self.indices.values_v().unwrap();
                if pow == 0 {
                    assert(vs =~= digits_of(c, n, pow));
                } else {
                    assert(digits_value(vs, b) == c);
                    lemma_digits_unique(vs, b);
                    if self.iter is Some {
                        lemma_low_digits(c, b, pow);
                        lemma_low_digits(c, n, pow);
                    }
                    assert(vs == digits_of(c, n, pow));
                    assert(vs[0] != b) by {
                        assert(in_base(vs, b));
                    }
                }
                assert(vs.map_values(|j: usize| self.items@[j as int]) =~= power_list(f, pow, c));
                if self.iter is Some && pow > 0 {
                    lemma_low_digits(c, b, pow);
                    assert(vs == zeros((pow - 1) as nat).push((b - 1) as usize));
                }
            }
            if self.iter is Some && pow > 0 {
                assert(c < b);
                assert(more);
            }
        }
        more
    }
}


impl<I: Itertools> CartesianPower<I> where I::Item: Copy {
    /// Same as `increment_indices`, but skip `n` lists: the target is `n` positions further.
    /// Past the end of the round it yields nothing, and the round resumes only on a further
    /// call.
    fn increment_indices_by_n(&mut self, n: usize) -> (more: bool)
        requires
            old(self).wf(),
            n + old(self).full().len() < usize::MAX,
        ensures
            final(self).wf(),
            final(self).full() == old(self).full(),
            final(self).pow_v() == old(self).pow_v(),
            old(self).yielded() + n < power(old(self).full().len(), old(self).pow_v()) ==> {
                &&& more
                &&& final(self).yielded() == old(self).yielded() + n + 1
                &&& final(self).indices.values_v() matches Some(vs) && vs.len() == old(self).pow_v()
                    && in_base(vs, final(self).items@.len())
                    && vs.map_values(|j: usize| final(self).items@[j as int]) == power_list(
                    old(self).full(),
                    old(self).pow_v(),
                    (old(self).yielded() + n) as nat,
                )
            },
            old(self).yielded() + n >= power(old(self).full().len(), old(self).pow_v()) ==> !more
                && final(self).yielded() == 0,
    {
        let ghost f = self.full();
        let ghost nn = f.len();
        let ghost pow = self.indices.pow_v();
        let ghost c = self.yielded();
        let ghost vs0 = self.indices.values_v();
        let ghost k = self.indices.base_v();
        let ghost was_some = self.iter is Some;
        let ghost t: nat = (c + n) as nat;
        let mut i: usize = 0;
        let mut go = self.iter.is_some();
        while go && i <= n
            invariant
                self.full() == f,
                self.indices.pow_v() == pow,
                self.indices.values_v() == vs0,
                self.indices.wf(),
                self.items@.len() == self.indices.base_v(),
                f.len() < usize::MAX,
                n + f.len() < usize::MAX,
                i <= n + 1,
                self.iter matches Some(it) ==> it.wf(),
                go <==> self.iter is Some,
                was_some ==> (self.iter is Some ==> self.indices.base_v() == k + i),
                !was_some ==> self.iter is None && self.indices.base_v() == k,
                self.iter is None ==> self.items@ == f,
            decreases n + 1 - i, (if go { 1int } else { 0int }),
        {
            if self.pull() {
                i = i + 1;
            } else {
                go = false;
            }
        }
        let ghost b = self.indices.base_v();
        proof {
            assert(self.iter is Some ==> b == k + n + 1 && b <= nn);
            assert(self.iter is None ==> b == nn);
            if pow > 0 && was_some && k > 0 {
                let v = vs0.unwrap();
                assert(v == zeros((pow - 1) as nat).push((k - 1) as usize));
                lemma_low_digits((k - 1) as nat, k, pow);
                lemma_low_digits((k - 1) as nat, b, pow);
                assert(v[0] != b) by {
                    if pow > 1 {
                        assert(v[0] == zeros((pow - 1) as nat)[0]);
                    }
                }
                assert(c == digits_value(v, b) + 1);
                assert(in_base(v, b));
                assert(v.last() == k - 1);
            }
            if pow > 0 && !was_some && vs0 is Some && vs0.unwrap()[0] != b {
                assert(in_base(vs0.unwrap(), b)) by {
                    if vs0.unwrap() == round_marker(b, pow) {
                        assert(vs0.unwrap()[0] == b);
                    }
                }
                assert(vs0.unwrap().last() < b);
            }
            if pow > 0 && b > 0 {
                lemma_power_pos(b, pow);
                assert(power(b, 0) == 1);
                assert(power(b, 1) == b * power(b, 0));
                lemma_power_mono(b, 1, pow);
                lemma_power_base_mono(b, nn, pow);
                lemma_value_zeros(pow, b);
                assert(self.indices.nth_target(n as nat) == t);
            }
        }
        let r = self.indices.nth(n);
        let more = r.is_some();
        proof {
            assert(self.full() == f);
            if more {
                let vs = self.indices.values_v().unwrap();
                if pow == 0 {
                    assert(vs =~= digits_of(t, nn, pow));
                } else {
                    assert(digits_value(vs, b) == t);
                    lemma_digits_unique(vs, b);
                    if self.iter is Some {
                        lemma_low_digits(t, b, pow);
                        lemma_low_digits(t, nn, pow);
                    }
                    assert(vs == digits_of(t, nn, pow));
                    assert(vs[0] != b) by {
                        assert(in_base(vs, b));
                    }
                }
                assert(vs.map_values(|j: usize| self.items@[j as int]) =~= power_list(f, pow, t));
                if self.iter is Some && pow > 0 {
                    lemma_low_digits(t, b, pow);
                    assert(vs == zeros((pow - 1) as nat).push((b - 1) as usize));
                }
            }
            if self.iter is Some && pow > 0 {
                assert(t < b);
                assert(more);
            }
        }
        more
    }

    /// The next list of items, or `None` at the end of a round.
    pub fn next(&mut self) -> (r: Option<Vec<I::Item>>)
        requires
            old(self).wf(),
        ensures
            final(self).wf(),
            final(self).full() == old(self).full(),
            final(self).pow_v() == old(self).pow_v(),
            old(self).yielded() < power(old(self).full().len(), old(self).pow_v()) ==> (r matches Some(
                v,
            ) && v@ == power_list(old(self).full(), old(self).pow_v(), old(self).yielded())
                && final(self).yielded() == old(self).yielded() + 1),
            old(self).yielded() >= power(old(self).full().len(), old(self).pow_v()) ==> r is None
                && final(self).yielded() == 0,
    {
        if self.increment_indices() {
            let idx = self.indices.values_slice().unwrap();
            Some(self.items_at(idx))
        } else {
            None
        }
    }

    /// The list `n` positions further than `next` would give, or `None` when that runs past
    /// the end of the round.
    pub fn nth(&mut self, n: usize) -> (r: Option<Vec<I::Item>>)
        requires
            old(self).wf(),
            n + old(self).full().len() < usize::MAX,
        ensures
            final(self).wf(),
            final(self).full() == old(self).full(),
            final(self).pow_v() == old(self).pow_v(),
            old(self).yielded() + n < power(old(self).full().len(), old(self).pow_v()) ==> (r matches Some(
                v,
            ) && v@ == power_list(old(self).full(), old(self).pow_v(), (old(self).yielded() + n) as nat)
                && final(self).yielded() == old(self).yielded() + n + 1),
            old(self).yielded() + n >= power(old(self).full().len(), old(self).pow_v()) ==> r is None
                && final(self).yielded() == 0,
    {
        if self.increment_indices_by_n(n) {
            let idx = self.indices.values_slice().unwrap();
            Some(self.items_at(idx))
        } else {
            None
        }
    }
}


/// While the items are still being collected, a larger base leaves more lists to come.
proof fn lemma_remaining_mono(b1: nat, b2: nat, pow: nat, values: Option<Seq<usize>>, k: nat)
    requires
        k <= b1 <= b2,
        pow > 0,
        values matches Some(vs) ==> k > 0 && vs == zeros((pow - 1) as nat).push((k - 1) as usize),
        values is None ==> k == 0,
        k < usize::MAX,
    ensures
        indices_remaining(b1, pow, values) <= indices_remaining(b2, pow, values),
        b1 > 0 ==> indices_remaining(b1, pow, values) == power(b1, pow) - k,
        b2 > 0 ==> indices_remaining(b2, pow, values) == power(b2, pow) - k,
{
    lemma_power_base_mono(b1, b2, pow);
    if b1 > 0 {
        lemma_power_pos(b1, pow);
        assert(power(b1, 0) == 1);
        assert(power(b1, 1) == b1 * power(b1, 0));
        lemma_power_mono(b1, 1, pow);
    }
    if b2 > 0 {
        assert(power(b2, 0) == 1);
        assert(power(b2, 1) == b2 * power(b2, 0));
        lemma_power_mono(b2, 1, pow);
    }
    if values is Some {
        let vs = values.unwrap();
        if b1 > 0 {
            lemma_low_digits((k - 1) as nat, b1, pow);
            assert(vs[0] != b1) by {
                if pow > 1 {
                    assert(vs[0] == zeros((pow - 1) as nat)[0]);
                }
            }
        }
        lemma_low_digits((k - 1) as nat, b2, pow);
        assert(vs[0] != b2) by {
            if pow > 1 {
                assert(vs[0] == zeros((pow - 1) as nat)[0]);
            }
        }
    }
}

impl<I: Itertools> CartesianPower<I> where I::Item: Copy {
    /// The number of lists left in the current round.
    pub closed spec fn remaining(&self) -> int {
        power(self.full().len(), self.pow_v()) - self.yielded()
    }

    /// The size hint: while the source is being read, the round's hint with the items read
    /// so far plus the source's bounds as the base; after that, the round's own hint.
    pub closed spec fn spec_size_hint(&self) -> SizeHint {
        let pow = self.indices.pow_v();
        let values = self.indices.values_v();
        match self.iter {
            Some(iter) => {
                let yet = self.indices.base_v();
                let (a, b) = iter.spec_size_hint();
                (
                    indices_hint((yet + a) as nat, pow, values).0,
                    match b {
                        Some(b) => if yet + b <= usize::MAX {
                            indices_hint((yet + b) as nat, pow, values).1
                        } else {
                            None
                        },
                        None => None,
                    },
                )
            },
            None => indices_hint(self.indices.base_v(), pow, values),
        }
    }

    /// Bounds on the number of lists left in the current round; the lower bound saturates at
    /// `usize::MAX`.
    pub fn size_hint(&self) -> (r: SizeHint)
        requires
            self.wf(),
        ensures
            r.0 <= self.remaining() || r.0 == usize::MAX,
            r.1 matches Some(x) ==> self.remaining() <= x,
            r == self.spec_size_hint(),
    {
        let ghost n = self.full().len();
        let ghost pow = self.indices.pow_v();
        let ghost k = self.indices.base_v();
        let ghost values = self.indices.values_v();
        match &self.iter {
            Some(iter) => {
                let yet = self.indices.base;
                let (a, b) = iter.size_hint();
                let lo_base = yet + a;
                let lo = self.indices.size_hint_with_base(lo_base).0;
                let hi = match b {
                    Some(b) => match yet.checked_add(b) {
                        Some(hi_base) => self.indices.size_hint_with_base(hi_base).1,
                        None => None,
                    },
                    None => None,
                };
                proof {
                    assert(power(n, 0) == 1);
                    if pow > 0 && k > 0 {
                        let vs = values.unwrap();
                        lemma_low_digits((k - 1) as nat, k, pow);
                        assert(vs[0] != k) by {
                            if pow > 1 {
                                assert(vs[0] == zeros((pow - 1) as nat)[0]);
                            }
                        }
                        assert(self.yielded() == k);
                    }
                    if pow > 0 {
                        lemma_remaining_mono(lo_base as nat, n, pow, values, k);
                        if b is Some && (yet + b.unwrap()) <= usize::MAX {
                            lemma_remaining_mono(n, (yet + b.unwrap()) as nat, pow, values, k);
                        }
                        if n == 0 {
                            assert(power(0, pow) == 0 * power(0, (pow - 1) as nat));
                        }
                    }
                }
                (lo, hi)
            },
            None => {
                let r = self.indices.size_hint();
                proof {
                    assert(power(n, 0) == 1);
                    if pow > 0 && n > 0 && values is Some {
                        let vs = values.unwrap();
                        if vs[0] != n {
                            assert(in_base(vs, n)) by {
                                if vs == round_marker(n, pow) {
                                    assert(vs[0] == n);
                                }
                            }
                            lemma_value_bound(vs, n);
                        }
                    }
                    if pow > 0 && n == 0 {
                        assert(power(0, pow) == 0 * power(0, (pow - 1) as nat));
                    }
                }
                r
            },
        }
    }

    /// The number of lists left in the current round, saturating at `usize::MAX`.
    pub fn count(self) -> (r: usize)
        requires
            self.wf(),
        ensures
            r <= self.remaining() || r == usize::MAX,
            r == self.spec_size_hint().0,
    {
        self.size_hint().0
    }
}

} // verus!
