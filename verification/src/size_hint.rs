//! Arithmetic on size hints: a lower bound and an optional upper bound.
use vstd::prelude::*;

verus! {

/// A size hint: `(lower, upper)`, `None` as upper bound meaning "unknown or above `usize::MAX`".
pub type SizeHint = (usize, Option<usize>);

/// `true` when `n` lies within the bounds of `sh`.
pub open spec fn within(sh: SizeHint, n: int) -> bool {
    &&& sh.0 <= n
    &&& sh.1 matches Some(hi) ==> n <= hi
}

/// The size hint of a count `f(n)` read off a size hint for `n`: `f` at both bounds, the
/// lower one saturating at `usize::MAX`, the upper one dropped when it does not fit.
pub open spec fn hint_map(h: SizeHint, f: spec_fn(nat) -> nat) -> SizeHint {
    (
        if f(h.0 as nat) <= usize::MAX { f(h.0 as nat) as usize } else { usize::MAX },
        match h.1 {
            Some(x) => if f(x as nat) <= usize::MAX { Some(f(x as nat) as usize) } else { None },
            None => None,
        },
    )
}

/// The sum of two size hints, as `add` computes it.
pub open spec fn add_spec(a: SizeHint, b: SizeHint) -> SizeHint {
    (
        if a.0 + b.0 <= usize::MAX { (a.0 + b.0) as usize } else { usize::MAX },
        match (a.1, b.1) {
            (Some(x), Some(y)) => if x + y <= usize::MAX { Some((x + y) as usize) } else { None },
            _ => None::<usize>,
        },
    )
}

/// A size hint with `x` added, as `add_scalar` computes it.
pub open spec fn add_scalar_spec(sh: SizeHint, x: usize) -> SizeHint {
    (
        if sh.0 + x <= usize::MAX { (sh.0 + x) as usize } else { usize::MAX },
        match sh.1 {
            Some(h) => if h + x <= usize::MAX { Some((h + x) as usize) } else { None },
            None => None::<usize>,
        },
    )
}

/// A size hint with `x` taken off, as `sub_scalar` computes it.
pub open spec fn sub_scalar_spec(sh: SizeHint, x: usize) -> SizeHint {
    (
        if sh.0 >= x { (sh.0 - x) as usize } else { 0 },
        match sh.1 {
            Some(h) => Some(if h >= x { (h - x) as usize } else { 0usize }),
            None => None::<usize>,
        },
    )
}

/// The product of two size hints, as `mul` computes it.
pub open spec fn mul_spec(a: SizeHint, b: SizeHint) -> SizeHint {
    (
        if a.0 * b.0 <= usize::MAX { (a.0 * b.0) as usize } else { usize::MAX },
        match (a.1, b.1) {
            (Some(x), Some(y)) => if x * y <= usize::MAX { Some((x * y) as usize) } else { None },
            _ => None::<usize>,
        },
    )
}

/// The size hint of the minimum of two lengths, as `min` computes it.
pub open spec fn min_spec(a: SizeHint, b: SizeHint) -> SizeHint {
    (
        if a.0 <= b.0 { a.0 } else { b.0 },
        match (a.1, b.1) {
            (Some(x), Some(y)) => Some(if x <= y { x } else { y }),
            (Some(x), None) => Some(x),
            (None, Some(y)) => Some(y),
            (None, None) => None::<usize>,
        },
    )
}

/// Add two size hints: the lower bound saturates, the upper bound is dropped on overflow.
pub fn add(a: SizeHint, b: SizeHint) -> (r: SizeHint)
    ensures
        r == add_spec(a, b),
        r.0 == if a.0 + b.0 <= usize::MAX { a.0 + b.0 } else { usize::MAX as int },
        r.1 == match (a.1, b.1) {
            (Some(x), Some(y)) => if x + y <= usize::MAX { Some((x + y) as usize) } else { None },
            _ => None::<usize>,
        },
        forall|n: int, m: int| within(a, n) && within(b, m) ==> within(r, n + m),
{
    let lo = a.0.saturating_add(b.0);
    let hi = match (a.1, b.1) {
        (Some(x), Some(y)) => x.checked_add(y),
        _ => None,
    };
    (lo, hi)
}

/// Add `x` to both bounds of a size hint.
pub fn add_scalar(sh: SizeHint, x: usize) -> (r: SizeHint)
    ensures
        r == add_scalar_spec(sh, x),
        r.0 == if sh.0 + x <= usize::MAX { sh.0 + x } else { usize::MAX as int },
        r.1 == match sh.1 {
            Some(h) => if h + x <= usize::MAX { Some((h + x) as usize) } else { None },
            None => None::<usize>,
        },
        forall|n: int| within(sh, n) ==> within(r, n + x),
{
    let lo = sh.0.saturating_add(x);
    let hi = match sh.1 {
        Some(h) => h.checked_add(x),
        None => None,
    };
    (lo, hi)
}

/// Subtract `x` from both bounds of a size hint, saturating at zero.
pub fn sub_scalar(sh: SizeHint, x: usize) -> (r: SizeHint)
    ensures
        r == sub_scalar_spec(sh, x),
        r.0 == if sh.0 >= x { sh.0 - x } else { 0 },
        r.1 == match sh.1 {
            Some(h) => Some(if h >= x { (h - x) as usize } else { 0usize }),
            None => None::<usize>,
        },
        forall|n: int| n >= x && within(sh, n) ==> within(r, n - x),
{
    let lo = sh.0.saturating_sub(x);
    let hi = match sh.1 {
        Some(h) => Some(h.saturating_sub(x)),
        None => None,
    };
    (lo, hi)
}

/// Multiply two size hints: the lower bound saturates, the upper bound is dropped on overflow.
pub fn mul(a: SizeHint, b: SizeHint) -> (r: SizeHint)
    ensures
        r == mul_spec(a, b),
        r.0 == if a.0 * b.0 <= usize::MAX { a.0 * b.0 } else { usize::MAX as int },
        r.1 == match (a.1, b.1) {
            (Some(x), Some(y)) => if x * y <= usize::MAX { Some((x * y) as usize) } else { None },
            _ => None::<usize>,
        },
        forall|n: int, m: int| n >= 0 && m >= 0 && within(a, n) && within(b, m) ==> within(r, n * m),
{
    let lo = match a.0.checked_mul(b.0) {
        Some(p) => p,
        None => usize::MAX,
    };
    let hi = match (a.1, b.1) {
        (Some(x), Some(y)) => x.checked_mul(y),
        _ => None,
    };
    proof {
        assert forall|n: int, m: int| n >= 0 && m >= 0 && within(a, n) && within(b, m) implies within(
            (lo, hi),
            n * m,
        ) by {
            lemma_mul_mono(a.0 as int, n, b.0 as int, m);
            if let (Some(x), Some(y)) = (a.1, b.1) {
                lemma_mul_mono(n, x as int, m, y as int);
            }
        }
    }
    (lo, hi)
}

/// The size hint of the minimum of two lengths.
pub fn min(a: SizeHint, b: SizeHint) -> (r: SizeHint)
    ensures
        r == min_spec(a, b),
        r.0 == if a.0 <= b.0 { a.0 } else { b.0 },
        r.1 == match (a.1, b.1) {
            (Some(x), Some(y)) => Some(if x <= y { x } else { y }),
            (Some(x), None) => Some(x),
            (None, Some(y)) => Some(y),
            (None, None) => None::<usize>,
        },
        forall|n: int, m: int|
            within(a, n) && within(b, m) ==> within(r, if n <= m { n } else { m }),
{
    let lo = if a.0 <= b.0 { a.0 } else { b.0 };
    let hi = match (a.1, b.1) {
        (Some(x), Some(y)) => Some(if x <= y { x } else { y }),
        (Some(x), None) => Some(x),
        (None, Some(y)) => Some(y),
        (None, None) => None,
    };
    (lo, hi)
}

/// `a <= b && c <= d` gives `a * c <= b * d` for non-negative numbers.
pub proof fn lemma_mul_mono(a: int, b: int, c: int, d: int)
    requires
        0 <= a <= b,
        0 <= c <= d,
    ensures
        a * c <= b * d,
{
    assert(a * c <= b * c) by (nonlinear_arith)
        requires
            0 <= a <= b,
            0 <= c,
    ;
    assert(b * c <= b * d) by (nonlinear_arith)
        requires
            0 <= b,
            0 <= c <= d,
    ;
}

} // verus!
