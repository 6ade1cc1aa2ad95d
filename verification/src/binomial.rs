//! Binomial coefficients, computed without overflow of the intermediate products where the
//! result fits.
use vstd::prelude::*;
use vstd::arithmetic::div_mod::{lemma_fundamental_div_mod, lemma_fundamental_div_mod_converse};

verus! {

/// The number of ways to choose `k` items out of `n`.
pub open spec fn binom(n: nat, k: nat) -> nat
    decreases n,
{
    if k == 0 {
        1
    } else if n == 0 {
        0
    } else {
        binom((n - 1) as nat, (k - 1) as nat) + binom((n - 1) as nat, k)
    }
}

/// There is no way to choose more items than there are.
pub proof fn lemma_choose_zero(n: nat, k: nat)
    requires
        k > n,
    ensures
        binom(n, k) == 0,
    decreases n,
{
    if n > 0 {
        lemma_choose_zero((n - 1) as nat, (k - 1) as nat);
        lemma_choose_zero((n - 1) as nat, k);
    }
}

/// `k * C(n, k) == n * C(n - 1, k - 1)`.
pub proof fn lemma_absorption(n: nat, k: nat)
    requires
        n >= 1,
        k >= 1,
    ensures
        k * binom(n, k) == n * binom((n - 1) as nat, (k - 1) as nat),
    decreases n,
{
    let a = binom((n - 1) as nat, (k - 1) as nat);
    let b = binom((n - 1) as nat, k);
    assert(binom(n, k) == a + b);
    if n == 1 {
        if k == 1 {
            assert(a == 1);
            assert(b == 0);
        } else {
            lemma_choose_zero(0, (k - 1) as nat);
            lemma_choose_zero(0, k);
        }
        assert(k * (a + b) == n * a) by (nonlinear_arith)
            requires
                n == 1,
                (k == 1 && a == 1 && b == 0) || (k > 1 && a == 0 && b == 0),
        ;
    } else {
        lemma_absorption((n - 1) as nat, k);
        let c = binom((n - 2) as nat, (k - 1) as nat);
        if k >= 2 {
            lemma_absorption((n - 1) as nat, (k - 1) as nat);
            let d = binom((n - 2) as nat, (k - 2) as nat);
            assert(a == d + c);
            assert(k * (a + b) == n * a) by (nonlinear_arith)
                requires
                    (k - 1) * a == (n - 1) * d,
                    k * b == (n - 1) * c,
                    a == d + c,
            ;
        } else {
            assert(a == 1);
            assert(k * (a + b) == n * a) by (nonlinear_arith)
                requires
                    k == 1,
                    a == 1,
                    k * b == (n - 1) * c,
                    c == 1,
            ;
        }
    }
}

/// `i * C(n, i) == (n - i + 1) * C(n, i - 1)`: the step from one coefficient to the next.
pub proof fn lemma_choose_step(n: nat, i: nat)
    requires
        1 <= i <= n,
    ensures
        i * binom(n, i) == (n - i + 1) * binom(n, (i - 1) as nat),
{
    lemma_absorption(n, i);
    let p = binom((n - 1) as nat, (i - 1) as nat);
    let q = binom((n - 1) as nat, (i - 2) as nat);
    let c = binom(n, (i - 1) as nat);
    if i >= 2 {
        lemma_absorption(n, (i - 1) as nat);
        assert(c == q + p);
        assert((i - 1) * c == n * q);
        assert(i * binom(n, i) == n * p);
        assert(n * p == (n - i + 1) * c) by (nonlinear_arith)
            requires
                (i - 1) * c == n * q,
                c == q + p,
        ;
    } else {
        assert(c == 1);
        assert(p == 1);
    }
}

/// The coefficients grow up to the middle.
pub proof fn lemma_choose_grows(n: nat, i: nat, j: nat)
    requires
        i <= j,
        2 * j <= n,
    ensures
        binom(n, i) <= binom(n, j),
    decreases j - i,
{
    if i < j {
        lemma_choose_grows(n, i, (j - 1) as nat);
        lemma_choose_step(n, j);
        let a = binom(n, (j - 1) as nat);
        let b = binom(n, j);
        assert(a <= b) by (nonlinear_arith)
            requires
                j * b == (n - j + 1) * a,
                n - j + 1 >= j,
                j >= 1,
        ;
    }
}

/// Choosing `k` items is choosing the `n - k` left out.
pub proof fn lemma_choose_symmetric(n: nat, k: nat)
    requires
        k <= n,
    ensures
        binom(n, k) == binom(n, (n - k) as nat),
    decreases n,
{
    if n > 0 && k > 0 && k < n {
        lemma_choose_symmetric((n - 1) as nat, (k - 1) as nat);
        lemma_choose_symmetric((n - 1) as nat, k);
        assert(binom(n, (n - k) as nat) == binom((n - 1) as nat, (n - k - 1) as nat) + binom(
            (n - 1) as nat,
            (n - k) as nat,
        ));
    } else if n > 0 && k == n {
        lemma_choose_full(n);
    } else if n > 0 && k == 0 {
        lemma_choose_full(n);
    }
}

proof fn lemma_choose_full(n: nat)
    ensures
        binom(n, n) == 1,
    decreases n,
{
    if n > 0 {
        lemma_choose_full((n - 1) as nat);
        lemma_choose_zero((n - 1) as nat, n);
    }
}

/// `(c * m) / i` computed as `(c / i) * m + (c % i) * m / i`.
proof fn lemma_split_div(c: int, m: int, i: int)
    requires
        c >= 0,
        m >= 0,
        i > 0,
    ensures
        (c * m) / i == (c / i) * m + ((c % i) * m) / i,
        (c % i) * m >= 0,
{
    lemma_fundamental_div_mod(c, i);
    let q = c / i;
    let r = c % i;
    assert(r * m >= 0) by (nonlinear_arith)
        requires
            r >= 0,
            m >= 0,
    ;
    lemma_fundamental_div_mod(r * m, i);
    let q2 = (r * m) / i;
    let r2 = (r * m) % i;
    assert(c * m == (q * m + q2) * i + r2) by (nonlinear_arith)
        requires
            c == i * q + r,
            r * m == i * q2 + r2,
    ;
    lemma_fundamental_div_mod_converse(c * m, i, q * m + q2, r2);
}

/// The binomial coefficient `C(n, k)`, or `None` when it does not fit in `usize`.
pub fn binomial(n: usize, k: usize) -> (r: Option<usize>)
    ensures
        r == if binom(n as nat, k as nat) <= usize::MAX {
            Some(binom(n as nat, k as nat) as usize)
        } else {
            None::<usize>
        },
{
    if n < k {
        proof {
            lemma_choose_zero(n as nat, k as nat);
        }
        return Some(0);
    }
    let ghost n0 = n as nat;
    let kk = if n - k < k { n - k } else { k };
    proof {
        lemma_choose_symmetric(n0, k as nat);
    }
    let mut c: usize = 1;
    let mut m = n;
    let mut i: usize = 1;
    while i <= kk
        invariant
            n0 == n as nat,
            1 <= i <= kk + 1,
            kk <= n0,
            2 * kk <= n0,
            binom(n0, kk as nat) == binom(n0, k as nat),
            m == n0 - (i - 1),
            c == binom(n0, (i - 1) as nat),
        decreases kk + 1 - i,
    {
        let ghost cn = binom(n0, i as nat);
        proof {
            lemma_choose_step(n0, i as nat);
            lemma_split_div(c as int, m as int, i as int);
            lemma_choose_grows(n0, i as nat, kk as nat);
            assert(c as int * m as int == cn * i) by (nonlinear_arith)
                requires
                    i * cn == m * c,
            ;
            assert((c as int * m as int) / (i as int) == cn) by {
                lemma_fundamental_div_mod_converse(c as int * m as int, i as int, cn as int, 0);
            }
            assert((c / i) * m <= cn) by (nonlinear_arith)
                requires
                    (c as int * m as int) / (i as int) == (c / i) * m + ((c % i) * m) / (i as int),
                    (c as int * m as int) / (i as int) == cn,
                    (c % i) * m >= 0,
                    i > 0,
            ;
        }
        let hi = match (c / i).checked_mul(m) {
            Some(x) => x,
            None => {
                proof {
                    assert(binom(n0, i as nat) <= binom(n0, kk as nat));
                    assert(binom(n0, k as nat) > usize::MAX);
                }
                return None;
            },
        };
        proof {
            let x = (c % i) as int;
            let y = m as int;
            assert(x * y <= 18446744073709551615 * 18446744073709551615) by (nonlinear_arith)
                requires
                    0 <= x <= 18446744073709551615,
                    0 <= y <= 18446744073709551615,
            ;
        }
        let lo_wide: u128 = ((c % i) as u128) * (m as u128) / (i as u128);
        proof {
            assert((c % i) < i);
            assert(((c % i) * m) / (i as int) <= m) by (nonlinear_arith)
                requires
                    c % i < i,
                    i > 0,
            ;
        }
        let lo = lo_wide as usize;
        proof {
            assert(lo == ((c % i) * m) / (i as int));
            assert(hi + lo == binom(n0, i as nat));
        }
        c = match hi.checked_add(lo) {
            Some(x) => x,
            None => {
                proof {
                    assert(binom(n0, i as nat) <= binom(n0, kk as nat));
                }
                return None;
            },
        };
        m = m - 1;
        i = i + 1;
    }
    Some(c)
}

/// The terms `binom(m - t, r - t)` for `t` below `q`, summed.
pub open spec fn stair(m: int, r: int, q: nat) -> nat
    decreases q,
{
    if q == 0 {
        0
    } else {
        stair(m, r, (q - 1) as nat) + binom((m - (q - 1)) as nat, (r - (q - 1)) as nat)
    }
}

/// A stair can be read from its first term.
proof fn lemma_stair_front(m: int, r: int, q: nat)
    requires
        q >= 1,
    ensures
        stair(m, r, q) == binom(m as nat, r as nat) + stair(m - 1, r - 1, (q - 1) as nat),
    decreases q,
{
    if q > 1 {
        lemma_stair_front(m, r, (q - 1) as nat);
        assert((m - 1) - (q - 2) == m - (q - 1));
        assert((r - 1) - (q - 2) == r - (q - 1));
        assert(stair(m - 1, r - 1, (q - 1) as nat) == stair(m - 1, r - 1, (q - 2) as nat) + binom(
            (m - (q - 1)) as nat,
            (r - (q - 1)) as nat,
        ));
    } else {
        assert(stair(m, r, 0) == 0);
        assert(stair(m - 1, r - 1, 0) == 0);
        assert(stair(m, r, 1) == stair(m, r, 0) + binom(m as nat, r as nat));
    }
}

/// The hockey-stick identity: `binom(m, r) + binom(m - 1, r - 1) + .. + binom(m - r + 1, 1)`
/// is `binom(m + 1, r) - 1`.
pub proof fn lemma_hockey_stick(m: int, r: int)
    requires
        0 <= r,
        r - 1 <= m,
    ensures
        stair(m, r, r as nat) + 1 == binom((m + 1) as nat, r as nat),
    decreases r,
{
    if r > 0 {
        lemma_stair_front(m, r, r as nat);
        lemma_hockey_stick(m - 1, r - 1);
    }
}

} // verus!
