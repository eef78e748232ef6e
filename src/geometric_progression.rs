//! Sums of geometric progressions, `a^1 + a^2 + ... + a^n`, in `O(log n)` steps.
use vstd::arithmetic::div_mod::*;
use vstd::arithmetic::mul::*;
use vstd::arithmetic::power::*;
use vstd::prelude::*;

use crate::binary_exponentiation::mul_mod;

verus! {

/// `a^1 + a^2 + ... + a^n`.
pub open spec fn geometric_sum(a: int, n: nat) -> int
    decreases n,
{
    if n == 0 {
        0
    } else {
        geometric_sum(a, (n - 1) as nat) + pow(a, n)
    }
}

/// Splitting the sum: `S(x + y) == S(x) + a^x * S(y)`.
pub proof fn lemma_geometric_sum_split(a: int, x: nat, y: nat)
    ensures
        geometric_sum(a, x + y) == geometric_sum(a, x) + pow(a, x) * geometric_sum(a, y),
    decreases y,
{
    if y == 0 {
        assert(pow(a, x) * geometric_sum(a, 0) == 0) by (nonlinear_arith)
            requires
                geometric_sum(a, 0) == 0,
        ;
    } else {
        let y1 = (y - 1) as nat;
        lemma_geometric_sum_split(a, x, y1);
        lemma_pow_adds(a, x, y);
        assert(x + y1 + 1 == x + y);
        assert(geometric_sum(a, x + y) == geometric_sum(a, x + y1) + pow(a, x + y));
        assert(pow(a, x) * geometric_sum(a, y) == pow(a, x) * geometric_sum(a, y1) + pow(a, x) * pow(a, y))
            by (nonlinear_arith)
            requires
                geometric_sum(a, y) == geometric_sum(a, y1) + pow(a, y),
        ;
    }
}

/// Powers of a non-negative base are non-negative.
proof fn lemma_pow_nonneg(a: int, e: nat)
    requires
        a >= 0,
    ensures
        pow(a, e) >= 0,
{
    if a > 0 {
        lemma_pow_positive(a, e);
    } else if e == 0 {
        lemma_pow0(a);
    } else {
        lemma0_pow(e);
    }
}

/// For `a >= 0` the sum is non-negative and grows with `n`, and is at least `a^n`.
pub proof fn lemma_geometric_sum_monotone(a: int, x: nat, y: nat)
    requires
        a >= 0,
        x <= y,
    ensures
        0 <= geometric_sum(a, x) <= geometric_sum(a, y),
        y > 0 ==> pow(a, y) <= geometric_sum(a, y),
    decreases y,
{
    if y > 0 {
        lemma_pow_nonneg(a, y);
        lemma_geometric_sum_monotone(a, if x == y { (y - 1) as nat } else { x }, (y - 1) as nat);
    }
}

/// `(x + y) mod m`, without overflow.
fn add_mod(x: u64, y: u64, m: u64) -> (r: u64)
    requires
        m > 0,
    ensures
        r == (x + y) % (m as int),
        r < m,
{
    let s: u128 = (x as u128) + (y as u128);
    (s % (m as u128)) as u64
}

/// `(a^1 + a^2 + ... + a^n) mod m`.
pub fn calc_mod(a: u64, n: u64, m: u64) -> (r: u64)
    requires
        m > 0,
    ensures
        r == geometric_sum(a as int, n as nat) % (m as int),
{
    let ghost a0 = a as int;
    let ghost n0 = n as nat;
    let ghost mm = m as int;
    let ghost mut v: nat = 0;
    let ghost mut w: nat = 1;
    let ap0: u64 = a % m;
    let mut ap: u64 = ap0;
    let mut gp: u64 = 0;
    let mut g2: u64 = ap0;
    let mut n: u64 = n;
    proof {
        reveal_with_fuel(geometric_sum, 2);
        lemma_pow1(a0);
        lemma_small_mod(0, m as nat);
    }
    while n != 0
        invariant
            mm == m as int,
            m > 0,
            w >= 1,
            n0 == v + n * w,
            gp == geometric_sum(a0, v) % mm,
            g2 == geometric_sum(a0, w) % mm,
            ap == pow(a0, w) % mm,
        decreases n,
    {
        proof {
            lemma_geometric_sum_split(a0, w, v);
            lemma_geometric_sum_split(a0, w, w);
            lemma_mul_mod_noop_general(pow(a0, w), geometric_sum(a0, v), mm);
            lemma_mul_mod_noop_general(pow(a0, w), geometric_sum(a0, w), mm);
            lemma_add_mod_noop(geometric_sum(a0, w), pow(a0, w) * geometric_sum(a0, v), mm);
            lemma_add_mod_noop(geometric_sum(a0, w), pow(a0, w) * geometric_sum(a0, w), mm);
            lemma_mul_mod_noop_general(pow(a0, w), pow(a0, w), mm);
            lemma_pow_adds(a0, w, w);
            lemma_mod_twice(geometric_sum(a0, w), mm);
        }
        if n % 2 == 1 {
            gp = add_mod(g2, mul_mod(ap, gp, m), m);
            proof {
                assert(w + v == v + w);
                v = v + w;
            }
        }
        g2 = add_mod(g2, mul_mod(ap, g2, m), m);
        ap = mul_mod(ap, ap, m);
        proof {
            assert(n0 == v + (n / 2) * (w + w)) by (nonlinear_arith)
                requires
                    n0 == (if n % 2 == 1 { v - w } else { v as int }) + n * w,
                    n == 2 * (n / 2) + n % 2,
                    0 <= n % 2 < 2,
            ;
            w = w + w;
        }
        n = n / 2;
    }
    proof {
        assert(n0 == v);
    }
    gp
}

/// `a^1 + a^2 + ... + a^n`, where the sum fits in a `u64`.
pub fn calc(a: u64, n: u64) -> (r: u64)
    requires
        geometric_sum(a as int, n as nat) <= u64::MAX,
    ensures
        r == geometric_sum(a as int, n as nat),
{
    let ghost a0 = a as int;
    let ghost n0 = n as nat;
    let ghost mut v: nat = 0;
    let ghost mut w: nat = 1;
    let mut ap: u64 = a;
    let mut gp: u64 = 0;
    let mut g2: u64 = a;
    let mut n: u64 = n;
    proof {
        reveal_with_fuel(geometric_sum, 2);
        lemma_pow1(a0);
    }
    while n != 0
        invariant
            w >= 1,
            n0 == v + n * w,
            geometric_sum(a0, n0) <= u64::MAX,
            gp == geometric_sum(a0, v),
            n != 0 ==> g2 == geometric_sum(a0, w),
            n != 0 ==> ap == pow(a0, w),
            a0 >= 0,
        decreases n,
    {
        proof {
            lemma_geometric_sum_split(a0, w, v);
            lemma_geometric_sum_split(a0, w, w);
            lemma_pow_adds(a0, w, w);
            lemma_pow_nonneg(a0, w);
            lemma_geometric_sum_monotone(a0, v, v);
            lemma_geometric_sum_monotone(a0, w, w);
            assert(n0 == v + n * w);
        }
        if n % 2 == 1 {
            proof {
                assert(v + w <= n0) by (nonlinear_arith)
                    requires
                        n0 == v + n * w,
                        n >= 1,
                        w >= 1,
                ;
                lemma_geometric_sum_monotone(a0, w + v, n0);
                assert(0 <= pow(a0, w) * geometric_sum(a0, v)) by (nonlinear_arith)
                    requires
                        pow(a0, w) >= 0,
                        geometric_sum(a0, v) >= 0,
                ;
                assert(w + v == v + w);
            }
            gp = g2 + ap * gp;
            proof {
                v = v + w;
            }
        }
        if n / 2 != 0 {
            proof {
                assert(w + w <= n0) by (nonlinear_arith)
                    requires
                        n0 == (if n % 2 == 1 { v - w } else { v as int }) + n * w,
                        n >= 2,
                        w >= 1,
                        v >= 0,
                        n % 2 == 1 ==> v >= w,
                ;
                lemma_geometric_sum_monotone(a0, w + w, n0);
                lemma_geometric_sum_monotone(a0, w + w, w + w);
                assert(0 <= pow(a0, w) * geometric_sum(a0, w)) by (nonlinear_arith)
                    requires
                        pow(a0, w) >= 0,
                        geometric_sum(a0, w) >= 0,
                ;
            }
            g2 = g2 + ap * g2;
            ap = ap * ap;
        }
        proof {
            assert(n0 == v + (n / 2) * (w + w)) by (nonlinear_arith)
                requires
                    n0 == (if n % 2 == 1 { v - w } else { v as int }) + n * w,
                    n == 2 * (n / 2) + n % 2,
                    0 <= n % 2 < 2,
            ;
            w = w + w;
        }
        n = n / 2;
    }
    proof {
        assert(n0 == v);
    }
    gp
}

} // verus!
