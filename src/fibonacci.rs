//! Fibonacci numbers by fast doubling.
use vstd::prelude::*;

verus! {

/// The Fibonacci sequence: 0, 1, 1, 2, 3, 5, ...
pub open spec fn fib(n: nat) -> nat
    decreases n,
{
    if n == 0 {
        0
    } else if n == 1 {
        1
    } else {
        fib((n - 1) as nat) + fib((n - 2) as nat)
    }
}

/// `F(m + n + 1) == F(m + 1) * F(n + 1) + F(m) * F(n)`.
pub proof fn lemma_fib_add(m: nat, n: nat)
    ensures
        fib(m + n + 1) == fib(m + 1) * fib(n + 1) + fib(m) * fib(n),
    decreases n,
{
    let a = fib(m + 1);
    let b = fib(m);
    if n == 0 {
        assert(fib(0) == 0);
        assert(fib(1) == 1);
        assert(a == a * fib(1) + b * fib(0)) by (nonlinear_arith)
            requires
                fib(0) == 0,
                fib(1) == 1,
        ;
    } else if n == 1 {
        assert(fib(0) == 0);
        assert(fib(1) == 1);
        assert(fib(2) == fib(1) + fib(0));
        let k: nat = m + 2;
        assert(fib(k) == fib((k - 1) as nat) + fib((k - 2) as nat));
        assert(a + b == a * fib(2) + b * fib(1)) by (nonlinear_arith)
            requires
                fib(2) == 1,
                fib(1) == 1,
        ;
    } else {
        let n1: nat = (n - 1) as nat;
        let n2: nat = (n - 2) as nat;
        let t: nat = m + n + 1;
        let t1: nat = m + n;
        let t2: nat = (m + n - 1) as nat;
        lemma_fib_add(m, n1);
        lemma_fib_add(m, n2);
        assert(m + n1 + 1 == t1);
        assert(m + n2 + 1 == t2);
        assert(fib(t) == fib(t1) + fib(t2));
        assert(fib(n + 1) == fib(n) + fib(n1));
        assert(fib(n) == fib(n1) + fib(n2));
        assert(a * fib(n + 1) + b * fib(n) == (a * fib(n) + b * fib(n1)) + (a * fib(n1) + b * fib(n2)))
            by (nonlinear_arith)
            requires
                fib(n + 1) == fib(n) + fib(n1),
                fib(n) == fib(n1) + fib(n2),
        ;
    }
}

/// The Fibonacci sequence does not decrease.
pub proof fn lemma_fib_monotone(i: nat, j: nat)
    requires
        i <= j,
    ensures
        fib(i) <= fib(j),
    decreases j,
{
    if i < j {
        lemma_fib_monotone(i, (j - 1) as nat);
        if j >= 2 {
            assert(fib(j) == fib((j - 1) as nat) + fib((j - 2) as nat));
        }
    }
}

/// `(F(n), F(n + 1))` by fast doubling, in `O(log n)` steps.
pub fn fibonacci(n: i64) -> (r: (i64, i64))
    requires
        n >= 0,
        fib((n + 1) as nat) <= i64::MAX,
    ensures
        r.0 == fib(n as nat),
        r.1 == fib((n + 1) as nat),
    decreases n,
{
    if n == 0 {
        (0, 1)
    } else {
        let m = n / 2;
        proof {
            lemma_fib_monotone((m + 1) as nat, (n + 1) as nat);
            lemma_fib_monotone((m + 2) as nat, (n + 1) as nat);
            lemma_fib_monotone(m as nat, (m + 1) as nat);
            lemma_fib_monotone((2 * m + 1) as nat, (n + 1) as nat);
            lemma_fib_add(m as nat, m as nat);
            assert(fib((m + 2) as nat) == fib((m + 1) as nat) + fib(m as nat));
            if m > 0 {
                lemma_fib_add((m - 1) as nat, m as nat);
                assert(fib((m + 1) as nat) == fib(m as nat) + fib((m - 1) as nat));
            }
        }
        let (k, k1) = fibonacci(m);
        let ghost fm = fib(m as nat);
        let ghost fm1 = fib((m + 1) as nat);
        proof {
            assert(fib((2 * m) as nat) == fm * (2 * fm1 - fm)) by {
                if m > 0 {
                    let fmm = fib((m - 1) as nat);
                    assert(fib((2 * m) as nat) == fm * fm1 + fmm * fm);
                    assert(fm * fm1 + fmm * fm == fm * (2 * fm1 - fm)) by (nonlinear_arith)
                        requires
                            fm1 == fm + fmm,
                    ;
                } else {
                    assert(fib(0) == 0);
                    assert(fm * (2 * fm1 - fm) == 0) by (nonlinear_arith)
                        requires
                            fm == 0,
                    ;
                }
            }
            assert(fib((2 * m + 1) as nat) == fm1 * fm1 + fm * fm);
            assert(fm * fm <= fm1 * fm1 + fm * fm) by (nonlinear_arith);
            assert(fm1 * fm1 <= fm1 * fm1 + fm * fm) by (nonlinear_arith);
            assert(fm * (2 * fm1 - fm) >= 0) by (nonlinear_arith)
                requires
                    fm <= fm1,
            ;
            if n % 2 == 1 {
                assert(n + 1 == 2 * m + 2);
                assert(fib((2 * m + 2) as nat) == fib((2 * m + 1) as nat) + fib((2 * m) as nat));
            } else {
                lemma_fib_monotone((2 * m) as nat, (2 * m + 1) as nat);
            }
        }
        let c = k * (k1 + (k1 - k));
        let d = k1 * k1 + k * k;
        if n % 2 == 1 {
            (d, c + d)
        } else {
            (c, d)
        }
    }
}

} // verus!
