//! Integer factorization by trial division.
use vstd::arithmetic::div_mod::*;
use vstd::arithmetic::mul::*;
use vstd::prelude::*;

use crate::gcd::lemma_divides_combination;
use crate::primality::{is_prime_spec, lemma_cofactor};

verus! {

/// The product of the numbers in `s`.
pub open spec fn product(s: Seq<u64>) -> int
    decreases s.len(),
{
    if s.len() == 0 {
        1
    } else {
        product(s.drop_last()) * s.last()
    }
}

proof fn lemma_product_push(s: Seq<u64>, x: u64)
    ensures
        product(s.push(x)) == product(s) * x,
{
    assert(s.push(x).drop_last() =~= s);
}

/// `k | d` and `d | n` give `k | n`.
proof fn lemma_divides_trans(n: int, d: int, k: int)
    requires
        k > 0,
        d > 0,
        n % d == 0,
        d % k == 0,
    ensures
        n % k == 0,
{
    lemma_fundamental_div_mod(n, d);
    lemma_divides_combination(d, 0, n / d, k);
    lemma_mul_is_commutative(d, n / d);
}

/// Taking out one factor `d` of `n` keeps `n`'s other divisors.
proof fn lemma_divides_quotient(n: int, d: int, k: int)
    requires
        k > 0,
        d > 0,
        n % d == 0,
        (n / d) % k == 0,
    ensures
        n % k == 0,
{
    lemma_fundamental_div_mod(n, d);
    lemma_divides_combination(n / d, 0, d, k);
}

/// A divisor `d` of `n` that is at least 2, where `n` has no divisor in `[2, d)`, is prime.
pub proof fn lemma_least_divisor_prime(n: int, d: int)
    requires
        2 <= d,
        n % d == 0,
        forall|k: int| 2 <= k < d ==> #[trigger] (n % k) != 0,
    ensures
        is_prime_spec(d),
{
    assert forall|k: int| 2 <= k < d implies #[trigger] (d % k) != 0 by {
        if d % k == 0 {
            lemma_divides_trans(n, d, k);
        }
    }
}

/// `n > 1` with no divisor in `[2, d)` where `d * d > n` or `d >= n` is prime.
proof fn lemma_no_small_divisor_prime(n: int, d: int)
    requires
        n > 1,
        d >= 2,
        d > n / d || d >= n,
        forall|k: int| 2 <= k < d ==> #[trigger] (n % k) != 0,
    ensures
        is_prime_spec(n),
        n >= d,
{
    assert forall|k: int| 2 <= k < n implies #[trigger] (n % k) != 0 by {
        if k >= d && n % k == 0 {
            lemma_cofactor(n, k);
            lemma_div_is_ordered_by_denominator(n, d, k);
            let c = n / k;
            assert(n % c != 0);
        }
    }
    if n < d {
        lemma_mod_self_0(n);
    }
}

/// Prime factorization by trial division, in non-decreasing order. Zero and
/// one have no factors.
pub fn trial_division(n: u64) -> (r: Vec<u64>)
    ensures
        n >= 1 ==> product(r@) == n,
        n == 0 ==> r@.len() == 0,
        forall|i: int| 0 <= i < r@.len() ==> is_prime_spec(#[trigger] r@[i] as int),
        forall|i: int, j: int| 0 <= i < j < r@.len() ==> r@[i] <= r@[j],
{
    let n0 = n;
    let mut n = n;
    let mut factorization: Vec<u64> = Vec::new();
    let mut d: u64 = 2;
    while d < n0
        invariant
            2 <= d,
            n0 >= 1 ==> product(factorization@) * n == n0 && n >= 1,
            n0 == 0 ==> n == 0 && factorization@.len() == 0,
            n <= n0,
            forall|k: int| 2 <= k < d ==> #[trigger] (n as int % k) != 0,
            forall|i: int| 0 <= i < factorization@.len() ==> is_prime_spec(#[trigger] factorization@[i] as int),
            forall|i: int| 0 <= i < factorization@.len() ==> #[trigger] factorization@[i] < d,
            forall|i: int, j: int| 0 <= i < j < factorization@.len() ==> factorization@[i] <= factorization@[j],
        ensures
            d >= n0 || d > n / d,
        decreases n0 - d,
    {
        if d > n / d {
            break;
        }
        while n % d == 0
            invariant
                2 <= d < n0,
                n0 >= 1 ==> product(factorization@) * n == n0 && n >= 1,
                n <= n0,
                forall|k: int| 2 <= k < d ==> #[trigger] (n as int % k) != 0,
                forall|i: int| 0 <= i < factorization@.len() ==> is_prime_spec(#[trigger] factorization@[i] as int),
                forall|i: int| 0 <= i < factorization@.len() ==> #[trigger] factorization@[i] <= d,
                forall|i: int, j: int|
                    0 <= i < j < factorization@.len() ==> factorization@[i] <= factorization@[j],
            decreases n,
        {
            proof {
                lemma_least_divisor_prime(n as int, d as int);
                lemma_product_push(factorization@, d);
                lemma_fundamental_div_mod(n as int, d as int);
                assert(product(factorization@) * d * (n / d) == product(factorization@) * n) by (nonlinear_arith)
                    requires
                        n == d * (n / d),
                ;
                assert(1 <= n / d < n) by (nonlinear_arith)
                    requires
                        n == d * (n / d),
                        n >= 1,
                        d >= 2,
                ;
                assert forall|k: int| 2 <= k < d implies #[trigger] ((n / d) as int % k) != 0 by {
                    if (n / d) as int % k == 0 {
                        lemma_divides_quotient(n as int, d as int, k);
                    }
                }
            }
            factorization.push(d);
            n = n / d;
        }
        d = d + 1;
    }
    if n > 1 {
        proof {
            lemma_no_small_divisor_prime(n as int, d as int);
            lemma_product_push(factorization@, n);
        }
        factorization.push(n);
    } else {
        proof {
            if n0 >= 1 {
                assert(n == 1);
                assert(product(factorization@) * 1 == product(factorization@));
            }
        }
    }
    factorization
}

/// Divides every factor `d` out of `n`, recording one `d` per division.
fn divide_out(n: &mut u64, factorization: &mut Vec<u64>, d: u64, Ghost(n0): Ghost<u64>)
    requires
        d >= 2,
        *old(n) >= 1,
        product(old(factorization)@) * *old(n) == n0,
    ensures
        *final(n) >= 1,
        *final(n) <= *old(n),
        product(final(factorization)@) * *final(n) == n0,
        (*final(n) as int) % (d as int) != 0,
        final(factorization)@.len() >= old(factorization)@.len(),
        forall|i: int| 0 <= i < old(factorization)@.len() ==>
            #[trigger] final(factorization)@[i] == old(factorization)@[i],
        forall|i: int| old(factorization)@.len() <= i < final(factorization)@.len() ==>
            #[trigger] final(factorization)@[i] == d,
        forall|k: int| 2 <= k ==> (#[trigger] ((*final(n) as int) % k) == 0 ==> (*old(n) as int) % k == 0),
{
    let ghost start = factorization@;
    let ghost n_start = *n;
    while *n % d == 0
        invariant
            d >= 2,
            *n >= 1,
            *n <= n_start,
            product(factorization@) * *n == n0,
            factorization@.len() >= start.len(),
            forall|i: int| 0 <= i < start.len() ==> #[trigger] factorization@[i] == start[i],
            forall|i: int| start.len() <= i < factorization@.len() ==> #[trigger] factorization@[i] == d,
            forall|k: int| 2 <= k ==> (#[trigger] ((*n as int) % k) == 0 ==> (n_start as int) % k == 0),
        decreases *n,
    {
        let cur = *n;
        proof {
            lemma_product_push(factorization@, d);
            lemma_fundamental_div_mod(cur as int, d as int);
            assert(product(factorization@) * d * (cur / d) == product(factorization@) * cur) by (nonlinear_arith)
                requires
                    cur == d * (cur / d),
            ;
            assert(1 <= cur / d < cur) by (nonlinear_arith)
                requires
                    cur == d * (cur / d),
                    cur >= 1,
                    d >= 2,
            ;
            assert forall|k: int| 2 <= k && #[trigger] (((cur / d) as int) % k) == 0 implies (n_start as int) % k
                == 0 by {
                lemma_divides_quotient(cur as int, d as int, k);
            }
        }
        factorization.push(d);
        *n = cur / d;
    }
}

/// Factorization by trial division over the given list of primes, tried in
/// order while their square does not exceed what remains; the part left
/// above 1 is appended last.
pub fn trial_division_primes_precomputed(n: u64, primes: &[u64]) -> (r: Vec<u64>)
    requires
        forall|i: int| 0 <= i < primes@.len() ==> #[trigger] primes@[i] >= 2,
    ensures
        n >= 1 ==> product(r@) == n,
        n == 0 ==> r@.len() == 0,
        forall|i: int| 0 <= i < r@.len() ==> #[trigger] r@[i] >= 2,
        forall|i: int| 0 <= i < r@.len() - 1 ==> primes@.contains(#[trigger] r@[i]),
{
    let n0 = n;
    let mut n = n;
    let mut factorization: Vec<u64> = Vec::new();
    if n == 0 {
        return factorization;
    }
    let mut idx: usize = 0;
    while idx < primes.len()
        invariant
            n0 >= 1,
            n >= 1,
            product(factorization@) * n == n0,
            forall|i: int| 0 <= i < factorization@.len() ==> #[trigger] factorization@[i] >= 2,
            forall|i: int| 0 <= i < factorization@.len() ==> primes@.contains(#[trigger] factorization@[i]),
            forall|i: int| 0 <= i < primes@.len() ==> #[trigger] primes@[i] >= 2,
        decreases primes.len() - idx,
    {
        let d = primes[idx];
        if d > n / d {
            break;
        }
        let ghost before = factorization@;
        divide_out(&mut n, &mut factorization, d, Ghost(n0));
        proof {
            assert forall|i: int| 0 <= i < factorization@.len() implies primes@.contains(
                #[trigger] factorization@[i],
            ) by {
                if i >= before.len() {
                    assert(primes@[idx as int] == d);
                } else {
                    assert(factorization@[i] == before[i]);
                }
            }
        }
        idx = idx + 1;
    }
    if n > 1 {
        proof {
            lemma_product_push(factorization@, n);
        }
        factorization.push(n);
    } else {
        proof {
            assert(product(factorization@) * 1 == product(factorization@));
        }
    }
    factorization
}

/// Factorization by trial division: first 2, 3 and 5, then candidates from
/// 7 on stepped by the wheel 4, 2, 4, 2, 4, 6, 2, 6 (each step is taken
/// before its candidate is tried); the part left above 1 is appended last.
pub fn trial_division_wheel(n: u64) -> (r: Vec<u64>)
    requires
        n >= 1,
    ensures
        product(r@) == n,
        forall|i: int| 0 <= i < r@.len() ==> #[trigger] r@[i] >= 2,
{
    let n0 = n;
    let mut n = n;
    let mut factorization: Vec<u64> = Vec::new();
    let first: [u64; 3] = [2, 3, 5];
    let mut k: usize = 0;
    assert(first@ =~= seq![2u64, 3, 5]);
    while k < 3
        invariant
            first@ == seq![2u64, 3, 5],
            n >= 1,
            product(factorization@) * n == n0,
            forall|i: int| 0 <= i < factorization@.len() ==> #[trigger] factorization@[i] >= 2,
            forall|i: int| 0 <= i < 3 ==> #[trigger] first@[i] >= 2,
        decreases 3 - k,
    {
        let ghost before = factorization@;
        divide_out(&mut n, &mut factorization, first[k], Ghost(n0));
        proof {
            assert forall|i: int| 0 <= i < factorization@.len() implies #[trigger] factorization@[i] >= 2 by {
                if i < before.len() {
                    assert(factorization@[i] == before[i]);
                }
            }
        }
        k = k + 1;
    }
    let increments: [u64; 8] = [4, 2, 4, 2, 4, 6, 2, 6];
    let mut i: usize = 0;
    let mut d: u64 = 7;
    assert(increments@ =~= seq![4u64, 2, 4, 2, 4, 6, 2, 6]);
    assert forall|j: int| 0 <= j < 8 implies 2 <= #[trigger] increments@[j] <= 6 by {
        assert(increments@[j] == seq![4u64, 2, 4, 2, 4, 6, 2, 6][j]);
    }
    while d <= n / d
        invariant
            forall|j: int| 0 <= j < 8 ==> 2 <= #[trigger] increments@[j] <= 6,
            n >= 1,
            d >= 7,
            i < 8,
            product(factorization@) * n == n0,
            forall|j: int| 0 <= j < factorization@.len() ==> #[trigger] factorization@[j] >= 2,
        decreases n + (u64::MAX - d),
    {
        assert(d < 4294967296) by (nonlinear_arith)
            requires
                d <= n / d,
                d >= 7,
                n <= u64::MAX,
        ;
        assert(d <= n) by (nonlinear_arith)
            requires
                d <= n / d,
                d >= 7,
        ;
        d = d + increments[i];
        i = i + 1;
        let ghost before = factorization@;
        divide_out(&mut n, &mut factorization, d, Ghost(n0));
        proof {
            assert forall|j: int| 0 <= j < factorization@.len() implies #[trigger] factorization@[j] >= 2 by {
                if j < before.len() {
                    assert(factorization@[j] == before[j]);
                }
            }
        }
        if i == 8 {
            i = 0;
        }
    }
    if n > 1 {
        proof {
            lemma_product_push(factorization@, n);
        }
        factorization.push(n);
    } else {
        proof {
            assert(product(factorization@) * 1 == product(factorization@));
        }
    }
    factorization
}

/// `x` is the square of a non-negative integer.
pub open spec fn is_square(x: int) -> bool {
    exists|b: int| 0 <= b && #[trigger] (b * b) == x
}

/// `n == a * a - b * b` with `0 <= b <= a`.
pub open spec fn fermat_pair(n: int, a: int, b: int) -> bool {
    0 <= b <= a && a * a - b * b == n
}

/// Between two consecutive squares lies only one square.
proof fn lemma_square_between(b: int, t: int)
    requires
        0 <= b,
        0 <= t,
        b * b <= t * t < (b + 1) * (b + 1),
    ensures
        b == t,
{
    if t < b {
        assert(t * t < b * b) by (nonlinear_arith)
            requires
                0 <= t < b,
        ;
    } else if t > b {
        assert((b + 1) * (b + 1) <= t * t) by (nonlinear_arith)
            requires
                0 <= b,
                b + 1 <= t,
        ;
    }
}

/// The integer square root: `r * r <= x < (r + 1) * (r + 1)`.
pub(crate) fn isqrt(x: u64) -> (r: u64)
    ensures
        r * r <= x < (r + 1) * (r + 1),
        r < 4294967296,
{
    let mut lo: u64 = 0;
    let mut hi: u64 = 4294967296;
    assert(x < hi * hi) by (nonlinear_arith)
        requires
            x <= u64::MAX,
            hi == 4294967296,
    ;
    while hi - lo > 1
        invariant
            lo < hi <= 4294967296,
            lo * lo <= x < hi * hi,
        decreases hi - lo,
    {
        let mid = lo + (hi - lo) / 2;
        assert(mid * mid < 18446744073709551616) by (nonlinear_arith)
            requires
                mid < 4294967296,
        ;
        if mid * mid <= x {
            lo = mid;
        } else {
            hi = mid;
        }
    }
    assert(hi == lo + 1);
    lo
}

/// Fermat's method: `a - b` for the least `a` with `a * a >= n` such that
/// `a * a - n` is a square `b * b`. Such `a` exists exactly where `n % 4 != 2`.
pub fn fermat_factorization(n: u32) -> (r: u32)
    requires
        n % 4 != 2,
    ensures
        exists|a: int, b: int|
            fermat_pair(n as int, a, b) && r == a - b && forall|c: int|
                0 <= c < a && c * c >= n ==> !is_square(#[trigger] (c * c) - n),
{
    if n == 0 {
        proof {
            assert(fermat_pair(0, 0, 0));
        }
        return 0;
    }
    let ghost target: int = if n % 2 == 1 { (n as int + 1) / 2 } else { n as int / 4 + 1 };
    let ghost tb: int = if n % 2 == 1 { (n as int - 1) / 2 } else { n as int / 4 - 1 };
    proof {
        if n % 2 == 1 {
            let k = n as int / 2;
            assert(n == 2 * k + 1);
            assert(target == k + 1 && tb == k);
            assert(target * target - tb * tb == n) by (nonlinear_arith)
                requires
                    target == k + 1,
                    tb == k,
                    n == 2 * k + 1,
            ;
        } else {
            let q = n as int / 4;
            assert(n == 4 * q);
            assert(q >= 1);
            assert(target == q + 1 && tb == q - 1);
            assert(target * target - tb * tb == n) by (nonlinear_arith)
                requires
                    target == q + 1,
                    tb == q - 1,
                    n == 4 * q,
            ;
        }
    }
    let nn = n as u64;
    let s = isqrt(nn);
    let mut a: u64 = if s * s == nn { s } else { s + 1 };
    proof {
        assert(a * a >= nn) by (nonlinear_arith)
            requires
                a == (if s * s == nn { s as int } else { s + 1 }),
                s * s <= nn < (s + 1) * (s + 1),
        ;
        assert forall|c: int| 0 <= c < a && c * c >= n implies !is_square(#[trigger] (c * c) - n) by {
            assert(false) by (nonlinear_arith)
                requires
                    0 <= c < a,
                    c * c >= nn,
                    a == (if s * s == nn { s as int } else { s + 1 }),
                    s * s <= nn < (s + 1) * (s + 1),
            ;
        }
        if n > 0 {
            assert(a <= target) by (nonlinear_arith)
                requires
                    s * s <= nn,
                    a == (if s * s == nn { s as int } else { s + 1 }),
                    target * target >= nn,
                    target >= 1,
                    (s + 1) * (s + 1) > nn,
            ;
        }
        assert(target <= 2147483648);
        assert(a * a <= 4611686018427387904) by (nonlinear_arith)
            requires
                0 <= a <= target,
                target <= 2147483648,
        ;
    }
    let mut b2: u64 = a * a - nn;
    let mut b: u64 = isqrt(b2);
    while b * b != b2
        invariant
            n > 0,
            nn == n as u64,
            0 <= a <= target,
            target <= 2147483648,
            target * target - tb * tb == n,
            0 <= tb < target,
            a * a >= nn,
            b2 == a * a - nn,
            b * b <= b2 < (b + 1) * (b + 1),
            forall|c: int| 0 <= c < a && c * c >= n ==> !is_square(#[trigger] (c * c) - n),
        decreases target - a,
    {
        proof {
            if a == target {
                assert(b2 == tb * tb);
                lemma_square_between(b as int, tb);
            }
            assert forall|c: int| 0 <= c < a + 1 && c * c >= n implies !is_square(#[trigger] (c * c) - n) by {
                if c == a {
                    if is_square(c * c - n) {
                        let w = choose|w: int| 0 <= w && #[trigger] (w * w) == c * c - n;
                        lemma_square_between(b as int, w);
                    }
                }
            }
            assert((a + 1) * (a + 1) <= 4611686018427387904) by (nonlinear_arith)
                requires
                    a + 1 <= target,
                    target <= 2147483648,
            ;
            assert((a + 1) * (a + 1) >= nn) by (nonlinear_arith)
                requires
                    a * a >= nn,
                    a >= 0,
            ;
        }
        a = a + 1;
        b2 = a * a - nn;
        b = isqrt(b2);
    }
    proof {
        assert(b <= a) by (nonlinear_arith)
            requires
                b * b == b2,
                b2 == a * a - nn,
                a >= 0,
                b >= 0,
        ;
        assert(fermat_pair(n as int, a as int, b as int));
    }
    (a - b) as u32
}

} // verus!
