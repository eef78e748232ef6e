//! Primality tests: trial division and the Miller-Rabin test.
use vstd::arithmetic::div_mod::*;
use vstd::arithmetic::mul::*;
use vstd::arithmetic::power::*;
use vstd::arithmetic::power2::*;
use vstd::prelude::*;

use crate::binary_exponentiation::{binary_exponentiation_mod, mul_mod};

verus! {

/// `n` is at least 2 and has no divisor strictly between 1 and itself.
pub open spec fn is_prime_spec(n: int) -> bool {
    n >= 2 && forall|d: int| 2 <= d < n ==> #[trigger] (n % d) != 0
}

/// A divisor `k` of `x` with `2 <= k < x` has a cofactor `x / k >= 2` that divides `x`.
pub proof fn lemma_cofactor(x: int, k: int)
    requires
        2 <= k < x,
        x % k == 0,
    ensures
        2 <= x / k,
        x % (x / k) == 0,
{
    lemma_fundamental_div_mod(x, k);
    let q = x / k;
    assert(x == k * q);
    assert(q >= 2) by (nonlinear_arith)
        requires
            x == k * q,
            2 <= k < x,
    ;
    lemma_mod_multiples_basic(k, q);
    lemma_mul_is_commutative(k, q);
}

/// Trial division up to the square root. Values below 2 are reported as prime.
pub fn is_prime(x: i64) -> (r: bool)
    ensures
        r == (x < 2 || is_prime_spec(x as int)),
{
    if x < 2 {
        return true;
    }
    let mut d: i64 = 2;
    while d < x
        invariant
            2 <= d <= x,
            forall|k: int| 2 <= k < d ==> #[trigger] (x as int % k) != 0,
        decreases x - d,
    {
        if d > x / d {
            proof {
                assert forall|k: int| 2 <= k < x implies #[trigger] (x as int % k) != 0 by {
                    if k >= d && x as int % k == 0 {
                        lemma_cofactor(x as int, k);
                        lemma_div_is_ordered_by_denominator(x as int, d as int, k);
                        let c = x as int / k;
                        assert(c < d);
                        assert(x as int % c != 0);
                    }
                }
            }
            return true;
        }
        if x % d == 0 {
            return false;
        }
        d = d + 1;
    }
    true
}

/// The odd part of `x`: `x` with every factor 2 taken out.
pub open spec fn odd_part(x: nat) -> nat
    decreases x,
{
    if x == 0 || x % 2 == 1 {
        x
    } else {
        odd_part(x / 2)
    }
}

/// How many factors 2 divide `x`, for `x > 0`.
pub open spec fn two_valuation(x: nat) -> nat
    decreases x,
{
    if x == 0 || x % 2 == 1 {
        0
    } else {
        1 + two_valuation(x / 2)
    }
}

/// `a^(d * 2^r) mod n`.
pub open spec fn squaring_term(n: int, a: int, d: nat, r: nat) -> int {
    pow(a, d * pow2(r)) % n
}

/// `a` proves `n` composite, for `n - 1 == d * 2^s`: `a^d mod n` is not 1,
/// and `a^(d * 2^r) mod n` is not `n - 1` for `r == 0` nor for any `r < s`.
pub open spec fn strong_witness(n: int, a: int, d: nat, s: nat) -> bool {
    pow(a, d) % n != 1 && forall|r: nat| (r == 0 || r < s) ==> #[trigger] squaring_term(n, a, d, r) != n - 1
}

/// The fixed witness set, which decides primality for every 64-bit input.
pub open spec fn witnesses() -> Seq<int> {
    seq![2, 3, 5, 7, 11, 13, 17, 19, 23, 29, 31, 37]
}

/// `n` passes the witnesses from index `k` on: each is either `n` itself,
/// which ends the test, or not a strong witness against `n`.
pub open spec fn passes_witnesses_from(n: nat, k: nat) -> bool
    decreases 12 - k,
{
    if k >= 12 {
        true
    } else if n == witnesses()[k as int] {
        true
    } else {
        !strong_witness(n as int, witnesses()[k as int], odd_part((n - 1) as nat), two_valuation((n - 1) as nat))
            && passes_witnesses_from(n, k + 1)
    }
}

/// What the deterministic Miller-Rabin test answers on `n`.
pub open spec fn miller_rabin_accepts(n: nat) -> bool {
    if n < 4 {
        n == 2 || n == 3
    } else {
        passes_witnesses_from(n, 0)
    }
}

/// Squaring one term gives the next.
proof fn lemma_squaring_term_next(n: int, a: int, d: nat, r: nat)
    requires
        n > 0,
    ensures
        (squaring_term(n, a, d, r) * squaring_term(n, a, d, r)) % n == squaring_term(n, a, d, r + 1),
{
    let k = d * pow2(r);
    lemma_pow2_unfold(r + 1);
    assert(d * pow2(r + 1) == k + k) by (nonlinear_arith)
        requires
            pow2(r + 1) == 2 * pow2(r),
            k == d * pow2(r),
    ;
    lemma_pow_adds(a, k, k);
    lemma_mul_mod_noop_general(pow(a, k), pow(a, k), n);
}

fn check_composite(n: u64, a: u64, d: u64, s: u64) -> (r: bool)
    requires
        n > 1,
    ensures
        r == strong_witness(n as int, a as int, d as nat, s as nat),
{
    let mut x: u64 = binary_exponentiation_mod(a, d, n);
    proof {
        lemma_pow2(0);
        lemma_pow0(2);
        assert(pow2(0) == 1);
        assert(d * pow2(0) == d);
        assert(x == squaring_term(n as int, a as int, d as nat, 0));
    }
    if x == 1 || x == n - 1 {
        return false;
    }
    let mut i: u64 = 1;
    while i < s
        invariant
            n > 1,
            1 <= i,
            i <= s || s <= 1,
            x == squaring_term(n as int, a as int, d as nat, (i - 1) as nat),
            pow(a as int, d as nat) % (n as int) != 1,
            forall|r: nat| r < i ==> #[trigger] squaring_term(n as int, a as int, d as nat, r) != n - 1,
        decreases s - i,
    {
        proof {
            lemma_squaring_term_next(n as int, a as int, d as nat, (i - 1) as nat);
        }
        x = mul_mod(x, x, n);
        if x == n - 1 {
            return false;
        }
        i = i + 1;
    }
    true
}

/// The witness at position `k` of the fixed set.
fn witness(k: usize) -> (r: u64)
    requires
        k < 12,
    ensures
        r == witnesses()[k as int],
{
    let ws: [u64; 12] = [2, 3, 5, 7, 11, 13, 17, 19, 23, 29, 31, 37];
    assert(ws@ =~= seq![2u64, 3, 5, 7, 11, 13, 17, 19, 23, 29, 31, 37]);
    ws[k]
}

/// Deterministic Miller-Rabin test over the witnesses 2, 3, 5, ..., 37.
pub fn deterministic_millerrabin(n: u64) -> (r: bool)
    ensures
        r == miller_rabin_accepts(n as nat),
{
    if n < 4 {
        return n == 2 || n == 3;
    }
    let mut s: u64 = 0;
    let mut d: u64 = n - 1;
    while d % 2 == 0
        invariant
            d > 0,
            s + d <= n - 1,
            odd_part(d as nat) == odd_part((n - 1) as nat),
            s + two_valuation(d as nat) == two_valuation((n - 1) as nat),
        decreases d,
    {
        s = s + 1;
        d = d / 2;
    }
    let mut k: usize = 0;
    while k < 12
        invariant
            n >= 4,
            d == odd_part((n - 1) as nat),
            s == two_valuation((n - 1) as nat),
            passes_witnesses_from(n as nat, 0) == passes_witnesses_from(n as nat, k as nat),
        decreases 12 - k,
    {
        let a = witness(k);
        if n == a {
            return true;
        }
        if check_composite(n, a, d, s) {
            return false;
        }
        k = k + 1;
    }
    true
}

/// Relies on `rand::thread_rng` and `RngCore::next_u64`: a random `u64`, of
/// which nothing is assumed.
#[verifier::external_body]
fn random_u64() -> u64 {
    rand::RngCore::next_u64(&mut rand::thread_rng())
}

/// The base a random draw `x` selects for `n >= 4`: `2 + x mod (n - 3)`, in `[2, n - 2]`.
pub open spec fn base_of_draw(n: int, x: int) -> int {
    2 + x % (n - 3)
}

/// One Fermat round on `n >= 4` with the base selected by the draw `x`:
/// true where `base^(n-1) mod n == 1`.
pub fn fermat_round(n: u64, x: u64) -> (r: bool)
    requires
        n >= 4,
    ensures
        2 <= base_of_draw(n as int, x as int) <= n - 2,
        r == (pow(base_of_draw(n as int, x as int), (n - 1) as nat) % (n as int) == 1),
{
    let a = 2 + x % (n - 3);
    binary_exponentiation_mod(a, n - 1, n) == 1
}

/// Fermat probable-prime test with `iter` random bases. Values below 4 are
/// decided exactly; a `false` answer comes with a base that proves `n` composite.
pub fn probably_prime_fermat(n: u64, iter: u64) -> (r: bool)
    ensures
        n < 4 ==> r == (n == 2 || n == 3),
        n >= 4 && !r ==> exists|a: int| 2 <= a <= n - 2 && #[trigger] pow(a, (n - 1) as nat) % (n as int) != 1,
{
    if n < 4 {
        return n == 2 || n == 3;
    }
    let mut k: u64 = 0;
    while k < iter
        invariant
            n >= 4,
        decreases iter - k,
    {
        let x = random_u64();
        if !fermat_round(n, x) {
            return false;
        }
        k = k + 1;
    }
    true
}

/// One Miller-Rabin round on `n >= 4`, for `n - 1 == d * 2^s`, with the base
/// selected by the draw `x`: true where that base is no strong witness.
pub fn miller_rabin_round(n: u64, d: u64, s: u64, x: u64) -> (r: bool)
    requires
        n >= 4,
    ensures
        2 <= base_of_draw(n as int, x as int) <= n - 2,
        r == !strong_witness(n as int, base_of_draw(n as int, x as int), d as nat, s as nat),
{
    let a = 2 + x % (n - 3);
    !check_composite(n, a, d, s)
}

/// Miller-Rabin test with five random bases. Values below 4 are decided
/// exactly; a `false` answer comes with a strong witness that proves `n` composite.
pub fn non_deterministic_millerrabin(n: u64) -> (r: bool)
    ensures
        n < 4 ==> r == (n == 2 || n == 3),
        n >= 4 && !r ==> exists|a: int|
            2 <= a <= n - 2 && #[trigger] strong_witness(
                n as int,
                a,
                odd_part((n - 1) as nat),
                two_valuation((n - 1) as nat),
            ),
{
    if n < 4 {
        return n == 2 || n == 3;
    }
    let mut s: u64 = 0;
    let mut d: u64 = n - 1;
    while d % 2 == 0
        invariant
            d > 0,
            s + d <= n - 1,
            odd_part(d as nat) == odd_part((n - 1) as nat),
            s + two_valuation(d as nat) == two_valuation((n - 1) as nat),
        decreases d,
    {
        s = s + 1;
        d = d / 2;
    }
    let mut k: u32 = 0;
    while k < 5
        invariant
            n >= 4,
            d == odd_part((n - 1) as nat),
            s == two_valuation((n - 1) as nat),
        decreases 5 - k,
    {
        let x = random_u64();
        if !miller_rabin_round(n, d, s, x) {
            return false;
        }
        k = k + 1;
    }
    true
}

} // verus!
