//! Euclid's algorithm and its extended form.
use vstd::arithmetic::div_mod::*;
use vstd::prelude::*;

verus! {

/// The greatest common divisor, by Euclid's recurrence.
pub open spec fn gcd_spec(a: nat, b: nat) -> nat
    decreases b,
{
    if b == 0 {
        a
    } else {
        gcd_spec(b, a % b)
    }
}

/// If `g` divides `x` and `y`, it divides `k * x + y`.
pub proof fn lemma_divides_combination(x: int, y: int, k: int, g: int)
    requires
        g > 0,
        x % g == 0,
        y % g == 0,
    ensures
        (k * x + y) % g == 0,
{
    lemma_fundamental_div_mod(x, g);
    lemma_fundamental_div_mod(y, g);
    let q = k * (x / g) + y / g;
    assert(k * x + y == q * g) by (nonlinear_arith)
        requires
            x == g * (x / g),
            y == g * (y / g),
            q == k * (x / g) + y / g,
    ;
    lemma_mod_multiples_basic(q, g);
}

/// The greatest common divisor divides both arguments, and is zero only for `(0, 0)`.
pub proof fn lemma_gcd_divides(a: nat, b: nat)
    ensures
        gcd_spec(a, b) == 0 <==> (a == 0 && b == 0),
        gcd_spec(a, b) > 0 ==> a % gcd_spec(a, b) == 0 && b % gcd_spec(a, b) == 0,
    decreases b,
{
    if b == 0 {
        if a > 0 {
            lemma_mod_self_0(a as int);
            lemma_small_mod(0, a);
        }
    } else {
        lemma_gcd_divides(b, a % b);
        let g = gcd_spec(a, b);
        lemma_fundamental_div_mod(a as int, b as int);
        lemma_divides_combination(b as int, (a % b) as int, (a / b) as int, g as int);
        assert(a as int == (a / b) as int * b as int + (a % b) as int) by (nonlinear_arith)
            requires
                a as int == b as int * (a as int / b as int) + (a as int % b as int),
        ;
    }
}

/// Every common divisor of `a` and `b` divides their greatest common divisor.
pub proof fn lemma_gcd_greatest(a: nat, b: nat, d: int)
    requires
        d > 0,
        a as int % d == 0,
        b as int % d == 0,
    ensures
        gcd_spec(a, b) as int % d == 0,
    decreases b,
{
    if b > 0 {
        lemma_fundamental_div_mod(a as int, b as int);
        lemma_divides_combination(b as int, a as int, -((a / b) as int), d);
        assert((a % b) as int == -((a / b) as int) * b as int + a as int) by (nonlinear_arith)
            requires
                a as int == b as int * (a as int / b as int) + (a as int % b as int),
        ;
        lemma_gcd_greatest(b, a % b, d);
    }
}

/// The greatest common divisor does not depend on the order of its arguments.
pub proof fn lemma_gcd_commutes(a: nat, b: nat)
    ensures
        gcd_spec(a, b) == gcd_spec(b, a),
{
    let g1 = gcd_spec(a, b);
    let g2 = gcd_spec(b, a);
    lemma_gcd_divides(a, b);
    lemma_gcd_divides(b, a);
    if g1 > 0 {
        lemma_gcd_greatest(a, b, g2 as int);
        lemma_gcd_greatest(b, a, g1 as int);
        lemma_mod_is_zero(g1, g2);
        lemma_mod_is_zero(g2, g1);
    }
}

/// Euclid's step taken on the first argument: `gcd(b mod a, a) == gcd(a, b)`.
pub proof fn lemma_gcd_step_first(a: nat, b: nat)
    requires
        a > 0,
    ensures
        gcd_spec(b % a, a) == gcd_spec(a, b),
{
    lemma_mod_twice(b as int, a as int);
    assert(gcd_spec(b % a, a) == gcd_spec(a, b % a));
    assert(gcd_spec(b, a) == gcd_spec(a, b % a));
    lemma_gcd_commutes(a, b);
}

/// GCD(a, b) by Euclid's algorithm, recursively.
pub fn gcd(a: u64, b: u64) -> (r: u64)
    ensures
        r == gcd_spec(a as nat, b as nat),
    decreases b,
{
    if b == 0 {
        a
    } else {
        gcd(b, a % b)
    }
}

/// GCD(a, b) by Euclid's algorithm, with a loop.
pub fn gcd_non_recursive(a: u64, b: u64) -> (r: u64)
    ensures
        r == gcd_spec(a as nat, b as nat),
{
    let mut a = a;
    let mut b = b;
    let ghost a0 = a;
    let ghost b0 = b;
    while b != 0
        invariant
            gcd_spec(a as nat, b as nat) == gcd_spec(a0 as nat, b0 as nat),
        decreases b,
    {
        let t = a % b;
        a = b;
        b = t;
    }
    a
}

/// Coefficients `(x, y)` with `a * x + b * y == gcd(a, b)`, by the extended
/// Euclidean algorithm.
pub fn gcd_extended(a: i64, b: i64) -> (r: (i64, i64))
    requires
        a >= 0,
        b >= 0,
    ensures
        a * r.0 + b * r.1 == gcd_spec(a as nat, b as nat),
        a == 0 ==> r == (0i64, 1i64),
        -(if b > 1 { b as int } else { 1 }) <= r.0 <= (if b > 1 { b as int } else { 1 }),
        -(if a > 1 { a as int } else { 1 }) <= r.1 <= (if a > 1 { a as int } else { 1 }),
{
    let ((x, y), _g) = gcd_extended1(a, b);
    (x, y)
}

/// Coefficients `(x, y)` and `g == gcd(a, b)` with `a * x + b * y == g`, by
/// the extended Euclidean algorithm.
pub fn gcd_extended1(a: i64, b: i64) -> (r: ((i64, i64), i64))
    requires
        a >= 0,
        b >= 0,
    ensures
        r.1 == gcd_spec(a as nat, b as nat),
        a * r.0.0 + b * r.0.1 == r.1,
        a == 0 ==> r.0 == (0i64, 1i64),
        -(if b > 1 { b as int } else { 1 }) <= r.0.0 <= (if b > 1 { b as int } else { 1 }),
        -(if a > 1 { a as int } else { 1 }) <= r.0.1 <= (if a > 1 { a as int } else { 1 }),
    decreases a,
{
    if a == 0 {
        proof {
            lemma_gcd_commutes(0, b as nat);
        }
        ((0, 1), b)
    } else {
        let rem = b % a;
        let res = gcd_extended1(rem, a);
        let x1 = res.0.0;
        let y1 = res.0.1;
        let g = res.1;
        let q = b / a;
        proof {
            lemma_gcd_step_first(a as nat, b as nat);
            lemma_fundamental_div_mod(b as int, a as int);
            assert(0 <= q * (a as int) <= b) by (nonlinear_arith)
                requires
                    q == b / a,
                    a > 0,
                    b >= 0,
                    b == a * (b / a) + b % a,
                    b % a >= 0,
            ;
            assert(rem == b % a);
            if rem == 0 {
                assert(x1 == 0 && y1 == 1);
                assert(q * x1 == 0) by (nonlinear_arith)
                    requires
                        x1 == 0,
                ;
            } else {
                assert(-(q * a) <= q * x1 <= q * a) by (nonlinear_arith)
                    requires
                        -a <= x1 <= a,
                        q >= 0,
                ;
                assert(q * a + b % a == b) by (nonlinear_arith)
                    requires
                        b == a * (b / a) + b % a,
                        q == b / a,
                ;
                assert(-(b as int) <= y1 - q * x1 <= b);
            }
            assert(a * (y1 - q * x1) + b * x1 == (b % a) * x1 + a * y1) by (nonlinear_arith)
                requires
                    b == a * q + b % a,
            ;
        }
        ((y1 - q * x1, x1), g)
    }
}

/// LCM(a, b), as `a / gcd(a, b) * b`.
pub fn lcm(a: u64, b: u64) -> (r: u64)
    requires
        a > 0 || b > 0,
        (a as nat / gcd_spec(a as nat, b as nat)) * b as nat <= u64::MAX,
    ensures
        r == (a as nat / gcd_spec(a as nat, b as nat)) * b as nat,
{
    proof {
        lemma_gcd_divides(a as nat, b as nat);
    }
    let g = gcd(a, b);
    (a / g) * b
}

} // verus!
