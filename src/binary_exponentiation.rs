//! Exponentiation by squaring.
use vstd::arithmetic::div_mod::*;
use vstd::arithmetic::mul::*;
use vstd::arithmetic::power::*;
use vstd::prelude::*;

verus! {

/// `x * y mod m`, computed without overflow in a double-width product.
pub fn mul_mod(x: u64, y: u64, m: u64) -> (r: u64)
    requires
        m > 0,
    ensures
        r == (x * y) % (m as int),
        r < m,
{
    assert((x as u128) * (y as u128) <= u128::MAX) by (nonlinear_arith)
        requires
            x <= u64::MAX,
            y <= u64::MAX,
    ;
    let p: u128 = (x as u128) * (y as u128);
    let r: u128 = p % (m as u128);
    r as u64
}

/// One squaring step keeps `res * base^e mod m` unchanged.
proof fn lemma_square_step(res: int, base: int, e: nat, m: int)
    requires
        m > 0,
    ensures
        ((if e % 2 == 1 { (res * base) % m } else { res }) * pow((base * base) % m, e / 2)) % m
            == (res * pow(base, e)) % m,
{
    let h = e / 2;
    let bb = base * base;
    let pb = pow(bb, h);
    let res2 = if e % 2 == 1 { (res * base) % m } else { res };
    lemma_square_is_pow2(base);
    lemma_pow_multiplies(base, 2, h);
    lemma_pow_adds(base, 2 * h, e % 2);
    assert(e == 2 * h + e % 2);
    assert(pow(base, e) == pb * pow(base, e % 2));
    lemma_pow_mod_noop(bb, h, m);
    lemma_mul_mod_noop_general(res2, pow(bb % m, h), m);
    lemma_mul_mod_noop_general(res2, pb, m);
    assert((res2 * pow(bb % m, h)) % m == (res2 * pb) % m);
    if e % 2 == 1 {
        lemma_pow1(base);
        lemma_mul_mod_noop_general(res * base, pb, m);
        assert(res * base * pb == res * (pb * base)) by (nonlinear_arith);
    } else {
        lemma_pow0(base);
    }
}

/// `a^n mod m` by repeated squaring.
pub fn binary_exponentiation_mod(a: u64, n: u64, m: u64) -> (r: u64)
    requires
        m > 0,
    ensures
        r == pow(a as int, n as nat) % (m as int),
{
    let mut base: u64 = a % m;
    let mut e: u64 = n;
    let mut res: u64 = 1 % m;
    proof {
        lemma_pow_mod_noop(a as int, n as nat, m as int);
        lemma_mul_mod_noop_general(1, pow(base as int, e as nat), m as int);
    }
    while e != 0
        invariant
            m > 0,
            res < m,
            (res * pow(base as int, e as nat)) % (m as int) == pow(a as int, n as nat) % (m as int),
        decreases e,
    {
        proof {
            lemma_square_step(res as int, base as int, e as nat, m as int);
        }
        if e % 2 == 1 {
            res = mul_mod(res, base, m);
        }
        base = mul_mod(base, base, m);
        e = e / 2;
    }
    proof {
        lemma_pow0(base as int);
        lemma_small_mod(res as nat, m as nat);
    }
    res
}

/// Splitting off the low bit of the exponent: `b^e == (b * b)^(e / 2) * b^(e % 2)`.
proof fn lemma_pow_halve(b: int, e: nat)
    ensures
        pow(b, e) == pow(b * b, e / 2) * (if e % 2 == 1 { b } else { 1 }),
{
    lemma_square_is_pow2(b);
    lemma_pow_multiplies(b, 2, e / 2);
    lemma_pow_adds(b, 2 * (e / 2), e % 2);
    assert(e == 2 * (e / 2) + e % 2);
    if e % 2 == 1 {
        lemma_pow1(b);
    } else {
        lemma_pow0(b);
    }
}

/// `a^n`, where the result fits in a `u64`.
pub fn binary_exponentiation(a: u64, n: u64) -> (r: u64)
    requires
        pow(a as int, n as nat) <= u64::MAX,
    ensures
        r == pow(a as int, n as nat),
{
    let ghost total = pow(a as int, n as nat);
    let mut res: u64 = 1;
    let mut base: u64 = a;
    let mut e: u64 = n;
    while e != 0
        invariant
            total <= u64::MAX,
            res * pow(base as int, e as nat) == total,
            a == 0 ==> base == 0,
            a > 0 ==> base >= 1 && res >= 1,
        decreases e,
    {
        let ghost bb = base as int * base as int;
        let ghost h = (e / 2) as nat;
        proof {
            lemma_pow_halve(base as int, e as nat);
            if base >= 1 {
                assert(bb >= 1) by (nonlinear_arith)
                    requires
                        base >= 1,
                        bb == base as int * base as int,
                ;
                lemma_pow_positive(bb, h);
                if h >= 1 {
                    lemma_pow_increases(bb as nat, 1, h);
                    lemma_pow1(bb);
                }
            } else {
                assert(base == 0);
            }
            let res2 = if e % 2 == 1 { res * base } else { res as int };
            assert(total == res2 * pow(bb, h)) by (nonlinear_arith)
                requires
                    res * pow(base as int, e as nat) == total,
                    pow(base as int, e as nat) == pow(bb, h) * (if e % 2 == 1 { base as int } else { 1 }),
                    res2 == (if e % 2 == 1 { res * base } else { res as int }),
            ;
            if base >= 1 {
                assert(res2 <= total) by (nonlinear_arith)
                    requires
                        total == res2 * pow(bb, h),
                        pow(bb, h) >= 1,
                        res2 >= 0,
                ;
                if e % 2 == 1 {
                    assert(res * base >= 1) by (nonlinear_arith)
                        requires
                            res >= 1,
                            base >= 1,
                    ;
                }
                assert(res2 >= 1);
                if h >= 1 {
                    let ph = pow(bb, h);
                    assert(res2 * ph >= ph) by (nonlinear_arith)
                        requires
                            res2 >= 1,
                            ph >= 0,
                    ;
                }
            }
        }
        if e % 2 == 1 {
            res = res * base;
        }
        e = e / 2;
        if e != 0 {
            base = base * base;
        }
        proof {
            if e == 0 {
                lemma_pow0(base as int);
                lemma_pow0(bb);
            }
        }
    }
    proof {
        lemma_pow0(base as int);
    }
    res
}

} // verus!
