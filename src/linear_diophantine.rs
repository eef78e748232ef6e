//! Linear Diophantine equations `a * x + b * y == c`.
use vstd::arithmetic::div_mod::*;
use vstd::prelude::*;

use crate::gcd::{gcd_extended1, gcd_spec, lemma_divides_combination, lemma_gcd_divides};

verus! {

/// A pair `(x, y)`.
#[derive(Clone, Copy, Debug, PartialEq, Eq)]
pub struct Solution(pub i64, pub i64);

/// `|v|`.
pub open spec fn abs(v: int) -> int {
    if v < 0 {
        -v
    } else {
        v
    }
}

/// Coefficients and greatest common divisor, by the extended Euclidean
/// algorithm: `a * x + b * y == g == gcd(a, b)`.
pub fn gcd(a: i64, b: i64) -> (r: (Solution, i64))
    requires
        a >= 0,
        b >= 0,
    ensures
        r.1 == gcd_spec(a as nat, b as nat),
        a * r.0.0 + b * r.0.1 == r.1,
        -(if b > 1 { b as int } else { 1 }) <= r.0.0 <= (if b > 1 { b as int } else { 1 }),
        -(if a > 1 { a as int } else { 1 }) <= r.0.1 <= (if a > 1 { a as int } else { 1 }),
{
    let ((x, y), g) = gcd_extended1(a, b);
    (Solution(x, y), g)
}

/// Moves a solution of `a * x + b * y == c` by `offset` steps along the
/// solution line, for `a_g == a / g` and `b_g == b / g`.
pub fn shift_solution(s: Solution, a_g: i64, b_g: i64, offset: i64) -> (r: Solution)
    requires
        i64::MIN <= offset * b_g <= i64::MAX,
        i64::MIN <= offset * a_g <= i64::MAX,
        i64::MIN <= s.0 + offset * b_g <= i64::MAX,
        i64::MIN <= s.1 - offset * a_g <= i64::MAX,
    ensures
        r.0 == s.0 + offset * b_g,
        r.1 == s.1 - offset * a_g,
{
    Solution(s.0 + offset * b_g, s.1 - offset * a_g)
}

/// One integer solution of `a * x + b * y == c`, with `g == gcd(|a|, |b|)`,
/// or `None` where `g` does not divide `c` and no solution exists.
pub fn find_one_solution(a: i64, b: i64, c: i64) -> (r: Option<(Solution, i64)>)
    requires
        a != 0 || b != 0,
        a > i64::MIN,
        b > i64::MIN,
        c > i64::MIN,
        abs(c as int) * (if abs(a as int) > abs(b as int) { abs(a as int) } else { abs(b as int) })
            <= i64::MAX,
    ensures
        r.is_none() <==> (c as int) % (gcd_spec(abs(a as int) as nat, abs(b as int) as nat) as int) != 0,
        r.is_none() ==> forall|x: int, y: int| #[trigger] (a * x + b * y) != c,
        r matches Some((s, g)) ==> g == gcd_spec(abs(a as int) as nat, abs(b as int) as nat) && a * s.0
            + b * s.1 == c,
{
    let aa: i64 = if a < 0 { -a } else { a };
    let ab: i64 = if b < 0 { -b } else { b };
    let (s, g) = gcd(aa, ab);
    proof {
        lemma_gcd_divides(aa as nat, ab as nat);
    }
    let rem: i64 = match c.checked_rem_euclid(g) {
        Some(v) => v,
        None => 0,
    };
    if rem != 0 {
        proof {
            assert forall|x: int, y: int| #[trigger] (a * x + b * y) != c by {
                if a * x + b * y == c {
                    lemma_divides_combination(aa as int, 0, if a < 0 { -x } else { x }, g as int);
                    lemma_divides_combination(
                        ab as int,
                        (if a < 0 { -x } else { x }) * aa,
                        if b < 0 { -y } else { y },
                        g as int,
                    );
                    assert((if b < 0 { -y } else { y }) * ab + ((if a < 0 { -x } else { x }) * aa + 0) == a * x
                        + b * y) by (nonlinear_arith)
                        requires
                            aa == (if a < 0 { -a } else { a as int }),
                            ab == (if b < 0 { -b } else { b as int }),
                    ;
                }
            }
        }
        None
    } else {
        proof {
            lemma_fundamental_div_mod(c as int, g as int);
            lemma_mod_bound(c as int, g as int);
            let q = c as int / g as int;
            assert(i64::MIN <= q <= i64::MAX) by (nonlinear_arith)
                requires
                    c == g * q + (c as int) % (g as int),
                    0 <= (c as int) % (g as int) < g,
                    g >= 1,
                    i64::MIN < c <= i64::MAX,
            ;
        }
        let mult: i64 = match c.checked_div_euclid(g) {
            Some(v) => v,
            None => 0,
        };
        let ghost m = mult as int;
        let ghost mx = if a < 0 { -m } else { m };
        let ghost my = if b < 0 { -m } else { m };
        proof {
            lemma_fundamental_div_mod(c as int, g as int);
            assert(c == g * m);
            let big = if aa > ab { aa as int } else { ab as int };
            assert(g >= 1);
            assert(abs(m) <= abs(c as int)) by (nonlinear_arith)
                requires
                    c == g * m,
                    g >= 1,
            ;
            assert(-(abs(c as int) * big) <= s.0 * mx <= abs(c as int) * big) by (nonlinear_arith)
                requires
                    -(if ab > 1 { ab as int } else { 1 }) <= s.0 <= (if ab > 1 { ab as int } else { 1 }),
                    abs(mx) == abs(m),
                    abs(m) <= abs(c as int),
                    big >= ab,
                    big >= 1,
            ;
            assert(-(abs(c as int) * big) <= s.1 * my <= abs(c as int) * big) by (nonlinear_arith)
                requires
                    -(if aa > 1 { aa as int } else { 1 }) <= s.1 <= (if aa > 1 { aa as int } else { 1 }),
                    abs(my) == abs(m),
                    abs(m) <= abs(c as int),
                    big >= aa,
                    big >= 1,
            ;
            assert(a * (s.0 * mx) + b * (s.1 * my) == c) by (nonlinear_arith)
                requires
                    aa * s.0 + ab * s.1 == g,
                    c == g * m,
                    aa == (if a < 0 { -a } else { a as int }),
                    ab == (if b < 0 { -b } else { b as int }),
                    mx == (if a < 0 { -m } else { m }),
                    my == (if b < 0 { -m } else { m }),
            ;
        }
        let x = s.0 * if a < 0 { -mult } else { mult };
        let y = s.1 * if b < 0 { -mult } else { mult };
        Some((Solution(x, y), g))
    }
}

} // verus!
