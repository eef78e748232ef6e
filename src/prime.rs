//! Prime enumeration by sieving.
use vstd::arithmetic::div_mod::*;
use vstd::prelude::*;

use crate::factorization::{isqrt, lemma_least_divisor_prime};
use crate::gcd::lemma_divides_combination;
use crate::primality::is_prime_spec;

verus! {

/// `m` has no divisor in `[2, p)`.
pub open spec fn no_divisor_below(m: int, p: int) -> bool {
    forall|k: int| 2 <= k < p ==> #[trigger] (m % k) != 0
}

/// The least divisor of `x` that is at least `k`.
pub open spec fn least_divisor_from(x: int, k: int) -> int
    decreases x - k,
{
    if k >= x {
        x
    } else if x % k == 0 {
        k
    } else {
        least_divisor_from(x, k + 1)
    }
}

/// The least divisor from `k` on, where `x` has none below `k`, divides `x`
/// and leaves none below it.
proof fn lemma_least_divisor(x: int, k: int)
    requires
        2 <= k <= x,
        no_divisor_below(x, k),
    ensures
        2 <= least_divisor_from(x, k) <= x,
        x % least_divisor_from(x, k) == 0,
        no_divisor_below(x, least_divisor_from(x, k)),
    decreases x - k,
{
    if k >= x {
        lemma_mod_self_0(x);
    } else if x % k == 0 {
    } else {
        lemma_least_divisor(x, k + 1);
    }
}

/// A composite `i` is `m * p` for its least divisor `p` and some `m >= 2`
/// that has no divisor below `p`.
proof fn lemma_composite_split(i: int) -> (r: (int, int))
    requires
        i >= 2,
        !is_prime_spec(i),
    ensures
        2 <= r.0 < i,
        is_prime_spec(r.1),
        r.0 * r.1 == i,
        no_divisor_below(r.0, r.1),
{
    lemma_least_divisor(i, 2);
    let p = least_divisor_from(i, 2);
    lemma_least_divisor_prime(i, p);
    if p == i {
        assert(is_prime_spec(i));
    }
    lemma_fundamental_div_mod(i, p);
    let m = i / p;
    assert(2 <= m < i) by (nonlinear_arith)
        requires
            i == p * m,
            2 <= p < i,
    ;
    assert forall|k: int| 2 <= k < p implies #[trigger] (m % k) != 0 by {
        if m % k == 0 {
            lemma_divides_combination(m, 0, p, k);
            assert(p * m + 0 == i);
        }
    }
    (m, p)
}

/// The primes up to `n`, in increasing order, by the linear sieve.
pub fn primes(n: usize) -> (r: Vec<usize>)
    requires
        n < usize::MAX,
    ensures
        forall|a: int, b: int| 0 <= a < b < r@.len() ==> r@[a] < r@[b],
        forall|a: int| 0 <= a < r@.len() ==> is_prime_spec(#[trigger] r@[a] as int) && r@[a] <= n,
        forall|p: int| 0 <= p <= n && is_prime_spec(p) ==> r@.contains(p as usize),
{
    let mut ret: Vec<usize> = Vec::new();
    if n < 2 {
        return ret;
    }
    let mut lp: Vec<usize> = Vec::new();
    let mut t: usize = 0;
    while t <= n
        invariant
            n < usize::MAX,
            t <= n + 1,
            lp@.len() == t,
            forall|x: int| 0 <= x < t ==> #[trigger] lp@[x] == 0,
        decreases n + 1 - t,
    {
        lp.push(0);
        t = t + 1;
    }
    let mut i: usize = 2;
    while i <= n
        invariant
            n < usize::MAX,
            2 <= i <= n + 1,
            lp@.len() == n + 1,
            forall|a: int, b: int| 0 <= a < b < ret@.len() ==> ret@[a] < ret@[b],
            forall|a: int| 0 <= a < ret@.len() ==> is_prime_spec(#[trigger] ret@[a] as int) && ret@[a] < i,
            forall|p: int| 2 <= p < i && is_prime_spec(p) ==> ret@.contains(p as usize),
            forall|x: int|
                2 <= x <= n && #[trigger] lp@[x] != 0 ==> 2 <= lp@[x] <= x && x % (lp@[x] as int) == 0,
            forall|x: int| i <= x <= n && #[trigger] lp@[x] != 0 ==> lp@[x] < x,
            forall|x: int| 2 <= x < i ==> #[trigger] lp@[x] != 0,
            forall|m: int, p: int|
                #![trigger no_divisor_below(m, p), is_prime_spec(p)]
                2 <= m < i && is_prime_spec(p) && m * p <= n && no_divisor_below(m, p) ==> lp@[m * p] != 0,
        decreases n + 1 - i,
    {
        let ghost ret_before = ret@;
        if lp[i] == 0 {
            proof {
                if !is_prime_spec(i as int) {
                    let (m, p) = lemma_composite_split(i as int);
                    assert(no_divisor_below(m, p));
                    assert(lp@[m * p] != 0);
                }
            }
            lp.set(i, i);
            proof {
                lemma_mod_self_0(i as int);
            }
            ret.push(i);
        } else {
            proof {
                assert(!is_prime_spec(i as int)) by {
                    let d = lp@[i as int] as int;
                    assert(2 <= d < i && (i as int) % d == 0);
                }
            }
        }
        proof {
            assert forall|p: int| 2 <= p < i + 1 && is_prime_spec(p) implies ret@.contains(p as usize) by {
                if p == i {
                    assert(ret@[ret@.len() - 1] == i);
                } else {
                    assert(ret_before.contains(p as usize));
                    let idx = choose|idx: int| 0 <= idx < ret_before.len() && ret_before[idx] == p as usize;
                    assert(ret@[idx] == p as usize);
                }
            }
        }
        let li = lp[i];
        let ghost lp_mid = lp@;
        let mut j: usize = 0;
        while j < ret.len()
            invariant
                n < usize::MAX,
                2 <= i <= n,
                lp@.len() == n + 1,
                lp_mid.len() == n + 1,
                forall|p: int| 2 <= p < i + 1 && is_prime_spec(p) ==> ret@.contains(p as usize),
                li == lp@[i as int],
                2 <= li <= i,
                (i as int) % (li as int) == 0,
                j <= ret@.len(),
                forall|a: int, b: int| 0 <= a < b < ret@.len() ==> ret@[a] < ret@[b],
                forall|a: int| 0 <= a < ret@.len() ==> is_prime_spec(#[trigger] ret@[a] as int) && ret@[a] <= i,
                forall|x: int|
                    2 <= x <= n && #[trigger] lp@[x] != 0 ==> 2 <= lp@[x] <= x && x % (lp@[x] as int) == 0,
                forall|x: int| i < x <= n && #[trigger] lp@[x] != 0 ==> lp@[x] < x,
                forall|x: int| 0 <= x <= n && #[trigger] lp_mid[x] != 0 ==> lp@[x] != 0,
                forall|x: int| 0 <= x <= i ==> #[trigger] lp@[x] == lp_mid[x],
                forall|a: int| 0 <= a < j ==> i * #[trigger] ret@[a] <= n && lp@[i * ret@[a]] != 0,
            ensures
                j == ret@.len() || ret@[j as int] > li || ret@[j as int] > n / i,
            decreases ret.len() - j,
        {
            let p = ret[j];
            if p > li || p > n / i {
                break;
            }
            proof {
                assert(i * p <= n) by (nonlinear_arith)
                    requires
                        p <= n / i,
                        i >= 2,
                ;
                assert(i * p > i) by (nonlinear_arith)
                    requires
                        p >= 2,
                        i >= 2,
                ;
                lemma_mod_multiples_basic(i as int, p as int);
            }
            let ghost lp_prev = lp@;
            lp.set(i * p, p);
            proof {
                assert(ret@[j as int] == p);
                assert(is_prime_spec(p as int));
                assert forall|a: int| 0 <= a < j + 1 implies i * #[trigger] ret@[a] <= n && lp@[i * ret@[a]]
                    != 0 by {
                    if a < j {
                        assert(lp_prev[i * ret@[a]] != 0);
                    }
                }
            }
            j = j + 1;
        }
        proof {
            assert forall|m: int, p: int|
                #![trigger no_divisor_below(m, p), is_prime_spec(p)]
                2 <= m < i + 1 && is_prime_spec(p) && m * p <= n && no_divisor_below(m, p) implies lp@[m * p]
                != 0 by {
                if m < i {
                    assert(lp_mid[m * p] != 0);
                } else {
                    assert(p <= li) by {
                        if li < p {
                            assert((i as int) % (li as int) != 0);
                        }
                    }
                    assert(ret@.contains(p as usize));
                    let idx = choose|idx: int| 0 <= idx < ret@.len() && ret@[idx] == p as usize;
                    assert(p <= n / i) by (nonlinear_arith)
                        requires
                            i * p <= n,
                            i >= 2,
                    ;
                    if idx >= j {
                        assert(j < ret@.len());
                        if idx > j {
                            assert(ret@[j as int] < ret@[idx]);
                        }
                    }
                    assert(lp@[i * ret@[idx]] != 0);
                }
            }
        }
        i = i + 1;
    }
    ret
}

/// The number of primes below `x`.
pub open spec fn prime_count_below(x: int) -> nat
    decreases x,
{
    if x <= 0 {
        0
    } else {
        prime_count_below(x - 1) + if is_prime_spec(x - 1) { 1nat } else { 0nat }
    }
}

/// `p` crosses out `y` in a sieve: `p` divides `y` and `p * p <= y`.
pub open spec fn crossed_by(y: int, p: int) -> bool {
    y % p == 0 && p * p <= y
}

/// Some of the first `t` numbers of `ps` crosses out `y`.
pub open spec fn crossed(y: int, ps: Seq<usize>, t: nat) -> bool
    decreases t,
{
    t > 0 && (crossed(y, ps, (t - 1) as nat) || crossed_by(y, ps[t - 1] as int))
}

proof fn lemma_crossed_witness(y: int, ps: Seq<usize>, t: nat) -> (a: int)
    requires
        crossed(y, ps, t),
    ensures
        0 <= a < t,
        crossed_by(y, ps[a] as int),
    decreases t,
{
    if crossed(y, ps, (t - 1) as nat) {
        lemma_crossed_witness(y, ps, (t - 1) as nat)
    } else {
        (t - 1) as int
    }
}

proof fn lemma_crossed_from_witness(y: int, ps: Seq<usize>, t: nat, a: int)
    requires
        0 <= a < t,
        crossed_by(y, ps[a] as int),
    ensures
        crossed(y, ps, t),
    decreases t,
{
    if a < t - 1 {
        lemma_crossed_from_witness(y, ps, (t - 1) as nat, a);
    }
}

/// Where `ps` holds primes, among them every prime below `b`, and
/// `2 <= y < b * b`: `y` is crossed out exactly when it is not prime.
proof fn lemma_crossed_iff_composite(y: int, ps: Seq<usize>, b: int)
    requires
        2 <= b <= usize::MAX,
        2 <= y < b * b,
        forall|a: int| 0 <= a < ps.len() ==> is_prime_spec(#[trigger] ps[a] as int),
        forall|p: int| 2 <= p < b && is_prime_spec(p) ==> ps.contains(p as usize),
    ensures
        crossed(y, ps, ps.len()) <==> !is_prime_spec(y),
{
    if crossed(y, ps, ps.len()) {
        let a = lemma_crossed_witness(y, ps, ps.len());
        let p = ps[a] as int;
        assert(is_prime_spec(p));
        assert(p < y) by (nonlinear_arith)
            requires
                p * p <= y,
                p >= 2,
        ;
        assert(y % p == 0);
    }
    if !is_prime_spec(y) {
        let (m, q) = lemma_composite_split(y);
        assert(m >= q) by {
            if m < q {
                lemma_mod_self_0(m);
                assert(m % m != 0);
            }
        }
        assert(q * q <= y) by (nonlinear_arith)
            requires
                m >= q,
                q >= 2,
                m * q == y,
        ;
        assert(q < b) by (nonlinear_arith)
            requires
                q * q <= y,
                y < b * b,
                q >= 2,
                b >= 0,
        ;
        assert(ps.contains(q as usize));
        let a = choose|a: int| 0 <= a < ps.len() && ps[a] == q as usize;
        lemma_fundamental_div_mod(y, q);
        lemma_mod_multiples_basic(m, q);
        assert(crossed_by(y, ps[a] as int));
        lemma_crossed_from_witness(y, ps, ps.len(), a);
    }
}

/// `crossed` reads only the first `t` numbers of the list.
proof fn lemma_crossed_prefix(y: int, ps: Seq<usize>, qs: Seq<usize>, t: nat)
    requires
        t <= ps.len(),
        t <= qs.len(),
        forall|a: int| 0 <= a < t ==> ps[a] == qs[a],
    ensures
        crossed(y, ps, t) == crossed(y, qs, t),
    decreases t,
{
    if t > 0 {
        lemma_crossed_prefix(y, ps, qs, (t - 1) as nat);
    }
}

/// In the block from `start`, prime `p` crosses out position `idx` exactly
/// from `j0 = max(ceil(start / p), p) * p - start` on, in steps of `p`.
proof fn lemma_window(start: int, p: int, idx: int)
    requires
        start >= 0,
        p >= 2,
        idx >= 0,
    ensures
        ({
            let c0 = (start + p - 1) / p;
            let c = if c0 > p { c0 } else { p };
            let j0 = c * p - start;
            &&& j0 >= 0
            &&& (crossed_by(start + idx, p) <==> (idx >= j0 && (idx - j0) % p == 0))
        }),
{
    let c0 = (start + p - 1) / p;
    let c = if c0 > p { c0 } else { p };
    let j0 = c * p - start;
    lemma_fundamental_div_mod(start + p - 1, p);
    lemma_mod_bound(start + p - 1, p);
    let r0 = (start + p - 1) % p;
    assert(p * c0 >= start && p * (c0 - 1) < start) by (nonlinear_arith)
        requires
            start + p - 1 == p * c0 + r0,
            0 <= r0 < p,
    ;
    assert(c * p >= start && c * p >= p * p) by (nonlinear_arith)
        requires
            p * c0 >= start,
            c >= c0,
            c >= p,
            p >= 2,
    ;
    let y = start + idx;
    if crossed_by(y, p) {
        lemma_fundamental_div_mod(y, p);
        let q = y / p;
        assert(q >= c) by (nonlinear_arith)
            requires
                y == p * q,
                p * p <= y,
                y >= start,
                p * (c0 - 1) < start,
                p >= 2,
                c == (if c0 > p { c0 } else { p }),
        ;
        assert(idx - j0 == (q - c) * p) by (nonlinear_arith)
            requires
                y == p * q,
                j0 == c * p - start,
                y == start + idx,
        ;
        assert((q - c) * p >= 0) by (nonlinear_arith)
            requires
                q >= c,
                p >= 2,
        ;
        lemma_mod_multiples_basic(q - c, p);
    }
    if idx >= j0 && (idx - j0) % p == 0 {
        lemma_fundamental_div_mod(idx - j0, p);
        let kk = (idx - j0) / p;
        assert(y == (c + kk) * p) by (nonlinear_arith)
            requires
                idx - j0 == p * kk,
                j0 == c * p - start,
                y == start + idx,
        ;
        assert(kk >= 0) by (nonlinear_arith)
            requires
                idx - j0 == p * kk,
                idx - j0 >= 0,
                p >= 2,
        ;
        lemma_mod_multiples_basic(c + kk, p);
        assert(p * p <= y) by (nonlinear_arith)
            requires
                y == (c + kk) * p,
                c >= p,
                kk >= 0,
                p >= 2,
        ;
    }
}

/// Crosses out, in `marks`, the positions from `j` on in steps of `p`.
fn cross_out(marks: &mut Vec<u8>, j: usize, p: usize)
    requires
        p >= 2,
    ensures
        final(marks)@.len() == old(marks)@.len(),
        forall|x: int|
            0 <= x < old(marks)@.len() ==> #[trigger] final(marks)@[x] == (if x >= j && (x - j) % (p as int) == 0 {
                0u8
            } else {
                old(marks)@[x]
            }),
{
    let ghost orig = marks@;
    let mut j = j;
    let ghost j_start = j as int;
    proof {
        lemma_small_mod(0, p as nat);
    }
    while j < marks.len()
        invariant_except_break
            forall|x: int|
                0 <= x < orig.len() ==> #[trigger] marks@[x] == (if x >= j_start && x < j && (x - j_start) % (
                p as int) == 0 {
                    0u8
                } else {
                    orig[x]
                }),
        invariant
            p >= 2,
            marks@.len() == orig.len(),
            j >= j_start,
            (j - j_start) % (p as int) == 0,
        ensures
            forall|x: int|
                0 <= x < orig.len() ==> #[trigger] marks@[x] == (if x >= j_start && (x - j_start) % (
                p as int) == 0 {
                    0u8
                } else {
                    orig[x]
                }),
        decreases orig.len() - j,
    {
        marks.set(j, 0);
        proof {
            lemma_mod_add_multiples_vanish(j - j_start, p as int);
            assert forall|x: int| j < x < j + p implies #[trigger] ((x - j_start) % (p as int)) != 0 by {
                lemma_fundamental_div_mod(j - j_start, p as int);
                lemma_fundamental_div_mod(x - j_start, p as int);
                lemma_mod_bound(x - j_start, p as int);
                let q = (j - j_start) / (p as int);
                if (x - j_start) % (p as int) == 0 {
                    let q2 = (x - j_start) / (p as int);
                    assert(false) by (nonlinear_arith)
                        requires
                            j - j_start == p * q,
                            x - j_start == p * q2,
                            j < x < j + p,
                            p >= 2,
                    ;
                }
            }
        }
        if marks.len() - j <= p {
            break;
        }
        j = j + p;
    }
}

/// Sets every entry of `marks` to 1.
fn fill_ones(marks: &mut Vec<u8>)
    ensures
        final(marks)@.len() == old(marks)@.len(),
        forall|x: int| 0 <= x < final(marks)@.len() ==> #[trigger] final(marks)@[x] == 1,
{
    let mut i: usize = 0;
    while i < marks.len()
        invariant
            i <= marks@.len(),
            marks@.len() == old(marks)@.len(),
            forall|x: int| 0 <= x < i ==> #[trigger] marks@[x] == 1,
        decreases marks.len() - i,
    {
        marks.set(i, 1);
        i = i + 1;
    }
}

/// Size of a sieving block; blocks cover `[0, BLOCK_SIZE * BLOCK_SIZE)`.
pub const BLOCK_SIZE: usize = 10000;

/// The number of primes up to `n`, by sieving blocks of `BLOCK_SIZE`
/// numbers with the primes up to the square root of `n`. Only the first
/// `BLOCK_SIZE` blocks are sieved, so the count stops below `BLOCK_SIZE^2`.
pub fn count_primes(n: usize) -> (r: usize)
    requires
        n < usize::MAX,
    ensures
        r == prime_count_below(if n + 1 < BLOCK_SIZE * BLOCK_SIZE { n + 1 } else { BLOCK_SIZE * BLOCK_SIZE }),
{
    let sq = isqrt(n as u64);
    proof {
        assert(sq <= n) by (nonlinear_arith)
            requires
                sq * sq <= n,
                sq >= 0,
        ;
    }
    let sqrt_n: usize = (sq + 1) as usize;
    proof {
        assert(sqrt_n == sq + 1);
        assert(n < sqrt_n * sqrt_n);
    }
    let mut retimes: Vec<usize> = Vec::new();
    let mut is_retime: Vec<u8> = Vec::new();
    let mut t: usize = 0;
    while t < sqrt_n
        invariant
            t <= sqrt_n,
            is_retime@.len() == t,
            forall|x: int| 0 <= x < t ==> #[trigger] is_retime@[x] == 1,
        decreases sqrt_n - t,
    {
        is_retime.push(1);
        t = t + 1;
    }
    let mut i: usize = 2;
    while i < sqrt_n
        invariant
            1 <= sqrt_n <= 4294967296,
            sqrt_n == sq + 1,
            sq * sq <= n,
            n < sqrt_n * sqrt_n,
            is_retime@.len() == sqrt_n,
            2 <= i,
            i <= sqrt_n || i == 2,
            forall|a: int| 0 <= a < retimes@.len() ==> is_prime_spec(#[trigger] retimes@[a] as int),
            forall|a: int| 0 <= a < retimes@.len() ==> #[trigger] retimes@[a] < i,
            forall|p: int| 2 <= p < i && is_prime_spec(p) ==> retimes@.contains(p as usize),
            forall|x: int| 0 <= x < sqrt_n ==> #[trigger] is_retime@[x] == 0 || is_retime@[x] == 1,
            forall|x: int|
                2 <= x < sqrt_n ==> (#[trigger] is_retime@[x] == 1 <==> !crossed(x, retimes@, retimes@.len())),
        decreases sqrt_n - i,
    {
        proof {
            assert(i < i * i) by (nonlinear_arith)
                requires
                    i >= 2,
            ;
            lemma_crossed_iff_composite(i as int, retimes@, i as int);
        }
        if is_retime[i] == 1 {
            let ghost before = retimes@;
            let ghost marks_before = is_retime@;
            retimes.push(i);
            proof {
                assert(i * i <= n) by (nonlinear_arith)
                    requires
                        i <= sq,
                        sq * sq <= n,
                ;
            }
            cross_out(&mut is_retime, i * i, i);
            proof {
                assert forall|x: int| 2 <= x < sqrt_n implies (#[trigger] is_retime@[x] == 1 <==> !crossed(
                    x,
                    retimes@,
                    retimes@.len(),
                )) by {
                    lemma_crossed_prefix(x, before, retimes@, before.len());
                    lemma_window(0, i as int, x);
                    assert((0 + i as int - 1) / (i as int) == 0) by {
                        lemma_small_mod((i - 1) as nat, i as nat);
                        lemma_fundamental_div_mod(i as int - 1, i as int);
                        let q = (i as int - 1) / (i as int);
                        assert(q == 0) by (nonlinear_arith)
                            requires
                                i * q == 0,
                                i >= 2,
                        ;
                    }
                }
                assert forall|p: int| 2 <= p < i + 1 && is_prime_spec(p) implies retimes@.contains(p as usize) by {
                    if p == i {
                        assert(retimes@[retimes@.len() - 1] == i);
                    } else {
                        assert(before.contains(p as usize));
                        let idx = choose|idx: int| 0 <= idx < before.len() && before[idx] == p as usize;
                        assert(retimes@[idx] == p as usize);
                    }
                }
            }
        }
        i = i + 1;
    }
    let ghost small = retimes@;
    proof {
        assert forall|a: int| 0 <= a < small.len() implies #[trigger] small[a] < sqrt_n by {
            assert(is_prime_spec(retimes@[a] as int));
            assert(retimes@[a] < i);
        }
        assert forall|p: int| 2 <= p < sqrt_n && is_prime_spec(p) implies small.contains(p as usize) by {}
    }
    let mut count: usize = 0;
    let mut block: Vec<u8> = Vec::new();
    let mut t: usize = 0;
    while t < BLOCK_SIZE
        invariant
            t <= BLOCK_SIZE,
            block@.len() == t,
        decreases BLOCK_SIZE - t,
    {
        block.push(0);
        t = t + 1;
    }
    let mut k: usize = 0;
    while k < BLOCK_SIZE
        invariant
            1 <= sqrt_n <= 4294967296,
            n < sqrt_n * sqrt_n,
            n < usize::MAX,
            retimes@ == small,
            forall|a: int| 0 <= a < small.len() ==> is_prime_spec(#[trigger] small[a] as int),
            forall|a: int| 0 <= a < small.len() ==> #[trigger] small[a] < sqrt_n,
            forall|p: int| 2 <= p < sqrt_n && is_prime_spec(p) ==> small.contains(p as usize),
            block@.len() == BLOCK_SIZE,
            k <= BLOCK_SIZE,
            count == prime_count_below(if k * BLOCK_SIZE < n + 1 { k * BLOCK_SIZE } else { n + 1 }),
            count <= k * BLOCK_SIZE,
        ensures
            count == prime_count_below(if n + 1 < BLOCK_SIZE * BLOCK_SIZE { n + 1 } else { BLOCK_SIZE * BLOCK_SIZE }),
        decreases BLOCK_SIZE - k,
    {
        proof {
            assert(k * BLOCK_SIZE <= 99990000) by (nonlinear_arith)
                requires
                    k < 10000,
            ;
        }
        let start = k * BLOCK_SIZE;
        if n < start {
            break;
        }
        fill_ones(&mut block);
        let mut ti: usize = 0;
        while ti < retimes.len()
            invariant
                retimes@ == small,
                forall|a: int| 0 <= a < small.len() ==> is_prime_spec(#[trigger] small[a] as int),
                forall|a: int| 0 <= a < small.len() ==> #[trigger] small[a] < sqrt_n,
                sqrt_n <= 4294967296,
                block@.len() == BLOCK_SIZE,
                start == k * BLOCK_SIZE,
                start <= 99990000,
                k < BLOCK_SIZE,
                ti <= small.len(),
                forall|x: int| 0 <= x < BLOCK_SIZE ==> #[trigger] block@[x] == 0 || block@[x] == 1,
                forall|x: int|
                    0 <= x < BLOCK_SIZE ==> (#[trigger] block@[x] == 1 <==> !crossed(
                        start + x,
                        small,
                        ti as nat,
                    )),
            decreases retimes.len() - ti,
        {
            let p = retimes[ti];
            proof {
                assert(is_prime_spec(small[ti as int] as int));
            }
            let s64 = start as u64;
            let p64 = p as u64;
            proof {
                lemma_window(start as int, p as int, 0);
            }
            let start_idx: u64 = (s64 + p64 - 1) / p64;
            let c: u64 = if start_idx > p64 { start_idx } else { p64 };
            proof {
                assert(c * p64 <= 18446744073709551615) by (nonlinear_arith)
                    requires
                        c == (if start_idx > p64 { start_idx as int } else { p64 as int }),
                        start_idx == (s64 + p64 - 1) / (p64 as int),
                        p64 < 4294967296,
                        s64 < 100000000,
                        p64 >= 2,
                ;
            }
            let j0: u64 = c * p64 - s64;
            let ghost marks_before = block@;
            if j0 < BLOCK_SIZE as u64 {
                cross_out(&mut block, j0 as usize, p);
            }
            proof {
                assert forall|x: int| 0 <= x < BLOCK_SIZE implies (#[trigger] block@[x] == 1 <==> !crossed(
                    start + x,
                    small,
                    (ti + 1) as nat,
                )) by {
                    lemma_window(start as int, p as int, x);
                }
            }
            ti = ti + 1;
        }
        if k == 0 {
            block.set(0, 0);
            block.set(1, 0);
        }
        let limit = if n - start + 1 < BLOCK_SIZE { n - start + 1 } else { BLOCK_SIZE };
        let mut idx: usize = 0;
        while idx < limit
            invariant
                1 <= sqrt_n <= 4294967296,
                n < sqrt_n * sqrt_n,
                forall|a: int| 0 <= a < small.len() ==> is_prime_spec(#[trigger] small[a] as int),
                forall|p: int| 2 <= p < sqrt_n && is_prime_spec(p) ==> small.contains(p as usize),
                block@.len() == BLOCK_SIZE,
                start == k * BLOCK_SIZE,
                k < BLOCK_SIZE,
                start <= n,
                limit <= BLOCK_SIZE,
                limit <= n - start + 1,
                idx <= limit,
                count == prime_count_below(start + idx),
                count <= start + idx,
                forall|x: int|
                    0 <= x < BLOCK_SIZE && (k > 0 || x >= 2) ==> (#[trigger] block@[x] == 1 <==> !crossed(
                        start + x,
                        small,
                        small.len(),
                    )),
                k == 0 ==> block@[0] == 0 && block@[1] == 0,
            decreases limit - idx,
        {
            proof {
                let y = start + idx;
                if y >= 2 {
                    lemma_crossed_iff_composite(y as int, small, sqrt_n as int);
                }
            }
            if block[idx] == 1 {
                count = count + 1;
            }
            idx = idx + 1;
        }
        proof {
            assert((k + 1) * BLOCK_SIZE == start + BLOCK_SIZE);
        }
        k = k + 1;
    }
    count
}

} // verus!
