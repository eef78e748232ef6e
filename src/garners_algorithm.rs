//! Residue-number-system big integers over a fixed basis of primes,
//! reconstructed with Garner's mixed-radix algorithm.
use vstd::arithmetic::div_mod::*;
use vstd::arithmetic::mul::*;
use vstd::prelude::*;

use crate::big_integer::{digits_add, digits_mul_small, digits_rem, digits_value, BigInteger};
use crate::gcd::{gcd_spec, lemma_divides_combination};
use crate::modular_inverse::{is_inverse, modular_inverse_extended_gcd};
use crate::primality::{deterministic_millerrabin, miller_rabin_accepts};

verus! {

/// Number of primes in the basis.
pub const SZ: usize = 100;

/// The first candidate tried for the basis.
pub const FIRST_CANDIDATE: i64 = 1000000000;

/// Candidates stay below 2^31, so that the product of two residues, or of a
/// residue and an inverse, fits in an `i64`.
pub const CANDIDATE_LIMIT: i64 = 2147483648;

/// The first `count` candidates from `x` on, below the limit, that the
/// primality test accepts.
pub open spec fn accepted_from(x: int, count: nat) -> Seq<int>
    decreases CANDIDATE_LIMIT - x, count,
{
    if count == 0 || x >= CANDIDATE_LIMIT {
        seq![]
    } else if miller_rabin_accepts(x as nat) {
        seq![x].add(accepted_from(x + 1, (count - 1) as nat))
    } else {
        accepted_from(x + 1, count)
    }
}

/// The primes the basis is made of: the first `SZ` accepted candidates.
pub open spec fn basis_primes() -> Seq<int> {
    accepted_from(FIRST_CANDIDATE as int, SZ as nat)
}

/// Each pair of `ps`, the earlier modulo the later, has greatest common divisor 1.
pub open spec fn pairwise_coprime(ps: Seq<int>) -> bool {
    forall|j: int, k: int|
        0 <= j < k < ps.len() ==> gcd_spec((ps[j] % ps[k]) as nat, ps[k] as nat) == 1
}

/// The basis primes and, for `j < k`, the inverse of prime `j` modulo prime `k`.
pub struct Basis {
    pub primes: Vec<i64>,
    pub inverses: Vec<Vec<i64>>,
}

impl Basis {
    /// Prime `i`.
    pub open spec fn prime(&self, i: int) -> int {
        self.primes@[i] as int
    }

    /// Entry `(j, k)` of the inverse table.
    pub open spec fn inverse(&self, j: int, k: int) -> int {
        self.inverses@[j]@[k] as int
    }

    /// `SZ` strictly increasing moduli, at least 2 and below the limit, and
    /// for `j < k` an inverse of modulus `j` modulo modulus `k` in `[0, modulus k)`.
    pub open spec fn wf(&self) -> bool {
        &&& self.primes@.len() == SZ
        &&& self.inverses@.len() == SZ
        &&& forall|i: int| 0 <= i < SZ ==> 2 <= #[trigger] self.prime(i) < CANDIDATE_LIMIT
        &&& forall|i: int, j: int| 0 <= i < j < SZ ==> self.prime(i) < self.prime(j)
        &&& forall|j: int| 0 <= j < SZ ==> (#[trigger] self.inverses@[j])@.len() == SZ
        &&& forall|j: int, k: int|
            0 <= j < k < SZ ==> 0 <= #[trigger] self.inverse(j, k) < self.prime(k)
                && is_inverse(self.prime(j), self.inverse(j, k), self.prime(k))
    }

    /// What the generator returns: a well-formed basis over `basis_primes()`,
    /// with zeros on and below the diagonal of the inverse table.
    pub open spec fn generated(&self) -> bool {
        &&& self.wf()
        &&& basis_primes().len() == SZ
        &&& forall|i: int| 0 <= i < SZ ==> #[trigger] self.prime(i) == basis_primes()[i]
        &&& forall|j: int, k: int| 0 <= k <= j < SZ ==> #[trigger] self.inverse(j, k) == 0
    }
}

/// Generates the basis: the first `SZ` candidates from `FIRST_CANDIDATE` on
/// that the deterministic primality test accepts, and their pairwise inverses.
/// `None` only where fewer than `SZ` are accepted below the limit, or two of
/// them are not coprime; neither happens for primes.
pub fn primes_and_inverses() -> (r: Option<Basis>)
    ensures
        r.is_none() <==> basis_primes().len() < SZ || !pairwise_coprime(basis_primes()),
        r matches Some(b) ==> b.generated(),
{
    let mut primes: Vec<i64> = Vec::new();
    let mut x: i64 = FIRST_CANDIDATE;
    while primes.len() < SZ && x < CANDIDATE_LIMIT
        invariant
            FIRST_CANDIDATE <= x <= CANDIDATE_LIMIT,
            primes.len() <= SZ,
            primes@.map_values(|p: i64| p as int).add(accepted_from(x as int, (SZ - primes.len()) as nat))
                =~= basis_primes(),
            forall|i: int| 0 <= i < primes.len() ==> FIRST_CANDIDATE <= #[trigger] primes@[i] < x,
            forall|i: int, j: int| 0 <= i < j < primes.len() ==> primes@[i] < primes@[j],
        decreases CANDIDATE_LIMIT - x,
    {
        let ghost before = primes@;
        if deterministic_millerrabin(x as u64) {
            primes.push(x);
            proof {
                assert(primes@.map_values(|p: i64| p as int) =~= before.map_values(|p: i64| p as int).push(x as int));
            }
        }
        x = x + 1;
    }
    if primes.len() < SZ {
        proof {
            assert(accepted_from(x as int, (SZ - primes.len()) as nat) =~= seq![]);
            assert(basis_primes() =~= primes@.map_values(|p: i64| p as int));
        }
        return None;
    }
    proof {
        assert(primes@.map_values(|p: i64| p as int) =~= basis_primes());
    }
    let mut inverses: Vec<Vec<i64>> = Vec::new();
    let mut j: usize = 0;
    while j < SZ
        invariant
            primes@.len() == SZ,
            primes@.map_values(|p: i64| p as int) == basis_primes(),
            forall|i: int| 0 <= i < SZ ==> FIRST_CANDIDATE <= #[trigger] primes@[i] < CANDIDATE_LIMIT,
            j <= SZ,
            inverses@.len() == j,
            forall|jj: int| 0 <= jj < j ==> (#[trigger] inverses@[jj])@.len() == SZ,
            forall|jj: int, k: int| 0 <= jj < j && 0 <= k < SZ ==> {
                let v = #[trigger] inverses@[jj]@[k];
                if jj < k {
                    0 <= v < primes@[k] && is_inverse(primes@[jj] as int, v as int, primes@[k] as int)
                } else {
                    v == 0
                }
            },
        decreases SZ - j,
    {
        let mut row: Vec<i64> = Vec::new();
        let mut k: usize = 0;
        while k < SZ
            invariant
                primes@.len() == SZ,
                primes@.map_values(|p: i64| p as int) == basis_primes(),
                forall|i: int| 0 <= i < SZ ==> FIRST_CANDIDATE <= #[trigger] primes@[i] < CANDIDATE_LIMIT,
                j < SZ,
                k <= SZ,
                row@.len() == k,
                forall|kk: int| 0 <= kk < k ==> {
                    let v = #[trigger] row@[kk];
                    if (j as int) < kk {
                        0 <= v < primes@[kk] && is_inverse(primes@[j as int] as int, v as int, primes@[kk] as int)
                    } else {
                        v == 0
                    }
                },
            decreases SZ - k,
        {
            if j < k {
                match modular_inverse_extended_gcd(primes[j], primes[k]) {
                    Some(v) => {
                        row.push(v);
                    },
                    None => {
                        proof {
                            let ps = basis_primes();
                            assert(ps[j as int] == primes@[j as int]);
                            assert(ps[k as int] == primes@[k as int]);
                            assert(!pairwise_coprime(ps));
                        }
                        return None;
                    },
                }
            } else {
                row.push(0);
            }
            k = k + 1;
        }
        inverses.push(row);
        j = j + 1;
    }
    let b = Basis { primes, inverses };
    proof {
        let ps = basis_primes();
        assert forall|i: int| 0 <= i < SZ implies #[trigger] b.prime(i) == ps[i] by {
            assert(ps[i] == b.primes@.map_values(|p: i64| p as int)[i]);
        }
        assert forall|i: int, j: int| 0 <= i < j < SZ implies b.prime(i) < b.prime(j) by {
            lemma_accepted_increasing(FIRST_CANDIDATE as int, SZ as nat, i, j);
        }
        assert forall|jj: int, k: int| 0 <= jj < k < SZ implies 0 <= #[trigger] b.inverse(jj, k) < b.prime(k)
            && is_inverse(b.prime(jj), b.inverse(jj, k), b.prime(k)) by {
            assert(b.inverses@[jj]@[k] == inverses@[jj]@[k]);
        }
        assert forall|jj: int, k: int| 0 <= k <= jj < SZ implies #[trigger] b.inverse(jj, k) == 0 by {
            assert(b.inverses@[jj]@[k] == inverses@[jj]@[k]);
        }
        assert(!(basis_primes().len() < SZ || !pairwise_coprime(basis_primes()))) by {
            assert forall|jj: int, k: int| 0 <= jj < k < ps.len() implies
                gcd_spec((ps[jj] % ps[k]) as nat, ps[k] as nat) == 1 by {
                crate::modular_inverse::lemma_inverse_coprime(ps[jj], b.inverse(jj, k), ps[k]);
            }
        }
    }
    Some(b)
}

/// The accepted candidates come in strictly increasing order, from `x` on.
pub proof fn lemma_accepted_increasing(x: int, count: nat, i: int, j: int)
    requires
        0 <= i < j < accepted_from(x, count).len(),
    ensures
        x <= accepted_from(x, count)[i] < accepted_from(x, count)[j],
    decreases CANDIDATE_LIMIT - x, count,
{
    if count == 0 || x >= CANDIDATE_LIMIT {
    } else if miller_rabin_accepts(x as nat) {
        if i == 0 {
            lemma_accepted_lower(x + 1, (count - 1) as nat, j - 1);
        } else {
            lemma_accepted_increasing(x + 1, (count - 1) as nat, i - 1, j - 1);
        }
    } else {
        lemma_accepted_increasing(x + 1, count, i, j);
    }
}

/// Every accepted candidate from `x` on is at least `x`.
pub proof fn lemma_accepted_lower(x: int, count: nat, i: int)
    requires
        0 <= i < accepted_from(x, count).len(),
    ensures
        x <= accepted_from(x, count)[i],
    decreases CANDIDATE_LIMIT - x, count,
{
    if count == 0 || x >= CANDIDATE_LIMIT {
    } else if miller_rabin_accepts(x as nat) {
        if i > 0 {
            lemma_accepted_lower(x + 1, (count - 1) as nat, i - 1);
        }
    } else {
        lemma_accepted_lower(x + 1, count, i);
    }
}

/// Product of the first `n` moduli of `ps`.
pub open spec fn prefix_product(ps: Seq<i64>, n: nat) -> int
    decreases n,
{
    if n == 0 {
        1
    } else {
        prefix_product(ps, (n - 1) as nat) * ps[n - 1]
    }
}

/// Mixed-radix value of the digits `xs` over the moduli `ps`: the sum of
/// `xs[i] * prefix_product(ps, i)` for `i < n`.
pub open spec fn mixed_radix_value(xs: Seq<i64>, ps: Seq<i64>, n: nat) -> int
    decreases n,
{
    if n == 0 {
        0
    } else {
        mixed_radix_value(xs, ps, (n - 1) as nat) + xs[n - 1] * prefix_product(ps, (n - 1) as nat)
    }
}

/// The product of all moduli of the basis: the range of the representation.
pub open spec fn modulus(b: Basis) -> int {
    prefix_product(b.primes@, SZ as nat)
}

/// A big integer held as its residues modulo each prime of a basis.
pub struct GNumber {
    a: Vec<i64>,
}

impl View for GNumber {
    type V = Seq<i64>;

    closed spec fn view(&self) -> Seq<i64> {
        self.a@
    }
}

/// `g` holds `SZ` residues, residue `i` in `[0, prime i)`.
pub open spec fn residues_wf(g: GNumber, b: Basis) -> bool {
    &&& g@.len() == SZ
    &&& forall|i: int| 0 <= i < SZ ==> 0 <= #[trigger] g@[i] < b.prime(i)
}

/// `g` holds the residues of `v`.
pub open spec fn represents(g: GNumber, b: Basis, v: int) -> bool {
    &&& g@.len() == SZ
    &&& forall|i: int| 0 <= i < SZ ==> #[trigger] g@[i] == v % b.prime(i)
}

/// `w` lies in `[0, modulus)` and has the residues that `g` holds.
pub open spec fn reconstructs(w: int, g: GNumber, b: Basis) -> bool {
    &&& 0 <= w < modulus(b)
    &&& forall|i: int| 0 <= i < SZ ==> w % b.prime(i) == #[trigger] g@[i]
}

/// The moduli of a well-formed basis have a positive prefix product.
pub proof fn lemma_prefix_product_pos(b: Basis, n: nat)
    requires
        b.wf(),
        n <= SZ,
    ensures
        prefix_product(b.primes@, n) >= 1,
    decreases n,
{
    if n > 0 {
        lemma_prefix_product_pos(b, (n - 1) as nat);
        let q = prefix_product(b.primes@, (n - 1) as nat);
        let p = b.prime(n - 1);
        assert(q * p >= 1) by (nonlinear_arith)
            requires
                q >= 1,
                p >= 2,
        ;
    }
}

/// Each modulus before `n` divides the product of the first `n`.
pub proof fn lemma_prefix_product_divisible(b: Basis, j: int, n: nat)
    requires
        b.wf(),
        0 <= j < n <= SZ,
    ensures
        prefix_product(b.primes@, n) % b.prime(j) == 0,
    decreases n,
{
    let q = prefix_product(b.primes@, (n - 1) as nat);
    let p = b.prime(n - 1);
    if j == n - 1 {
        lemma_mod_multiples_basic(q, p);
    } else {
        lemma_prefix_product_divisible(b, j, (n - 1) as nat);
        lemma_divides_combination(q, 0, p, b.prime(j));
        lemma_mul_is_commutative(q, p);
    }
}

/// Where modulus `n` divides `prefix_product(k) * t` for `k <= n`, it divides `t`.
pub proof fn lemma_cancel_prefix(b: Basis, k: nat, n: int, t: int)
    requires
        b.wf(),
        k <= n < SZ,
        (prefix_product(b.primes@, k) * t) % b.prime(n) == 0,
    ensures
        t % b.prime(n) == 0,
    decreases k,
{
    if k > 0 {
        let q = prefix_product(b.primes@, (k - 1) as nat);
        let pk = b.prime(k - 1);
        let p = b.prime(n);
        let inv = b.inverse(k - 1, n);
        assert(q * pk * t == q * (pk * t)) by (nonlinear_arith);
        lemma_cancel_prefix(b, (k - 1) as nat, n, pk * t);
        assert((pk * inv - 1) % p == 0) by {
            assert(is_inverse(pk, inv, p));
            lemma_small_mod(1, p as nat);
            lemma_small_mod(0, p as nat);
            lemma_sub_mod_noop(pk * inv, 1, p);
        }
        lemma_divides_combination(pk * t, 0, inv, p);
        lemma_divides_combination(pk * inv - 1, inv * (pk * t), -t, p);
        assert(-t * (pk * inv - 1) + inv * (pk * t) == t) by (nonlinear_arith);
    }
}

/// A number divisible by each of the first `n` moduli is divisible by their product.
pub proof fn lemma_product_divides(b: Basis, n: nat, d: int)
    requires
        b.wf(),
        n <= SZ,
        forall|i: int| 0 <= i < n ==> d % #[trigger] b.prime(i) == 0,
    ensures
        d % prefix_product(b.primes@, n) == 0,
    decreases n,
{
    if n == 0 {
        lemma_mod_self_0(1);
        lemma_small_mod(0, 1);
        lemma_fundamental_div_mod(d, 1);
    } else {
        let q = prefix_product(b.primes@, (n - 1) as nat);
        let p = b.prime(n - 1);
        lemma_product_divides(b, (n - 1) as nat, d);
        lemma_prefix_product_pos(b, (n - 1) as nat);
        lemma_fundamental_div_mod(d, q);
        let t = d / q;
        assert(d == q * t);
        lemma_cancel_prefix(b, (n - 1) as nat, n - 1, t);
        lemma_fundamental_div_mod(t, p);
        let u = t / p;
        assert(d == u * (q * p)) by (nonlinear_arith)
            requires
                d == q * t,
                t == p * u,
        ;
        lemma_prefix_product_pos(b, n);
        lemma_mod_multiples_basic(u, q * p);
    }
}

/// Two numbers in `[0, modulus)` with the same residues are equal.
pub proof fn lemma_crt_unique(b: Basis, u: int, w: int)
    requires
        b.wf(),
        0 <= u < modulus(b),
        0 <= w < modulus(b),
        forall|i: int| 0 <= i < SZ ==> u % b.prime(i) == #[trigger] (w % b.prime(i)),
    ensures
        u == w,
{
    let m = modulus(b);
    assert forall|i: int| 0 <= i < SZ implies (u - w) % #[trigger] b.prime(i) == 0 by {
        let p = b.prime(i);
        lemma_sub_mod_noop(u, w, p);
        lemma_mod_self_0(p);
        lemma_small_mod(0, p as nat);
    }
    lemma_product_divides(b, SZ as nat, u - w);
    lemma_prefix_product_pos(b, SZ as nat);
    lemma_fundamental_div_mod(u - w, m);
    let q = (u - w) / m;
    assert(u - w == 0) by (nonlinear_arith)
        requires
            u - w == m * q,
            -m < u - w < m,
    ;
}

/// `(x - y) % p == 0` gives `x % p == y % p`.
proof fn lemma_congruent(x: int, y: int, p: int)
    requires
        p > 0,
        (x - y) % p == 0,
    ensures
        x % p == y % p,
{
    lemma_add_mod_noop(y, x - y, p);
    lemma_mod_twice(y, p);
}

/// The residue of `-d` follows from the residue of `d`.
proof fn lemma_neg_mod(d: int, p: int)
    requires
        p > 0,
    ensures
        (-d) % p == (if d % p == 0 { 0 } else { p - d % p }),
{
    lemma_fundamental_div_mod(d, p);
    lemma_mod_bound(d, p);
    let q = d / p;
    let m = d % p;
    if m == 0 {
        assert(-d == (-q) * p) by (nonlinear_arith)
            requires
                d == p * q,
        ;
        lemma_mod_multiples_basic(-q, p);
    } else {
        assert(-d == (-q - 1) * p + (p - m)) by (nonlinear_arith)
            requires
                d == p * q + m,
        ;
        lemma_fundamental_div_mod_converse(-d, p, -q - 1, p - m);
    }
}

/// One step of Garner's inner loop: where `x * pp` agrees with `a - s` modulo
/// `p`, and `inv` inverts `pj` modulo `p`, the next digit times `pp * pj`
/// agrees with `a - (s + xj * pp)`.
proof fn lemma_garner_step(x: int, xj: int, inv: int, pj: int, pp: int, a: int, s: int, p: int)
    requires
        p > 1,
        (x * pp - (a - s)) % p == 0,
        is_inverse(pj, inv, p),
    ensures
        ((((x - xj) * inv) % p) * (pp * pj) - (a - (s + xj * pp))) % p == 0,
{
    let y = (x - xj) * inv;
    lemma_fundamental_div_mod(y, p);
    let q = y / p;
    let e1 = x * pp - (a - s);
    let e2 = pj * inv - 1;
    assert(e2 % p == 0) by {
        lemma_small_mod(1, p as nat);
        lemma_small_mod(0, p as nat);
        lemma_sub_mod_noop(pj * inv, 1, p);
    }
    let c = (x - xj) * pp;
    assert((y % p) * (pp * pj) == y * (pp * pj) - (q * pp * pj) * p) by (nonlinear_arith)
        requires
            y == p * q + y % p,
    ;
    assert(y * (pp * pj) == c * (pj * inv)) by (nonlinear_arith)
        requires
            y == (x - xj) * inv,
            c == (x - xj) * pp,
    ;
    assert(c * (pj * inv) == c * e2 + c) by (nonlinear_arith)
        requires
            e2 == pj * inv - 1,
    ;
    assert(c == x * pp - xj * pp) by (nonlinear_arith)
        requires
            c == (x - xj) * pp,
    ;
    assert((-(q * pp * pj)) * p == -((q * pp * pj) * p)) by (nonlinear_arith);
    assert((y % p) * (pp * pj) - (a - (s + xj * pp)) == c * e2 + e1 + (-(q * pp * pj)) * p);
    lemma_divides_combination(e2, e1, c, p);
    lemma_mod_self_0(p);
    lemma_divides_combination(p, c * e2 + e1, -(q * pp * pj), p);
}

/// The mixed-radix value of a prefix reads only the digits of that prefix.
proof fn lemma_mixed_radix_prefix(xs1: Seq<i64>, xs2: Seq<i64>, ps: Seq<i64>, n: nat)
    requires
        forall|k: int| 0 <= k < n ==> xs1[k] == xs2[k],
    ensures
        mixed_radix_value(xs1, ps, n) == mixed_radix_value(xs2, ps, n),
    decreases n,
{
    if n > 0 {
        lemma_mixed_radix_prefix(xs1, xs2, ps, (n - 1) as nat);
    }
}

impl GNumber {
    /// The number whose residues are all zero.
    pub fn default() -> (r: GNumber)
        ensures
            r@ == Seq::new(SZ as nat, |i: int| 0i64),
    {
        let mut a: Vec<i64> = Vec::new();
        let mut i: usize = 0;
        while i < SZ
            invariant
                i <= SZ,
                a@ == Seq::new(i as nat, |k: int| 0i64),
            decreases SZ - i,
        {
            a.push(0);
            i = i + 1;
            assert(a@ =~= Seq::new(i as nat, |k: int| 0i64));
        }
        GNumber { a }
    }

    /// Residue `i`.
    pub fn residue(&self, i: usize) -> (r: i64)
        requires
            i < self@.len(),
        ensures
            r == self@[i as int],
    {
        self.a[i]
    }

    /// The residues of `n` modulo each prime of the basis.
    pub fn new(n: &BigInteger, basis: &Basis) -> (r: GNumber)
        requires
            basis.wf(),
        ensures
            residues_wf(r, *basis),
            represents(r, *basis, n.value()),
    {
        let mut a: Vec<i64> = Vec::new();
        let mut i: usize = 0;
        while i < SZ
            invariant
                basis.wf(),
                i <= SZ,
                a@.len() == i,
                forall|k: int| 0 <= k < i ==> #[trigger] a@[k] == n.value() % basis.prime(k),
                forall|k: int| 0 <= k < i ==> 0 <= #[trigger] a@[k] < basis.prime(k),
            decreases SZ - i,
        {
            let p = basis.primes[i];
            assert(p as int == basis.prime(i as int));
            let m = digits_rem(&n.digits, p as u64);
            let v: i64 = if n.negative && m != 0 {
                p - m as i64
            } else {
                m as i64
            };
            proof {
                let d = digits_value(n.digits@) as int;
                lemma_neg_mod(d, p as int);
                lemma_mod_bound(n.value(), p as int);
            }
            a.push(v);
            i = i + 1;
        }
        GNumber { a }
    }

    /// Residue-wise sum.
    pub fn add(&self, other: &GNumber, basis: &Basis) -> (r: GNumber)
        requires
            basis.wf(),
            residues_wf(*self, *basis),
            residues_wf(*other, *basis),
        ensures
            residues_wf(r, *basis),
            forall|i: int| 0 <= i < SZ ==> #[trigger] r@[i] == (self@[i] + other@[i]) % basis.prime(i),
    {
        let mut a: Vec<i64> = Vec::new();
        let mut i: usize = 0;
        while i < SZ
            invariant
                basis.wf(),
                residues_wf(*self, *basis),
                residues_wf(*other, *basis),
                i <= SZ,
                a@.len() == i,
                forall|k: int| 0 <= k < i ==> #[trigger] a@[k] == (self@[k] + other@[k]) % basis.prime(k),
                forall|k: int| 0 <= k < i ==> 0 <= #[trigger] a@[k] < basis.prime(k),
            decreases SZ - i,
        {
            let p = basis.primes[i];
            let v: i64 = (self.a[i] + other.a[i]) % p;
            a.push(v);
            i = i + 1;
        }
        GNumber { a }
    }

    /// Residue-wise difference, kept non-negative.
    pub fn sub(&self, other: &GNumber, basis: &Basis) -> (r: GNumber)
        requires
            basis.wf(),
            residues_wf(*self, *basis),
            residues_wf(*other, *basis),
        ensures
            residues_wf(r, *basis),
            forall|i: int| 0 <= i < SZ ==> #[trigger] r@[i] == (self@[i] - other@[i]) % basis.prime(i),
    {
        let mut a: Vec<i64> = Vec::new();
        let mut i: usize = 0;
        while i < SZ
            invariant
                basis.wf(),
                residues_wf(*self, *basis),
                residues_wf(*other, *basis),
                i <= SZ,
                a@.len() == i,
                forall|k: int| 0 <= k < i ==> #[trigger] a@[k] == (self@[k] - other@[k]) % basis.prime(k),
                forall|k: int| 0 <= k < i ==> 0 <= #[trigger] a@[k] < basis.prime(k),
            decreases SZ - i,
        {
            let p = basis.primes[i];
            let v: i64 = (self.a[i] - other.a[i] + p) % p;
            proof {
                lemma_mod_add_multiples_vanish(self@[i as int] - other@[i as int], p as int);
            }
            a.push(v);
            i = i + 1;
        }
        GNumber { a }
    }

    /// Residue-wise product.
    pub fn mul(&self, other: &GNumber, basis: &Basis) -> (r: GNumber)
        requires
            basis.wf(),
            residues_wf(*self, *basis),
            residues_wf(*other, *basis),
        ensures
            residues_wf(r, *basis),
            forall|i: int| 0 <= i < SZ ==> #[trigger] r@[i] == (self@[i] * other@[i]) % basis.prime(i),
    {
        let mut a: Vec<i64> = Vec::new();
        let mut i: usize = 0;
        while i < SZ
            invariant
                basis.wf(),
                residues_wf(*self, *basis),
                residues_wf(*other, *basis),
                i <= SZ,
                a@.len() == i,
                forall|k: int| 0 <= k < i ==> #[trigger] a@[k] == (self@[k] * other@[k]) % basis.prime(k),
                forall|k: int| 0 <= k < i ==> 0 <= #[trigger] a@[k] < basis.prime(k),
            decreases SZ - i,
        {
            let p = basis.primes[i];
            let x = self.a[i];
            let y = other.a[i];
            assert(0 <= x * y < 4611686018427387904) by (nonlinear_arith)
                requires
                    0 <= x < 2147483648,
                    0 <= y < 2147483648,
            ;
            let v: i64 = (x * y) % p;
            a.push(v);
            i = i + 1;
        }
        GNumber { a }
    }

    /// Garner's mixed-radix reconstruction: the number in `[0, modulus)` with
    /// these residues.
    pub fn to_bigint(&self, basis: &Basis) -> (r: BigInteger)
        requires
            basis.wf(),
            residues_wf(*self, *basis),
        ensures
            !r.negative,
            reconstructs(r.value(), *self, *basis),
    {
        let ghost ps = basis.primes@;
        let mut result: Vec<u32> = Vec::new();
        let mut mult: Vec<u32> = Vec::new();
        mult.push(1);
        proof {
            assert(mult@.subrange(1, 1) =~= Seq::<u32>::empty());
            assert(digits_value(Seq::<u32>::empty()) == 0);
            assert(mult@[0] == 1);
            assert(digits_value(mult@) == 1);
            assert(digits_value(result@) == 0);
        }
        let mut x: Vec<i64> = Vec::new();
        let mut i: usize = 0;
        while i < SZ
            invariant
                basis.wf(),
                residues_wf(*self, *basis),
                ps == basis.primes@,
                i <= SZ,
                x@.len() == i,
                forall|k: int| 0 <= k < i ==> 0 <= #[trigger] x@[k] < basis.prime(k),
                digits_value(result@) == mixed_radix_value(x@, ps, i as nat),
                digits_value(mult@) == prefix_product(ps, i as nat),
                0 <= mixed_radix_value(x@, ps, i as nat) < prefix_product(ps, i as nat),
                forall|k: int|
                    0 <= k < i ==> mixed_radix_value(x@, ps, i as nat) % basis.prime(k) == #[trigger] self@[k],
            decreases SZ - i,
        {
            let p = basis.primes[i];
            assert(p as int == basis.prime(i as int));
            let mut xi: i64 = self.a[i];
            let mut j: usize = 0;
            proof {
                lemma_small_mod(0, p as nat);
            }
            while j < i
                invariant
                    basis.wf(),
                    residues_wf(*self, *basis),
                    ps == basis.primes@,
                    i < SZ,
                    p == ps[i as int],
                    p as int == basis.prime(i as int),
                    j <= i,
                    x@.len() == i,
                    forall|k: int| 0 <= k < i ==> 0 <= #[trigger] x@[k] < basis.prime(k),
                    0 <= xi < p,
                    (xi * prefix_product(ps, j as nat) - (self@[i as int] - mixed_radix_value(x@, ps, j as nat)))
                        % (p as int) == 0,
                decreases i - j,
            {
                let xj = x[j];
                let inv = basis.inverses[j][i];
                proof {
                    assert(0 <= xj < basis.prime(j as int));
                    assert(inv as int == basis.inverse(j as int, i as int));
                    assert(0 <= inv < p);
                    assert(-2147483648 < xi - xj < 2147483648);
                    assert(-4611686018427387904 < (xi - xj) * inv < 4611686018427387904) by (nonlinear_arith)
                        requires
                            -2147483648 < xi - xj < 2147483648,
                            0 <= inv < 2147483648,
                    ;
                    lemma_garner_step(
                        xi as int,
                        xj as int,
                        inv as int,
                        basis.prime(j as int),
                        prefix_product(ps, j as nat),
                        self@[i as int] as int,
                        mixed_radix_value(x@, ps, j as nat),
                        p as int,
                    );
                }
                let cur: i64 = (xi - xj) * inv;
                xi = match cur.checked_rem_euclid(p) {
                    Some(v) => v,
                    None => 0,
                };
                proof {
                    lemma_mod_bound(cur as int, p as int);
                }
                j = j + 1;
            }
            proof {
                lemma_prefix_product_pos(*basis, i as nat);
            }
            let term = digits_mul_small(&mult, xi as u64);
            result = digits_add(&result, &term);
            mult = digits_mul_small(&mult, p as u64);
            let ghost old_x = x@;
            x.push(xi);
            proof {
                let pp = prefix_product(ps, i as nat);
                let s0 = mixed_radix_value(old_x, ps, i as nat);
                lemma_mixed_radix_prefix(old_x, x@, ps, i as nat);
                let s1 = mixed_radix_value(x@, ps, (i + 1) as nat);
                assert(s1 == s0 + xi * pp);
                assert(prefix_product(ps, (i + 1) as nat) == pp * p);
                assert(digits_value(mult@) == pp * p) by {
                    lemma_mul_is_commutative(pp, p as int);
                }
                assert(digits_value(result@) == s1) by {
                    lemma_mul_is_commutative(pp, xi as int);
                }
                assert(s1 < pp * p) by (nonlinear_arith)
                    requires
                        0 <= s0 < pp,
                        0 <= xi < p,
                        s1 == s0 + xi * pp,
                ;
                assert(0 <= s1) by (nonlinear_arith)
                    requires
                        0 <= s0,
                        0 <= xi,
                        pp >= 1,
                        s1 == s0 + xi * pp,
                ;
                assert forall|k: int| 0 <= k < i + 1 implies s1 % basis.prime(k) == #[trigger] self@[k] by {
                    if k < i {
                        lemma_prefix_product_divisible(*basis, k, i as nat);
                        lemma_divides_combination(pp, 0, xi as int, basis.prime(k));
                        assert(s1 - s0 == xi * pp + 0);
                        lemma_congruent(s1, s0, basis.prime(k));
                    } else {
                        assert((s1 - self@[i as int]) == xi * pp - (self@[i as int] - s0));
                        lemma_congruent(s1, self@[i as int] as int, p as int);
                        lemma_small_mod(self@[i as int] as nat, p as nat);
                    }
                }
            }
            i = i + 1;
        }
        BigInteger { negative: false, digits: result }
    }
}

/// Every accepted candidate from `x` on is accepted by the primality test.
pub proof fn lemma_accepted_passes(x: int, count: nat, i: int)
    requires
        0 <= i < accepted_from(x, count).len(),
    ensures
        miller_rabin_accepts(accepted_from(x, count)[i] as nat),
        accepted_from(x, count)[i] < CANDIDATE_LIMIT,
    decreases CANDIDATE_LIMIT - x, count,
{
    if count == 0 || x >= CANDIDATE_LIMIT {
    } else if miller_rabin_accepts(x as nat) {
        if i > 0 {
            lemma_accepted_passes(x + 1, (count - 1) as nat, i - 1);
        }
    } else {
        lemma_accepted_passes(x + 1, count, i);
    }
}

/// A generated basis holds exactly `SZ` moduli, strictly increasing, each at
/// least `FIRST_CANDIDATE` and accepted by the deterministic primality test,
/// and for `j < k` an inverse of modulus `j` modulo modulus `k`.
pub proof fn lemma_generated_basis(b: Basis)
    requires
        b.generated(),
    ensures
        b.primes@.len() == SZ,
        forall|i: int| 0 <= i < SZ ==> FIRST_CANDIDATE <= #[trigger] b.prime(i),
        forall|i: int| 0 <= i < SZ ==> miller_rabin_accepts(#[trigger] b.prime(i) as nat),
        forall|i: int, j: int| 0 <= i < j < SZ ==> b.prime(i) < b.prime(j),
        forall|j: int, k: int|
            0 <= j < k < SZ ==> (#[trigger] b.inverse(j, k) * b.prime(j)) % b.prime(k) == 1,
{
    assert forall|i: int| 0 <= i < SZ implies FIRST_CANDIDATE <= #[trigger] b.prime(i)
        && miller_rabin_accepts(b.prime(i) as nat) by {
        lemma_accepted_lower(FIRST_CANDIDATE as int, SZ as nat, i);
        lemma_accepted_passes(FIRST_CANDIDATE as int, SZ as nat, i);
    }
    assert forall|j: int, k: int| 0 <= j < k < SZ implies (#[trigger] b.inverse(j, k) * b.prime(j)) % b.prime(
        k,
    ) == 1 by {
        assert(is_inverse(b.prime(j), b.inverse(j, k), b.prime(k)));
        lemma_mul_is_commutative(b.prime(j), b.inverse(j, k));
        lemma_small_mod(1, b.prime(k) as nat);
    }
}

/// Two inverses of `a` modulo `m` in `[0, m)` are equal.
pub proof fn lemma_inverse_unique(a: int, x: int, y: int, m: int)
    requires
        m > 1,
        0 <= x < m,
        0 <= y < m,
        is_inverse(a, x, m),
        is_inverse(a, y, m),
    ensures
        x == y,
{
    lemma_small_mod(1, m as nat);
    lemma_small_mod(0, m as nat);
    lemma_sub_mod_noop(a * x, 1, m);
    lemma_sub_mod_noop(a * y, 1, m);
    lemma_divides_combination(a * y - 1, 0, -x, m);
    lemma_divides_combination(a * x - 1, -x * (a * y - 1), y, m);
    assert(y * (a * x - 1) + -x * (a * y - 1) == x - y) by (nonlinear_arith);
    lemma_congruent(x, y, m);
    lemma_small_mod(x as nat, m as nat);
    lemma_small_mod(y as nat, m as nat);
}

/// The generator is deterministic: any two bases it returns are identical.
pub proof fn lemma_generation_deterministic(b1: Basis, b2: Basis)
    requires
        b1.generated(),
        b2.generated(),
    ensures
        b1.primes@ == b2.primes@,
        b1.inverses@.len() == b2.inverses@.len(),
        forall|j: int| 0 <= j < SZ ==> (#[trigger] b1.inverses@[j])@ == b2.inverses@[j]@,
{
    assert(b1.primes@ =~= b2.primes@) by {
        assert forall|i: int| 0 <= i < SZ implies b1.primes@[i] == b2.primes@[i] by {
            assert(b1.prime(i) == b2.prime(i));
        }
    }
    assert forall|j: int| 0 <= j < SZ implies (#[trigger] b1.inverses@[j])@ == b2.inverses@[j]@ by {
        assert(b1.inverses@[j]@ =~= b2.inverses@[j]@) by {
            assert forall|k: int| 0 <= k < SZ implies b1.inverses@[j]@[k] == b2.inverses@[j]@[k] by {
                if j < k {
                    assert(b1.prime(j) == b2.prime(j));
                    assert(b1.prime(k) == b2.prime(k));
                    lemma_inverse_unique(b1.prime(j), b1.inverse(j, k), b2.inverse(j, k), b1.prime(k));
                } else {
                    assert(b1.inverse(j, k) == 0 && b2.inverse(j, k) == 0);
                }
            }
        }
    }
}

/// `v % modulus` has the residues of `v`.
proof fn lemma_reduced_residues(b: Basis, v: int, i: int)
    requires
        b.wf(),
        0 <= i < SZ,
    ensures
        (v % modulus(b)) % b.prime(i) == v % b.prime(i),
{
    let m = modulus(b);
    let p = b.prime(i);
    lemma_prefix_product_pos(b, SZ as nat);
    lemma_prefix_product_divisible(b, i, SZ as nat);
    lemma_fundamental_div_mod(v, m);
    lemma_divides_combination(m, 0, -(v / m), p);
    assert(v % m - v == -(v / m) * m + 0) by (nonlinear_arith)
        requires
            v == m * (v / m) + v % m,
    ;
    lemma_congruent(v % m, v, p);
}

/// Round trip: reconstructing the residues of any `v` gives `v` modulo the
/// product of the basis, hence `v` itself for `0 <= v < modulus`.
pub proof fn lemma_round_trip(b: Basis, g: GNumber, v: int, w: int)
    requires
        b.wf(),
        represents(g, b, v),
        reconstructs(w, g, b),
    ensures
        w == v % modulus(b),
        0 <= v < modulus(b) ==> w == v,
{
    let m = modulus(b);
    lemma_prefix_product_pos(b, SZ as nat);
    lemma_mod_bound(v, m);
    assert forall|i: int| 0 <= i < SZ implies w % b.prime(i) == #[trigger] ((v % m) % b.prime(i)) by {
        lemma_reduced_residues(b, v, i);
        assert(g@[i] == v % b.prime(i));
    }
    lemma_crt_unique(b, w, v % m);
    if 0 <= v < m {
        lemma_small_mod(v as nat, m as nat);
    }
}

/// Addition law: adding the residues of `v1` and `v2` and reconstructing
/// gives `(v1 + v2)` modulo the product of the basis.
pub proof fn lemma_add_law(b: Basis, g1: GNumber, g2: GNumber, g3: GNumber, v1: int, v2: int, w: int)
    requires
        b.wf(),
        represents(g1, b, v1),
        represents(g2, b, v2),
        g3@.len() == SZ,
        forall|i: int| 0 <= i < SZ ==> #[trigger] g3@[i] == (g1@[i] + g2@[i]) % b.prime(i),
        reconstructs(w, g3, b),
    ensures
        w == (v1 + v2) % modulus(b),
{
    assert forall|i: int| 0 <= i < SZ implies #[trigger] g3@[i] == (v1 + v2) % b.prime(i) by {
        lemma_add_mod_noop(v1, v2, b.prime(i));
    }
    lemma_round_trip(b, g3, v1 + v2, w);
}

/// Subtraction law: subtracting the residues of `v2` from those of `v1` and
/// reconstructing gives `(v1 - v2)` modulo the product of the basis, negative
/// differences wrapping into `[0, modulus)`.
pub proof fn lemma_sub_law(b: Basis, g1: GNumber, g2: GNumber, g3: GNumber, v1: int, v2: int, w: int)
    requires
        b.wf(),
        represents(g1, b, v1),
        represents(g2, b, v2),
        g3@.len() == SZ,
        forall|i: int| 0 <= i < SZ ==> #[trigger] g3@[i] == (g1@[i] - g2@[i]) % b.prime(i),
        reconstructs(w, g3, b),
    ensures
        w == (v1 - v2) % modulus(b),
{
    assert forall|i: int| 0 <= i < SZ implies #[trigger] g3@[i] == (v1 - v2) % b.prime(i) by {
        lemma_sub_mod_noop(v1, v2, b.prime(i));
    }
    lemma_round_trip(b, g3, v1 - v2, w);
}

/// Multiplication law: multiplying the residues of `v1` and `v2` and
/// reconstructing gives `(v1 * v2)` modulo the product of the basis.
pub proof fn lemma_mul_law(b: Basis, g1: GNumber, g2: GNumber, g3: GNumber, v1: int, v2: int, w: int)
    requires
        b.wf(),
        represents(g1, b, v1),
        represents(g2, b, v2),
        g3@.len() == SZ,
        forall|i: int| 0 <= i < SZ ==> #[trigger] g3@[i] == (g1@[i] * g2@[i]) % b.prime(i),
        reconstructs(w, g3, b),
    ensures
        w == (v1 * v2) % modulus(b),
{
    assert forall|i: int| 0 <= i < SZ implies #[trigger] g3@[i] == (v1 * v2) % b.prime(i) by {
        lemma_mul_mod_noop_general(v1, v2, b.prime(i));
    }
    lemma_round_trip(b, g3, v1 * v2, w);
}

} // verus!
