use algebra::big_integer::BigInteger;
use algebra::garners_algorithm::{primes_and_inverses, Basis, GNumber, FIRST_CANDIDATE, SZ};
use num::{BigInt, BigUint, Signed};

fn basis() -> Basis {
    primes_and_inverses().expect("the basis primes are coprime")
}

fn big(v: &BigInt) -> BigInteger {
    BigInteger { negative: v.is_negative(), digits: v.magnitude().to_u32_digits() }
}

fn to_num(v: &BigInteger) -> BigInt {
    let m = BigInt::from(BigUint::new(v.digits.clone()));
    if v.negative {
        -m
    } else {
        m
    }
}

fn modulus(b: &Basis) -> BigInt {
    b.primes.iter().fold(BigInt::from(1), |acc, p| acc * BigInt::from(*p))
}

fn parse(s: &str) -> BigInt {
    BigInt::parse_bytes(s.as_bytes(), 10).unwrap()
}

#[test]
fn basis_primes_are_prime_increasing_and_large() {
    let b = basis();
    assert_eq!(b.primes.len(), SZ);
    assert_eq!(b.primes[0], 1000000007);
    assert!(b.primes[0] >= FIRST_CANDIDATE);
    for i in 0..SZ {
        assert!(algebra::primality::is_prime(b.primes[i]));
        if i > 0 {
            assert!(b.primes[i - 1] < b.primes[i]);
        }
    }
}

#[test]
fn basis_inverse_table_inverts() {
    let b = basis();
    for j in 0..SZ {
        for k in (j + 1)..SZ {
            let v = (b.inverses[j][k] as i128 * b.primes[j] as i128) % b.primes[k] as i128;
            assert_eq!(v, 1);
        }
    }
}

#[test]
fn basis_generation_is_repeatable() {
    let b1 = basis();
    let b2 = basis();
    assert_eq!(b1.primes, b2.primes);
    assert_eq!(b1.inverses, b2.inverses);
}

#[test]
fn round_trip_beyond_64_bits() {
    let b = basis();
    let v = parse("1000000000000000000000");
    let g = GNumber::new(&big(&v), &b);
    assert_eq!(to_num(&g.to_bigint(&b)), v);
}

#[test]
fn round_trip_small_and_zero() {
    let b = basis();
    for v in [0i64, 1, 2, 1000000007, 1000687000001, i64::MAX] {
        let v = BigInt::from(v);
        let g = GNumber::new(&big(&v), &b);
        assert_eq!(to_num(&g.to_bigint(&b)), v);
    }
}

#[test]
fn round_trip_largest_value() {
    let b = basis();
    let v = modulus(&b) - 1;
    let g = GNumber::new(&big(&v), &b);
    assert_eq!(to_num(&g.to_bigint(&b)), v);
}

#[test]
fn negative_value_wraps_into_range() {
    let b = basis();
    let v = BigInt::from(-1000687000001i64);
    let g = GNumber::new(&big(&v), &b);
    assert_eq!(to_num(&g.to_bigint(&b)), modulus(&b) + v);
}

#[test]
fn residues_are_reduced() {
    let b = basis();
    let v = parse("123456789012345678901234567890");
    let g = GNumber::new(&big(&v), &b);
    for i in 0..SZ {
        let r = g.residue(i);
        assert!(0 <= r && r < b.primes[i]);
        assert_eq!(BigInt::from(r), &v % BigInt::from(b.primes[i]));
    }
}

#[test]
fn add_sub_mul_follow_the_integers() {
    let b = basis();
    let v1 = parse("98765432109876543210987654321");
    let v2 = parse("12345678901234567890");
    let g1 = GNumber::new(&big(&v1), &b);
    let g2 = GNumber::new(&big(&v2), &b);
    let m = modulus(&b);
    assert_eq!(to_num(&g1.add(&g2, &b).to_bigint(&b)), (&v1 + &v2) % &m);
    assert_eq!(to_num(&g1.sub(&g2, &b).to_bigint(&b)), &v1 - &v2);
    assert_eq!(to_num(&g1.mul(&g2, &b).to_bigint(&b)), (&v1 * &v2) % &m);
}

#[test]
fn sub_wraps_negative_difference() {
    let b = basis();
    let g1 = GNumber::new(&big(&BigInt::from(5)), &b);
    let g2 = GNumber::new(&big(&BigInt::from(8)), &b);
    assert_eq!(to_num(&g1.sub(&g2, &b).to_bigint(&b)), modulus(&b) - 3);
}

#[test]
fn default_is_zero() {
    let b = basis();
    let g = GNumber::default();
    for i in 0..SZ {
        assert_eq!(g.residue(i), 0);
    }
    assert_eq!(to_num(&g.to_bigint(&b)), BigInt::from(0));
}
