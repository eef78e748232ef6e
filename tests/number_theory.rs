use algebra::binary_exponentiation::binary_exponentiation_mod;
use algebra::gcd::{gcd, gcd_extended, gcd_extended1, gcd_non_recursive, lcm};
use algebra::modular_inverse::modular_inverse_extended_gcd;
use algebra::primality::{deterministic_millerrabin, is_prime};

#[test]
fn gcd_examples() {
    assert_eq!(gcd(25, 10), 5);
    assert_eq!(gcd(15, 16), 1);
    assert_eq!(gcd(0, 7), 7);
    assert_eq!(gcd(7, 0), 7);
    assert_eq!(gcd_non_recursive(25, 10), 5);
    assert_eq!(gcd_non_recursive(15, 16), 1);
    assert_eq!(gcd_non_recursive(0, 0), 0);
}

#[test]
fn gcd_extended_examples() {
    let (x, y) = gcd_extended(10, 25);
    assert_eq!(x * 10 + y * 25, 5);
    let (x, y) = gcd_extended(15, 16);
    assert_eq!(x * 15 + y * 16, 1);
    let ((x, y), g) = gcd_extended1(10, 25);
    assert_eq!(g, 5);
    assert_eq!(x * 10 + y * 25, g);
    let ((x, y), g) = gcd_extended1(15, 16);
    assert_eq!(g, 1);
    assert_eq!(x * 15 + y * 16, g);
}

#[test]
fn lcm_example() {
    assert_eq!(lcm(10, 15), 30);
    assert_eq!(lcm(0, 15), 0);
}

#[test]
fn modular_inverse_examples() {
    assert_eq!(modular_inverse_extended_gcd(2, 4), None);
    assert_eq!(modular_inverse_extended_gcd(2, 5), Some(3));
    assert_eq!(modular_inverse_extended_gcd(-2, 5), Some(2));
    assert_eq!(modular_inverse_extended_gcd(7, 1), Some(0));
}

#[test]
fn binary_exponentiation_mod_examples() {
    assert_eq!(binary_exponentiation_mod(4, 56, 379), 239);
    assert_eq!(binary_exponentiation_mod(0, 5, 7), 0);
    assert_eq!(binary_exponentiation_mod(0, 0, 7), 1);
    assert_eq!(binary_exponentiation_mod(3, 0, 1), 0);
    assert_eq!(binary_exponentiation_mod(u64::MAX, 2, u64::MAX - 1), 1);
}

#[test]
fn trial_division_primality_examples() {
    assert!(is_prime(13));
    assert!(!is_prime(77));
    assert!(is_prime(2));
    assert!(!is_prime(4));
    assert!(is_prime(1));
    assert!(is_prime(-5));
}

#[test]
fn miller_rabin_agrees_with_trial_division() {
    for n in 0..200000u64 {
        let expected = n >= 2 && is_prime(n as i64);
        assert_eq!(deterministic_millerrabin(n), expected, "n = {}", n);
    }
}

#[test]
fn miller_rabin_rejects_carmichael_numbers() {
    for n in [561u64, 1105, 1729, 2465, 2821, 6601, 8911, 3215031751] {
        assert!(!deterministic_millerrabin(n));
    }
}

#[test]
fn miller_rabin_large_inputs() {
    assert!(deterministic_millerrabin(1000000007));
    assert!(deterministic_millerrabin(18446744073709551557));
    assert!(!deterministic_millerrabin(18446744073709551615));
    assert!(!deterministic_millerrabin(1000000007 * 998244353));
    assert!(deterministic_millerrabin(37));
    assert!(!deterministic_millerrabin(1));
}
