use algebra::binary_exponentiation::binary_exponentiation;
use algebra::factorization::{
    fermat_factorization, trial_division, trial_division_primes_precomputed, trial_division_wheel,
};
use algebra::fibonacci::fibonacci;
use algebra::geometric_progression::calc_mod;
use algebra::linear_diophantine::{find_one_solution, gcd, shift_solution, Solution};
use algebra::primality::{
    fermat_round, miller_rabin_round, non_deterministic_millerrabin, probably_prime_fermat,
};

#[test]
fn binary_exponentiation_examples() {
    assert_eq!(binary_exponentiation(3, 13), 1594323);
    assert_eq!(binary_exponentiation(0, 0), 1);
    assert_eq!(binary_exponentiation(0, 5), 0);
    assert_eq!(binary_exponentiation(2, 63), 1u64 << 63);
    assert_eq!(binary_exponentiation(4294967295, 2), 18446744065119617025);
    assert_eq!(binary_exponentiation(1, u64::MAX), 1);
}

#[test]
fn fibonacci_examples() {
    assert_eq!(fibonacci(0), (0, 1));
    assert_eq!(fibonacci(4), (3, 5));
    assert_eq!(fibonacci(10), (55, 89));
    assert_eq!(fibonacci(91), (4660046610375530309, 7540113804746346429));
}

#[test]
fn geometric_progression_examples() {
    assert_eq!(algebra::geometric_progression::calc(4, 3), 84);
    assert_eq!(algebra::geometric_progression::calc(2, 0), 0);
    assert_eq!(algebra::geometric_progression::calc(1, 1000), 1000);
    assert_eq!(algebra::geometric_progression::calc(2, 62), (1u64 << 63) - 2);
    assert_eq!(calc_mod(4, 3, 17), 16);
    assert_eq!(calc_mod(4, 3, 1), 0);
    assert_eq!(calc_mod(7, 0, 5), 0);
    assert_eq!(calc_mod(3, 5, 1000), 363);
    assert_eq!(calc_mod(u64::MAX, 2, u64::MAX - 1), 2);
}

#[test]
fn trial_division_examples() {
    assert_eq!(trial_division(60), vec![2, 2, 3, 5]);
    assert_eq!(trial_division(210), vec![2, 3, 5, 7]);
    assert_eq!(trial_division(0), Vec::<u64>::new());
    assert_eq!(trial_division(1), Vec::<u64>::new());
    assert_eq!(trial_division(97), vec![97]);
    assert_eq!(trial_division(18446744073709551615), vec![3, 5, 17, 257, 641, 65537, 6700417]);
}

#[test]
fn trial_division_wheel_examples() {
    assert_eq!(trial_division_wheel(60), vec![2, 2, 3, 5]);
    assert_eq!(trial_division_wheel(210), vec![2, 3, 5, 7]);
    assert_eq!(trial_division_wheel(1), Vec::<u64>::new());
    assert_eq!(trial_division_wheel(11 * 13 * 13), vec![11, 13, 13]);
    assert_eq!(trial_division_wheel(49), vec![49]);
}

#[test]
fn trial_division_primes_precomputed_examples() {
    assert_eq!(trial_division_primes_precomputed(35, &[2, 3, 5]), vec![5, 7]);
    assert_eq!(trial_division_primes_precomputed(208, &[2, 3, 5, 7, 11, 13]), vec![2, 2, 2, 2, 13]);
    assert_eq!(trial_division_primes_precomputed(0, &[2, 3]), Vec::<u64>::new());
    assert_eq!(trial_division_primes_precomputed(12, &[]), vec![12]);
}

#[test]
fn fermat_factorization_examples() {
    assert_eq!(fermat_factorization(49), 7);
    assert_eq!(fermat_factorization(56), 4);
    assert_eq!(fermat_factorization(1), 1);
    assert_eq!(fermat_factorization(0), 0);
    assert_eq!(fermat_factorization(15), 3);
    assert_eq!(fermat_factorization(4294967295), 65535);
}

#[test]
fn linear_diophantine_examples() {
    let (s, g) = find_one_solution(4, 6, 24).expect("4x + 6y = 24 has solutions");
    assert_eq!(g, 2);
    assert_eq!(s.0 * 4 + s.1 * 6, 24);
    assert!(find_one_solution(4, 6, 23).is_none());
    let (s, g) = find_one_solution(-4, 6, -10).unwrap();
    assert_eq!(g, 2);
    assert_eq!(s.0 * -4 + s.1 * 6, -10);
    let (s, g) = find_one_solution(0, 5, 15).unwrap();
    assert_eq!(g, 5);
    assert_eq!(s.1 * 5, 15);
}

#[test]
fn diophantine_helpers() {
    let (Solution(x, y), g) = gcd(10, 25);
    assert_eq!(g, 5);
    assert_eq!(10 * x + 25 * y, 5);
    assert_eq!(shift_solution(Solution(1, 2), 3, 5, 2), Solution(11, -4));
    assert_eq!(shift_solution(Solution(1, 2), 3, 5, -1), Solution(-4, 5));
}

#[test]
fn randomized_tests_decide_small_values_and_reject_composites() {
    assert!(probably_prime_fermat(103, 5));
    assert!(!probably_prime_fermat(1, 5));
    assert!(probably_prime_fermat(2, 0));
    assert!(!probably_prime_fermat(100, 20));
    assert!(non_deterministic_millerrabin(103));
    assert!(non_deterministic_millerrabin(3));
    assert!(!non_deterministic_millerrabin(561));
    assert!(!non_deterministic_millerrabin(1000000007 * 3));
}

#[test]
fn single_rounds_on_given_draws() {
    // base 2 + 0 = 2 is coprime to the Carmichael number 561: a Fermat liar
    assert!(fermat_round(561, 0));
    // base 2 + 1 = 3 divides 561
    assert!(!fermat_round(561, 1));
    assert!(fermat_round(103, 0));
    // 561 - 1 = 35 * 2^4
    assert!(!miller_rabin_round(561, 35, 4, 0));
    // 103 - 1 = 51 * 2
    assert!(miller_rabin_round(103, 51, 1, 12345));
}
