use algebra::prime::{count_primes, primes};

#[test]
fn primes_small_bounds() {
    assert_eq!(primes(0), Vec::<usize>::new());
    assert_eq!(primes(1), Vec::<usize>::new());
    assert_eq!(primes(2), vec![2]);
    assert_eq!(primes(30), vec![2, 3, 5, 7, 11, 13, 17, 19, 23, 29]);
}

#[test]
fn primes_up_to_a_million() {
    let n = 1000000;
    assert_eq!(primes(n).len(), 78498);
    assert_eq!(primes(n).len(), count_primes(n));
}

#[test]
fn count_primes_examples() {
    assert_eq!(count_primes(0), 0);
    assert_eq!(count_primes(1), 0);
    assert_eq!(count_primes(2), 1);
    assert_eq!(count_primes(100), 25);
    assert_eq!(count_primes(10000), 1229);
    assert_eq!(count_primes(10007), 1230);
    assert_eq!(count_primes(1000000), 78498);
}

#[test]
fn count_primes_agrees_with_the_linear_sieve() {
    for n in [3usize, 4, 9, 10, 99, 9999, 10001, 20000, 123457] {
        assert_eq!(count_primes(n), primes(n).len(), "n = {}", n);
    }
}
