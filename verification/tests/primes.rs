use prime_report::primes::is_prime;
use prime_report::primes::primes_in_range;

/// Trial division oracle: checks every candidate divisor below `n`.
fn oracle_is_prime(n: u32) -> bool {
    if n < 2 {
        return false;
    }
    let mut d: u32 = 2;
    while d < n {
        if n % d == 0 {
            return false;
        }
        d += 1;
    }
    true
}

#[test]
fn is_prime_agrees_with_oracle_up_to_10000() {
    for n in 0u32..=10000 {
        assert_eq!(is_prime(n), oracle_is_prime(n), "disagreement at {}", n);
    }
}

#[test]
fn is_prime_small_values() {
    assert_eq!(is_prime(0), false);
    assert_eq!(is_prime(1), false);
    assert_eq!(is_prime(2), true);
    assert_eq!(is_prime(3), true);
    assert_eq!(is_prime(4), false);
    assert_eq!(is_prime(17), true);
    assert_eq!(is_prime(18), false);
}

#[test]
fn primes_from_1_to_20() {
    let primes = primes_in_range(1, 20);
    assert_eq!(primes, vec![2, 3, 5, 7, 11, 13, 17, 19]);
    assert_eq!(primes.len(), 8);
}

#[test]
fn primes_from_1_to_100() {
    let primes = primes_in_range(1, 100);
    assert_eq!(primes.len(), 25);
    assert_eq!(primes[0], 2);
    assert_eq!(primes[24], 97);
}

#[test]
fn reversed_range_yields_empty_sequence() {
    assert!(primes_in_range(20, 1).is_empty());
    assert!(primes_in_range(3, 2).is_empty());
}

#[test]
fn single_value_range_at_two() {
    assert_eq!(primes_in_range(2, 2), vec![2]);
}

#[test]
fn single_value_range_at_composite() {
    assert!(primes_in_range(9, 9).is_empty());
}

#[test]
fn range_not_starting_at_one() {
    assert_eq!(primes_in_range(10, 30), vec![11, 13, 17, 19, 23, 29]);
}
