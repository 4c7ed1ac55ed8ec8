use euler::divisors::{get_divisors, sum_of_proper_divisors, sum_of_proper_divisors_naive};
use euler::factors::{factors_to_divisors, get_factors};
use euler::largest_prime_factor::solve;
use euler::primes::primes_below;

fn sorted(mut v: Vec<usize>) -> Vec<usize> {
    v.sort();
    v
}

#[test]
fn main_test() {
    assert_eq!(6857, solve(600_851_475_143));
}

#[test]
fn sieve_of_ten() {
    assert_eq!(vec![2, 3, 5, 7], primes_below(10));
}

#[test]
fn sieve_edges() {
    assert!(primes_below(0).is_empty());
    assert!(primes_below(2).is_empty());
    assert_eq!(vec![2], primes_below(3));
    assert_eq!(25, primes_below(100).len());
    assert_eq!(Some(&97), primes_below(100).last());
}

#[test]
fn sieve_is_repeatable() {
    assert_eq!(primes_below(1000), primes_below(1000));
}

#[test]
fn factorize_twenty_eight() {
    assert_eq!(vec![(2, 2), (7, 1)], get_factors(28, &[2, 3, 5]));
}

#[test]
fn factorize_small_numbers() {
    assert!(get_factors(0, &[2, 3]).is_empty());
    assert!(get_factors(1, &[2, 3]).is_empty());
    assert_eq!(vec![(13, 1)], get_factors(13, &[2, 3]));
    assert_eq!(vec![(2, 10)], get_factors(1024, &[2, 3, 5, 7, 11, 13, 17, 19, 23, 29, 31]));
}

#[test]
fn factorize_large_number() {
    let primes = primes_below(775_147);
    let factors = get_factors(600_851_475_143, &primes);
    assert_eq!(vec![(71, 1), (839, 1), (1471, 1), (6857, 1)], factors);
}

#[test]
fn divisors_of_twenty_eight() {
    let divisors = factors_to_divisors(&[(2, 2), (7, 1)]);
    assert_eq!(vec![1, 2, 4, 7, 14, 28], sorted(divisors));
    assert_eq!(vec![1], factors_to_divisors(&[]));
}

#[test]
fn proper_divisors_of_twenty_eight() {
    let primes = primes_below(10);
    assert_eq!(vec![1, 2, 4, 7, 14], sorted(get_divisors(28, &primes)));
    assert_eq!(Some(28), sum_of_proper_divisors(28, &primes));
    assert!(get_divisors(1, &primes).is_empty());
    assert_eq!(vec![1], get_divisors(0, &primes));
}

#[test]
fn amicable_pair() {
    let primes = primes_below(100);
    assert_eq!(Some(284), sum_of_proper_divisors(220, &primes));
    assert_eq!(Some(220), sum_of_proper_divisors(284, &primes));
    assert_eq!(Some(284), sum_of_proper_divisors_naive(220));
    assert_eq!(Some(220), sum_of_proper_divisors_naive(284));
    assert_eq!(Some(0), sum_of_proper_divisors_naive(1));
}

#[test]
fn largest_prime_factor_small() {
    assert_eq!(29, solve(13195));
    assert_eq!(2, solve(2));
    assert_eq!(7, solve(49));
}
