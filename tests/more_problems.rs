use euler::abundant::{is_abundant, is_sum_of_abundant_nums};
use euler::amicable;
use euler::big_digits::{factorial_digit_sum, get_num_digits, power_digit_sum, Fibonacci};
use euler::digit_cancelling::{decimal_digits, factors, sieve, two_decimal_digits};
use euler::nth_prime::{estimate_nth_prime, nth_prime};
use euler::palindrome::{is_palindrome, number_is_palindrome};
use euler::permutation::{factorial, find_permutation, from_digits};
use euler::primes::primes_below;
use euler::quadratic_primes::Formula;
use euler::triangle_divisors::{num_divisors, TriangleNumbers};

#[test]
fn euler32_answer() {
    assert_eq!(euler::pandigital::solve(), 45228);
}

#[test]
fn pandigital_identity() {
    assert!(euler::pandigital::is_multiplitied_pandigital(186, 39));
    assert!(!euler::pandigital::is_multiplitied_pandigital(186, 38));
    assert!(!euler::pandigital::is_multiplitied_pandigital(0, 0));
}

#[test]
fn euler25_test() {
    assert_eq!(Some(4_782), euler::big_digits::solve(1_000));
}

#[test]
fn fibonacci_numbers() {
    let mut fibonacci = Fibonacci::new();
    let firsts: Vec<Vec<u8>> = (0..7).map(|_| fibonacci.next()).collect();
    assert_eq!(vec![vec![1], vec![1], vec![2], vec![3], vec![5], vec![8], vec![1, 3]], firsts);
    assert_eq!(Some(12), euler::big_digits::solve(3));
    assert_eq!(3, get_num_digits(&vec![0, 1, 4, 4]));
    assert_eq!(1, get_num_digits(&vec![0]));
}

#[test]
fn power_digit_sums() {
    assert_eq!(26, power_digit_sum(2, 15));
    assert_eq!(1366, power_digit_sum(2, 1000));
    assert_eq!(1, power_digit_sum(7, 0));
}

#[test]
fn factorial_digit_sums() {
    assert_eq!(27, factorial_digit_sum(10));
    assert_eq!(648, factorial_digit_sum(100));
    assert_eq!(1, factorial_digit_sum(0));
}

#[test]
fn amicable_numbers() {
    let mut sums = vec![0; 300];
    let primes = primes_below(300);
    for n in 2..300 {
        sums[n] = euler::divisors::sum_of_proper_divisors(n, &primes).unwrap();
    }
    assert!(amicable::is_amicable_number(220, &sums));
    assert!(amicable::is_amicable_number(284, &sums));
    assert!(!amicable::is_amicable_number(6, &sums));
    assert!(!amicable::is_amicable_number(221, &sums));
    assert_eq!(Some(31_626), amicable::solve(10_000));
}

#[test]
fn abundant_numbers() {
    let primes = primes_below(100);
    assert!(is_abundant(12, &primes));
    assert!(!is_abundant(28, &primes));
    assert!(!is_abundant(11, &primes));
    let table: Vec<bool> = (0..40).map(|n| n >= 1 && is_abundant(n, &primes)).collect();
    let abundant: Vec<usize> = (1..40).filter(|&n| table[n]).collect();
    assert_eq!(vec![12, 18, 20, 24, 30, 36], abundant);
    assert!(is_sum_of_abundant_nums(24, &abundant, &table));
    assert!(!is_sum_of_abundant_nums(23, &abundant, &table));
    assert!(is_sum_of_abundant_nums(36, &abundant, &table));
}

#[test]
fn digit_pairs() {
    assert!(euler::digit_cancelling::matches((4, 9), (9, 8)));
    assert!(!euler::digit_cancelling::matches((3, 0), (5, 0)));
    assert_eq!((0..10).collect::<Vec<usize>>(), decimal_digits());
    let pairs = two_decimal_digits();
    assert_eq!(100, pairs.len());
    assert_eq!((4, 7), pairs[47]);
}

#[test]
fn inclusive_sieve_and_factors() {
    assert_eq!(vec![2, 3, 5, 7, 11, 13], sieve(13));
    let primes = sieve(100);
    assert_eq!(vec![2, 2, 5, 5], factors(100, &primes));
    assert_eq!(vec![97], factors(97, &primes));
    assert!(factors(1, &primes).is_empty());
}

#[test]
fn nth_primes() {
    assert_eq!(60, estimate_nth_prime(6));
    assert_eq!(Some(13), nth_prime(6));
    assert_eq!(Some(2), nth_prime(1));
    assert_eq!(Some(104_743), euler::nth_prime::solve(10_001));
}

#[test]
fn permutations() {
    assert_eq!(24, factorial(4));
    assert_eq!(1, factorial(0));
    assert_eq!(vec![0, 1, 2], find_permutation(0, vec![0, 1, 2]));
    assert_eq!(vec![1, 2, 0], find_permutation(3, vec![0, 1, 2]));
    assert_eq!(vec![2, 1, 0], find_permutation(5, vec![0, 1, 2]));
    assert_eq!(3124, from_digits(&[3, 1, 2, 4]));
    assert_eq!(2_783_915_460, euler::permutation::solve(1_000_000, 0, 9));
}

#[test]
fn palindromes() {
    assert!(number_is_palindrome(9009));
    assert!(number_is_palindrome(0));
    assert!(!number_is_palindrome(9019));
    assert!(is_palindrome("9009"));
    assert!(is_palindrome("été"));
    assert!(is_palindrome(""));
    assert!(!is_palindrome("ab"));
    assert_eq!(Some(9009), euler::palindrome::solve(2));
    assert_eq!(Some(906_609), euler::palindrome::solve(3));
}

#[test]
fn pythagorean_triplets() {
    assert!(euler::triplet::is_pythagorean_triplet(3, 4, 5));
    assert!(!euler::triplet::is_pythagorean_triplet(3, 4, 6));
    assert_eq!(Some(60), euler::triplet::solve(12));
    assert_eq!(Some(31_875_000), euler::triplet::solve(1_000));
    assert_eq!(None, euler::triplet::solve(11));
}

#[test]
fn sums_of_primes() {
    assert_eq!(17, euler::prime_sum::solve(10));
    assert_eq!(0, euler::prime_sum::solve(2));
    assert_eq!(142_913_828_922, euler::prime_sum::solve(2_000_000));
}

#[test]
fn triangle_numbers() {
    let primes = primes_below(100);
    assert_eq!(6, num_divisors(28, &primes));
    assert_eq!(1, num_divisors(1, &primes));
    let mut triangles = TriangleNumbers::new();
    let firsts: Vec<Option<usize>> = (0..7).map(|_| triangles.next()).collect();
    assert_eq!(vec![Some(1), Some(3), Some(6), Some(10), Some(15), Some(21), Some(28)], firsts);
    assert_eq!(Some(28), euler::triangle_divisors::solve(5));
    assert_eq!(Some(76_576_500), euler::triangle_divisors::solve(500));
}

#[test]
fn triangle_paths() {
    let example = vec![vec![3], vec![7, 4], vec![2, 4, 6], vec![8, 5, 9, 3]];
    assert_eq!(23, euler::triangle_path::solve(&example));
    let triangle: Vec<Vec<u64>> = vec![
        vec![75],
        vec![95, 64],
        vec![17, 47, 82],
        vec![18, 35, 87, 10],
        vec![20, 4, 82, 47, 65],
        vec![19, 1, 23, 75, 3, 34],
        vec![88, 2, 77, 73, 7, 63, 67],
        vec![99, 65, 4, 28, 6, 16, 70, 92],
        vec![41, 41, 26, 56, 83, 40, 80, 70, 33],
        vec![41, 48, 72, 33, 47, 32, 37, 16, 94, 29],
        vec![53, 71, 44, 65, 25, 43, 91, 52, 97, 51, 14],
        vec![70, 11, 33, 28, 77, 73, 17, 78, 39, 68, 17, 57],
        vec![91, 71, 52, 38, 17, 14, 91, 43, 58, 50, 27, 29, 48],
        vec![63, 66, 4, 68, 89, 53, 67, 30, 73, 16, 69, 87, 40, 31],
        vec![4, 62, 98, 27, 23, 9, 70, 98, 73, 93, 38, 53, 60, 4, 23],
    ];
    assert_eq!(1074, euler::triangle_path::solve(&triangle));
    assert_eq!(5, euler::triangle_path::solve(&[vec![5]]));
}

#[test]
fn quadratic_primes() {
    let sieve = primal::Sieve::new(2_001_000);
    assert_eq!(Some(40), Formula::from_tuple((1, 41)).count_primes(&sieve));
    assert_eq!(Some(80), Formula::from_tuple((-79, 1601)).count_primes(&sieve));
    assert_eq!((-79, 1601), Formula::from_tuple((-79, 1601)).as_tuple());
    assert_eq!(Some(-59_231), euler::quadratic_primes::solve());
}

#[test]
fn abundant_answer() {
    assert_eq!(4_179_871, euler::abundant::solve());
}
