//! Number-theory and combinatorics routines for Project Euler puzzles, each
//! stated with a contract and proved.

pub mod abundant;
pub mod amicable;
pub mod arith;
pub mod big_digits;
pub mod calendar;
pub mod coins;
pub mod collatz;
pub mod cubes;
pub mod digit_cancelling;
pub mod divisors;
pub mod e_expansion;
pub mod factors;
pub mod largest_prime_factor;
pub mod lattice_paths;
pub mod letters;
pub mod multiples;
pub mod names;
pub mod nth_prime;
pub mod palindrome;
pub mod pandigital;
pub mod permutation;
pub mod powered_digits;
pub mod prime_sum;
pub mod primes;
pub mod quadratic_primes;
pub mod smallest_multiple;
pub mod spiral;
pub mod sqrt_expansion;
pub mod squares;
pub mod triangle_divisors;
pub mod triangle_path;
pub mod triangle_text;
pub mod triplet;
pub mod unit_fraction;
