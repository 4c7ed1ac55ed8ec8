use euler::coins::{num_possibilities, COINS, TARGET};
use euler::cubes::{cube, find_cube_permutations, find_cubes, get_digits, int_pow};
use euler::e_expansion::expansion_e;
use euler::multiples;
use euler::powered_digits::{is_sum_of_powered_digits, solve};
use euler::spiral::sum_diagonals;
use euler::squares::{square_of_sum, sum_of_squares};

#[test]
fn euler1_test() {
    assert_eq!(233168, multiples::solve(&[3, 5], 1_000));
}

#[test]
fn multiples_below_ten() {
    assert_eq!(23, multiples::solve(&[3, 5], 10));
    assert_eq!(0, multiples::solve(&[3, 5], 0));
    assert!(multiples::divisble_by_any(9, &[2, 3]));
    assert!(!multiples::divisble_by_any(7, &[2, 3]));
}

#[test]
fn sum_square_difference() {
    assert_eq!(385, sum_of_squares(10));
    assert_eq!(3025, square_of_sum(10));
    assert_eq!(2640, euler::squares::solve(10));
    assert_eq!(25164150, euler::squares::solve(100));
}

#[test]
fn euler28_example() {
    assert_eq!(sum_diagonals(5), Some(101));
}

#[test]
fn euler28_answer() {
    assert_eq!(sum_diagonals(1001), Some(669171001));
}

#[test]
fn spiral_edges() {
    assert_eq!(sum_diagonals(1), Some(1));
    assert_eq!(sum_diagonals(4), None);
}

#[test]
fn test_cube() {
    assert_eq!(8, cube(2));
    assert_eq!(27, cube(3));
    assert_eq!(1_000, cube(10));
}

#[test]
fn test_find_cubes() {
    let actual = find_cubes(2).into_iter().collect::<Vec<_>>();
    let expected = vec![27, 64];
    assert_eq!(expected, actual);

    let actual = find_cubes(3).into_iter().collect::<Vec<_>>();
    let expected = vec![125, 216, 343, 512, 729];
    assert_eq!(expected, actual);
}

#[test]
fn test_get_digits() {
    let digit_counts = get_digits(4827448);
    //              0  1  2  3  4  5  6  7  8  9
    let expected = [0, 0, 1, 0, 3, 0, 0, 1, 2, 0];
    assert_eq!(expected, digit_counts);
    assert_eq!(digit_counts[1], 0);
    assert_eq!(digit_counts[2], 1);
    assert_eq!(digit_counts[4], 3);
    assert_eq!(digit_counts[7], 1);
    assert_eq!(digit_counts[8], 2);
}

#[test]
fn cube_permutations() {
    assert_eq!(Some(vec![41063625, 56623104, 66430125]), find_cube_permutations(8, 3));
    assert_eq!(None, find_cube_permutations(8, 0));
    assert_eq!(1000, int_pow(10, 3));
}

#[test]
fn main_example() {
    assert_eq!(solve(4), 19_316);
}

#[test]
fn main_answer() {
    assert_eq!(solve(5), 443_839);
}

#[test]
fn powered_digit_sums() {
    assert!(is_sum_of_powered_digits(1634, 4));
    assert!(!is_sum_of_powered_digits(1635, 4));
    assert!(!is_sum_of_powered_digits(99, 40));
}

#[test]
fn coins_answer() {
    assert_eq!(73682, num_possibilities(&COINS, TARGET));
    assert_eq!(1, num_possibilities(&[], 0));
    assert_eq!(0, num_possibilities(&[], 5));
    assert_eq!(3, num_possibilities(&[2, 1], 4));
}

#[test]
fn test_e_expansion() {
    let expected = vec![
        2, 1, 2, 1, 1, 4, 1, 1, 6, 1, 1, 8, 1, 1, 10, 1, 1, 12, 1, 1, 14, 1, 1, 16, 1, 1, 18,
        1, 1, 20, 1, 1, 22, 1, 1, 24, 1,
    ];
    let actual: Vec<_> = (0..expected.len() as u64).map(expansion_e).collect();
    assert_eq!(expected, actual);
}
