use euler::big_digits::{get_matching_power_num_digits, num_digits};
use euler::calendar::{date_lt, is_first_of_month, next_weekday, DayIter};

#[test]
fn sundays_on_firsts() {
    // 6 is Sunday, counting from Monday as 0
    assert_eq!(Some(171), euler::calendar::solve((1901, 1, 1), (2000, 12, 31), 6));
    assert_eq!(Some(0), euler::calendar::solve((1901, 1, 2), (1901, 1, 3), 6));
}

#[test]
fn calendar_steps() {
    assert_eq!(Some(((1901, 1, 6), 5)), next_weekday((1901, 1, 1), 6));
    assert_eq!(Some(((1900, 1, 1), 0)), next_weekday((1900, 1, 1), 0));
    let mut days = DayIter::new((1999, 12, 31));
    assert_eq!(Some((1999, 12, 31)), days.next());
    assert_eq!(Some((2000, 1, 1)), days.next());
    let mut leap = DayIter::new((2000, 2, 28));
    leap.next();
    assert_eq!((2000, 2, 29), leap.day);
    let mut plain = DayIter::new((1900, 2, 28));
    plain.next();
    assert_eq!((1900, 3, 1), plain.day);
    assert!(is_first_of_month((2000, 3, 1)));
    assert!(!is_first_of_month((2000, 3, 2)));
    assert!(date_lt((1999, 12, 31), (2000, 1, 1)));
    assert!(!date_lt((2000, 1, 1), (2000, 1, 1)));
}

#[test]
fn lattice_paths() {
    assert_eq!(Some(6), euler::lattice_paths::solve(2));
    assert_eq!(Some(1), euler::lattice_paths::solve(0));
    assert_eq!(Some(137_846_528_820), euler::lattice_paths::solve(20));
}

#[test]
fn counting_digits() {
    assert_eq!(1, num_digits(&vec![1]));
    assert_eq!(2, num_digits(&vec![9, 9]));
    assert_eq!(3, num_digits(&vec![0, 1, 0, 0]));
    assert_eq!(0, num_digits(&vec![0]));
    assert_eq!(0, num_digits(&vec![]));
}

#[test]
fn matching_powers() {
    assert_eq!(Some(vec![1]), get_matching_power_num_digits(2));
    assert_eq!(Some(vec![1, 2]), get_matching_power_num_digits(4));
    assert_eq!(Some(vec![1, 2, 3]), get_matching_power_num_digits(5));
    let total: usize = (0..10).map(|b| get_matching_power_num_digits(b).unwrap().len()).sum();
    assert_eq!(49, total);
}

#[test]
fn smallest_multiples() {
    assert_eq!(Some(2520), euler::smallest_multiple::solve(10));
    assert_eq!(Some(232_792_560), euler::smallest_multiple::solve(20));
    assert_eq!(Some(1), euler::smallest_multiple::solve(1));
    let merged = euler::smallest_multiple::merge_factors(&vec![(2, 2), (3, 1)], &vec![(2, 1), (5, 1)]);
    assert_eq!(vec![(2, 2), (3, 1), (5, 1)], merged);
}

#[test]
fn digit_counter() {
    let counter = euler::cubes::get_digits_counter(4827448);
    assert_eq!(3, counter[&4]);
    assert_eq!(0, counter[&1]);
}

fn decimal(mut n: u64) -> Vec<u8> {
    let mut digits = Vec::new();
    loop {
        digits.push((n % 10) as u8);
        n /= 10;
        if n == 0 {
            break;
        }
    }
    digits.reverse();
    digits
}

#[test]
fn test_get_convergent() {
    let test_cases = [
        (1u64, 1u64),
        (3, 2),
        (7, 5),
        (17, 12),
        (41, 29),
        (99, 70),
        (239, 169),
        (577, 408),
        (1393, 985),
        (3363, 2378),
    ];
    for (i, (numer, denom)) in test_cases.into_iter().enumerate() {
        let expanded: Vec<u64> = std::iter::repeat(2).take(i).collect();
        let actual = euler::e_expansion::get_convergent(1, &expanded);
        assert_eq!((decimal(numer), decimal(denom)), actual, "Convergent with {} terms", i);
    }
}

#[test]
fn test_sum_digits() {
    let sum_digits = |n: u64| euler::big_digits::sum_digits(&decimal(n));
    assert_eq!(1, sum_digits(1));
    assert_eq!(3, sum_digits(3));
    assert_eq!(9, sum_digits(72));
    assert_eq!(4, sum_digits(13));
    assert_eq!(27, sum_digits(999));
    assert_eq!(8, sum_digits(800));
}

#[test]
fn e_convergents() {
    assert_eq!(Some(17), euler::e_expansion::solve(10));
    assert_eq!(Some(272), euler::e_expansion::solve(100));
    let (numer, denom) = euler::e_expansion::get_convergent(2, &[1, 1, 2, 1]);
    assert_eq!((vec![1, 9], vec![7]), (numer, denom));
}

#[test]
fn test_num_digits() {
    let num_digits = |n: u64| num_digits(&decimal(n));
    assert_eq!(1, num_digits(1));
    assert_eq!(1, num_digits(2));
    assert_eq!(1, num_digits(9));
    assert_eq!(2, num_digits(10));
    assert_eq!(2, num_digits(11));
    assert_eq!(2, num_digits(50));
    assert_eq!(2, num_digits(99));
    assert_eq!(3, num_digits(100));
    assert_eq!(3, num_digits(101));
    assert_eq!(5, num_digits(12345));
    assert_eq!(8, num_digits(12345678));
    assert_eq!(13, num_digits(1234567890123));
}

#[test]
fn test_get_matching_power_num_digits() {
    let actual = get_matching_power_num_digits(2).unwrap();
    let expected = vec![1];
    assert_eq!(expected, actual);

    let actual = get_matching_power_num_digits(4).unwrap();
    let expected = vec![1, 2];
    assert_eq!(expected, actual);

    let actual = get_matching_power_num_digits(5).unwrap();
    let expected = vec![1, 2, 3];
    assert_eq!(expected, actual);
}
