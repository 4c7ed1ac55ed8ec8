use euler::collatz::{find_collatz_len, next_collatz};
use euler::names::{alphabetical_value, normalize, word_value};
use euler::triangle_text::{line_to_nums, parse_triangle_string, parse_triangle_strings};

const TRIANGLE_STRINGS: [&str; 15] = [
    "75",
    "95, 64",
    "17, 47, 82",
    "18, 35, 87, 10",
    "20, 04, 82, 47, 65",
    "19, 01, 23, 75, 03, 34",
    "88, 02, 77, 73, 07, 63, 67",
    "99, 65, 04, 28, 06, 16, 70, 92",
    "41, 41, 26, 56, 83, 40, 80, 70, 33",
    "41, 48, 72, 33, 47, 32, 37, 16, 94, 29",
    "53, 71, 44, 65, 25, 43, 91, 52, 97, 51, 14",
    "70, 11, 33, 28, 77, 73, 17, 78, 39, 68, 17, 57",
    "91, 71, 52, 38, 17, 14, 91, 43, 58, 50, 27, 29, 48",
    "63, 66, 04, 68, 89, 53, 67, 30, 73, 16, 69, 87, 40, 31",
    "04, 62, 98, 27, 23, 09, 70, 98, 73, 93, 38, 53, 60, 04, 23",
];

#[test]
fn parsed_triangle_answer() {
    let triangle = parse_triangle_strings(&TRIANGLE_STRINGS).expect("invalid number");
    assert_eq!(1074, euler::triangle_path::solve(&triangle));
}

#[test]
fn parse_lines() {
    assert_eq!(Some(vec![17, 47, 82]), line_to_nums("17, 47, 82", ", "));
    assert_eq!(Some(vec![4, 9]), line_to_nums("04, +9", ", "));
    assert_eq!(None, line_to_nums("17,47", ", "));
    assert_eq!(None, line_to_nums("", ", "));
    assert_eq!(None, line_to_nums("1, -2", ", "));
    assert_eq!(None, line_to_nums("18446744073709551616", " "));
    assert_eq!(Some(vec![18446744073709551615]), line_to_nums("18446744073709551615", " "));
}

#[test]
fn parse_text_triangle() {
    let rows = parse_triangle_string("3\n7 4\r\n2 4 6\n8 5 9 3\n").expect("invalid number");
    assert_eq!(vec![vec![3], vec![7, 4], vec![2, 4, 6], vec![8, 5, 9, 3]], rows);
    assert_eq!(23, euler::triangle_path::solve(&rows));
    assert_eq!(Some(vec![vec![1], vec![2, 3]]), parse_triangle_string("1\n2 3"));
    assert_eq!(None, parse_triangle_string("1\n2  3\n"));
    assert_eq!(Some(vec![]), parse_triangle_string(""));
}

#[test]
fn collatz_steps() {
    assert_eq!(40, next_collatz(13));
    assert_eq!(20, next_collatz(40));
    let mut table = vec![None; 20];
    table[1] = Some(1);
    assert!(find_collatz_len(&mut table, 13));
    assert_eq!(Some(10), table[13]);
    assert_eq!(Some(7), table[10]);
    assert_eq!(Some(9), euler::collatz::solve(10));
}

#[test]
fn collatz_answer() {
    assert_eq!(Some(837_799), euler::collatz::solve(1_000_000));
}

#[test]
fn name_scores() {
    assert_eq!(3, alphabetical_value('C'));
    assert_eq!(26, alphabetical_value('z'));
    assert_eq!(0, alphabetical_value('-'));
    assert_eq!(53, word_value("COLIN"));
    assert_eq!(Some(b"AB".to_vec()), normalize(b"\"AB\""));
    assert_eq!(None, normalize(b"\""));
    assert_eq!(Some(144), euler::names::solve("\"MARY\",\"ANNA\""));
    assert_eq!(None, euler::names::solve("\"MARY\",,\"ANNA\""));
}

#[test]
fn letter_counts() {
    assert_eq!(23, euler::letters::count_letters("three hundred and forty-two"));
    assert_eq!(20, euler::letters::count_letters("one hundred and fifteen"));
    assert_eq!(3, euler::letters::count_letters("été"));
    assert_eq!(0, euler::letters::count_letters("42 - "));
}
