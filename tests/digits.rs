use euler::unit_fraction::{solve, Digits};

#[test]
fn two() {
    assert_eq!(Digits::new(vec![5], vec![]), Digits::one_over(2));
}

#[test]
fn three() {
    assert_eq!(Digits::new(vec![], vec![3]), Digits::one_over(3));
}

#[test]
fn four() {
    assert_eq!(Digits::new(vec![2, 5], vec![]), Digits::one_over(4));
}

#[test]
fn five() {
    assert_eq!(Digits::new(vec![2], vec![]), Digits::one_over(5));
}

#[test]
fn six() {
    assert_eq!(Digits::new(vec![1], vec![6]), Digits::one_over(6));
}

#[test]
fn seven() {
    assert_eq!(
        Digits::new(vec![], vec![1, 4, 2, 8, 5, 7]),
        Digits::one_over(7)
    );
}

#[test]
fn eight() {
    assert_eq!(Digits::new(vec![1, 2, 5], vec![]), Digits::one_over(8));
}

#[test]
fn nine() {
    assert_eq!(Digits::new(vec![], vec![1]), Digits::one_over(9));
}

#[test]
fn ten() {
    assert_eq!(Digits::new(vec![1], vec![]), Digits::one_over(10));
}

#[test]
fn euler26_answer() {
    assert_eq!(983, solve());
}

#[test]
fn other_bases() {
    assert_eq!(Digits::new(vec![1], vec![]), Digits::one_over_base(2, 2));
    assert_eq!(Digits::new(vec![], vec![0, 1]), Digits::one_over_base(3, 2));
}
