use nth_root::step;
use nth_root::RootError;

#[test]
fn first_step_finds_the_single_digit_root() {
    // With nothing accumulated yet the step seeks the largest beta with
    // beta^degree <= alpha.
    assert_eq!(Ok((2, 4)), step::next(0, 0, 100, 8, 2));
    assert_eq!(Ok((3, 0)), step::next(0, 0, 100, 9, 2));
    assert_eq!(Ok((2, 0)), step::next(0, 0, 1000, 8, 3));
    assert_eq!(Ok((9, 18)), step::next(0, 0, 100, 99, 2));
}

#[test]
fn second_step_extends_the_root_by_one_digit() {
    // Square root of 312: first step on the group "3", second on "12".
    assert_eq!(Ok((1, 2)), step::next(0, 0, 100, 3, 2));
    // (10 + 7)^2 - 100 = 189 <= 100*2 + 12 = 212 < (10 + 8)^2 - 100 = 224,
    // and 212 - 189 = 23.
    assert_eq!(Ok((17, 23)), step::next(1, 2, 100, 12, 2));
}

#[test]
fn zero_degree_is_rejected() {
    assert_eq!(Err(RootError::InvalidDegree), step::next(0, 0, 1, 0, 0));
    assert_eq!(Err(RootError::InvalidDegree), step::next(5, 7, 1, 9, 0));
}

#[test]
fn overflowing_arithmetic_is_reported() {
    // Widening the root would overflow u64.
    assert_eq!(Err(RootError::Overflow), step::next(u64::MAX, 0, 1, 0, 2));
    // The previous root's power would overflow u64.
    assert_eq!(
        Err(RootError::Overflow),
        step::next(1_000_000, 0, 10_000, 0, 4)
    );
    // The scaled remainder would overflow u64.
    assert_eq!(
        Err(RootError::Overflow),
        step::next(0, u64::MAX, 100, 0, 2)
    );
}
