use hw1::solution::{hello, increase, is_leap_year, plus_one};

#[test]
fn check_hello() {
    assert_eq!(hello(), "Hello World!");
}

#[test]
fn check_leap_year1() {
    assert!(is_leap_year(2020));
}

#[test]
fn check_leap_year2() {
    assert_eq!(is_leap_year(1557), false);
}

#[test]
fn check_leap_year3() {
    assert_eq!(is_leap_year(1900), false);
}

#[test]
fn leap_year_at_the_turn_of_a_century() {
    assert!(is_leap_year(2000));
    assert!(is_leap_year(1600));
    assert!(!is_leap_year(2100));
    assert!(is_leap_year(0));
}

#[test]
fn test_incr() {
    let mut n: i32 = 9;
    plus_one(&mut n);
    assert_eq!(n, 10);
}

#[test]
fn test_increase() {
    let mut n: i32 = 9;
    increase(&mut n, 3);
    assert_eq!(n, 12);
}

#[test]
fn increase_by_a_negative_number() {
    let mut n: i32 = 9;
    increase(&mut n, -10);
    assert_eq!(n, -1);
}
