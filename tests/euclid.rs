use extended_euclid::{
    checked_extended_euclidian_algorithm, extended_euclidian_algorithm, EuclidError, Result,
};

#[test]
fn gcd_two_primes() {
    let result = extended_euclidian_algorithm(7, 11);
    assert_eq!(result.gcd, 1);
}

#[test]
fn gcd_coprimes() {
    let result = extended_euclidian_algorithm(22, 15);
    assert_eq!(result.gcd, 1);
    assert_eq!(result.x, -2);
    assert_eq!(result.y, 3);
    // Check that indeed ax + by = gcd(a, b)
    assert_eq!(result.x * 22 + result.y * 15, result.gcd);
}

#[test]
fn gcd_2_4() {
    let result = extended_euclidian_algorithm(2, 4);
    assert_eq!(result.gcd, 2);
}

#[test]
fn gcd_4_2() {
    let result = extended_euclidian_algorithm(4, 2);
    assert_eq!(result.gcd, 2);
}

#[test]
fn gcd_16_20() {
    let result = extended_euclidian_algorithm(16, 20);
    assert_eq!(result.gcd, 4);
}

#[test]
fn gcd_240_46() {
    let result = extended_euclidian_algorithm(240, 46);
    assert_eq!(result.gcd, 2);
    assert_eq!(result.x, -9);
    assert_eq!(result.y, 47);
}

#[test]
fn gcd_100_101() {
    let result = extended_euclidian_algorithm(100, 101);
    assert_eq!(result.gcd, 1);
}

#[test]
fn gcd_100_1() {
    let result = extended_euclidian_algorithm(100, 1);
    assert_eq!(result.gcd, 1);
}

fn bezout_holds(a: i32, b: i32, r: Result) -> bool {
    (a as i64) * (r.x as i64) + (b as i64) * (r.y as i64) == r.gcd as i64
}

fn divides(d: i32, n: i32) -> bool {
    (n as i64) % (d as i64) == 0
}

const PAIRS: [(i32, i32); 14] = [
    (7, 11),
    (22, 15),
    (2, 4),
    (4, 2),
    (16, 20),
    (240, 46),
    (100, 101),
    (100, 1),
    (-4, -6),
    (12, -18),
    (-18, 12),
    (1836311903, 1134903170),
    (i32::MAX, i32::MIN),
    (i32::MIN, i32::MIN),
];

#[test]
fn bezout_identity_against_given_order() {
    for (a, b) in PAIRS {
        let r = extended_euclidian_algorithm(a, b);
        assert!(bezout_holds(a, b, r), "{} {} {:?}", a, b, r);
    }
}

#[test]
fn gcd_divides_both_inputs() {
    for (a, b) in PAIRS {
        let r = extended_euclidian_algorithm(a, b);
        assert!(r.gcd != 0);
        assert!(divides(r.gcd, a) && divides(r.gcd, b), "{} {} {:?}", a, b, r);
    }
}

#[test]
fn gcd_sign_follows_inputs() {
    assert!(extended_euclidian_algorithm(16, 20).gcd > 0);
    assert!(extended_euclidian_algorithm(20, 16).gcd > 0);
    assert_eq!(extended_euclidian_algorithm(-16, -20).gcd, -4);
    assert_eq!(extended_euclidian_algorithm(-20, -16).gcd, -4);
}

#[test]
fn coefficients_follow_their_inputs_when_first_is_smaller() {
    let r = extended_euclidian_algorithm(7, 11);
    assert_eq!(r, Result { gcd: 1, x: -3, y: 2 });
    let r = extended_euclidian_algorithm(15, 22);
    assert_eq!(r, Result { gcd: 1, x: 3, y: -2 });
}

#[test]
fn equal_inputs() {
    assert_eq!(
        extended_euclidian_algorithm(6, 6),
        Result { gcd: 6, x: 0, y: 1 }
    );
    assert_eq!(
        extended_euclidian_algorithm(i32::MIN, i32::MIN),
        Result { gcd: i32::MIN, x: 0, y: 1 }
    );
}

#[test]
fn zero_as_larger_input() {
    assert_eq!(
        extended_euclidian_algorithm(0, -5),
        Result { gcd: -5, x: 0, y: 1 }
    );
    assert_eq!(
        extended_euclidian_algorithm(-5, 0),
        Result { gcd: -5, x: 1, y: 0 }
    );
}

#[test]
fn mixed_signs() {
    assert_eq!(
        extended_euclidian_algorithm(-4, -6),
        Result { gcd: -2, x: -1, y: 1 }
    );
    assert_eq!(
        extended_euclidian_algorithm(12, -18),
        Result { gcd: -6, x: 1, y: 1 }
    );
    assert_eq!(
        extended_euclidian_algorithm(i32::MAX, i32::MIN),
        Result { gcd: -1, x: 1, y: 1 }
    );
}

#[test]
fn consecutive_fibonacci_numbers_give_large_coefficients() {
    let (a, b) = (1836311903, 1134903170);
    let r = extended_euclidian_algorithm(a, b);
    assert_eq!(r.gcd, 1);
    assert!(bezout_holds(a, b, r));
    assert!(r.x.abs() <= 1 << 30 && r.y.abs() <= 1 << 30);
}

#[test]
fn checked_zero_as_smaller_input_is_division_by_zero() {
    assert_eq!(
        checked_extended_euclidian_algorithm(5, 0),
        Err(EuclidError::DivisionByZero)
    );
    assert_eq!(
        checked_extended_euclidian_algorithm(0, 5),
        Err(EuclidError::DivisionByZero)
    );
    assert_eq!(
        checked_extended_euclidian_algorithm(0, 0),
        Err(EuclidError::DivisionByZero)
    );
}

#[test]
fn checked_min_with_minus_one_is_overflow() {
    assert_eq!(
        checked_extended_euclidian_algorithm(i32::MIN, -1),
        Err(EuclidError::Overflow)
    );
    assert_eq!(
        checked_extended_euclidian_algorithm(-1, i32::MIN),
        Err(EuclidError::Overflow)
    );
}

#[test]
fn checked_runs_where_the_descent_can() {
    assert_eq!(
        checked_extended_euclidian_algorithm(22, 15),
        Ok(Result { gcd: 1, x: -2, y: 3 })
    );
    assert_eq!(
        checked_extended_euclidian_algorithm(0, -5),
        Ok(Result { gcd: -5, x: 0, y: 1 })
    );
    assert_eq!(
        checked_extended_euclidian_algorithm(i32::MIN, 1),
        Ok(Result { gcd: 1, x: 0, y: 1 })
    );
}
