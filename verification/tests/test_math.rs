use xmath::math::{factorial, sigma, simple_sigma};

#[test]
fn test_factorial1_pos() {
    // n! = 2 * 3 * ... * n
    let res = factorial(&5);
    let res_test: u128 = 2 * 3 * 4 * 5;
    assert_eq!(res, res_test);
}

#[test]
fn test_factorial2_pos() {
    let res = factorial(&0);
    let res_test: u128 = 0;
    assert_eq!(res, res_test);
}

#[test]
fn test_factorial3_pos() {
    let res = factorial(&1);
    let res_test: u128 = 1;
    assert_eq!(res, res_test);
}

#[test]
fn test_sigma1_pos() {
    // sigma(n) = 1 + 2 + 3 + ... + n
    let res = sigma(&5);
    let res_test = 1 + 2 + 3 + 4 + 5;
    assert_eq!(res, res_test);
}

#[test]
fn test_sigma1_neg() {
    let res = sigma(&5);
    assert_ne!(res, 2);
}

#[test]
fn test_simple_sigma1_pos() {
    let res = simple_sigma(5);
    let test_res = 1 + 2 + 3 + 4 + 5;
    assert_eq!(res, test_res);
}

#[test]
fn test_simple_sigma2_pos() {
    let res = simple_sigma(0);
    assert_eq!(res, 0);
}
