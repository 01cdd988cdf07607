use xmath::num::Im;

#[test]
fn test_format1_pos() {
    assert_eq!("1", Im::r(1).format());
}

#[test]
fn test_format2_pos() {
    assert_eq!("-1", Im::r(-1).format());
}

#[test]
fn test_format3_pos() {
    assert_eq!("i", Im::i(1).format());
}

#[test]
fn test_format4_pos() {
    assert_eq!("-i", Im::i(-1).format());
}

#[test]
fn test_format5_pos() {
    assert_eq!("0", Im::i(0).format());
}

#[test]
fn test_format6_pos() {
    assert_eq!("0", Im::r(0).format());
}

#[test]
fn test_format7_pos() {
    assert_eq!("-1/8i", Im::i(2).pow(&Im::r(-3)).format());
}

#[test]
fn test_format8_pos() {
    assert_eq!("0.25", Im::r(2).pow(&Im::r(-2)).format());
}

#[test]
fn test_format1_neg() {
    assert_eq!("None", Im::r(1).div(&Im::r(0)).format());
}

#[test]
fn test_format_ratio() {
    assert_eq!("-2.5", Im::r_ratio(-5, 2).format());
}

#[test]
fn test_format_fraction() {
    assert_eq!("1/3", Im::r_ratio(1, 3).format());
}

#[test]
fn test_format_mixed_product() {
    // 3i * (1-i)^3i / ((i^2 - 1)^2) renders with its multiplier, base and exponent
    let lhs = Im::i(3).mul(&Im::r(1).sub(&Im::i(1)).pow(&Im::i(3)));
    let den = Im::i(1).pow(&Im::r(2)).sub(&Im::r(1)).pow(&Im::r(2));
    let expr = lhs.div(&den);
    assert_eq!("0.75i(1-i)^3i", expr.format());
}

#[test]
fn test_format_sum() {
    // the postfix constructors' own example: 2i + 3 renders parenthesized
    let expr = Im::i(2).add(&Im::r(3));
    assert_eq!("(2i+3)", expr.format());
}

#[test]
fn test_format_pow_example() {
    // (2i)^3 is -8i
    assert_eq!("-8i", Im::i(2).pow(&Im::r(3)).format());
}

#[test]
fn test_format_powi_example() {
    // 2i^3 raises only the imaginary unit: -2i
    assert_eq!("-2i", Im::i(2).powi(&Im::r(3)).format());
}
