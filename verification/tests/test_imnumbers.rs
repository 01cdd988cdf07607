use xmath::num::{Im, Sign};

#[test]
fn test_let1_pos() {
    let test_res = Im::new(1, 0);
    assert!(Im::r(1).equals(&test_res));
}

#[test]
fn test_let2_pos() {
    let test_res = Im::new(-1, 0);
    assert!(Im::r(-1).equals(&test_res));
}

#[test]
fn test_let3_pos() {
    let test_res = Im::new(2, 1);
    assert!(Im::i(2).equals(&test_res));
}

#[test]
fn test_let4_pos() {
    let test_res = Im::new(-2, 1);
    assert!(Im::i(-2).equals(&test_res));
}

#[test]
fn test_let1_neg() {
    let test_res = Im::new(-2, 1);
    assert!(!Im::i(2).equals(&test_res));
}

#[test]
fn test_expr_is_zero1_pos() {
    assert!(Im::r(0).is_zero());
}

#[test]
fn test_expr_is_zero2_pos() {
    assert!(Im::i(0).is_zero());
}

#[test]
fn test_expr_is_zero3_pos() {
    let expr = Im::i(0).add(&Im::i(0));
    assert!(expr.is_zero());
}

#[test]
fn test_expr_is_zero4_pos() {
    let expr = Im::i(0).add(&Im::r(0));
    assert!(expr.is_zero());
}

#[test]
fn test_expr_is_zero5_pos() {
    let expr = Im::r(0).add(&Im::r(0));
    assert!(expr.is_zero());
}

#[test]
fn test_expr_is_zero6_pos() {
    let expr = Im::r(0).add(&Im::i(0));
    assert!(expr.is_zero());
}

#[test]
fn test_expr_is_zero7_pos() {
    let expr = Im::r(-1).add(&Im::r(1));
    assert!(expr.is_zero());
}

#[test]
fn test_expr_is_zero8_pos() {
    let expr = Im::i(-1).add(&Im::i(1));
    assert!(expr.is_zero());
}

#[test]
fn test_expr_is_zero9_pos() {
    let expr = Im::default();
    assert!(expr.is_zero());
}

#[test]
fn test_expr_is_zero10_pos() {
    assert!(Im::r(0).equals(&Im::i(0)));
}

#[test]
fn test_expr_is_zero11_pos() {
    assert!(Im::r(0).equals(&Im::i(0)));
}

#[test]
fn test_expr_is_zero1_neg() {
    let expr = Im::i(0).add(&Im::r(1));
    assert!(!expr.is_zero());
}

#[test]
fn test_pair_checker1_pos() {
    let mut im_num = Im::i(1);
    im_num.im_pow_fixer();
    let test_res = Im::i(1);
    assert!(im_num.equals(&test_res));
}

#[test]
fn test_pair_checker2_pos() {
    let mut im_num = Im::r(1);
    im_num.im_pow_fixer();
    let test_res = Im::r(1);
    assert!(im_num.equals(&test_res));
}

#[test]
fn test_pair_checker3_pos() {
    let mut im_num = Im::new(1, 2);
    im_num.im_pow_fixer();
    let test_res = Im::r(-1);
    assert!(im_num.equals(&test_res));
}

#[test]
fn test_pair_checker4_pos() {
    let mut im_num = Im::new(3, 5);
    im_num.im_pow_fixer();
    let test_res = Im::i(3);
    assert!(im_num.equals(&test_res));
}

#[test]
fn test_pair_checker5_pos() {
    let mut im_num = Im::new(3, 4);
    im_num.im_pow_fixer();
    let test_res = Im::r(3);
    assert!(im_num.equals(&test_res));
}

#[test]
fn test_pair_checker6_pos() {
    let mut im_num = Im::new(-3, 3);
    im_num.im_pow_fixer();
    let test_res = Im::i(3);
    assert!(im_num.equals(&test_res));
}

#[test]
fn test_neg1_pos() {
    let mut expr = Im::i(1);
    expr.neg();
    let test_res = Im::i(-1);
    assert!(expr.equals(&test_res));
}

#[test]
fn test_neg2_pos() {
    let mut expr = Im::i(-1);
    expr.neg();
    let test_res = Im::i(1);
    assert!(expr.equals(&test_res));
}

#[test]
fn test_neg3_pos() {
    let mut expr = Im::r(-1);
    expr.neg();
    let test_res = Im::r(1);
    assert!(expr.equals(&test_res));
}

#[test]
fn test_neg4_pos() {
    let mut expr = Im::r(1);
    expr.neg();
    let test_res = Im::r(-1);
    assert!(expr.equals(&test_res));
}

#[test]
fn test_neg5_pos() {
    let mut expr = Im::r(3).add(&Im::i(2));
    expr.neg();
    let mut test_res = Im::default();
    test_res.push_in_mixed_base(Im::new(-3, 0));
    test_res.push_in_mixed_base(Im::new(-2, 1));
    assert!(expr.equals(&test_res));
}

#[test]
fn test_neg6_pos() {
    let mut expr = Im::r(3).add(&Im::i(2)).pow(&Im::i(1));
    expr.neg();

    let mut test_res = Im::default();
    test_res.push_in_mixed_base(Im::new(3, 0));
    test_res.push_in_mixed_base(Im::new(2, 1));
    test_res.push_in_mixed_pow(Im::new(1, 1));
    test_res.push_in_mixed_mul(Im::new(-1, 0));

    assert!(expr.equals(&test_res));
}

#[test]
fn test_neg7_pos() {
    let mut expr = Im::r(3).add(&Im::i(2)).pow(&Im::i(2)).mul(&Im::i(2));
    expr.neg();

    let mut test_res = Im::default();
    test_res.push_in_mixed_base(Im::new(3, 0));
    test_res.push_in_mixed_base(Im::new(2, 1));
    test_res.push_in_mixed_pow(Im::new(2, 1));
    test_res.push_in_mixed_mul(Im::new(-2, 1));

    assert!(expr.equals(&test_res));
}

#[test]
fn test_neg1_neg() {
    let mut expr = Im::i(1);
    expr.neg();
    let test_res = Im::r(-1);
    assert!(!expr.equals(&test_res));
}

#[test]
fn test_neg2_neg() {
    let mut expr = Im::r(1);
    expr.neg();
    let test_res = Im::i(-1);
    assert!(!expr.equals(&test_res));
}

#[test]
fn test_abs1_pos() {
    let sign = Im::r(1).is_equal_by_abs(&Im::r(-1));
    assert_eq!(sign, Sign::Minus);
}

#[test]
fn test_abs2_pos() {
    let sign = Im::r(1).is_equal_by_abs(&Im::r(1));
    assert_eq!(sign, Sign::Plus);
}

#[test]
fn test_abs3_pos() {
    let sign = Im::r(1).is_equal_by_abs(&Im::r(-2));
    assert_eq!(sign, Sign::Neither);
}

#[test]
fn test_add1_pos() {
    let expr = Im::i(1).add(&Im::i(2));
    let test_res = Im::new(3, 1);
    assert!(expr.equals(&test_res));
}

#[test]
fn test_add2_pos() {
    let expr = Im::r(1).add(&Im::r(2));
    let test_res = Im::new(3, 0);
    assert!(expr.equals(&test_res));
}

#[test]
fn test_add3_pos() {
    let expr = Im::i(1).add(&Im::r(1));
    let mut test_res = Im::default();
    test_res.push_in_mixed_base(Im::new(1, 1));
    test_res.push_in_mixed_base(Im::new(1, 0));
    assert!(expr.equals(&test_res));
}

#[test]
fn test_add4_pos() {
    let expr = Im::r(1).add(&Im::i(1));
    let mut test_res = Im::default();
    test_res.push_in_mixed_base(Im::new(1, 0));
    test_res.push_in_mixed_base(Im::new(1, 1));
    assert!(expr.equals(&test_res));
}

#[test]
fn test_add5_pos() {
    let expr = Im::r(1).add(&Im::i(-1));
    let mut test_res = Im::default();
    test_res.push_in_mixed_base(Im::new(1, 0));
    test_res.push_in_mixed_base(Im::new(-1, 1));
    assert!(expr.equals(&test_res));
}

#[test]
fn test_add6_pos() {
    let expr = Im::r(-1).add(&Im::i(-1));
    let mut test_res = Im::default();
    test_res.push_in_mixed_base(Im::new(-1, 0));
    test_res.push_in_mixed_base(Im::new(-1, 1));
    assert!(expr.equals(&test_res));
}

#[test]
fn test_add7_pos() {
    let expr = Im::r(1).add(&Im::i(1)).add(&Im::r(2));
    let mut test_res = Im::default();
    test_res.push_in_mixed_base(Im::new(3, 0));
    test_res.push_in_mixed_base(Im::new(1, 1));
    assert!(expr.equals(&test_res));
}

#[test]
fn test_add8_pos() {
    let expr = Im::i(1).add(&Im::r(1)).add(&Im::i(2)).add(&Im::r(2));
    let mut test_res = Im::default();
    test_res.push_in_mixed_base(Im::new(3, 1));
    test_res.push_in_mixed_base(Im::new(3, 0));
    assert!(expr.equals(&test_res));
}

#[test]
fn test_sub1_pos() {
    let expr = Im::i(1).sub(&Im::i(2));
    let test_res = Im::new(-1, 1);
    assert!(expr.equals(&test_res));
}

#[test]
fn test_sub2_pos() {
    let expr = Im::r(1).sub(&Im::r(2));
    let test_res = Im::new(-1, 0);
    assert!(expr.equals(&test_res));
}

#[test]
fn test_sub3_pos() {
    let expr = Im::i(1).sub(&Im::r(1));
    let mut test_res = Im::default();
    test_res.push_in_mixed_base(Im::new(1, 1));
    test_res.push_in_mixed_base(Im::new(-1, 0));
    assert!(expr.equals(&test_res));
}

#[test]
fn test_sub4_pos() {
    let expr = Im::r(1).sub(&Im::i(1));
    let mut test_res = Im::default();
    test_res.push_in_mixed_base(Im::new(1, 0));
    test_res.push_in_mixed_base(Im::new(-1, 1));
    assert!(expr.equals(&test_res));
}

#[test]
fn test_sub5_pos() {
    let expr = Im::r(1).sub(&Im::i(-1));
    let mut test_res = Im::default();
    test_res.push_in_mixed_base(Im::new(1, 0));
    test_res.push_in_mixed_base(Im::new(1, 1));
    assert!(expr.equals(&test_res));
}

#[test]
fn test_sub6_pos() {
    let expr = Im::r(-1).sub(&Im::i(-1));
    let mut test_res = Im::default();
    test_res.push_in_mixed_base(Im::new(-1, 0));
    test_res.push_in_mixed_base(Im::new(1, 1));
    assert!(expr.equals(&test_res));
}

#[test]
fn test_sub7_pos() {
    let expr = Im::r(1).sub(&Im::i(1)).sub(&Im::r(2));
    let mut test_res = Im::default();
    test_res.push_in_mixed_base(Im::new(-1, 0));
    test_res.push_in_mixed_base(Im::new(-1, 1));
    assert!(expr.equals(&test_res));
}

#[test]
fn test_sub8_pos() {
    let expr = Im::i(1).sub(&Im::r(1)).sub(&Im::i(2)).sub(&Im::r(2));
    let mut test_res = Im::default();
    test_res.push_in_mixed_base(Im::new(-1, 1));
    test_res.push_in_mixed_base(Im::new(-3, 0));
    assert!(expr.equals(&test_res));
}

#[test]
fn test_sub9_pos() {
    let expr = Im::i(1)
        .sub(&Im::r(-1))
        .add(&Im::i(2))
        .sub(&Im::r(2))
        .add(&Im::i(-1));
    let mut test_res = Im::default();
    test_res.push_in_mixed_base(Im::new(2, 1));
    test_res.push_in_mixed_base(Im::new(-1, 0));
    assert!(expr.equals(&test_res));
}

#[test]
fn test_is_mixed_base_logic1_pos() {
    let mut expr = Im::default();
    expr.push_in_mixed_base(Im::r(1));
    expr = Im::default();
    assert!(!expr.is_mixed_base_logic(&expr));
}

#[test]
fn test_is_mixed_base_logic1_neg() {
    let expr = Im::default();
    assert!(!expr.is_mixed_base_logic(&expr));
}

#[test]
fn test_collect1_pos() {
    let mut expr = Im::default();
    expr.push_in_mixed_base(Im::new(1, 1));
    expr.push_in_mixed_base(Im::new(1, 0));
    expr.push_in_mixed_base(Im::new(-1, 0));
    expr.push_in_mixed_base(Im::new(1, 1));
    expr.collect();
    assert!(expr.equals(&Im::i(2)));
}

#[test]
fn test_mul1_pos() {
    let expr = Im::i(2).mul(&Im::i(-1));
    let test_res = Im::new(2, 0);
    assert!(expr.equals(&test_res));
}

#[test]
fn test_mul2_pos() {
    let expr = Im::i(2).mul(&Im::i(1));
    let test_res = Im::new(-2, 0);
    assert!(expr.equals(&test_res));
}

#[test]
fn test_mul3_pos() {
    let expr = Im::i(2).mul(&Im::i(-1)).mul(&Im::i(2)).mul(&Im::i(2));
    let test_res = Im::new(-8, 0);
    assert!(expr.equals(&test_res));
}

#[test]
fn test_mul4_pos() {
    let expr = Im::i(2).mul(&Im::r(2));
    let test_res = Im::new(4, 1);
    assert!(expr.equals(&test_res));
}

#[test]
fn test_mul5_pos() {
    let expr = Im::r(2).mul(&Im::r(-2));
    let test_res = Im::new(-4, 0);
    assert!(expr.equals(&test_res));
}

#[test]
fn test_mul6_pos() {
    let expr = Im::i(2).add(&Im::r(1)).mul(&Im::i(2));
    let mut test_res = Im::default();
    test_res.push_in_mixed_base(Im::new(2, 1));
    test_res.push_in_mixed_base(Im::new(-4, 0));
    assert!(expr.equals(&test_res));
}

#[test]
fn test_mul7_pos() {
    let expr = Im::i(2).sub(&Im::r(1)).mul(&Im::i(2)).add(&Im::r(2));
    let mut test_res = Im::default();
    test_res.push_in_mixed_base(Im::new(-2, 1));
    test_res.push_in_mixed_base(Im::new(-2, 0));
    assert!(expr.equals(&test_res));
}

#[test]
fn test_mul8_pos() {
    let expr = Im::i(2)
        .sub(&Im::r(2))
        .mul(&Im::i(2))
        .add(&Im::r(4))
        .add(&Im::i(4));
    assert!(expr.is_zero());
}

#[test]
fn test_mul9_pos() {
    let expr = Im::r(0).mul(&Im::r(-2));
    assert!(expr.is_zero());
}

#[test]
fn test_mul10_pos() {
    let expr = Im::r(0).mul(&Im::r(-2)).mul(&Im::i(2));
    assert!(expr.is_zero());
}

#[test]
fn test_mul11_pos() {
    let expr = Im::r(1).add(&Im::i(1)).mul(&Im::i(1).add(&Im::r(1)));
    assert!(expr.equals(&Im::i(2)));
}

#[test]
fn test_mul12_pos() {
    let expr1 = Im::r(1).add(&Im::i(2)).mul(&Im::r(3).add(&Im::i(1)));
    let expr2 = Im::i(4).sub(&Im::i(4).add(&Im::r(6)));
    let mut test_res = Im::default();
    test_res.push_in_mixed_base(Im::new(-5, 0));
    test_res.push_in_mixed_base(Im::new(7, 1));
    assert!(expr1.add(&expr2).equals(&test_res));
}

#[test]
fn test_pow1_pos() {
    let expr = Im::r(1).pow(&Im::r(1));
    let test_res = Im::new(1, 0);
    assert!(expr.equals(&test_res));
}

#[test]
fn test_pow2_pos() {
    let expr = Im::r(1).pow(&Im::r(0));
    let test_res = Im::new(1, 0);
    assert!(expr.equals(&test_res));
}

#[test]
fn test_pow3_pos() {
    let expr = Im::r(0).pow(&Im::r(1));
    let test_res = Im::new(0, 0);
    assert!(expr.equals(&test_res));
}

#[test]
fn test_pow4_pos() {
    let expr = Im::r(0).pow(&Im::r(-1));
    let test_res = Im::new(0, 0);
    assert!(expr.equals(&test_res));
}

#[test]
fn test_pow6_pos() {
    let expr = Im::r(1).add(&Im::i(2)).pow(&Im::r(2));
    let mut test_res = Im::default();
    test_res.push_in_mixed_base(Im::new(-3, 0));
    test_res.push_in_mixed_base(Im::new(4, 1));
    assert!(expr.equals(&test_res));
}

#[test]
fn test_pow7_pos() {
    let expr = Im::i(2).pow(&Im::r(3));
    let test_res = Im::new(-8, 1);
    assert!(expr.equals(&test_res));
}

#[test]
fn test_pow8_pos() {
    let expr = Im::i(2).pow(&Im::i(2));
    let mut test_res = Im::default();
    test_res.push_in_mixed_base(Im::new(2, 1));
    test_res.push_in_mixed_pow(Im::new(2, 1));
    assert!(expr.equals(&test_res));
}

#[test]
fn test_pow9_pos() {
    let expr = Im::r(2).pow(&Im::i(1)).sub(&Im::r(3).pow(&Im::i(1)));

    let mut expr1 = Im::default();
    expr1.push_in_mixed_base(Im::new(2, 0));
    expr1.push_in_mixed_pow(Im::new(1, 1));

    let mut expr2 = Im::default();
    expr2.push_in_mixed_base(Im::new(3, 0));
    expr2.push_in_mixed_pow(Im::new(1, 1));
    expr2.push_in_mixed_mul(Im::new(-1, 0));

    let mut test_expr = Im::default();
    test_expr.push_in_mixed_base(expr1);
    test_expr.push_in_mixed_base(expr2);

    assert!(expr.equals(&test_expr));
}

#[test]
fn test_pow10_pos() {
    let expr = Im::i(2).pow(&Im::i(-1));
    let mut test_res = Im::default();
    test_res.push_in_mixed_base(Im::new(2, 1));
    test_res.push_in_mixed_pow(Im::new(-1, 1));
    assert!(expr.equals(&test_res));
}

#[test]
fn test_pow11_pos() {
    let expr = Im::i(2).add(&Im::r(1)).pow(&Im::i(-1));

    let mut test_res = Im::default();
    test_res.push_in_mixed_base(Im::new(2, 1));
    test_res.push_in_mixed_base(Im::new(1, 0));
    test_res.push_in_mixed_pow(Im::new(-1, 1));

    assert!(expr.equals(&test_res));
}

#[test]
fn test_pow12_pos() {
    let expr = Im::i(2).add(&Im::r(1)).pow(&Im::i(-1)).mul(&Im::r(2));

    let mut test_res = Im::default();
    test_res.push_in_mixed_base(Im::new(2, 1));
    test_res.push_in_mixed_base(Im::new(1, 0));
    test_res.push_in_mixed_pow(Im::new(-1, 1));
    test_res.push_in_mixed_mul(Im::new(2, 0));

    assert!(expr.equals(&test_res));
}

#[test]
fn test_pow13_pos() {
    let expr = Im::i(2).add(&Im::r(1)).pow(&Im::i(-1)).sub(&Im::r(1));

    let mut expr1 = Im::default();
    expr1.push_in_mixed_base(Im::new(2, 1));
    expr1.push_in_mixed_base(Im::new(1, 0));
    expr1.push_in_mixed_pow(Im::new(-1, 1));

    let expr2 = Im::new(-1, 0);

    let mut test_res = Im::default();
    test_res.push_in_mixed_base(expr1);
    test_res.push_in_mixed_base(expr2);

    assert!(expr.equals(&test_res));
}

#[test]
fn test_pow14_pos() {
    let e1 = Im::i(2).sub(&Im::r(1)).pow(&Im::r(2).add(&Im::i(1)));
    let e2 = Im::i(4).sub(&Im::r(2)).pow(&Im::r(2).add(&Im::i(1)));
    let expr = e1.sub(&e2);

    let mut expr1 = Im::default();
    expr1.push_in_mixed_base(Im::new(2, 1));
    expr1.push_in_mixed_base(Im::new(-1, 0));
    expr1.push_in_mixed_pow(Im::new(2, 0));
    expr1.push_in_mixed_pow(Im::new(1, 1));

    let mut expr2 = Im::default();
    expr2.push_in_mixed_base(Im::new(4, 1));
    expr2.push_in_mixed_base(Im::new(-2, 0));
    expr2.push_in_mixed_pow(Im::new(2, 0));
    expr2.push_in_mixed_pow(Im::new(1, 1));
    expr2.push_in_mixed_mul(Im::new(-1, 0));

    let mut test_res = Im::default();
    test_res.push_in_mixed_base(expr1);
    test_res.push_in_mixed_base(expr2);

    assert!(expr.equals(&test_res));
}

#[test]
fn test_pow15_pos() {
    assert!(Im::r(1).pow(&Im::i(1)).equals(&Im::r(1)));
}

#[test]
fn test_pow16_pos() {
    let lhs = Im::r(1).pow(&Im::i(1)).mul(&Im::i(1).pow(&Im::i(1)));
    let rhs = Im::i(1).pow(&Im::i(1));
    assert!(lhs.equals(&rhs));
}

#[test]
fn test_div1_pos() {
    let expr = Im::i(1).div(&Im::i(1));
    let test_res = Im::new(1, 0);
    assert!(expr.equals(&test_res));
}

#[test]
fn test_div2_pos() {
    let expr = Im::i(-1).div(&Im::i(1));
    let test_res = Im::new(-1, 0);
    assert!(expr.equals(&test_res));
}

#[test]
fn test_div3_pos() {
    let expr = Im::i(0).div(&Im::i(1));
    let test_res = Im::new(0, 0);
    assert!(expr.equals(&test_res));
}

#[test]
fn test_div1_neg() {
    let expr = Im::i(1).div(&Im::i(0));
    assert!(expr.is_none());
}

#[test]
fn test_div5_pos() {
    let expr = Im::i(1).div(&Im::i(0)).mul(&Im::i(4).add(&Im::r(7)));
    assert!(expr.is_none());
}

#[test]
fn test_div6_pos() {
    let expr = Im::r(4).sub(&Im::i(7)).div(&Im::i(7).sub(&Im::i(7)));
    assert!(expr.is_none());
}

#[test]
fn test_div7_pos() {
    let expr = Im::r(5).mul(&Im::r(1).div(&Im::r(5)));
    let test_res = Im::new(1, 0);
    assert!(expr.equals(&test_res));
}

#[test]
fn test_powi1_pos() {
    // raising only the imaginary part: 2i^3 is -2i, distinct from (2i)^3
    let expr = Im::i(2).powi(&Im::r(3));
    assert!(expr.equals(&Im::i(-2)));
}

#[test]
fn test_powi2_pos() {
    let expr = Im::i(2).pow(&Im::r(3));
    assert!(expr.equals(&Im::new(-8, 1)));
}

#[test]
fn test_add_sub_roundtrip() {
    // a + b - b comes back to a, for simple values of both tags
    let a = Im::r(7);
    let b = Im::r(3);
    assert!(a.add(&b).sub(&b).equals(&a));
    let c = Im::i(5);
    let d = Im::r(2);
    assert!(c.add(&d).sub(&d).equals(&c));
}

#[test]
fn test_self_cancellation() {
    // x - x is zero and x / x is one for any non-zero value
    let x = Im::r(2).add(&Im::i(3)).pow(&Im::i(1));
    assert!(x.sub(&x).is_zero());
    assert!(x.div(&x).equals(&Im::r(1)));
}
