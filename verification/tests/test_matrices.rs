use xmath::num::Im;
use xmath::matrix::ImMatrix;

fn c(re: i64, im: i64) -> Im {
    Im::r(re).add(&Im::i(im))
}

#[test]
fn test_imaginary_unit_powers() {
    // i^2 is the real value minus one, i^4 is one
    assert!(Im::i(1).pow(&Im::r(2)).equals(&Im::r(-1)));
    assert!(Im::i(1).pow(&Im::r(4)).equals(&Im::r(1)));
}

#[test]
fn test_det_formats() {
    let m = ImMatrix::new(
        2,
        2,
        vec![c(-1, -3), c(4, 2), c(1, 1), c(-2, 1)],
    )
    .unwrap();
    assert_eq!("(3-i)", m.det().format());
}

#[test]
fn test_matrix_multiply() {
    let m1 = ImMatrix::new(
        2,
        2,
        vec![c(-1, -3), c(4, 2), c(1, 1), c(-2, 1)],
    )
    .unwrap();
    let m2 = ImMatrix::new(
        2,
        2,
        vec![c(-5, -3), c(4, 2), c(4, 3), c(-8, 1)],
    )
    .unwrap();
    let p = m1.mul_by_ref(&m2).unwrap();
    let expected = [c(6, 38), c(-32, -26), c(-13, -10), c(17, -4)];
    for i in 0..2usize {
        for j in 0..2usize {
            assert!(p.entry(i, j).equals(&expected[i * 2 + j]));
        }
    }
}

#[test]
fn test_solve_real_system() {
    let m = ImMatrix::new(
        3,
        3,
        vec![
            Im::r(1),
            Im::r(4),
            Im::r(2),
            Im::r(2),
            Im::r(-6),
            Im::r(-2),
            Im::r(1),
            Im::r(5),
            Im::r(2),
        ],
    )
    .unwrap();
    let d = vec![Im::r(1), Im::r(3), Im::r(2)];
    let xs = m.slae(&d).unwrap().unwrap();
    assert!(xs[0].equals(&Im::r(2)));
    assert!(xs[1].equals(&Im::r(1)));
    assert!(xs[2].equals(&Im::r_ratio(-5, 2)));
}

#[test]
fn test_non_square_det_is_zero() {
    let m = ImMatrix::new(2, 3, vec![
        Im::r(1),
        Im::r(2),
        Im::r(3),
        Im::r(4),
        Im::r(5),
        Im::r(6),
    ])
    .unwrap();
    assert!(m.det().is_zero());
}

#[test]
fn test_non_square_inverse_is_none() {
    let m = ImMatrix::new(2, 3, vec![
        Im::r(1),
        Im::r(2),
        Im::r(3),
        Im::r(4),
        Im::r(5),
        Im::r(6),
    ])
    .unwrap();
    assert!(m.inverse().is_none());
    assert!(m.cofactor_matrix().is_none());
}

#[test]
fn test_singular_inverse_is_none() {
    let m = ImMatrix::new(2, 2, vec![Im::r(1), Im::r(2), Im::r(2), Im::r(4)]).unwrap();
    assert!(m.det().is_zero());
    assert!(m.inverse().is_none());
}

#[test]
fn test_inverse_times_self_is_identity() {
    let m = ImMatrix::new(2, 2, vec![Im::r(2), Im::r(1), Im::r(3), Im::r(2)]).unwrap();
    let inv = m.inverse().unwrap();
    let p = m.mul_by_ref(&inv).unwrap();
    assert!(p.entry(0, 0).equals(&Im::r(1)));
    assert!(p.entry(0, 1).is_zero());
    assert!(p.entry(1, 0).is_zero());
    assert!(p.entry(1, 1).equals(&Im::r(1)));
}

#[test]
fn test_add_sub_transpose() {
    let m1 = ImMatrix::new(2, 2, vec![Im::r(1), Im::r(2), Im::r(3), Im::r(4)]).unwrap();
    let m2 = ImMatrix::new(2, 2, vec![Im::r(4), Im::r(3), Im::r(2), Im::r(1)]).unwrap();
    let s = m1.add_by_ref(&m2).unwrap();
    assert!(s.entry(0, 0).equals(&Im::r(5)));
    assert!(s.entry(1, 1).equals(&Im::r(5)));
    let d = m1.sub_by_ref(&m2).unwrap();
    assert!(d.entry(0, 0).equals(&Im::r(-3)));
    assert!(d.entry(1, 1).equals(&Im::r(3)));
    let t = m1.transpose();
    assert!(t.entry(0, 1).equals(&Im::r(3)));
    assert!(t.entry(1, 0).equals(&Im::r(2)));
}

#[test]
fn test_matrix_pow() {
    let m = ImMatrix::new(2, 2, vec![Im::r(1), Im::r(1), Im::r(1), Im::r(0)]).unwrap();
    let p = m.pow(8).unwrap();
    assert!(p.entry(0, 0).equals(&Im::r(34)));
    assert!(p.entry(0, 1).equals(&Im::r(21)));
    assert!(p.entry(1, 0).equals(&Im::r(21)));
    assert!(p.entry(1, 1).equals(&Im::r(13)));
}

#[test]
fn test_matrix_pow_zero_and_errors() {
    let m = ImMatrix::new(2, 2, vec![Im::r(1), Im::r(2), Im::r(3), Im::r(4)]).unwrap();
    let z = m.pow(0).unwrap();
    assert!(z.entry(0, 0).is_zero());
    assert!(z.entry(1, 1).is_zero());
    let bad = ImMatrix::new(2, 3, vec![
        Im::r(1),
        Im::r(2),
        Im::r(3),
        Im::r(4),
        Im::r(5),
        Im::r(6),
    ])
    .unwrap();
    assert!(bad.pow(3).is_err());
    assert!(ImMatrix::new(2, 0, vec![]).is_err());
    assert!(ImMatrix::new(2, 2, vec![Im::r(1)]).is_err());
}

#[test]
fn test_slae_errors() {
    let m = ImMatrix::new(2, 2, vec![Im::r(1), Im::r(2), Im::r(3), Im::r(4)]).unwrap();
    let short = vec![Im::r(1)];
    assert!(m.slae(&short).is_err());
    let sing = ImMatrix::new(2, 2, vec![Im::r(1), Im::r(2), Im::r(2), Im::r(4)]).unwrap();
    let d = vec![Im::r(1), Im::r(2)];
    assert!(sing.slae(&d).unwrap().is_none());
    // squareness is decided first: a non-square system gives nothing even
    // when the right-hand side length is also wrong
    let wide = ImMatrix::new(2, 3, vec![
        Im::r(1),
        Im::r(2),
        Im::r(3),
        Im::r(4),
        Im::r(5),
        Im::r(6),
    ])
    .unwrap();
    let one = vec![Im::r(1)];
    assert!(wide.slae(&one).unwrap().is_none());
}

#[test]
fn test_undefined_propagates() {
    // dividing by a zero value yields the undefined sentinel, which then
    // absorbs every further operation
    let u = Im::r(3).div(&Im::r(0));
    assert!(u.is_none());
    assert!(u.add(&Im::r(1)).is_none());
    assert!(u.mul(&Im::r(5)).is_none());
    assert!(u.pow(&Im::r(2)).is_none());
    assert!(Im::r(7).sub(&u).is_none());
}

#[test]
fn test_sub_self_and_div_self() {
    let x = Im::r(3).add(&Im::i(5));
    assert!(x.sub(&x).is_zero());
    assert!(x.div(&x).equals(&Im::r(1)));
}
