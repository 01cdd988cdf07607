//! Exact rational scalars.
//!
//! Every magnitude in the symbolic engine is a rational number held as a
//! signed numerator and a positive denominator, both 64-bit.  All arithmetic
//! is exact: each operation computes the mathematical result in 128-bit
//! intermediates, divides out the greatest common divisor, and reports
//! `None` when even the reduced result no longer fits the 64-bit range.
//!
//! The mathematical model of a scalar is the pair [`Q`] of unbounded
//! integers; [`q_norm`] is the unique reduced representative that the
//! executable code stores.

use vstd::prelude::*;
use vstd::arithmetic::div_mod::{
    lemma_fundamental_div_mod, lemma_fundamental_div_mod_converse,
    lemma_mod_division_less_than_divisor, lemma_div_nonincreasing, lemma_div_pos_is_pos,
};
use vstd::arithmetic::mul::{lemma_mul_is_commutative, lemma_mul_is_associative};

verus! {

/// Mathematical value of a scalar: the fraction `n / d`.
pub struct Q {
    pub n: int,
    pub d: int,
}

/// A mathematical scalar is well formed when its denominator is positive.
pub open spec fn q_wf(q: Q) -> bool {
    q.d >= 1
}

/// `a` and `b` denote the same rational number.
pub open spec fn q_same(a: Q, b: Q) -> bool {
    a.n * b.d == b.n * a.d
}

pub open spec fn abs1(x: int) -> nat {
    if x < 0 {
        (-x) as nat
    } else {
        x as nat
    }
}

/// Euclid's greatest common divisor.
pub open spec fn gcd_nat(a: nat, b: nat) -> nat
    decreases b,
{
    if b == 0 {
        a
    } else {
        gcd_nat(b, a % b)
    }
}

/// The reduced representative of a fraction: both components divided by
/// their greatest common divisor.
pub open spec fn q_reduce(q: Q) -> Q {
    let g = gcd_nat(abs1(q.n), q.d as nat) as int;
    Q { n: q.n / g, d: q.d / g }
}

/// A reduced component must fit the symmetric 64-bit range.
pub open spec fn q_fits(x: int) -> bool {
    -(i64::MAX as int) <= x <= i64::MAX as int
}

/// The stored form of a fraction: reduced, if it fits the 64-bit range.
pub open spec fn q_norm(q: Q) -> Option<Q> {
    let r = q_reduce(q);
    if q_fits(r.n) && q_fits(r.d) {
        Some(r)
    } else {
        None
    }
}

pub open spec fn q_add_raw(a: Q, b: Q) -> Q {
    Q { n: a.n * b.d + b.n * a.d, d: a.d * b.d }
}

pub open spec fn q_sub_raw(a: Q, b: Q) -> Q {
    Q { n: a.n * b.d - b.n * a.d, d: a.d * b.d }
}

pub open spec fn q_mul_raw(a: Q, b: Q) -> Q {
    Q { n: a.n * b.n, d: a.d * b.d }
}

/// Division as multiplication by the flipped divisor, with the sign moved
/// into the numerator.
pub open spec fn q_div_raw(a: Q, b: Q) -> Q {
    if b.n >= 0 {
        Q { n: a.n * b.d, d: a.d * b.n }
    } else {
        Q { n: -(a.n * b.d), d: -(a.d * b.n) }
    }
}

pub open spec fn q_add(a: Q, b: Q) -> Option<Q> {
    q_norm(q_add_raw(a, b))
}

pub open spec fn q_sub(a: Q, b: Q) -> Option<Q> {
    q_norm(q_sub_raw(a, b))
}

pub open spec fn q_mul(a: Q, b: Q) -> Option<Q> {
    q_norm(q_mul_raw(a, b))
}

pub open spec fn q_div(a: Q, b: Q) -> Option<Q> {
    q_norm(q_div_raw(a, b))
}

pub open spec fn q_neg(a: Q) -> Q {
    Q { n: -a.n, d: a.d }
}

/// `a^e` for a non-negative exponent, as an iterated exact product.
pub open spec fn q_pow(a: Q, e: nat) -> Option<Q>
    decreases e,
{
    if e == 0 {
        Some(Q { n: 1, d: 1 })
    } else {
        match q_pow(a, (e - 1) as nat) {
            Some(p) => q_mul(p, a),
            None => None,
        }
    }
}

/// The reciprocal, with the sign kept in the numerator.
pub open spec fn q_recip(a: Q) -> Q {
    if a.n >= 0 {
        Q { n: a.d, d: a.n }
    } else {
        Q { n: -a.d, d: -a.n }
    }
}

/// `a^k` for any integer exponent; negative exponents go through the
/// reciprocal and therefore need `a != 0`.
pub open spec fn q_powi(a: Q, k: int) -> Option<Q> {
    if k >= 0 {
        q_pow(a, k as nat)
    } else {
        q_pow(q_recip(a), (-k) as nat)
    }
}

/// Equality up to the fixed tolerance of one ten-thousandth:
/// `|a - b| <= 1/10000`.
pub open spec fn q_near(a: Q, b: Q) -> bool {
    10000 * abs1(a.n * b.d - b.n * a.d) <= a.d * b.d
}

/// An exact rational scalar: `n / d` with `d >= 1`.  The numerator stays
/// strictly above `i64::MIN` so that negation can never overflow.
#[derive(Clone, Copy, Debug)]
pub struct Rat {
    pub n: i64,
    pub d: i64,
}

impl View for Rat {
    type V = Q;

    open spec fn view(&self) -> Q {
        Q { n: self.n as int, d: self.d as int }
    }
}

impl Rat {
    pub open spec fn wf(self) -> bool {
        self.d >= 1 && self.n > i64::MIN
    }
}

/// Euclid's algorithm.
fn gcd_u128(a0: u128, b0: u128) -> (g: u128)
    ensures
        g == gcd_nat(a0 as nat, b0 as nat),
{
    let mut a: u128 = a0;
    let mut b: u128 = b0;
    while b != 0
        invariant
            gcd_nat(a as nat, b as nat) == gcd_nat(a0 as nat, b0 as nat),
        decreases b,
    {
        let t: u128 = a % b;
        a = b;
        b = t;
    }
    a
}

/// The greatest common divisor is positive when either argument is, and it
/// divides both arguments.
proof fn lemma_gcd_divides(a: nat, b: nat)
    ensures
        (a > 0 || b > 0) ==> gcd_nat(a, b) >= 1,
        gcd_nat(a, b) >= 1 ==> (a as int) % (gcd_nat(a, b) as int) == 0,
        gcd_nat(a, b) >= 1 ==> (b as int) % (gcd_nat(a, b) as int) == 0,
    decreases b,
{
    if b == 0 {
        if a > 0 {
            assert((a as int) % (a as int) == 0);
        }
    } else {
        lemma_mod_division_less_than_divisor(a as int, b as int);
        lemma_gcd_divides(b, a % b);
        let g = gcd_nat(a, b) as int;
        if g >= 1 {
            lemma_fundamental_div_mod(a as int, b as int);
            let q = a as int / b as int;
            let r = (a % b) as int;
            assert(a as int == (b as int) * q + r);
            lemma_fundamental_div_mod(b as int, g);
            lemma_fundamental_div_mod(r, g);
            let kb = b as int / g;
            let kr = r / g;
            assert(b as int == g * kb);
            assert(r == g * kr);
            assert(a as int == g * (kb * q + kr)) by (nonlinear_arith)
                requires b as int == g * kb, r == g * kr, a as int == (b as int) * q + r,
            ;
            lemma_exact_multiple_mod(a as int, kb * q + kr, g);
        }
    }
}

/// A multiple of a positive `g` leaves remainder zero.
proof fn lemma_exact_multiple_mod(x: int, k: int, g: int)
    requires
        g >= 1,
        x == g * k,
    ensures
        x % g == 0,
        x / g == k,
{
    lemma_mul_is_commutative(g, k);
    lemma_fundamental_div_mod_converse(x, g, k, 0);
}

/// Dividing numerator and denominator by their common divisor keeps the
/// value of the fraction.
pub proof fn lemma_reduce_keeps_value(q: Q)
    requires
        q.d >= 1,
    ensures
        q_wf(q_reduce(q)),
        q_same(q_reduce(q), q),
        abs1(q_reduce(q).n) <= abs1(q.n),
        q_reduce(q).d <= q.d,
        q.n == 0 ==> q_reduce(q) == (Q { n: 0, d: 1 }),
{
    let m = abs1(q.n);
    let dn = q.d as nat;
    lemma_gcd_divides(m, dn);
    let g = gcd_nat(m, dn) as int;
    assert(g >= 1);
    let r = q_reduce(q);
    lemma_fundamental_div_mod(q.d, g);
    assert(q.d == g * r.d);
    lemma_div_pos_is_pos(q.d, g);
    assert(r.d >= 1) by (nonlinear_arith)
        requires q.d >= 1, g >= 1, q.d == g * r.d,
    ;
    lemma_div_nonincreasing(q.d, g);
    if q.n >= 0 {
        lemma_fundamental_div_mod(q.n, g);
        assert(q.n == g * r.n);
        assert(r.n * q.d == q.n * r.d) by (nonlinear_arith)
            requires q.n == g * r.n, q.d == g * r.d,
        ;
        assert(r.n >= 0) by (nonlinear_arith)
            requires q.n >= 0, g >= 1, q.n == g * r.n,
        ;
        lemma_div_nonincreasing(q.n, g);
        if q.n == 0 {
            assert(m == 0);
            reveal_with_fuel(gcd_nat, 3);
            assert((0 as nat) % dn == 0);
            assert(gcd_nat(0, dn) == gcd_nat(dn, 0));
            assert(g == q.d);
            assert(r.n == 0);
            assert(r.d == 1) by (nonlinear_arith)
                requires q.d == g * r.d, g == q.d, q.d >= 1,
            ;
        }
    } else {
        assert(m as int == -q.n);
        assert((m as int) % g == 0);
        lemma_fundamental_div_mod(m as int, g);
        let k = m as int / g;
        assert(m as int == g * k);
        assert(q.n == g * (-k)) by (nonlinear_arith)
            requires m as int == g * k, q.n == -(m as int),
        ;
        lemma_exact_multiple_mod(q.n, -k, g);
        assert(r.n == -k);
        assert(r.n * q.d == q.n * r.d) by (nonlinear_arith)
            requires q.n == g * r.n, q.d == g * r.d,
        ;
        lemma_div_pos_is_pos(m as int, g);
        lemma_div_nonincreasing(m as int, g);
        assert(abs1(r.n) == k);
    }
}

/// Builds the stored form of `n / d`: reduce, then check the 64-bit range.
fn make_rat(n: i128, d: i128) -> (r: Option<Rat>)
    requires
        d >= 1,
        n > i128::MIN,
    ensures
        r is Some <==> q_norm(Q { n: n as int, d: d as int }) is Some,
        r is Some ==> {
            let v = r->Some_0;
            &&& v.wf()
            &&& v@ == q_norm(Q { n: n as int, d: d as int })->Some_0
            &&& q_same(v@, Q { n: n as int, d: d as int })
        },
{
    proof {
        lemma_reduce_keeps_value(Q { n: n as int, d: d as int });
    }
    let neg: bool = n < 0;
    let m: u128 = if neg {
        (-n) as u128
    } else {
        n as u128
    };
    let du: u128 = d as u128;
    let g: u128 = gcd_u128(m, du);
    proof {
        lemma_gcd_divides(m as nat, du as nat);
    }
    let rm: u128 = m / g;
    let rd: u128 = du / g;
    proof {
        let q = Q { n: n as int, d: d as int };
        let red = q_reduce(q);
        assert(abs1(n as int) == m as nat);
        if neg {
            lemma_fundamental_div_mod(m as int, g as int);
            let k = m as int / g as int;
            assert(m as int == (g as int) * k);
            assert(n as int == (g as int) * (-k)) by (nonlinear_arith)
                requires m as int == (g as int) * k, n as int == -(m as int),
            ;
            lemma_exact_multiple_mod(n as int, -k, g as int);
            assert(red.n == -(rm as int));
        } else {
            assert(red.n == rm as int);
        }
        assert(red.d == rd as int);
    }
    if rm <= i64::MAX as u128 && rd <= i64::MAX as u128 {
        let rn: i64 = if neg {
            -(rm as i64)
        } else {
            rm as i64
        };
        Some(Rat { n: rn, d: rd as i64 })
    } else {
        None
    }
}

impl Rat {
    /// The scalar `num / den`, sign moved to the numerator and reduced.
    pub fn new(num: i64, den: i64) -> (r: Rat)
        requires
            den != 0,
            num > i64::MIN,
            den > i64::MIN,
        ensures
            r.wf(),
            q_same(r@, Q { n: num as int, d: den as int }),
            r@ == q_norm(
                Q {
                    n: if den < 0 { -num as int } else { num as int },
                    d: if den < 0 { -den as int } else { den as int },
                },
            )->Some_0,
    {
        let (sn, sd): (i64, i64) = if den < 0 {
            (-num, -den)
        } else {
            (num, den)
        };
        proof {
            lemma_reduce_keeps_value(Q { n: sn as int, d: sd as int });
        }
        let r = make_rat(sn as i128, sd as i128);
        let v = match r {
            Some(v) => v,
            None => Rat { n: 0, d: 1 },  // unreachable: reduction only shrinks
        };
        proof {
            assert(r is Some);
            if den < 0 {
                assert(q_same(v@, Q { n: sn as int, d: sd as int }));
                assert(q_same(v@, Q { n: num as int, d: den as int })) by (nonlinear_arith)
                    requires
                        v@.n * (sd as int) == (sn as int) * v@.d,
                        sn as int == -(num as int),
                        sd as int == -(den as int),
                ;
            }
        }
        v
    }

    /// The integer `k` as a scalar.
    pub fn from_int(k: i64) -> (r: Rat)
        requires
            k > i64::MIN,
        ensures
            r.wf(),
            r@ == (Q { n: k as int, d: 1 }),
    {
        proof {
            lemma_reduce_keeps_value(Q { n: k as int, d: 1 });
            let red = q_reduce(Q { n: k as int, d: 1 });
            assert(q_same(red, Q { n: k as int, d: 1 }));
            assert(red.d == 1 ==> red.n == k as int) by (nonlinear_arith)
                requires q_same(red, Q { n: k as int, d: 1 }),
            ;
            assert(red.d <= 1 && red.d >= 1);
        }
        let r = match make_rat(k as i128, 1) {
            Some(v) => v,
            None => Rat { n: 0, d: 1 },  // unreachable: k already fits
        };
        r
    }

    pub open spec fn spec_zero() -> Rat {
        Rat { n: 0, d: 1 }
    }

    pub open spec fn spec_one() -> Rat {
        Rat { n: 1, d: 1 }
    }

    /// The scalar zero.
    pub fn zero() -> (r: Rat)
        ensures
            r == Rat::spec_zero(),
            r.wf(),
    {
        Rat { n: 0, d: 1 }
    }

    /// The scalar one.
    pub fn one() -> (r: Rat)
        ensures
            r == Rat::spec_one(),
            r.wf(),
    {
        Rat { n: 1, d: 1 }
    }

    pub fn is_zero(&self) -> (r: bool)
        requires
            self.wf(),
        ensures
            r <==> self@.n == 0,
    {
        self.n == 0
    }

    /// Exactly the integer one.
    pub fn is_one(&self) -> (r: bool)
        ensures
            r <==> (self@.n == 1 && self@.d == 1),
    {
        self.n == 1 && self.d == 1
    }

    /// Exactly the integer minus one.
    pub fn is_neg_one(&self) -> (r: bool)
        ensures
            r <==> (self@.n == -1 && self@.d == 1),
    {
        self.n == -1 && self.d == 1
    }

    pub fn is_neg(&self) -> (r: bool)
        ensures
            r <==> self@.n < 0,
    {
        self.n < 0
    }

    /// A whole number: denominator one.
    pub fn is_int(&self) -> (r: bool)
        ensures
            r <==> self@.d == 1,
    {
        self.d == 1
    }

    /// The numerator of a whole number.
    pub fn int_val(&self) -> (r: i64)
        requires
            self@.d == 1,
        ensures
            r as int == self@.n,
    {
        self.n
    }

    pub fn neg(&self) -> (r: Rat)
        requires
            self.wf(),
        ensures
            r.wf(),
            r@ == q_neg(self@),
    {
        Rat { n: -self.n, d: self.d }
    }

    /// Exact sum, reduced; `None` when the reduced result leaves the 64-bit
    /// range.
    pub fn add(&self, other: &Rat) -> (r: Option<Rat>)
        requires
            self.wf(),
            other.wf(),
        ensures
            r is Some <==> q_add(self@, other@) is Some,
            r is Some ==> r->Some_0.wf() && r->Some_0@ == q_add(self@, other@)->Some_0,
    {
        proof {
            lemma_raw_bounds(self@, other@);
        }
        let n: i128 = (self.n as i128) * (other.d as i128) + (other.n as i128) * (self.d as i128);
        let d: i128 = (self.d as i128) * (other.d as i128);
        make_rat(n, d)
    }

    /// Exact difference, reduced; `None` on 64-bit overflow of the reduced
    /// result.
    pub fn sub(&self, other: &Rat) -> (r: Option<Rat>)
        requires
            self.wf(),
            other.wf(),
        ensures
            r is Some <==> q_sub(self@, other@) is Some,
            r is Some ==> r->Some_0.wf() && r->Some_0@ == q_sub(self@, other@)->Some_0,
    {
        proof {
            lemma_raw_bounds(self@, other@);
        }
        let n: i128 = (self.n as i128) * (other.d as i128) - (other.n as i128) * (self.d as i128);
        let d: i128 = (self.d as i128) * (other.d as i128);
        make_rat(n, d)
    }

    /// Exact product, reduced; `None` on 64-bit overflow of the reduced
    /// result.
    pub fn mul(&self, other: &Rat) -> (r: Option<Rat>)
        requires
            self.wf(),
            other.wf(),
        ensures
            r is Some <==> q_mul(self@, other@) is Some,
            r is Some ==> r->Some_0.wf() && r->Some_0@ == q_mul(self@, other@)->Some_0,
    {
        proof {
            lemma_raw_bounds(self@, other@);
        }
        let n: i128 = (self.n as i128) * (other.n as i128);
        let d: i128 = (self.d as i128) * (other.d as i128);
        make_rat(n, d)
    }

    /// Exact quotient, reduced; `None` on 64-bit overflow of the reduced
    /// result.  The divisor must not be zero.
    pub fn div(&self, other: &Rat) -> (r: Option<Rat>)
        requires
            self.wf(),
            other.wf(),
            other@.n != 0,
        ensures
            r is Some <==> q_div(self@, other@) is Some,
            r is Some ==> r->Some_0.wf() && r->Some_0@ == q_div(self@, other@)->Some_0,
    {
        proof {
            lemma_raw_bounds(self@, other@);
        }
        let n0: i128 = (self.n as i128) * (other.d as i128);
        let d0: i128 = (self.d as i128) * (other.n as i128);
        if other.n >= 0 {
            proof {
                assert(d0 >= 1) by (nonlinear_arith)
                    requires
                        d0 == (self@.d) * (other@.n),
                        self@.d >= 1,
                        other@.n >= 1,
                ;
            }
            make_rat(n0, d0)
        } else {
            proof {
                assert(-d0 >= 1) by (nonlinear_arith)
                    requires
                        d0 == (self@.d) * (other@.n),
                        self@.d >= 1,
                        other@.n <= -1,
                ;
            }
            make_rat(-n0, -d0)
        }
    }

    /// The reciprocal of a non-zero scalar; exact and always representable.
    pub fn recip(&self) -> (r: Rat)
        requires
            self.wf(),
            self@.n != 0,
        ensures
            r.wf(),
            r@ == q_recip(self@),
    {
        if self.n >= 0 {
            Rat { n: self.d, d: self.n }
        } else {
            Rat { n: -self.d, d: -self.n }
        }
    }

    /// `self^k` for any integer exponent, as iterated exact multiplication;
    /// `None` on 64-bit overflow along the way.  A negative exponent needs a
    /// non-zero base.
    pub fn pow_int(&self, k: i64) -> (r: Option<Rat>)
        requires
            self.wf(),
            k < 0 ==> self@.n != 0,
        ensures
            r is Some <==> q_powi(self@, k as int) is Some,
            r is Some ==> r->Some_0.wf() && r->Some_0@ == q_powi(self@, k as int)->Some_0,
    {
        if k >= 0 {
            self.pow_nat(k as u64)
        } else {
            let b = self.recip();
            let e: u64 = if k == i64::MIN {
                9223372036854775808u64
            } else {
                (-k) as u64
            };
            b.pow_nat(e)
        }
    }

    fn pow_nat(&self, e: u64) -> (r: Option<Rat>)
        requires
            self.wf(),
        ensures
            r is Some <==> q_pow(self@, e as nat) is Some,
            r is Some ==> r->Some_0.wf() && r->Some_0@ == q_pow(self@, e as nat)->Some_0,
    {
        let mut acc: Rat = Rat { n: 1, d: 1 };
        let mut i: u64 = 0;
        proof {
            assert(q_pow(self@, 0) == Some(Q { n: 1, d: 1 }));
        }
        while i < e
            invariant
                self.wf(),
                acc.wf(),
                i <= e,
                q_pow(self@, i as nat) == Some(acc@),
            decreases e - i,
        {
            match acc.mul(self) {
                Some(p) => {
                    acc = p;
                },
                None => {
                    proof {
                        lemma_pow_none_stays_none(self@, (i + 1) as nat, e as nat);
                    }
                    return None;
                },
            }
            i = i + 1;
        }
        Some(acc)
    }

    /// Equality up to the fixed tolerance: `|self - other| <= 1/10000`.
    pub fn near(&self, other: &Rat) -> (r: bool)
        requires
            self.wf(),
            other.wf(),
        ensures
            r == q_near(self@, other@),
    {
        proof {
            lemma_raw_bounds(self@, other@);
        }
        let p1: i128 = (self.n as i128) * (other.d as i128);
        let p2: i128 = (other.n as i128) * (self.d as i128);
        let diff: i128 = p1 - p2;
        let mag: i128 = if diff < 0 {
            -diff
        } else {
            diff
        };
        let prod: i128 = (self.d as i128) * (other.d as i128);
        let bound: i128 = prod / 10000;
        proof {
            lemma_div_scale_equiv(mag as int, prod as int);
        }
        mag <= bound
    }
}

/// Cross products of two well-formed scalars stay comfortably inside the
/// 128-bit range.
proof fn lemma_raw_bounds(a: Q, b: Q)
    requires
        q_fits(a.n),
        q_fits(b.n),
        1 <= a.d <= i64::MAX as int,
        1 <= b.d <= i64::MAX as int,
    ensures
        -(i128::MAX as int) < a.n * b.d < i128::MAX as int,
        -(i128::MAX as int) < b.n * a.d < i128::MAX as int,
        -(i128::MAX as int) < a.n * b.n < i128::MAX as int,
        -(i128::MAX as int) < a.n * b.d + b.n * a.d < i128::MAX as int,
        -(i128::MAX as int) < a.n * b.d - b.n * a.d < i128::MAX as int,
        1 <= a.d * b.d < i128::MAX as int,
        -(i128::MAX as int) < a.d * b.n < i128::MAX as int,
{
    let m = i64::MAX as int;
    assert(-(m * m) <= a.n * b.d <= m * m) by (nonlinear_arith)
        requires -m <= a.n <= m, 1 <= b.d <= m,
    ;
    assert(-(m * m) <= b.n * a.d <= m * m) by (nonlinear_arith)
        requires -m <= b.n <= m, 1 <= a.d <= m,
    ;
    assert(-(m * m) <= a.n * b.n <= m * m) by (nonlinear_arith)
        requires -m <= a.n <= m, -m <= b.n <= m,
    ;
    assert(-(m * m) <= a.d * b.n <= m * m) by (nonlinear_arith)
        requires 1 <= a.d <= m, -m <= b.n <= m,
    ;
    assert(1 <= a.d * b.d <= m * m) by (nonlinear_arith)
        requires 1 <= a.d <= m, 1 <= b.d <= m,
    ;
    assert(2 * (m * m) < i128::MAX as int);
}

/// A successfully stored fraction is well formed, denotes the same number,
/// and is zero exactly when the input was.
pub proof fn lemma_q_norm_props(q: Q)
    requires
        q.d >= 1,
    ensures
        q_norm(q) is Some ==> {
            let r = q_norm(q)->Some_0;
            &&& r.d >= 1
            &&& q_fits(r.n)
            &&& q_fits(r.d)
            &&& q_same(r, q)
            &&& (q.n != 0 <==> r.n != 0)
        },
{
    lemma_reduce_keeps_value(q);
    if q_norm(q) is Some {
        let r = q_norm(q)->Some_0;
        assert(r == q_reduce(q));
        if q.n != 0 && r.n == 0 {
            assert(q.n * r.d == 0) by (nonlinear_arith)
                requires r.n * q.d == q.n * r.d, r.n == 0, q.d >= 1,
            ;
            assert(false) by (nonlinear_arith)
                requires q.n * r.d == 0, q.n != 0, r.d >= 1,
            ;
        }
        if q.n == 0 {
            assert(abs1(r.n) <= abs1(q.n));
        }
    }
}

/// Well-formedness and non-nullity of an exact power.
pub proof fn lemma_q_pow_props(b: Q, e: nat)
    requires
        b.d >= 1,
        q_fits(b.n),
        q_fits(b.d),
        b.n != 0,
    ensures
        q_pow(b, e) is Some ==> {
            let p = q_pow(b, e)->Some_0;
            &&& p.d >= 1
            &&& q_fits(p.n)
            &&& q_fits(p.d)
            &&& p.n != 0
        },
    decreases e,
{
    if e > 0 {
        lemma_q_pow_props(b, (e - 1) as nat);
        if q_pow(b, e) is Some {
            let p0 = q_pow(b, (e - 1) as nat)->Some_0;
            let raw = q_mul_raw(p0, b);
            assert(raw.n != 0) by (nonlinear_arith)
                requires raw.n == p0.n * b.n, p0.n != 0, b.n != 0,
            ;
            assert(raw.d >= 1) by (nonlinear_arith)
                requires raw.d == p0.d * b.d, p0.d >= 1, b.d >= 1,
            ;
            lemma_q_norm_props(raw);
        }
    }
}

/// Well-formedness and non-nullity of an exact signed power.
pub proof fn lemma_q_powi_props(b: Q, k: int)
    requires
        b.d >= 1,
        q_fits(b.n),
        q_fits(b.d),
        b.n != 0,
    ensures
        q_powi(b, k) is Some ==> {
            let p = q_powi(b, k)->Some_0;
            &&& p.d >= 1
            &&& q_fits(p.n)
            &&& q_fits(p.d)
            &&& p.n != 0
        },
{
    if k >= 0 {
        lemma_q_pow_props(b, k as nat);
    } else {
        let r = q_recip(b);
        assert(r.d >= 1 && q_fits(r.n) && q_fits(r.d) && r.n != 0);
        lemma_q_pow_props(r, (-k) as nat);
    }
}

/// Once an iterated power has overflowed it stays overflowed.
proof fn lemma_pow_none_stays_none(a: Q, i: nat, e: nat)
    requires
        i <= e,
        q_pow(a, i) is None,
    ensures
        q_pow(a, e) is None,
    decreases e - i,
{
    if i < e {
        lemma_pow_none_stays_none(a, i + 1, e);
    }
}

/// Comparing against the scaled-down product is the same as comparing the
/// scaled-up distance: `x <= p / 10000` exactly when `10000 * x <= p`.
proof fn lemma_div_scale_equiv(x: int, p: int)
    requires
        x >= 0,
        p >= 1,
    ensures
        (x <= p / 10000) <==> (10000 * x <= p),
{
    lemma_fundamental_div_mod(p, 10000);
    let q = p / 10000;
    let r = p % 10000;
    assert(p == 10000 * q + r);
    if x <= q {
        assert(10000 * x <= 10000 * q) by (nonlinear_arith)
            requires x <= q,
        ;
    }
    if 10000 * x <= p {
        assert(x <= q) by (nonlinear_arith)
            requires 10000 * x <= p, p == 10000 * q + r, 0 <= r < 10000,
        ;
    }
}

} // verus!
