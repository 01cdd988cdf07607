//! Integer and complex exponentiation of canonical values.
//!
//! `x^0` is one, `x^1` is `x`, and `0^x` is zero.  A simple base raised to
//! a whole real exponent is computed exactly; a sum raised to a whole real
//! exponent becomes repeated multiplication; any other exponent is attached
//! symbolically.  The imaginary-only variant raises just the
//! imaginary-power tag of a simple base, leaving the magnitude untouched.

use vstd::prelude::*;
use crate::rat::{Rat, q_powi, lemma_q_powi_props};
use crate::num::{
    Im, ImV, views_of, lemma_views_of_index, wf_v, wf_seq, tag_ok, is_one_v, v_one, v_simple_of,
    v_simple_opt, v_power_of, v_product_of, height_v, simple_of, power_of, product_of, clone_vec,
};
use crate::muldiv::{v_mul, v_recip, mul_val, recip_val};

verus! {

/// `a` multiplied by itself until `m` factors are reached (`m >= 1`).
pub open spec fn v_pow_rep(a: ImV, m: nat) -> ImV
    decreases m,
{
    if m <= 1 {
        a
    } else {
        v_mul(v_pow_rep(a, (m - 1) as nat), a)
    }
}

/// The reciprocal, with a vanished or overflowed power turning undefined.
pub open spec fn recip_guard(p: ImV) -> ImV {
    if p is Undefined || p is Zero {
        ImV::Undefined
    } else {
        v_recip(p)
    }
}

/// Exponentiation.  The flag selects the imaginary-only variant, which
/// raises just the imaginary-power tag of a simple base.
pub open spec fn v_pow(a: ImV, b: ImV, imag_only: bool) -> ImV
    decreases height_v(a),
{
    if a is Undefined || b is Undefined {
        ImV::Undefined
    } else if b is Zero {
        v_one()
    } else if is_one_v(b) {
        a
    } else if is_one_v(a) {
        a
    } else if a is Zero {
        ImV::Zero
    } else {
        match (a, b) {
            (ImV::Simple { mag: m, ipow: t }, ImV::Simple { mag: me, ipow: te }) => {
                if te == 0 && me.d == 1 {
                    if !imag_only || t == 0 {
                        v_simple_opt(q_powi(m, me.n), t * me.n)
                    } else {
                        v_simple_of(m, t * me.n)
                    }
                } else {
                    v_power_of(seq![a], b)
                }
            },
            (ImV::Simple { .. }, _) => v_power_of(seq![a], b),
            (ImV::Sum { terms: ts }, ImV::Simple { mag: me, ipow: te }) => {
                if te == 0 && me.d == 1 {
                    if me.n >= 2 {
                        v_pow_rep(a, me.n as nat)
                    } else {
                        recip_guard(v_pow_rep(a, (-me.n) as nat))
                    }
                } else {
                    v_power_of(ts, b)
                }
            },
            (ImV::Sum { terms: ts }, _) => v_power_of(ts, b),
            (ImV::Power { terms: bb, exponent: e }, _) => v_power_of(bb, v_mul(*e, b)),
            (
                ImV::Product { terms: bb, exponent: e, multiplier: m },
                _,
            ) => v_product_of(bb, v_mul(*e, b), v_pow(*m, b, false)),
            _ => ImV::Undefined,
        }
    }
}

/// Repeated multiplication of a value by itself, executable.
fn pow_rep_val(a: &Im, m: u64) -> (r: Im)
    requires
        wf_v(a@),
        m >= 1,
    ensures
        r@ == v_pow_rep(a@, m as nat),
        wf_v(r@),
{
    let mut acc = a.deep_clone();
    let mut done: u64 = 1;
    while done < m
        invariant
            1 <= done <= m,
            wf_v(a@),
            wf_v(acc@),
            acc@ == v_pow_rep(a@, done as nat),
        decreases m - done,
    {
        let next = mul_val(&acc, a);
        acc = next;
        done = done + 1;
    }
    acc
}

/// The shared exponentiation core.
#[verifier::rlimit(100)]
fn pow_core(a: &Im, b: &Im, imag_only: bool) -> (r: Im)
    requires
        wf_v(a@),
        wf_v(b@),
    ensures
        r@ == v_pow(a@, b@, imag_only),
        wf_v(r@),
    decreases height_v(a@),
{
    proof {
        reveal_with_fuel(wf_v, 3);
    }
    if a.is_none() || b.is_none() {
        return Im::Undefined;
    }
    if b.is_zero() {
        return Im::one();
    }
    if b.is_one() {
        return a.deep_clone();
    }
    if a.is_one() {
        return a.deep_clone();
    }
    if a.is_zero() {
        return Im::Zero;
    }
    match (a, b) {
        (Im::Simple { .. }, _) => pow_simple_arm(a, b, imag_only),
        (Im::Sum { .. }, _) => pow_sum_arm(a, b, imag_only),
        (Im::Power { terms: bb, exponent: e }, _) => {
            let ne = mul_val(e, b);
            proof {
                lemma_views_of_index(bb@);
            }
            power_of(clone_vec(bb), ne)
        },
        (Im::Product { terms: bb, exponent: e, multiplier: m }, _) => {
            proof {
                assert(height_v(m@) < height_v(a@));
            }
            let ne = mul_val(e, b);
            let nm = pow_core(m, b, false);
            proof {
                lemma_views_of_index(bb@);
            }
            product_of(clone_vec(bb), ne, nm)
        },
        _ => Im::Undefined,  // unreachable: zero and undefined are handled above
    }
}

/// The simple-base arm of exponentiation.
#[verifier::rlimit(100)]
fn pow_simple_arm(a: &Im, b: &Im, imag_only: bool) -> (r: Im)
    requires
        wf_v(a@),
        wf_v(b@),
        a@ is Simple,
        !(b@ is Zero),
        !(b@ is Undefined),
        !is_one_v(b@),
        !is_one_v(a@),
    ensures
        r@ == v_pow(a@, b@, imag_only),
        wf_v(r@),
{
    let info: Option<(Rat, i64)> = match a {
        Im::Simple { mag, ipow } => Some((*mag, *ipow)),
        _ => None,
    };
    let exp_info: Option<(Rat, i64)> = match b {
        Im::Simple { mag, ipow } => Some((*mag, *ipow)),
        _ => None,
    };
    if let (Some((m, t)), Some((me, te))) = (info, exp_info) {
        proof {
            assert(a@ == (ImV::Simple { mag: m@, ipow: t as int }));
            assert(b@ == (ImV::Simple { mag: me@, ipow: te as int }));
        }
        if te == 0 && me.is_int() {
            let k = me.int_val();
            if !imag_only || t == 0 {
                proof {
                    lemma_q_powi_props(m@, k as int);
                }
                match m.pow_int(k) {
                    Some(p) => simple_of(p, (t as i128) * (k as i128)),
                    None => Im::Undefined,
                }
            } else {
                proof {
                    assert(-(i64::MAX as int) <= k as int <= i64::MAX as int);
                    assert(-(i64::MAX as int) <= (t as int) * (k as int) <= i64::MAX as int)
                        by (nonlinear_arith)
                        requires
                            tag_ok(t as int),
                            -(i64::MAX as int) <= k as int <= i64::MAX as int,
                    ;
                }
                simple_of(m, (t as i128) * (k as i128))
            }
        } else {
            promote_power(a, b)
        }
    } else {
        promote_power(a, b)
    }
}

/// The sum-base arm of exponentiation.
#[verifier::rlimit(100)]
fn pow_sum_arm(a: &Im, b: &Im, imag_only: bool) -> (r: Im)
    requires
        wf_v(a@),
        wf_v(b@),
        a@ is Sum,
        !(b@ is Zero),
        !(b@ is Undefined),
        !is_one_v(b@),
    ensures
        r@ == v_pow(a@, b@, imag_only),
        wf_v(r@),
{
    let exp_info: Option<(Rat, i64)> = match b {
        Im::Simple { mag, ipow } => Some((*mag, *ipow)),
        _ => None,
    };
    let ts: &Vec<Im> = match a {
        Im::Sum { terms } => terms,
        _ => vstd::pervasive::unreached(),
    };
    proof {
        lemma_views_of_index(ts@);
        assert(a@ == (ImV::Sum { terms: views_of(ts@) }));
    }
    if let Some((me, te)) = exp_info {
        proof {
            assert(b@ == (ImV::Simple { mag: me@, ipow: te as int }));
        }
        if te == 0 && me.is_int() {
            let k = me.int_val();
            if k >= 2 {
                pow_rep_val(a, k as u64)
            } else {
                proof {
                    assert(k > i64::MIN);
                    assert(k <= -1);
                }
                let mm: u64 = (-k) as u64;
                let p = pow_rep_val(a, mm);
                if p.is_none() || p.is_zero() {
                    Im::Undefined
                } else {
                    recip_val(&p)
                }
            }
        } else {
            power_of(clone_vec(ts), b.deep_clone())
        }
    } else {
        power_of(clone_vec(ts), b.deep_clone())
    }
}

/// A simple base with a symbolic exponent, promoted to a one-term power.
fn promote_power(a: &Im, b: &Im) -> (r: Im)
    requires
        wf_v(a@),
        wf_v(b@),
        a@ is Simple,
        !(b@ is Zero),
        !(b@ is Undefined),
        !is_one_v(b@),
    ensures
        r@ == v_power_of(seq![a@], b@),
        wf_v(r@),
{
    let ghost ga = a@;
    let base = a.deep_clone();
    let ts: Vec<Im> = vec![base];
    proof {
        lemma_views_of_index(ts@);
        assert(ts@[0].deep_view() == ga);
        assert(views_of(ts@) =~= seq![ga]);
        assert(seq![ga].subrange(1, 1) =~= Seq::<ImV>::empty());
        reveal_with_fuel(wf_seq, 3);
        assert(wf_seq(seq![ga]));
    }
    power_of(ts, b.deep_clone())
}

impl Im {
    /// Raises the whole value to the power `rhs`.
    pub fn pow(&self, rhs: &Im) -> (r: Im)
        requires
            wf_v(self@),
            wf_v(rhs@),
        ensures
            r@ == v_pow(self@, rhs@, false),
            wf_v(r@),
    {
        pow_core(self, rhs, false)
    }

    /// Raises only the imaginary part of a simple value to the power
    /// `rhs`: the magnitude is raised only when the base is purely real.
    pub fn powi(&self, rhs: &Im) -> (r: Im)
        requires
            wf_v(self@),
            wf_v(rhs@),
        ensures
            r@ == v_pow(self@, rhs@, true),
            wf_v(r@),
    {
        pow_core(self, rhs, true)
    }
}

} // verus!
