//! The algebraic laws of the engine, stated and proved over the model.
//!
//! Everything here is a consequence of the exact contracts of the
//! operators; the laws are spelled out so that a reader sees what is
//! guaranteed without re-deriving it.

use vstd::prelude::*;
use crate::rat::{Q, q_add, q_add_raw, q_neg, q_near, q_same, abs1, lemma_q_norm_props, lemma_reduce_keeps_value, q_reduce, q_fits};
use crate::num::{
    ImV, wf_v, eq_v, v_neg, v_one, v_sum_of, lemma_eq_refl, mag_ok, tag_ok,
};
use crate::ops::{v_add, v_sub, absorb_simple};
use crate::muldiv::v_div;

verus! {

/// Subtracting any well-formed value from itself cancels to zero.
pub proof fn lemma_sub_self_is_zero(x: ImV)
    requires
        wf_v(x),
        !(x is Undefined),
    ensures
        v_sub(x, x) == ImV::Zero,
{
    lemma_eq_refl(x);
}

/// Dividing any well-formed non-zero value by itself yields one.
pub proof fn lemma_div_self_is_one(x: ImV)
    requires
        wf_v(x),
        !(x is Undefined),
        !(x is Zero),
    ensures
        v_div(x, x) == v_one(),
{
    lemma_eq_refl(x);
}

/// A value within the comparison tolerance of zero.
pub open spec fn near_zero(m: Q) -> bool {
    q_near(m, Q { n: 0, d: 1 })
}

/// Adding a simple value and then subtracting it again returns to a value
/// canonically equal to the start.  The two exclusions are forced by the
/// machine and by the fixed comparison tolerance: the intermediate sum must
/// stay representable, and a start value within the tolerance of zero would
/// be swallowed by the cancellation fast path.
pub proof fn lemma_add_sub_roundtrip(a: ImV, b: ImV)
    requires
        wf_v(a),
        wf_v(b),
        a is Simple,
        b is Simple,
        !(v_add(a, b) is Undefined),
        !(v_sub(v_add(a, b), b) is Undefined),
        (a->Simple_ipow == b->Simple_ipow) ==> !near_zero(a->Simple_mag),
    ensures
        eq_v(v_sub(v_add(a, b), b), a),
{
    let m1 = a->Simple_mag;
    let t1 = a->Simple_ipow;
    let m2 = b->Simple_mag;
    let t2 = b->Simple_ipow;
    lemma_eq_refl(a);
    if t1 == t2 {
        lemma_roundtrip_same_tag(m1, m2, t1);
    } else {
        lemma_roundtrip_diff_tag(a, b);
    }
}

/// The round trip for operands carrying the same imaginary-power tag.
#[verifier::rlimit(100)]
proof fn lemma_roundtrip_same_tag(m1: Q, m2: Q, t: int)
    requires
        mag_ok(m1),
        m1.n != 0,
        tag_ok(t),
        mag_ok(m2),
        m2.n != 0,
        !near_zero(m1),
        !(v_add(
            ImV::Simple { mag: m1, ipow: t },
            ImV::Simple { mag: m2, ipow: t },
        ) is Undefined),
        !(v_sub(
            v_add(ImV::Simple { mag: m1, ipow: t }, ImV::Simple { mag: m2, ipow: t }),
            ImV::Simple { mag: m2, ipow: t },
        ) is Undefined),
    ensures
        eq_v(
            v_sub(
                v_add(ImV::Simple { mag: m1, ipow: t }, ImV::Simple { mag: m2, ipow: t }),
                ImV::Simple { mag: m2, ipow: t },
            ),
            ImV::Simple { mag: m1, ipow: t },
        ),
{
    let a = ImV::Simple { mag: m1, ipow: t };
    let b = ImV::Simple { mag: m2, ipow: t };
    let raw1 = q_add_raw(m1, m2);
    assert(raw1.d >= 1) by (nonlinear_arith)
        requires raw1.d == m1.d * m2.d, m1.d >= 1, m2.d >= 1,
    ;
    lemma_q_norm_props(raw1);
    assert(q_add(m1, m2) is Some);
    let s = q_add(m1, m2)->Some_0;
    assert(q_same(s, raw1));
    if s.n == 0 {
        // the whole sum vanished: subtracting `b` from zero leaves `-b`,
        // which carries exactly the value of `a`
        assert(v_add(a, b) == ImV::Zero);
        assert(v_sub(ImV::Zero, b) == v_neg(b));
        assert(raw1.n == 0);
        let nm2 = q_neg(m2);
        assert(10000 * abs1(nm2.n * m1.d - m1.n * nm2.d) <= nm2.d * m1.d) by (nonlinear_arith)
            requires
                nm2.n == -m2.n,
                nm2.d == m2.d,
                m1.n * m2.d + m2.n * m1.d == 0,
                m1.d >= 1,
                m2.d >= 1,
        ;
        assert(eq_v(v_neg(b), a));
    } else {
        let c = ImV::Simple { mag: s, ipow: t };
        assert(v_add(a, b) == c);
        // the intermediate sum is not within tolerance of `b`, so the
        // cancellation fast path of the subtraction cannot fire
        assert(s.n * raw1.d == raw1.n * s.d);
        let diff = s.n * m2.d - m2.n * s.d;
        let p = m1.d * m2.d;
        assert((s.n * m2.d) * p == ((m1.n * m2.d + m2.n * m1.d) * s.d) * m2.d) by (nonlinear_arith)
            requires
                s.n * p == (m1.n * m2.d + m2.n * m1.d) * s.d,
                p == m1.d * m2.d,
        ;
        assert(diff * p == (s.n * m2.d) * p - (m2.n * s.d) * p) by (nonlinear_arith)
            requires diff == s.n * m2.d - m2.n * s.d,
        ;
        assert(((m1.n * m2.d + m2.n * m1.d) * s.d) * m2.d - (m2.n * s.d) * p == (s.d * m2.d) * (
        m1.n * m2.d)) by (nonlinear_arith)
            requires p == m1.d * m2.d,
        ;
        assert(diff * (m1.d * m2.d) == (s.d * m2.d) * (m1.n * m2.d));
        if q_near(s, m2) {
            assert(10000 * abs1(diff) <= s.d * m2.d);
            assert(10000 * abs1(m1.n) <= m1.d) by (nonlinear_arith)
                requires
                    10000 * abs1(diff) <= s.d * m2.d,
                    diff * (m1.d * m2.d) == (s.d * m2.d) * (m1.n * m2.d),
                    m1.d >= 1,
                    m2.d >= 1,
                    s.d >= 1,
            ;
            assert(near_zero(m1)) by (nonlinear_arith)
                requires 10000 * abs1(m1.n) <= m1.d,
            ;
            assert(false);
        }
        assert(!eq_v(c, b));
        // the final merge computes a value exactly equal to `a`
        let nm2 = q_neg(m2);
        let raw2 = q_add_raw(s, nm2);
        assert(raw2.d >= 1) by (nonlinear_arith)
            requires raw2.d == s.d * nm2.d, s.d >= 1, m2.d >= 1, nm2.d == m2.d,
        ;
        lemma_q_norm_props(raw2);
        assert(v_sub(c, b) == v_add(c, v_neg(b)));
        assert(v_neg(b) == (ImV::Simple { mag: nm2, ipow: t }));
        assert(q_add(s, nm2) is Some);
        let s2 = q_add(s, nm2)->Some_0;
        assert(q_same(s2, raw2));
        assert(raw2.n == diff) by (nonlinear_arith)
            requires
                raw2.n == s.n * nm2.d + nm2.n * s.d,
                nm2.n == -m2.n,
                nm2.d == m2.d,
                diff == s.n * m2.d - m2.n * s.d,
        ;
        assert(diff * m1.d == (s.d * m2.d) * m1.n) by (nonlinear_arith)
            requires
                diff * (m1.d * m2.d) == (s.d * m2.d) * (m1.n * m2.d),
                m2.d >= 1,
        ;
        if s2.n == 0 {
            assert(raw2.n == 0);
            assert(m1.n == 0) by (nonlinear_arith)
                requires
                    diff * m1.d == (s.d * m2.d) * m1.n,
                    diff == 0,
                    s.d >= 1,
                    m2.d >= 1,
                    m1.d >= 1,
            ;
            assert(false);
        }
        assert(v_add(c, v_neg(b)) == (ImV::Simple { mag: s2, ipow: t }));
        assert(s2.n * m1.d - m1.n * s2.d == 0) by (nonlinear_arith)
            requires
                s2.n * raw2.d == raw2.n * s2.d,
                raw2.n == diff,
                raw2.d == s.d * m2.d,
                diff * m1.d == (s.d * m2.d) * m1.n,
                s.d >= 1,
                m2.d >= 1,
                s2.d >= 1,
        ;
        assert(10000 * abs1(s2.n * m1.d - m1.n * s2.d) <= s2.d * m1.d) by (nonlinear_arith)
            requires
                s2.n * m1.d - m1.n * s2.d == 0,
                s2.d >= 1,
                m1.d >= 1,
        ;
        assert(eq_v(ImV::Simple { mag: s2, ipow: t }, ImV::Simple { mag: m1, ipow: t }));
    }
}

/// The round trip for operands carrying different tags: the terms never
/// merge and the subtraction removes the second term exactly.
#[verifier::rlimit(100)]
proof fn lemma_roundtrip_diff_tag(a: ImV, b: ImV)
    requires
        wf_v(a),
        wf_v(b),
        a is Simple,
        b is Simple,
        a->Simple_ipow != b->Simple_ipow,
    ensures
        eq_v(v_sub(v_add(a, b), b), a),
{
    let m1 = a->Simple_mag;
    let t1 = a->Simple_ipow;
    let m2 = b->Simple_mag;
    let t2 = b->Simple_ipow;
    let c = ImV::Sum { terms: seq![a, b] };
    assert(v_add(a, b) == c);
    assert(!eq_v(c, b));
    let nb = ImV::Simple { mag: q_neg(m2), ipow: t2 };
    assert(v_neg(b) == nb);
    assert(v_sub(c, b) == v_add(c, nb));
    // absorbing `-b` into the two-term sum: the first term has the wrong
    // tag, the second merges and vanishes exactly
    let ts = seq![a, b];
    let rest = ts.subrange(1, 2);
    assert(rest =~= seq![b]);
    let raw = q_add_raw(m2, q_neg(m2));
    assert(raw.n == 0 && raw.d >= 1) by (nonlinear_arith)
        requires
            raw.n == m2.n * q_neg(m2).d + q_neg(m2).n * m2.d,
            raw.d == m2.d * q_neg(m2).d,
            q_neg(m2).n == -m2.n,
            q_neg(m2).d == m2.d,
            m2.d >= 1,
    ;
    lemma_q_norm_props(raw);
    lemma_reduce_keeps_value(raw);
    assert(q_reduce(raw) == (Q { n: 0, d: 1 }));
    assert(q_fits(0) && q_fits(1));
    assert(q_add(m2, q_neg(m2)) is Some);
    assert(q_add(m2, q_neg(m2))->Some_0.n == 0);
    let rest2 = rest.subrange(1, 1);
    assert(rest2 =~= Seq::<ImV>::empty());
    assert(absorb_simple(rest, q_neg(m2), t2) == Some(rest2));
    assert(absorb_simple(ts, q_neg(m2), t2) == Some(seq![a] + rest2));
    assert(seq![a] + rest2 =~= seq![a]);
    assert(v_add(c, nb) == v_sum_of(seq![a]));
    lemma_eq_refl(a);
}

} // verus!
