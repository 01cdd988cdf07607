//! Multiplication and division of canonical values.
//!
//! Products distribute over sums (followed by the collect pass), powers
//! with the same base accumulate their exponents, and everything else is
//! wrapped as a multiplier.  Division detects an exact ratio up to sign
//! first, then multiplies by the reciprocal of the divisor; division by
//! zero yields the undefined sentinel.

use vstd::prelude::*;
use crate::rat::{Rat, q_mul, q_mul_raw, q_recip, lemma_q_norm_props};
use crate::num::{
    Im, ImV, views_of, lemma_views_of_index, wf_v, wf_term, lemma_wf_seq_index, is_one_v, v_one,
    v_neg_one, v_neg, eq_v, eq_seq, v_simple_opt, v_power_of, v_product_of, height_v, height_seq,
    lemma_height_member, simple_of, power_of, product_of, clone_vec, neg_val, eq_vec,
};
use crate::ops::{v_add, spec_collect, collect_vec, add_val};

verus! {

/// Each term of a list multiplied by `x`, the term on the left.
pub open spec fn scale_seq(ts: Seq<ImV>, x: ImV) -> Seq<ImV>
    decreases height_seq(ts) + height_v(x), 1int, ts.len(),
{
    if ts.len() == 0 {
        Seq::empty()
    } else {
        seq![v_mul(ts[0], x)] + scale_seq(ts.subrange(1, ts.len() as int), x)
    }
}

/// `x` multiplied by each member of a list, `x` on the left.
pub open spec fn row_seq(x: ImV, ts: Seq<ImV>) -> Seq<ImV>
    decreases height_v(x) + height_seq(ts), 1int, ts.len(),
{
    if ts.len() == 0 {
        Seq::empty()
    } else {
        seq![v_mul(x, ts[0])] + row_seq(x, ts.subrange(1, ts.len() as int))
    }
}

/// All pairwise products of two term lists, row major.
pub open spec fn cart_seq(s1: Seq<ImV>, s2: Seq<ImV>) -> Seq<ImV>
    decreases height_seq(s1) + height_seq(s2), 2int, s1.len(),
{
    if s1.len() == 0 {
        Seq::empty()
    } else {
        row_seq(s1[0], s2) + cart_seq(s1.subrange(1, s1.len() as int), s2)
    }
}

/// Multiplication.  Undefined absorbs, zero annihilates, one is the
/// identity; simple values multiply magnitudes and add tags; sums
/// distribute and re-collect; powers over the same base add exponents;
/// everything else is folded into a multiplier.
pub open spec fn v_mul(a: ImV, b: ImV) -> ImV
    decreases height_v(a) + height_v(b), 0int, 0int,
{
    if a is Undefined || b is Undefined {
        ImV::Undefined
    } else if a is Zero || b is Zero {
        ImV::Zero
    } else if is_one_v(a) {
        b
    } else if is_one_v(b) {
        a
    } else {
        match (a, b) {
            (ImV::Simple { mag: m1, ipow: t1 }, ImV::Simple { mag: m2, ipow: t2 }) => v_simple_opt(
                q_mul(m1, m2),
                t1 + t2,
            ),
            (ImV::Sum { terms: s1 }, ImV::Sum { terms: s2 }) => spec_collect(cart_seq(s1, s2)),
            (ImV::Sum { terms: s1 }, ImV::Simple { .. }) => spec_collect(scale_seq(s1, b)),
            (ImV::Simple { .. }, ImV::Sum { terms: s2 }) => spec_collect(scale_seq(s2, a)),
            (ImV::Sum { .. }, ImV::Power { terms: b2, exponent: e2 }) => v_product_of(b2, *e2, a),
            (ImV::Power { terms: b1, exponent: e1 }, ImV::Sum { .. }) => v_product_of(b1, *e1, b),
            (
                ImV::Sum { .. },
                ImV::Product { terms: b2, exponent: e2, multiplier: m2 },
            ) => v_product_of(b2, *e2, v_mul(*m2, a)),
            (
                ImV::Product { terms: b1, exponent: e1, multiplier: m1 },
                ImV::Sum { .. },
            ) => v_product_of(b1, *e1, v_mul(*m1, b)),
            (ImV::Simple { .. }, ImV::Power { terms: b2, exponent: e2 }) => v_product_of(
                b2,
                *e2,
                a,
            ),
            (ImV::Power { terms: b1, exponent: e1 }, ImV::Simple { .. }) => v_product_of(
                b1,
                *e1,
                b,
            ),
            (
                ImV::Simple { .. },
                ImV::Product { terms: b2, exponent: e2, multiplier: m2 },
            ) => v_product_of(b2, *e2, v_mul(*m2, a)),
            (
                ImV::Product { terms: b1, exponent: e1, multiplier: m1 },
                ImV::Simple { .. },
            ) => v_product_of(b1, *e1, v_mul(*m1, b)),
            (
                ImV::Power { terms: b1, exponent: e1 },
                ImV::Power { terms: b2, exponent: e2 },
            ) => {
                if eq_seq(b1, b2) {
                    v_power_of(b1, v_add(*e1, *e2))
                } else {
                    v_product_of(b1, *e1, b)
                }
            },
            (
                ImV::Power { terms: b1, exponent: e1 },
                ImV::Product { terms: b2, exponent: e2, multiplier: m2 },
            ) => {
                if eq_seq(b1, b2) {
                    v_product_of(b1, v_add(*e1, *e2), *m2)
                } else {
                    v_product_of(b1, *e1, b)
                }
            },
            (
                ImV::Product { terms: b1, exponent: e1, multiplier: m1 },
                ImV::Power { terms: b2, exponent: e2 },
            ) => {
                if eq_seq(b1, b2) {
                    v_product_of(b1, v_add(*e1, *e2), *m1)
                } else {
                    v_product_of(b1, *e1, v_mul(*m1, b))
                }
            },
            (
                ImV::Product { terms: b1, exponent: e1, multiplier: m1 },
                ImV::Product { terms: b2, exponent: e2, multiplier: m2 },
            ) => {
                if eq_seq(b1, b2) {
                    v_product_of(b1, v_add(*e1, *e2), v_mul(*m1, *m2))
                } else {
                    v_product_of(b1, *e1, v_mul(*m1, b))
                }
            },
            _ => ImV::Undefined,
        }
    }
}

/// The reciprocal of a non-zero canonical value: a simple value flips its
/// magnitude and tag, a sum is raised to the power minus one, a power
/// negates its exponent, and a product also flips its multiplier.
pub open spec fn v_recip(v: ImV) -> ImV
    decreases v,
{
    match v {
        ImV::Simple { mag, ipow } => ImV::Simple { mag: q_recip(mag), ipow: -ipow },
        ImV::Sum { terms } => ImV::Power { terms, exponent: Box::new(v_neg_one()) },
        ImV::Power { terms, exponent } => v_power_of(terms, v_neg(*exponent)),
        ImV::Product { terms, exponent, multiplier } => v_product_of(
            terms,
            v_neg(*exponent),
            v_recip(*multiplier),
        ),
        _ => v,
    }
}

/// Division: an exact ratio up to sign short-circuits to one or minus one;
/// a zero divisor yields the undefined sentinel; otherwise multiply by the
/// reciprocal of the divisor.
pub open spec fn v_div(a: ImV, b: ImV) -> ImV {
    if a is Undefined || b is Undefined {
        ImV::Undefined
    } else if b is Zero {
        ImV::Undefined
    } else if a is Zero {
        ImV::Zero
    } else if eq_v(a, b) {
        v_one()
    } else if eq_v(v_neg(a), b) {
        v_neg_one()
    } else {
        v_mul(a, v_recip(b))
    }
}

pub proof fn lemma_scale_seq_index(ts: Seq<ImV>, x: ImV)
    ensures
        scale_seq(ts, x).len() == ts.len(),
        forall|i: int| 0 <= i < ts.len() ==> scale_seq(ts, x)[i] == v_mul(#[trigger] ts[i], x),
    decreases ts.len(),
{
    if ts.len() > 0 {
        let rest = ts.subrange(1, ts.len() as int);
        lemma_scale_seq_index(rest, x);
        assert forall|i: int| 0 <= i < ts.len() implies scale_seq(ts, x)[i] == v_mul(
            #[trigger] ts[i],
            x,
        ) by {
            if i > 0 {
                assert(rest[i - 1] == ts[i]);
                assert(scale_seq(ts, x)[i] == scale_seq(rest, x)[i - 1]);
            }
        }
    }
}

pub proof fn lemma_row_seq_index(x: ImV, ts: Seq<ImV>)
    ensures
        row_seq(x, ts).len() == ts.len(),
        forall|i: int| 0 <= i < ts.len() ==> row_seq(x, ts)[i] == v_mul(x, #[trigger] ts[i]),
    decreases ts.len(),
{
    if ts.len() > 0 {
        let rest = ts.subrange(1, ts.len() as int);
        lemma_row_seq_index(x, rest);
        assert forall|i: int| 0 <= i < ts.len() implies row_seq(x, ts)[i] == v_mul(
            x,
            #[trigger] ts[i],
        ) by {
            if i > 0 {
                assert(rest[i - 1] == ts[i]);
                assert(row_seq(x, ts)[i] == row_seq(x, rest)[i - 1]);
            }
        }
    }
}

/// Term lists concatenate under the view map.
pub proof fn lemma_views_of_concat(s1: Seq<Im>, s2: Seq<Im>)
    ensures
        views_of(s1 + s2) == views_of(s1) + views_of(s2),
    decreases s1.len(),
{
    if s1.len() == 0 {
        assert(s1 + s2 =~= s2);
        assert(views_of(s1) + views_of(s2) =~= views_of(s2));
    } else {
        let rest = s1.subrange(1, s1.len() as int);
        lemma_views_of_concat(rest, s2);
        assert((s1 + s2).subrange(1, (s1 + s2).len() as int) =~= rest + s2);
        assert((s1 + s2)[0] == s1[0]);
        assert(views_of(s1 + s2) == seq![s1[0].deep_view()] + views_of(rest + s2));
        assert(views_of(s1) + views_of(s2) =~= seq![s1[0].deep_view()] + (views_of(rest)
            + views_of(s2)));
    }
}

/// Each term of the tail of `ts` (from `i` on) multiplied by `x`, the
/// term on the left, executable.
fn scale_vec(ts: &Vec<Im>, i: usize, x: &Im) -> (r: Vec<Im>)
    requires
        i <= ts@.len(),
        wf_v(x@),
        forall|j: int| 0 <= j < views_of(ts@).len() ==> wf_v(#[trigger] views_of(ts@)[j]),
    ensures
        views_of(r@) == scale_seq(views_of(ts@).subrange(i as int, ts@.len() as int), x@),
        forall|j: int| 0 <= j < views_of(r@).len() ==> wf_v(#[trigger] views_of(r@)[j]),
    decreases height_seq(views_of(ts@)) + height_v(x@), 1int, ts@.len() - i,
{
    proof {
        lemma_views_of_index(ts@);
    }
    let ghost whole = views_of(ts@).subrange(i as int, ts@.len() as int);
    if i == ts.len() {
        let out: Vec<Im> = Vec::new();
        proof {
            assert(whole.len() == 0);
            assert(views_of(out@) =~= scale_seq(whole, x@));
        }
        out
    } else {
        proof {
            assert(views_of(ts@)[i as int] == ts@[i as int].deep_view());
            assert(wf_v(views_of(ts@)[i as int]));
            lemma_height_member(views_of(ts@), i as int);
            assert(whole[0] == views_of(ts@)[i as int]);
            assert(whole.subrange(1, whole.len() as int) =~= views_of(ts@).subrange(
                i + 1,
                ts@.len() as int,
            ));
        }
        let e = mul_val(&ts[i], x);
        let ghost ge = e;
        let mut r = scale_vec(ts, i + 1, x);
        let ghost restv = r@;
        r.insert(0, e);
        proof {
            crate::ops::lemma_views_of_insert_front(restv, ge);
            lemma_views_of_index(r@);
        }
        r
    }
}

/// `x` multiplied by each term of the tail of `ts` (from `i` on), `x` on
/// the left, executable.
fn row_vec(x: &Im, ts: &Vec<Im>, i: usize) -> (r: Vec<Im>)
    requires
        i <= ts@.len(),
        wf_v(x@),
        forall|j: int| 0 <= j < views_of(ts@).len() ==> wf_v(#[trigger] views_of(ts@)[j]),
    ensures
        views_of(r@) == row_seq(x@, views_of(ts@).subrange(i as int, ts@.len() as int)),
        forall|j: int| 0 <= j < views_of(r@).len() ==> wf_v(#[trigger] views_of(r@)[j]),
    decreases height_v(x@) + height_seq(views_of(ts@)), 1int, ts@.len() - i,
{
    proof {
        lemma_views_of_index(ts@);
    }
    let ghost whole = views_of(ts@).subrange(i as int, ts@.len() as int);
    if i == ts.len() {
        let out: Vec<Im> = Vec::new();
        proof {
            assert(whole.len() == 0);
            assert(views_of(out@) =~= row_seq(x@, whole));
        }
        out
    } else {
        proof {
            assert(views_of(ts@)[i as int] == ts@[i as int].deep_view());
            assert(wf_v(views_of(ts@)[i as int]));
            lemma_height_member(views_of(ts@), i as int);
            assert(whole[0] == views_of(ts@)[i as int]);
            assert(whole.subrange(1, whole.len() as int) =~= views_of(ts@).subrange(
                i + 1,
                ts@.len() as int,
            ));
        }
        let e = mul_val(x, &ts[i]);
        let ghost ge = e;
        let mut r = row_vec(x, ts, i + 1);
        let ghost restv = r@;
        r.insert(0, e);
        proof {
            crate::ops::lemma_views_of_insert_front(restv, ge);
            lemma_views_of_index(r@);
        }
        r
    }
}

/// All pairwise products of two term lists, row major, executable.
fn cart_vec(s1: &Vec<Im>, s2: &Vec<Im>) -> (r: Vec<Im>)
    requires
        forall|j: int| 0 <= j < views_of(s1@).len() ==> wf_v(#[trigger] views_of(s1@)[j]),
        forall|j: int| 0 <= j < views_of(s2@).len() ==> wf_v(#[trigger] views_of(s2@)[j]),
    ensures
        views_of(r@) == cart_seq(views_of(s1@), views_of(s2@)),
        forall|j: int| 0 <= j < views_of(r@).len() ==> wf_v(#[trigger] views_of(r@)[j]),
    decreases height_seq(views_of(s1@)) + height_seq(views_of(s2@)), 2int, s1@.len(),
{
    proof {
        lemma_views_of_index(s1@);
        lemma_views_of_index(s2@);
    }
    let mut out: Vec<Im> = Vec::new();
    let mut idx: usize = 0;
    proof {
        assert(views_of(s1@).subrange(0, s1@.len() as int) =~= views_of(s1@));
        assert(views_of(out@) + cart_seq(views_of(s1@), views_of(s2@)) =~= cart_seq(
            views_of(s1@),
            views_of(s2@),
        ));
    }
    while idx < s1.len()
        invariant
            idx <= s1@.len(),
            views_of(s1@).len() == s1@.len(),
            views_of(s2@).len() == s2@.len(),
            forall|j: int| 0 <= j < s1@.len() ==> views_of(s1@)[j] == #[trigger] s1@[j].deep_view(),
            forall|j: int| 0 <= j < views_of(s1@).len() ==> wf_v(#[trigger] views_of(s1@)[j]),
            forall|j: int| 0 <= j < views_of(s2@).len() ==> wf_v(#[trigger] views_of(s2@)[j]),
            forall|j: int| 0 <= j < views_of(out@).len() ==> wf_v(#[trigger] views_of(out@)[j]),
            cart_seq(views_of(s1@), views_of(s2@)) == views_of(out@) + cart_seq(
                views_of(s1@).subrange(idx as int, s1@.len() as int),
                views_of(s2@),
            ),
        decreases s1@.len() - idx,
    {
        proof {
            assert(views_of(s1@)[idx as int] == s1@[idx as int].deep_view());
            assert(wf_v(views_of(s1@)[idx as int]));
            lemma_height_member(views_of(s1@), idx as int);
        }
        let mut row = row_vec(&s1[idx], s2, 0);
        let ghost outv = out@;
        let ghost rowv = row@;
        out.append(&mut row);
        proof {
            assert(views_of(s2@).subrange(0, s2@.len() as int) =~= views_of(s2@));
            lemma_views_of_concat(outv, rowv);
            let sub = views_of(s1@).subrange(idx as int, s1@.len() as int);
            assert(sub[0] == views_of(s1@)[idx as int]);
            assert(sub.subrange(1, sub.len() as int) =~= views_of(s1@).subrange(
                idx + 1,
                s1@.len() as int,
            ));
            assert(cart_seq(sub, views_of(s2@)) == row_seq(sub[0], views_of(s2@)) + cart_seq(
                views_of(s1@).subrange(idx + 1, s1@.len() as int),
                views_of(s2@),
            ));
            assert(views_of(outv) + (views_of(rowv) + cart_seq(
                views_of(s1@).subrange(idx + 1, s1@.len() as int),
                views_of(s2@),
            )) =~= (views_of(outv) + views_of(rowv)) + cart_seq(
                views_of(s1@).subrange(idx + 1, s1@.len() as int),
                views_of(s2@),
            ));
            lemma_views_of_index(out@);
            lemma_views_of_index(outv);
            lemma_views_of_index(rowv);
        }
        idx = idx + 1;
    }
    proof {
        assert(views_of(s1@).subrange(idx as int, s1@.len() as int).len() == 0);
        assert(views_of(out@) + cart_seq(
            views_of(s1@).subrange(idx as int, s1@.len() as int),
            views_of(s2@),
        ) =~= views_of(out@));
    }
    out
}

/// Multiplication of two canonical values.
pub(crate) fn mul_val(a: &Im, b: &Im) -> (r: Im)
    requires
        wf_v(a@),
        wf_v(b@),
    ensures
        r@ == v_mul(a@, b@),
        wf_v(r@),
    decreases height_v(a@) + height_v(b@), 0int, 0int,
{
    proof {
        reveal_with_fuel(wf_v, 3);
    }
    if a.is_none() || b.is_none() {
        return Im::Undefined;
    }
    if a.is_zero() || b.is_zero() {
        return Im::Zero;
    }
    if a.is_one() {
        return b.deep_clone();
    }
    if b.is_one() {
        return a.deep_clone();
    }
    match (a, b) {
        (Im::Simple { mag: m1, ipow: t1 }, Im::Simple { mag: m2, ipow: t2 }) => {
            proof {
                assert(q_mul_raw(m1@, m2@).d >= 1) by (nonlinear_arith)
                    requires m1@.d >= 1, m2@.d >= 1,
                ;
                assert(q_mul_raw(m1@, m2@).n != 0) by (nonlinear_arith)
                    requires m1@.n != 0, m2@.n != 0,
                ;
                lemma_q_norm_props(q_mul_raw(m1@, m2@));
            }
            match m1.mul(m2) {
                Some(s) => simple_of(s, (*t1 as i128) + (*t2 as i128)),
                None => Im::Undefined,
            }
        },
        (Im::Sum { terms: s1 }, Im::Sum { terms: s2 }) => {
            proof {
                lemma_views_of_index(s1@);
                lemma_views_of_index(s2@);
                lemma_wf_seq_index(views_of(s1@));
                lemma_wf_seq_index(views_of(s2@));
                assert forall|j: int| 0 <= j < views_of(s1@).len() implies wf_v(
                    #[trigger] views_of(s1@)[j],
                ) by {
                    assert(wf_term(views_of(s1@)[j]));
                }
                assert forall|j: int| 0 <= j < views_of(s2@).len() implies wf_v(
                    #[trigger] views_of(s2@)[j],
                ) by {
                    assert(wf_term(views_of(s2@)[j]));
                }
            }
            let prods = cart_vec(s1, s2);
            collect_vec(&prods)
        },
        (Im::Sum { terms: s1 }, Im::Simple { .. }) => {
            proof {
                lemma_views_of_index(s1@);
                lemma_wf_seq_index(views_of(s1@));
                assert forall|j: int| 0 <= j < views_of(s1@).len() implies wf_v(
                    #[trigger] views_of(s1@)[j],
                ) by {
                    assert(wf_term(views_of(s1@)[j]));
                }
            }
            proof {
                assert(views_of(s1@).subrange(0, s1@.len() as int) =~= views_of(s1@));
            }
            let scaled = scale_vec(s1, 0, b);
            collect_vec(&scaled)
        },
        (Im::Simple { .. }, Im::Sum { terms: s2 }) => {
            proof {
                lemma_views_of_index(s2@);
                lemma_wf_seq_index(views_of(s2@));
                assert forall|j: int| 0 <= j < views_of(s2@).len() implies wf_v(
                    #[trigger] views_of(s2@)[j],
                ) by {
                    assert(wf_term(views_of(s2@)[j]));
                }
            }
            proof {
                assert(views_of(s2@).subrange(0, s2@.len() as int) =~= views_of(s2@));
            }
            let scaled = scale_vec(s2, 0, a);
            collect_vec(&scaled)
        },
        (Im::Sum { .. }, Im::Power { terms: b2, exponent: e2 }) => product_of(
            clone_vec(b2),
            e2.deep_clone(),
            a.deep_clone(),
        ),
        (Im::Power { terms: b1, exponent: e1 }, Im::Sum { .. }) => product_of(
            clone_vec(b1),
            e1.deep_clone(),
            b.deep_clone(),
        ),
        (
            Im::Sum { .. },
            Im::Product { terms: b2, exponent: e2, multiplier: m2 },
        ) => {
            proof {
                assert(height_v(m2@) < height_v(b@));
            }
            let inner = mul_val(m2, a);
            product_of(clone_vec(b2), e2.deep_clone(), inner)
        },
        (
            Im::Product { terms: b1, exponent: e1, multiplier: m1 },
            Im::Sum { .. },
        ) => {
            proof {
                assert(height_v(m1@) < height_v(a@));
            }
            let inner = mul_val(m1, b);
            product_of(clone_vec(b1), e1.deep_clone(), inner)
        },
        (Im::Simple { .. }, Im::Power { terms: b2, exponent: e2 }) => product_of(
            clone_vec(b2),
            e2.deep_clone(),
            a.deep_clone(),
        ),
        (Im::Power { terms: b1, exponent: e1 }, Im::Simple { .. }) => product_of(
            clone_vec(b1),
            e1.deep_clone(),
            b.deep_clone(),
        ),
        (
            Im::Simple { .. },
            Im::Product { terms: b2, exponent: e2, multiplier: m2 },
        ) => {
            proof {
                assert(height_v(m2@) < height_v(b@));
            }
            let inner = mul_val(m2, a);
            product_of(clone_vec(b2), e2.deep_clone(), inner)
        },
        (
            Im::Product { terms: b1, exponent: e1, multiplier: m1 },
            Im::Simple { .. },
        ) => {
            proof {
                assert(height_v(m1@) < height_v(a@));
            }
            let inner = mul_val(m1, b);
            product_of(clone_vec(b1), e1.deep_clone(), inner)
        },
        (
            Im::Power { terms: b1, exponent: e1 },
            Im::Power { terms: b2, exponent: e2 },
        ) => {
            if eq_vec(b1, b2) {
                let es = add_val(e1, e2);
                power_of(clone_vec(b1), es)
            } else {
                product_of(clone_vec(b1), e1.deep_clone(), b.deep_clone())
            }
        },
        (
            Im::Power { terms: b1, exponent: e1 },
            Im::Product { terms: b2, exponent: e2, multiplier: m2 },
        ) => {
            if eq_vec(b1, b2) {
                let es = add_val(e1, e2);
                product_of(clone_vec(b1), es, m2.deep_clone())
            } else {
                product_of(clone_vec(b1), e1.deep_clone(), b.deep_clone())
            }
        },
        (
            Im::Product { terms: b1, exponent: e1, multiplier: m1 },
            Im::Power { terms: b2, exponent: e2 },
        ) => {
            if eq_vec(b1, b2) {
                let es = add_val(e1, e2);
                product_of(clone_vec(b1), es, m1.deep_clone())
            } else {
                proof {
                    assert(height_v(m1@) < height_v(a@));
                }
                let inner = mul_val(m1, b);
                product_of(clone_vec(b1), e1.deep_clone(), inner)
            }
        },
        (
            Im::Product { terms: b1, exponent: e1, multiplier: m1 },
            Im::Product { terms: b2, exponent: e2, multiplier: m2 },
        ) => {
            if eq_vec(b1, b2) {
                let es = add_val(e1, e2);
                proof {
                    assert(height_v(m1@) < height_v(a@));
                    assert(height_v(m2@) < height_v(b@));
                }
                let ms = mul_val(m1, m2);
                product_of(clone_vec(b1), es, ms)
            } else {
                proof {
                    assert(height_v(m1@) < height_v(a@));
                }
                let inner = mul_val(m1, b);
                product_of(clone_vec(b1), e1.deep_clone(), inner)
            }
        },
        _ => Im::Undefined,
    }
}

/// The reciprocal of a non-zero canonical value.
pub(crate) fn recip_val(v: &Im) -> (r: Im)
    requires
        wf_v(v@),
        !(v@ is Zero),
        !(v@ is Undefined),
    ensures
        r@ == v_recip(v@),
        wf_v(r@),
    decreases *v,
{
    proof {
        reveal_with_fuel(wf_v, 3);
    }
    match v {
        Im::Simple { mag, ipow } => Im::Simple { mag: mag.recip(), ipow: -(*ipow) },
        Im::Sum { terms } => {
            let m1 = Im::Simple { mag: Rat { n: -1, d: 1 }, ipow: 0 };
            proof {
                assert(m1@ == v_neg_one());
            }
            let r0 = Im::Power { terms: clone_vec(terms), exponent: Box::new(m1) };
            proof {
                lemma_views_of_index(terms@);
                assert(r0@ == v_recip(v@));
            }
            r0
        },
        Im::Power { terms, exponent } => {
            proof {
                crate::num::lemma_neg_not_zero(exponent@);
            }
            let ne = neg_val(exponent);
            power_of(clone_vec(terms), ne)
        },
        Im::Product { terms, exponent, multiplier } => {
            proof {
                crate::num::lemma_neg_not_zero(exponent@);
            }
            let ne = neg_val(exponent);
            let rm = recip_val(multiplier);
            product_of(clone_vec(terms), ne, rm)
        },
        _ => Im::Undefined,  // unreachable: zero and undefined are excluded
    }
}

/// Division of two canonical values.
pub(crate) fn div_val(a: &Im, b: &Im) -> (r: Im)
    requires
        wf_v(a@),
        wf_v(b@),
    ensures
        r@ == v_div(a@, b@),
        wf_v(r@),
{
    if a.is_none() || b.is_none() {
        return Im::Undefined;
    }
    if b.is_zero() {
        return Im::Undefined;
    }
    if a.is_zero() {
        return Im::Zero;
    }
    if a.equals(b) {
        return Im::one();
    }
    let na = neg_val(a);
    if na.equals(b) {
        let r0 = Im::Simple { mag: Rat { n: -1, d: 1 }, ipow: 0 };
        proof {
            assert(r0@ == v_neg_one());
        }
        return r0;
    }
    let rb = recip_val(b);
    mul_val(a, &rb)
}

impl Im {
    /// The product of two canonical values.
    pub fn mul(&self, rhs: &Im) -> (r: Im)
        requires
            wf_v(self@),
            wf_v(rhs@),
        ensures
            r@ == v_mul(self@, rhs@),
            wf_v(r@),
    {
        mul_val(self, rhs)
    }

    /// The quotient of two canonical values; a zero divisor yields the
    /// undefined sentinel.
    pub fn div(&self, rhs: &Im) -> (r: Im)
        requires
            wf_v(self@),
            wf_v(rhs@),
        ensures
            r@ == v_div(self@, rhs@),
            wf_v(r@),
    {
        div_val(self, rhs)
    }
}

} // verus!
