//! Addition and subtraction of canonical values.
//!
//! Same-shape operands merge term by term, keyed by the imaginary-power
//! tag; unmatched terms are kept; mismatched shapes wrap as the terms of a
//! new sum.  Subtraction is addition of the negation.  Every function here
//! is proved to compute exactly its model-level counterpart.

use vstd::prelude::*;
use crate::rat::{Rat, Q, q_add, q_add_raw, lemma_q_norm_props};
use crate::num::{
    Im, ImV, views_of, lemma_views_of_index, lemma_views_of_push, wf_v, wf_seq, wf_term,
    lemma_wf_seq_index, lemma_wf_seq_build, mag_ok, tag_ok, v_one, v_neg_one, v_neg, eq_v,
    eq_seq, v_sum_of, v_product_of, height_v, sum_of, product_of, clone_vec, neg_val, eq_vec,
};

verus! {

/// Merges the simple value `m * i^t` into a term list: the first term with
/// the same tag takes it (a vanishing merge drops the term); with no tag
/// match it is appended.  `None` reports a magnitude overflow.
pub open spec fn absorb_simple(ts: Seq<ImV>, m: Q, t: int) -> Option<Seq<ImV>>
    decreases ts,
{
    if ts.len() == 0 {
        Some(seq![ImV::Simple { mag: m, ipow: t }])
    } else {
        let rest = ts.subrange(1, ts.len() as int);
        match ts[0] {
            ImV::Simple { mag: m0, ipow: t0 } => {
                if t0 == t {
                    match q_add(m0, m) {
                        Option::None => Option::None,
                        Option::Some(s) => {
                            if s.n == 0 {
                                Some(rest)
                            } else {
                                Some(seq![ImV::Simple { mag: s, ipow: t }] + rest)
                            }
                        },
                    }
                } else {
                    match absorb_simple(rest, m, t) {
                        Option::None => Option::None,
                        Option::Some(r) => Some(seq![ts[0]] + r),
                    }
                }
            },
            _ => {
                match absorb_simple(rest, m, t) {
                    Option::None => Option::None,
                    Option::Some(r) => Some(seq![ts[0]] + r),
                }
            },
        }
    }
}

/// Merges one term into a list: simple values merge by tag, anything else
/// is kept as a further term.
pub open spec fn absorb_term(ts: Seq<ImV>, x: ImV) -> Option<Seq<ImV>> {
    match x {
        ImV::Simple { mag, ipow } => absorb_simple(ts, mag, ipow),
        _ => Some(ts.push(x)),
    }
}

/// Merges a whole list of terms, in order.
pub open spec fn absorb_all(ts: Seq<ImV>, xs: Seq<ImV>) -> Option<Seq<ImV>>
    decreases xs,
{
    if xs.len() == 0 {
        Some(ts)
    } else {
        match absorb_term(ts, xs[0]) {
            Option::None => Option::None,
            Option::Some(r) => absorb_all(r, xs.subrange(1, xs.len() as int)),
        }
    }
}

/// A merged term list as a value: overflow turns the result undefined, and
/// the simple fixer collapses short lists.
pub open spec fn sum_from(r: Option<Seq<ImV>>) -> ImV {
    match r {
        Option::None => ImV::Undefined,
        Option::Some(ts) => v_sum_of(ts),
    }
}

/// Addition.  Undefined absorbs; zero is the identity; equal-tag simple
/// values merge exactly; sums absorb the other operand term by term; equal
/// powers gain a multiplier of two; products with the same base and
/// exponent add their multipliers; everything else becomes a two-term sum.
pub open spec fn v_add(a: ImV, b: ImV) -> ImV
    decreases height_v(a) + height_v(b),
{
    if a is Undefined || b is Undefined {
        ImV::Undefined
    } else if a is Zero {
        b
    } else if b is Zero {
        a
    } else {
        match (a, b) {
            (ImV::Simple { mag: m1, ipow: t1 }, ImV::Simple { mag: m2, ipow: t2 }) => {
                if t1 == t2 {
                    match q_add(m1, m2) {
                        Option::None => ImV::Undefined,
                        Option::Some(s) => {
                            if s.n == 0 {
                                ImV::Zero
                            } else {
                                ImV::Simple { mag: s, ipow: t1 }
                            }
                        },
                    }
                } else {
                    ImV::Sum { terms: seq![a, b] }
                }
            },
            (ImV::Sum { terms: s1 }, ImV::Sum { terms: s2 }) => sum_from(absorb_all(s1, s2)),
            (ImV::Sum { terms: s1 }, _) => sum_from(absorb_term(s1, b)),
            (_, ImV::Sum { terms: s2 }) => sum_from(absorb_term(s2, a)),
            (
                ImV::Power { terms: b1, exponent: e1 },
                ImV::Power { terms: b2, exponent: e2 },
            ) => {
                if eq_v(a, b) {
                    ImV::Product {
                        terms: b1,
                        exponent: e1,
                        multiplier: Box::new(ImV::Simple { mag: Q { n: 2, d: 1 }, ipow: 0 }),
                    }
                } else {
                    ImV::Sum { terms: seq![a, b] }
                }
            },
            (
                ImV::Power { terms: b1, exponent: e1 },
                ImV::Product { terms: b2, exponent: e2, multiplier: m2 },
            ) => {
                if eq_seq(b1, b2) && eq_v(*e1, *e2) {
                    v_product_of(b2, *e2, v_add(v_one(), *m2))
                } else {
                    ImV::Sum { terms: seq![a, b] }
                }
            },
            (
                ImV::Product { terms: b1, exponent: e1, multiplier: m1 },
                ImV::Power { terms: b2, exponent: e2 },
            ) => {
                if eq_seq(b1, b2) && eq_v(*e1, *e2) {
                    v_product_of(b1, *e1, v_add(*m1, v_one()))
                } else {
                    ImV::Sum { terms: seq![a, b] }
                }
            },
            (
                ImV::Product { terms: b1, exponent: e1, multiplier: m1 },
                ImV::Product { terms: b2, exponent: e2, multiplier: m2 },
            ) => {
                if eq_seq(b1, b2) && eq_v(*e1, *e2) {
                    v_product_of(b1, *e1, v_add(*m1, *m2))
                } else {
                    ImV::Sum { terms: seq![a, b] }
                }
            },
            _ => ImV::Sum { terms: seq![a, b] },
        }
    }
}

/// Subtraction: the fast paths (equal operands cancel, zero operands), then
/// addition of the negation.
pub open spec fn v_sub(a: ImV, b: ImV) -> ImV {
    if a is Undefined || b is Undefined {
        ImV::Undefined
    } else if eq_v(a, b) {
        ImV::Zero
    } else if a is Zero {
        v_neg(b)
    } else if b is Zero {
        a
    } else {
        v_add(a, v_neg(b))
    }
}

/// Folds a term list into a single value, adding from the last term toward
/// the first.
pub open spec fn spec_collect(s: Seq<ImV>) -> ImV
    decreases s,
{
    if s.len() == 0 {
        ImV::Zero
    } else {
        v_add(spec_collect(s.subrange(1, s.len() as int)), s[0])
    }
}

/// The collect pass on a value: a sum folds its own terms, anything else is
/// untouched.
pub open spec fn v_collect(v: ImV) -> ImV {
    match v {
        ImV::Sum { terms } => spec_collect(terms),
        _ => v,
    }
}

/// Putting a node at the front of a term list puts its view at the front
/// of the list's view.
pub proof fn lemma_views_of_insert_front(s: Seq<Im>, e: Im)
    ensures
        views_of(s.insert(0, e)) == seq![e.deep_view()] + views_of(s),
{
    let sp = s.insert(0, e);
    lemma_views_of_index(sp);
    lemma_views_of_index(s);
    assert forall|k: int| 0 <= k < views_of(sp).len() implies views_of(sp)[k] == (seq![
        e.deep_view(),
    ] + views_of(s))[k] by {
        if k == 0 {
            assert(sp[0] == e);
        } else {
            assert(sp[k] == s[k - 1]);
        }
    }
    assert(views_of(sp) =~= seq![e.deep_view()] + views_of(s));
}

/// A copy of the tail of a term list, from position `j` on.
pub(crate) fn clone_tail(ts: &Vec<Im>, j: usize) -> (r: Vec<Im>)
    requires
        j <= ts@.len(),
    ensures
        views_of(r@) == views_of(ts@).subrange(j as int, ts@.len() as int),
{
    proof {
        lemma_views_of_index(ts@);
    }
    let mut out: Vec<Im> = Vec::new();
    let mut idx: usize = j;
    while idx < ts.len()
        invariant
            j <= idx <= ts@.len(),
            out@.len() == idx - j,
            forall|k: int|
                0 <= k < out@.len() ==> #[trigger] out@[k].deep_view() == ts@[j + k].deep_view(),
        decreases ts@.len() - idx,
    {
        let e = ts[idx].deep_clone();
        out.push(e);
        idx = idx + 1;
    }
    proof {
        lemma_views_of_index(out@);
        assert forall|k: int| 0 <= k < views_of(out@).len() implies views_of(out@)[k] == views_of(
            ts@,
        ).subrange(j as int, ts@.len() as int)[k] by {
            assert(out@[k].deep_view() == ts@[j + k].deep_view());
            assert(views_of(ts@)[j + k] == ts@[j + k].deep_view());
        }
        assert(views_of(out@) =~= views_of(ts@).subrange(j as int, ts@.len() as int));
    }
    out
}

/// Executable tag merge, mirroring [`absorb_simple`] from position `i` on.
fn absorb_simple_exec(ts: &Vec<Im>, i: usize, m: Rat, t: i64) -> (r: Option<Vec<Im>>)
    requires
        i <= ts@.len(),
        wf_seq(views_of(ts@)),
        mag_ok(m@),
        m@.n != 0,
        tag_ok(t as int),
    ensures
        r is Some <==> absorb_simple(views_of(ts@).subrange(i as int, ts@.len() as int), m@, t as int) is Some,
        r is Some ==> {
            let s = absorb_simple(views_of(ts@).subrange(i as int, ts@.len() as int), m@, t as int);
            views_of(r->Some_0@) == s->Some_0
        },
    decreases ts@.len() - i,
{
    proof {
        lemma_views_of_index(ts@);
        lemma_wf_seq_index(views_of(ts@));
    }
    let ghost whole = views_of(ts@).subrange(i as int, ts@.len() as int);
    if i == ts.len() {
        let out: Vec<Im> = vec![Im::Simple { mag: m, ipow: t }];
        proof {
            lemma_views_of_index(out@);
            assert(whole.len() == 0);
            assert(out@[0].deep_view() == (ImV::Simple { mag: m@, ipow: t as int }));
            assert(views_of(out@) =~= seq![ImV::Simple { mag: m@, ipow: t as int }]);
        }
        Some(out)
    } else {
        proof {
            assert(views_of(ts@)[i as int] == ts@[i as int].deep_view());
            assert(wf_term(views_of(ts@)[i as int]));
            assert(whole[0] == views_of(ts@)[i as int]);
            assert(whole.subrange(1, whole.len() as int) =~= views_of(ts@).subrange(
                i + 1,
                ts@.len() as int,
            ));
        }
        let head_info: Option<(Rat, i64)> = match &ts[i] {
            Im::Simple { mag, ipow } => Some((*mag, *ipow)),
            _ => None,
        };
        if let Some((m0, t0)) = head_info {
            if t0 == t {
                proof {
                    assert(crate::rat::q_add_raw(m0@, m@).d >= 1) by (nonlinear_arith)
                        requires m0@.d >= 1, m@.d >= 1,
                    ;
                    lemma_q_norm_props(crate::rat::q_add_raw(m0@, m@));
                }
                match m0.add(&m) {
                    Some(s) => {
                        if s.is_zero() {
                            let out = clone_tail(ts, i + 1);
                            return Some(out);
                        }
                        let mut out = clone_tail(ts, i + 1);
                        let ghost tailv = out@;
                        out.insert(0, Im::Simple { mag: s, ipow: t });
                        proof {
                            lemma_views_of_insert_front(tailv, Im::Simple { mag: s, ipow: t });
                        }
                        return Some(out);
                    },
                    None => {
                        return None;
                    },
                }
            }
        }
        match absorb_simple_exec(ts, i + 1, m, t) {
            Some(mut r) => {
                let h = ts[i].deep_clone();
                let ghost gh = h;
                let ghost restv = r@;
                r.insert(0, h);
                proof {
                    lemma_views_of_insert_front(restv, gh);
                }
                Some(r)
            },
            None => None,
        }
    }
}

/// A term at the front of a well-formed list keeps the list well formed.
pub proof fn lemma_wf_seq_cons(h: ImV, r: Seq<ImV>)
    requires
        wf_term(h),
        wf_seq(r),
    ensures
        wf_seq(seq![h] + r),
{
    let s = seq![h] + r;
    assert(s[0] == h);
    assert(s.subrange(1, s.len() as int) =~= r);
}

/// Merging a simple value into a well-formed term list keeps it well
/// formed.
pub proof fn lemma_absorb_simple_wf(ts: Seq<ImV>, m: Q, t: int)
    requires
        wf_seq(ts),
        mag_ok(m),
        m.n != 0,
        tag_ok(t),
    ensures
        absorb_simple(ts, m, t) is Some ==> wf_seq(absorb_simple(ts, m, t)->Some_0),
    decreases ts,
{
    let x = ImV::Simple { mag: m, ipow: t };
    assert(wf_term(x));
    if ts.len() == 0 {
        if absorb_simple(ts, m, t) is Some {
            lemma_wf_seq_cons(x, Seq::empty());
            assert(seq![x] + Seq::<ImV>::empty() =~= seq![x]);
        }
    } else {
        let rest = ts.subrange(1, ts.len() as int);
        match ts[0] {
            ImV::Simple { mag: m0, ipow: t0 } => {
                if t0 == t {
                    assert(wf_v(ts[0]));
                    assert(mag_ok(m0));
                    match q_add(m0, m) {
                        Option::None => {},
                        Option::Some(s) => {
                            if s.n != 0 {
                                assert(q_add_raw(m0, m).d >= 1) by (nonlinear_arith)
                                    requires m0.d >= 1, m.d >= 1,
                                ;
                                lemma_q_norm_props(q_add_raw(m0, m));
                                let merged = ImV::Simple { mag: s, ipow: t };
                                assert(wf_term(merged));
                                lemma_wf_seq_cons(merged, rest);
                            }
                        },
                    }
                } else {
                    lemma_absorb_simple_wf(rest, m, t);
                    if absorb_simple(rest, m, t) is Some {
                        lemma_wf_seq_cons(ts[0], absorb_simple(rest, m, t)->Some_0);
                    }
                }
            },
            _ => {
                lemma_absorb_simple_wf(rest, m, t);
                if absorb_simple(rest, m, t) is Some {
                    lemma_wf_seq_cons(ts[0], absorb_simple(rest, m, t)->Some_0);
                }
            },
        }
    }
}

/// Merging any term into a well-formed list keeps it well formed.
pub proof fn lemma_absorb_term_wf(ts: Seq<ImV>, x: ImV)
    requires
        wf_seq(ts),
        wf_term(x),
    ensures
        absorb_term(ts, x) is Some ==> wf_seq(absorb_term(ts, x)->Some_0),
{
    match x {
        ImV::Simple { mag, ipow } => {
            lemma_absorb_simple_wf(ts, mag, ipow);
        },
        _ => {
            lemma_wf_seq_index(ts);
            assert forall|i: int| 0 <= i < ts.push(x).len() implies #[trigger] wf_term(
                ts.push(x)[i],
            ) by {
                if i < ts.len() {
                    assert(ts.push(x)[i] == ts[i]);
                }
            }
            lemma_wf_seq_build(ts.push(x));
        },
    }
}

/// Merging a whole well-formed list keeps the accumulator well formed.
pub proof fn lemma_absorb_all_wf(ts: Seq<ImV>, xs: Seq<ImV>)
    requires
        wf_seq(ts),
        wf_seq(xs),
    ensures
        absorb_all(ts, xs) is Some ==> wf_seq(absorb_all(ts, xs)->Some_0),
    decreases xs,
{
    if xs.len() > 0 {
        lemma_absorb_term_wf(ts, xs[0]);
        match absorb_term(ts, xs[0]) {
            Option::None => {},
            Option::Some(r) => {
                lemma_absorb_all_wf(r, xs.subrange(1, xs.len() as int));
            },
        }
    }
}

/// Executable term merge, mirroring [`absorb_term`].
fn absorb_term_exec(ts: &Vec<Im>, x: &Im) -> (r: Option<Vec<Im>>)
    requires
        wf_seq(views_of(ts@)),
        wf_term(x@),
    ensures
        r is Some <==> absorb_term(views_of(ts@), x@) is Some,
        r is Some ==> views_of(r->Some_0@) == absorb_term(views_of(ts@), x@)->Some_0,
{
    proof {
        lemma_views_of_index(ts@);
    }
    match x {
        Im::Simple { mag, ipow } => {
            proof {
                assert(views_of(ts@).subrange(0, ts@.len() as int) =~= views_of(ts@));
            }
            absorb_simple_exec(ts, 0, *mag, *ipow)
        },
        _ => {
            let mut out = clone_tail(ts, 0);
            proof {
                assert(views_of(ts@).subrange(0, ts@.len() as int) =~= views_of(ts@));
            }
            let ghost before = out@;
            let xc = x.deep_clone();
            let ghost gx = xc;
            out.push(xc);
            proof {
                lemma_views_of_push(before, gx);
            }
            Some(out)
        },
    }
}

/// Executable whole-list merge, mirroring [`absorb_all`].
fn absorb_all_exec(ts: &Vec<Im>, xs: &Vec<Im>) -> (r: Option<Vec<Im>>)
    requires
        wf_seq(views_of(ts@)),
        wf_seq(views_of(xs@)),
    ensures
        r is Some <==> absorb_all(views_of(ts@), views_of(xs@)) is Some,
        r is Some ==> views_of(r->Some_0@) == absorb_all(views_of(ts@), views_of(xs@))->Some_0,
{
    proof {
        lemma_views_of_index(ts@);
        lemma_views_of_index(xs@);
        lemma_wf_seq_index(views_of(xs@));
    }
    let mut acc = clone_tail(ts, 0);
    proof {
        assert(views_of(ts@).subrange(0, ts@.len() as int) =~= views_of(ts@));
    }
    let mut idx: usize = 0;
    proof {
        assert(views_of(xs@).subrange(0, xs@.len() as int) =~= views_of(xs@));
    }
    while idx < xs.len()
        invariant
            idx <= xs@.len(),
            views_of(xs@).len() == xs@.len(),
            wf_seq(views_of(xs@)),
            wf_seq(views_of(acc@)),
            forall|j: int| 0 <= j < xs@.len() ==> views_of(xs@)[j] == #[trigger] xs@[j].deep_view(),
            forall|j: int| 0 <= j < xs@.len() ==> #[trigger] wf_term(views_of(xs@)[j]),
            absorb_all(views_of(ts@), views_of(xs@)) == absorb_all(
                views_of(acc@),
                views_of(xs@).subrange(idx as int, xs@.len() as int),
            ),
        decreases xs@.len() - idx,
    {
        proof {
            assert(views_of(xs@)[idx as int] == xs@[idx as int].deep_view());
            assert(wf_term(views_of(xs@)[idx as int]));
            let sub = views_of(xs@).subrange(idx as int, xs@.len() as int);
            assert(sub[0] == views_of(xs@)[idx as int]);
            assert(sub.subrange(1, sub.len() as int) =~= views_of(xs@).subrange(
                idx + 1,
                xs@.len() as int,
            ));
        }
        match absorb_term_exec(&acc, &xs[idx]) {
            Some(next) => {
                proof {
                    lemma_absorb_term_wf(views_of(acc@), xs@[idx as int].deep_view());
                }
                acc = next;
            },
            None => {
                proof {
                    let sub = views_of(xs@).subrange(idx as int, xs@.len() as int);
                    assert(absorb_term(views_of(acc@), sub[0]) is None);
                    assert(absorb_all(views_of(acc@), sub) is None);
                }
                return None;
            },
        }
        idx = idx + 1;
    }
    proof {
        assert(views_of(xs@).subrange(idx as int, xs@.len() as int).len() == 0);
    }
    Some(acc)
}

/// A two-term sum from two already-canonical terms.
fn two_sum(x: Im, y: Im) -> (r: Im)
    requires
        wf_term(x@),
        wf_term(y@),
    ensures
        r@ == (ImV::Sum { terms: seq![x@, y@] }),
        wf_v(r@),
{
    let ghost gx = x;
    let ghost gy = y;
    let ts: Vec<Im> = vec![x, y];
    proof {
        lemma_views_of_index(ts@);
        assert(ts@[0].deep_view() == gx.deep_view());
        assert(ts@[1].deep_view() == gy.deep_view());
        assert(views_of(ts@) =~= seq![gx.deep_view(), gy.deep_view()]);
        lemma_wf_seq_build(views_of(ts@));
    }
    Im::Sum { terms: ts }
}

/// Addition of two canonical values.
pub(crate) fn add_val(a: &Im, b: &Im) -> (r: Im)
    requires
        wf_v(a@),
        wf_v(b@),
    ensures
        r@ == v_add(a@, b@),
        wf_v(r@),
    decreases height_v(a@) + height_v(b@),
{
    proof {
        reveal_with_fuel(wf_v, 3);
    }
    if a.is_none() || b.is_none() {
        return Im::Undefined;
    }
    if a.is_zero() {
        return b.deep_clone();
    }
    if b.is_zero() {
        return a.deep_clone();
    }
    match (a, b) {
        (Im::Simple { mag: m1, ipow: t1 }, Im::Simple { mag: m2, ipow: t2 }) => {
            if *t1 == *t2 {
                proof {
                    assert(q_add_raw(m1@, m2@).d >= 1) by (nonlinear_arith)
                        requires m1@.d >= 1, m2@.d >= 1,
                    ;
                    lemma_q_norm_props(q_add_raw(m1@, m2@));
                }
                match m1.add(m2) {
                    Some(s) => {
                        if s.is_zero() {
                            Im::Zero
                        } else {
                            Im::Simple { mag: s, ipow: *t1 }
                        }
                    },
                    None => Im::Undefined,
                }
            } else {
                two_sum(a.deep_clone(), b.deep_clone())
            }
        },
        (Im::Sum { terms: s1 }, Im::Sum { terms: s2 }) => {
            proof {
                lemma_views_of_index(s1@);
                lemma_views_of_index(s2@);
                lemma_absorb_all_wf(views_of(s1@), views_of(s2@));
            }
            match absorb_all_exec(s1, s2) {
                Some(ts) => sum_of(ts),
                None => Im::Undefined,
            }
        },
        (Im::Sum { terms: s1 }, _) => {
            proof {
                lemma_views_of_index(s1@);
                assert(!(b@ is Sum) && !(b@ is Zero) && !(b@ is Undefined));
                lemma_absorb_term_wf(views_of(s1@), b@);
            }
            match absorb_term_exec(s1, b) {
                Some(ts) => sum_of(ts),
                None => Im::Undefined,
            }
        },
        (_, Im::Sum { terms: s2 }) => {
            proof {
                lemma_views_of_index(s2@);
                assert(!(a@ is Sum) && !(a@ is Zero) && !(a@ is Undefined));
                lemma_absorb_term_wf(views_of(s2@), a@);
            }
            match absorb_term_exec(s2, a) {
                Some(ts) => sum_of(ts),
                None => Im::Undefined,
            }
        },
        (
            Im::Power { terms: b1, exponent: e1 },
            Im::Power { terms: b2, exponent: e2 },
        ) => {
            if a.equals(b) {
                let ct = clone_vec(b1);
                proof {
                    lemma_views_of_index(ct@);
                    lemma_views_of_index(b1@);
                }
                let two = Im::Simple { mag: Rat { n: 2, d: 1 }, ipow: 0 };
                proof {
                    assert(two@ == (ImV::Simple { mag: Q { n: 2, d: 1 }, ipow: 0 }));
                }
                let r0 = Im::Product {
                    terms: ct,
                    exponent: Box::new(e1.deep_clone()),
                    multiplier: Box::new(two),
                };
                proof {
                    assert(r0@ == v_add(a@, b@));
                }
                r0
            } else {
                two_sum(a.deep_clone(), b.deep_clone())
            }
        },
        (
            Im::Power { terms: b1, exponent: e1 },
            Im::Product { terms: b2, exponent: e2, multiplier: m2 },
        ) => {
            if eq_vec(b1, b2) && e1.equals(e2) {
                let one_im = Im::one();
                proof {
                    assert(height_v(m2@) < height_v(b@));
                    assert(height_v(one_im@) == 0);
                    assert(height_v(a@) >= 1);
                }
                let ms = add_val(&one_im, m2);
                product_of(clone_vec(b2), e2.deep_clone(), ms)
            } else {
                two_sum(a.deep_clone(), b.deep_clone())
            }
        },
        (
            Im::Product { terms: b1, exponent: e1, multiplier: m1 },
            Im::Power { terms: b2, exponent: e2 },
        ) => {
            if eq_vec(b1, b2) && e1.equals(e2) {
                let one_im = Im::one();
                proof {
                    assert(height_v(m1@) < height_v(a@));
                    assert(height_v(one_im@) == 0);
                    assert(height_v(b@) >= 1);
                }
                let ms = add_val(m1, &one_im);
                product_of(clone_vec(b1), e1.deep_clone(), ms)
            } else {
                two_sum(a.deep_clone(), b.deep_clone())
            }
        },
        (
            Im::Product { terms: b1, exponent: e1, multiplier: m1 },
            Im::Product { terms: b2, exponent: e2, multiplier: m2 },
        ) => {
            if eq_vec(b1, b2) && e1.equals(e2) {
                proof {
                    assert(height_v(m1@) < height_v(a@));
                    assert(height_v(m2@) < height_v(b@));
                }
                let ms = add_val(m1, m2);
                product_of(clone_vec(b1), e1.deep_clone(), ms)
            } else {
                two_sum(a.deep_clone(), b.deep_clone())
            }
        },
        _ => two_sum(a.deep_clone(), b.deep_clone()),
    }
}

/// Subtraction of two canonical values: the fast cancellation paths, then
/// addition of the negation.
pub(crate) fn sub_val(a: &Im, b: &Im) -> (r: Im)
    requires
        wf_v(a@),
        wf_v(b@),
    ensures
        r@ == v_sub(a@, b@),
        wf_v(r@),
{
    if a.is_none() || b.is_none() {
        return Im::Undefined;
    }
    if a.equals(b) {
        return Im::Zero;
    }
    if a.is_zero() {
        return neg_val(b);
    }
    if b.is_zero() {
        return a.deep_clone();
    }
    let nb = neg_val(b);
    add_val(a, &nb)
}

impl Im {
    /// The sum of two canonical values.
    pub fn add(&self, rhs: &Im) -> (r: Im)
        requires
            wf_v(self@),
            wf_v(rhs@),
        ensures
            r@ == v_add(self@, rhs@),
            wf_v(r@),
    {
        add_val(self, rhs)
    }

    /// The difference of two canonical values.
    pub fn sub(&self, rhs: &Im) -> (r: Im)
        requires
            wf_v(self@),
            wf_v(rhs@),
        ensures
            r@ == v_sub(self@, rhs@),
            wf_v(r@),
    {
        sub_val(self, rhs)
    }

    /// Folds the terms of a sum back into one value, adding from the last
    /// term toward the first.
    pub fn collect(&mut self)
        requires
            wf_v(old(self)@),
        ensures
            final(self)@ == v_collect(old(self)@),
            wf_v(final(self)@),
    {
        let mut tmp = Im::Zero;
        core::mem::swap(self, &mut tmp);
        match tmp {
            Im::Sum { terms } => {
                proof {
                    lemma_views_of_index(terms@);
                    lemma_wf_seq_index(views_of(terms@));
                    assert forall|j: int| 0 <= j < views_of(terms@).len() implies wf_v(
                        #[trigger] views_of(terms@)[j],
                    ) by {
                        assert(wf_term(views_of(terms@)[j]));
                    }
                }
                *self = collect_vec(&terms);
            },
            other => {
                *self = other;
            },
        }
    }
}

/// Folds a whole term list by repeated addition, from the last term toward
/// the first.
pub(crate) fn collect_vec(ts: &Vec<Im>) -> (r: Im)
    requires
        forall|j: int| 0 <= j < views_of(ts@).len() ==> wf_v(#[trigger] views_of(ts@)[j]),
    ensures
        r@ == spec_collect(views_of(ts@)),
        wf_v(r@),
{
    proof {
        lemma_views_of_index(ts@);
    }
    let mut acc = Im::Zero;
    let mut idx: usize = ts.len();
    while idx > 0
        invariant
            idx <= ts@.len(),
            views_of(ts@).len() == ts@.len(),
            wf_v(acc@),
            forall|j: int| 0 <= j < ts@.len() ==> views_of(ts@)[j] == #[trigger] ts@[j].deep_view(),
            forall|j: int| 0 <= j < views_of(ts@).len() ==> wf_v(#[trigger] views_of(ts@)[j]),
            acc@ == spec_collect(views_of(ts@).subrange(idx as int, ts@.len() as int)),
        decreases idx,
    {
        idx = idx - 1;
        proof {
            assert(views_of(ts@)[idx as int] == ts@[idx as int].deep_view());
            assert(wf_v(views_of(ts@)[idx as int]));
            let sub = views_of(ts@).subrange(idx as int, ts@.len() as int);
            assert(sub[0] == views_of(ts@)[idx as int]);
            assert(sub.subrange(1, sub.len() as int) =~= views_of(ts@).subrange(
                idx + 1,
                ts@.len() as int,
            ));
        }
        let next = add_val(&acc, &ts[idx]);
        acc = next;
    }
    proof {
        assert(views_of(ts@).subrange(0, ts@.len() as int) =~= views_of(ts@));
    }
    acc
}

} // verus!
