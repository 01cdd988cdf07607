//! The symbolic complex value and its canonical shapes.
//!
//! A value is in exactly one of six shapes: `Zero`, `Simple` (a rational
//! magnitude times a power of the imaginary unit), `Sum` (two or more terms
//! that could not be merged), `Power` (a parenthesized sum raised to a
//! sub-expression exponent), `Product` (a `Power` scaled by a sub-expression
//! multiplier), and the absorbing `Undefined` sentinel produced by division
//! by zero.
//!
//! The mathematical model is the ghost tree [`ImV`]; every operation of the
//! engine has a specification function over `ImV` and the executable code is
//! proved to match it exactly.

use vstd::prelude::*;
use crate::rat::{Rat, Q, q_wf, q_fits, abs1, q_neg, q_near, q_mul, q_powi};

verus! {

/// Mathematical model of a symbolic value.
#[verifier::ext_equal]
pub enum ImV {
    Zero,
    Simple { mag: Q, ipow: int },
    Sum { terms: Seq<ImV> },
    Power { terms: Seq<ImV>, exponent: Box<ImV> },
    Product { terms: Seq<ImV>, exponent: Box<ImV>, multiplier: Box<ImV> },
    Undefined,
}

/// A symbolic complex value in canonical form.
#[derive(Debug)]
pub enum Im {
    Zero,
    Simple { mag: Rat, ipow: i64 },
    Sum { terms: Vec<Im> },
    Power { terms: Vec<Im>, exponent: Box<Im> },
    Product { terms: Vec<Im>, exponent: Box<Im>, multiplier: Box<Im> },
    Undefined,
}

impl Im {
    /// The mathematical value this node stands for.
    pub open spec fn deep_view(self) -> ImV
        decreases self,
    {
        match self {
            Im::Zero => ImV::Zero,
            Im::Simple { mag, ipow } => ImV::Simple { mag: mag@, ipow: ipow as int },
            Im::Sum { terms } => ImV::Sum { terms: views_of(terms@) },
            Im::Power { terms, exponent } => ImV::Power {
                terms: views_of(terms@),
                exponent: Box::new((*exponent).deep_view()),
            },
            Im::Product { terms, exponent, multiplier } => ImV::Product {
                terms: views_of(terms@),
                exponent: Box::new((*exponent).deep_view()),
                multiplier: Box::new((*multiplier).deep_view()),
            },
            Im::Undefined => ImV::Undefined,
        }
    }
}

/// The mathematical values of a sequence of nodes, in order.
pub open spec fn views_of(s: Seq<Im>) -> Seq<ImV>
    decreases s,
{
    if s.len() == 0 {
        Seq::empty()
    } else {
        seq![s[0].deep_view()] + views_of(s.subrange(1, s.len() as int))
    }
}

/// `views_of` is the pointwise view.
pub proof fn lemma_views_of_index(s: Seq<Im>)
    ensures
        views_of(s).len() == s.len(),
        forall|i: int| 0 <= i < s.len() ==> views_of(s)[i] == #[trigger] s[i].deep_view(),
    decreases s.len(),
{
    if s.len() > 0 {
        let rest = s.subrange(1, s.len() as int);
        lemma_views_of_index(rest);
        assert forall|i: int| 0 <= i < s.len() implies views_of(s)[i] == #[trigger] s[i].deep_view() by {
            if i > 0 {
                assert(rest[i - 1] == s[i]);
                assert(views_of(s)[i] == views_of(rest)[i - 1]);
            }
        }
    }
}

impl View for Im {
    type V = ImV;

    open spec fn view(&self) -> ImV {
        self.deep_view()
    }
}

pub open spec fn max2(a: nat, b: nat) -> nat {
    if a >= b {
        a
    } else {
        b
    }
}

/// Structural height of a value, the termination measure of the engine.
pub open spec fn height_v(v: ImV) -> nat
    decreases v,
{
    match v {
        ImV::Zero => 0,
        ImV::Simple { .. } => 0,
        ImV::Undefined => 0,
        ImV::Sum { terms } => 1 + height_seq(terms),
        ImV::Power { terms, exponent } => 1 + max2(height_seq(terms), height_v(*exponent)),
        ImV::Product { terms, exponent, multiplier } => 1 + max2(
            height_seq(terms),
            max2(height_v(*exponent), height_v(*multiplier)),
        ),
    }
}

pub open spec fn height_seq(s: Seq<ImV>) -> nat
    decreases s,
{
    if s.len() == 0 {
        0
    } else {
        max2(height_v(s[0]), height_seq(s.subrange(1, s.len() as int)))
    }
}

/// Every member of a sequence stays at or below the sequence's height.
pub proof fn lemma_height_member(s: Seq<ImV>, i: int)
    requires
        0 <= i < s.len(),
    ensures
        height_v(s[i]) <= height_seq(s),
    decreases s.len(),
{
    if i > 0 {
        lemma_height_member(s.subrange(1, s.len() as int), i - 1);
        assert(s.subrange(1, s.len() as int)[i - 1] == s[i]);
    }
}

/// The simple-magnitude tags: `-1`, `0` and `1` stand for `1/i`, `1` and
/// `i`.
pub open spec fn tag_ok(t: int) -> bool {
    t == -1 || t == 0 || t == 1
}

/// A scalar that the engine can store: well formed and inside the 64-bit
/// range.
pub open spec fn mag_ok(m: Q) -> bool {
    q_wf(m) && q_fits(m.n) && q_fits(m.d) && m.d >= 1
}

pub open spec fn is_one_v(v: ImV) -> bool {
    v == (ImV::Simple { mag: Q { n: 1, d: 1 }, ipow: 0 })
}

/// The shape conditions on a term of a sum or of a parenthesized base:
/// neither zero, undefined nor itself a sum.
pub open spec fn term_shape(v: ImV) -> bool {
    !(v is Zero) && !(v is Undefined) && !(v is Sum)
}

/// A value allowed as a term of a sum or of a parenthesized base.
pub open spec fn wf_term(v: ImV) -> bool {
    wf_v(v) && term_shape(v)
}

/// All members of a sequence are allowed as terms (structural recursion).
pub open spec fn wf_seq(s: Seq<ImV>) -> bool
    decreases s,
{
    s.len() == 0 || {
        &&& wf_v(s[0])
        &&& term_shape(s[0])
        &&& wf_seq(s.subrange(1, s.len() as int))
    }
}

/// The canonical-shape invariant that every operator preserves.
pub open spec fn wf_v(v: ImV) -> bool
    decreases v,
{
    match v {
        ImV::Zero => true,
        ImV::Undefined => true,
        ImV::Simple { mag, ipow } => mag_ok(mag) && mag.n != 0 && tag_ok(ipow),
        ImV::Sum { terms } => terms.len() >= 2 && wf_seq(terms),
        ImV::Power { terms, exponent } => {
            &&& terms.len() >= 1
            &&& wf_seq(terms)
            &&& wf_v(*exponent)
            &&& !(*exponent is Zero)
            &&& !(*exponent is Undefined)
            &&& !is_one_v(*exponent)
        },
        ImV::Product { terms, exponent, multiplier } => {
            &&& terms.len() >= 1
            &&& wf_seq(terms)
            &&& wf_v(*exponent)
            &&& !(*exponent is Zero)
            &&& !(*exponent is Undefined)
            &&& wf_v(*multiplier)
            &&& !(*multiplier is Zero)
            &&& !(*multiplier is Undefined)
        },
    }
}

/// The simple value one.
pub open spec fn v_one() -> ImV {
    ImV::Simple { mag: Q { n: 1, d: 1 }, ipow: 0 }
}

/// The simple value minus one.
pub open spec fn v_neg_one() -> ImV {
    ImV::Simple { mag: Q { n: -1, d: 1 }, ipow: 0 }
}

/// Reducing a raw imaginary power modulo four flips the sign of the
/// magnitude once per full pair of imaginary factors (`i * i == -1`).
pub open spec fn fix_flip(k: int) -> bool {
    (abs1(k) / 2) % 2 == 1
}

/// The reduced imaginary-power tag: `0` for an even raw power, `1` or `-1`
/// for an odd one, keeping the sign of the raw power.
pub open spec fn fix_tag(k: int) -> int {
    if abs1(k) % 2 == 0 {
        0
    } else if k < 0 {
        -1
    } else {
        1
    }
}

/// A magnitude together with a raw imaginary power, brought to canonical
/// simple form.
pub open spec fn v_simple_of(m: Q, k: int) -> ImV {
    if m.n == 0 {
        ImV::Zero
    } else {
        ImV::Simple {
            mag: if fix_flip(k) {
                q_neg(m)
            } else {
                m
            },
            ipow: fix_tag(k),
        }
    }
}

/// As `v_simple_of`, with an overflowed magnitude turning the value
/// undefined.
pub open spec fn v_simple_opt(m: Option<Q>, k: int) -> ImV {
    match m {
        Option::None => ImV::Undefined,
        Option::Some(q) => v_simple_of(q, k),
    }
}

/// The simple fixer: an empty sum is zero, a one-term sum is that term.
pub open spec fn v_sum_of(ts: Seq<ImV>) -> ImV {
    if ts.len() == 0 {
        ImV::Zero
    } else if ts.len() == 1 {
        ts[0]
    } else {
        ImV::Sum { terms: ts }
    }
}

/// The exponent and base fixers for a power without multiplier: a zero
/// exponent collapses to one, a unit exponent drops, and a single whole
/// real exponent over a single simple base is computed outright.
pub open spec fn v_power_of(ts: Seq<ImV>, e: ImV) -> ImV {
    if e is Undefined {
        ImV::Undefined
    } else if e is Zero {
        v_one()
    } else if is_one_v(e) {
        v_sum_of(ts)
    } else if ts.len() == 1 {
        match (ts[0], e) {
            (
                ImV::Simple { mag: bm, ipow: bt },
                ImV::Simple { mag: em, ipow: et },
            ) => {
                if et == 0 && em.d == 1 {
                    v_simple_opt(q_powi(bm, em.n), bt * em.n)
                } else {
                    ImV::Power { terms: ts, exponent: Box::new(e) }
                }
            },
            _ => ImV::Power { terms: ts, exponent: Box::new(e) },
        }
    } else {
        ImV::Power { terms: ts, exponent: Box::new(e) }
    }
}

/// The full fixer pipeline for a multiplied power: exponent fixer, then
/// multiplier fixer, then base fixer.
pub open spec fn v_product_of(ts: Seq<ImV>, e: ImV, m: ImV) -> ImV {
    if e is Undefined || m is Undefined {
        ImV::Undefined
    } else if e is Zero {
        v_one()
    } else if m is Zero {
        ImV::Zero
    } else if is_one_v(m) {
        v_power_of(ts, e)
    } else if ts.len() == 1 && is_one_v(ts[0]) {
        m
    } else if ts.len() == 1 {
        match (ts[0], e, m) {
            (
                ImV::Simple { mag: bm, ipow: bt },
                ImV::Simple { mag: em, ipow: et },
                ImV::Simple { mag: mm, ipow: mt },
            ) => {
                if et == 0 && em.d == 1 {
                    match q_powi(bm, em.n) {
                        Option::None => ImV::Undefined,
                        Option::Some(p) => v_simple_opt(q_mul(p, mm), bt * em.n + mt),
                    }
                } else {
                    ImV::Product { terms: ts, exponent: Box::new(e), multiplier: Box::new(m) }
                }
            },
            _ => ImV::Product { terms: ts, exponent: Box::new(e), multiplier: Box::new(m) },
        }
    } else {
        ImV::Product { terms: ts, exponent: Box::new(e), multiplier: Box::new(m) }
    }
}

/// Negation: a simple value flips its magnitude, a sum negates every term,
/// a power gains a multiplier of minus one, and a product negates its
/// multiplier.
pub open spec fn v_neg(v: ImV) -> ImV
    decreases v,
{
    match v {
        ImV::Zero => ImV::Zero,
        ImV::Undefined => ImV::Undefined,
        ImV::Simple { mag, ipow } => ImV::Simple { mag: q_neg(mag), ipow },
        ImV::Sum { terms } => ImV::Sum { terms: neg_seq(terms) },
        ImV::Power { terms, exponent } => ImV::Product {
            terms,
            exponent,
            multiplier: Box::new(v_neg_one()),
        },
        ImV::Product { terms, exponent, multiplier } => ImV::Product {
            terms,
            exponent,
            multiplier: Box::new(v_neg(*multiplier)),
        },
    }
}

pub open spec fn neg_seq(s: Seq<ImV>) -> Seq<ImV>
    decreases s,
{
    if s.len() == 0 {
        Seq::empty()
    } else {
        seq![v_neg(s[0])] + neg_seq(s.subrange(1, s.len() as int))
    }
}

pub proof fn lemma_neg_seq_index(s: Seq<ImV>)
    ensures
        neg_seq(s).len() == s.len(),
        forall|i: int| 0 <= i < s.len() ==> neg_seq(s)[i] == v_neg(#[trigger] s[i]),
    decreases s.len(),
{
    if s.len() > 0 {
        let rest = s.subrange(1, s.len() as int);
        lemma_neg_seq_index(rest);
        assert forall|i: int| 0 <= i < s.len() implies neg_seq(s)[i] == v_neg(#[trigger] s[i]) by {
            if i > 0 {
                assert(rest[i - 1] == s[i]);
                assert(neg_seq(s)[i] == neg_seq(rest)[i - 1]);
            }
        }
    }
}

/// Structural equality with the fixed tolerance on the leaves.
pub open spec fn eq_v(a: ImV, b: ImV) -> bool
    decreases a,
{
    match (a, b) {
        (ImV::Zero, ImV::Zero) => true,
        (ImV::Undefined, ImV::Undefined) => true,
        (ImV::Simple { mag: m1, ipow: t1 }, ImV::Simple { mag: m2, ipow: t2 }) => q_near(m1, m2)
            && t1 == t2,
        (ImV::Sum { terms: s1 }, ImV::Sum { terms: s2 }) => eq_seq(s1, s2),
        (
            ImV::Power { terms: s1, exponent: e1 },
            ImV::Power { terms: s2, exponent: e2 },
        ) => eq_seq(s1, s2) && eq_v(*e1, *e2),
        (
            ImV::Product { terms: s1, exponent: e1, multiplier: m1 },
            ImV::Product { terms: s2, exponent: e2, multiplier: m2 },
        ) => eq_seq(s1, s2) && eq_v(*e1, *e2) && eq_v(*m1, *m2),
        _ => false,
    }
}

pub open spec fn eq_seq(a: Seq<ImV>, b: Seq<ImV>) -> bool
    decreases a,
{
    if a.len() != b.len() {
        false
    } else if a.len() == 0 {
        true
    } else {
        eq_v(a[0], b[0]) && eq_seq(a.subrange(1, a.len() as int), b.subrange(1, b.len() as int))
    }
}

/// Tolerance equality is reflexive.
pub proof fn lemma_eq_refl(a: ImV)
    ensures
        eq_v(a, a),
    decreases a,
{
    match a {
        ImV::Simple { mag, ipow } => {
            assert(mag.n * mag.d - mag.n * mag.d == 0);
            assert(0 <= mag.d * mag.d) by (nonlinear_arith);
        },
        ImV::Sum { terms } => {
            lemma_eq_refl_seq(terms);
        },
        ImV::Power { terms, exponent } => {
            lemma_eq_refl_seq(terms);
            lemma_eq_refl(*exponent);
        },
        ImV::Product { terms, exponent, multiplier } => {
            lemma_eq_refl_seq(terms);
            lemma_eq_refl(*exponent);
            lemma_eq_refl(*multiplier);
        },
        _ => {},
    }
}

pub proof fn lemma_eq_refl_seq(s: Seq<ImV>)
    ensures
        eq_seq(s, s),
    decreases s,
{
    if s.len() > 0 {
        lemma_eq_refl(s[0]);
        lemma_eq_refl_seq(s.subrange(1, s.len() as int));
    }
}

/// `wf_seq` is exactly the pointwise condition on the members.
pub proof fn lemma_wf_seq_index(s: Seq<ImV>)
    requires
        wf_seq(s),
    ensures
        forall|i: int| 0 <= i < s.len() ==> #[trigger] wf_term(s[i]),
    decreases s.len(),
{
    if s.len() > 0 {
        let rest = s.subrange(1, s.len() as int);
        lemma_wf_seq_index(rest);
        assert forall|i: int| 0 <= i < s.len() implies #[trigger] wf_term(s[i]) by {
            if i > 0 {
                assert(rest[i - 1] == s[i]);
            }
        }
    }
}

/// Pointwise well-formed members make a well-formed sequence.
pub proof fn lemma_wf_seq_build(s: Seq<ImV>)
    requires
        forall|i: int| 0 <= i < s.len() ==> #[trigger] wf_term(s[i]),
    ensures
        wf_seq(s),
    decreases s.len(),
{
    if s.len() > 0 {
        let rest = s.subrange(1, s.len() as int);
        assert forall|i: int| 0 <= i < rest.len() implies #[trigger] wf_term(rest[i]) by {
            assert(rest[i] == s[i + 1]);
        }
        lemma_wf_seq_build(rest);
        assert(wf_term(s[0]));
    }
}

} // verus!

verus! {

/// The sign relation found when comparing two values by absolute value.
#[derive(Debug, PartialEq, Eq, Structural)]
pub enum Sign {
    Plus,
    Minus,
    Neither,
}

impl Default for Im {
    /// The default value is zero.
    fn default() -> (r: Self)
        ensures
            r@ == ImV::Zero,
    {
        Im::Zero
    }
}

impl Im {
    /// A raw simple value `real * i^im_pow`; zero collapses regardless of
    /// the tag.  The tag is stored unreduced: see [`Im::im_pow_fixer`].
    pub fn new(re: i64, im_pow: i64) -> (r: Im)
        requires
            re > i64::MIN,
        ensures
            re == 0 ==> r@ == ImV::Zero,
            re != 0 ==> r@ == (ImV::Simple {
                mag: Q { n: re as int, d: 1 },
                ipow: im_pow as int,
            }),
    {
        if re == 0 {
            Im::Zero
        } else {
            Im::Simple { mag: Rat::from_int(re), ipow: im_pow }
        }
    }

    /// The real number `x`, lifted.
    pub fn r(x: i64) -> (r: Im)
        requires
            x > i64::MIN,
        ensures
            x == 0 ==> r@ == ImV::Zero,
            x != 0 ==> r@ == (ImV::Simple { mag: Q { n: x as int, d: 1 }, ipow: 0 }),
            wf_v(r@),
    {
        Im::new(x, 0)
    }

    /// The imaginary multiple `x * i`, lifted.
    pub fn i(x: i64) -> (r: Im)
        requires
            x > i64::MIN,
        ensures
            x == 0 ==> r@ == ImV::Zero,
            x != 0 ==> r@ == (ImV::Simple { mag: Q { n: x as int, d: 1 }, ipow: 1 }),
            wf_v(r@),
    {
        Im::new(x, 1)
    }

    /// The real number `num / den`, lifted.
    pub fn r_ratio(num: i64, den: i64) -> (r: Im)
        requires
            num > i64::MIN,
            den > i64::MIN,
            den != 0,
        ensures
            wf_v(r@),
            r@ == v_simple_of(crate::rat::q_norm(
                Q {
                    n: if den < 0 { -num as int } else { num as int },
                    d: if den < 0 { -den as int } else { den as int },
                },
            )->Some_0, 0),
    {
        let m = Rat::new(num, den);
        simple_of(m, 0)
    }

    /// The simple value one.
    pub fn one() -> (r: Im)
        ensures
            r@ == v_one(),
            wf_v(r@),
    {
        Im::Simple { mag: Rat::one(), ipow: 0 }
    }

    pub fn is_zero(&self) -> (r: bool)
        ensures
            r == (self@ is Zero),
    {
        matches!(self, Im::Zero)
    }

    /// True for the undefined sentinel that division by zero produces.
    pub fn is_none(&self) -> (r: bool)
        ensures
            r == (self@ is Undefined),
    {
        matches!(self, Im::Undefined)
    }

    /// Exactly the simple value one.
    pub fn is_one(&self) -> (r: bool)
        ensures
            r == is_one_v(self@),
    {
        match self {
            Im::Simple { mag, ipow } => mag.is_one() && *ipow == 0,
            _ => false,
        }
    }

    /// Exactly the simple value minus one.
    pub fn is_neg_one(&self) -> (r: bool)
        ensures
            r == (self@ == v_neg_one()),
    {
        match self {
            Im::Simple { mag, ipow } => mag.is_neg_one() && *ipow == 0,
            _ => false,
        }
    }

    /// A copy whose mathematical value is the same.
    pub fn deep_clone(&self) -> (r: Im)
        ensures
            r@ == self@,
        decreases *self,
    {
        match self {
            Im::Zero => Im::Zero,
            Im::Undefined => Im::Undefined,
            Im::Simple { mag, ipow } => Im::Simple { mag: *mag, ipow: *ipow },
            Im::Sum { terms } => Im::Sum { terms: clone_vec(terms) },
            Im::Power { terms, exponent } => Im::Power {
                terms: clone_vec(terms),
                exponent: Box::new(exponent.deep_clone()),
            },
            Im::Product { terms, exponent, multiplier } => Im::Product {
                terms: clone_vec(terms),
                exponent: Box::new(exponent.deep_clone()),
                multiplier: Box::new(multiplier.deep_clone()),
            },
        }
    }
}

/// Builds the canonical simple value `m * i^k` from a raw imaginary power.
pub(crate) fn simple_of(m: Rat, k: i128) -> (r: Im)
    requires
        m.wf(),
        k > i128::MIN,
    ensures
        r@ == v_simple_of(m@, k as int),
        mag_ok(m@) ==> wf_v(r@),
{
    if m.is_zero() {
        Im::Zero
    } else {
        let ka: u128 = if k < 0 {
            (-k) as u128
        } else {
            k as u128
        };
        let flip: bool = (ka / 2) % 2 == 1;
        let t: i64 = if ka % 2 == 0 {
            0
        } else if k < 0 {
            -1
        } else {
            1
        };
        let mag = if flip {
            m.neg()
        } else {
            m
        };
        Im::Simple { mag, ipow: t }
    }
}

/// The simple fixer as a constructor: no terms is zero, one term is that
/// term alone, anything more is a sum.
pub(crate) fn sum_of(mut ts: Vec<Im>) -> (r: Im)
    ensures
        r@ == v_sum_of(views_of(ts@)),
        wf_seq(views_of(ts@)) ==> wf_v(r@),
{
    proof {
        lemma_views_of_index(ts@);
    }
    if ts.len() == 0 {
        Im::Zero
    } else if ts.len() == 1 {
        proof {
            if wf_seq(views_of(ts@)) {
                lemma_wf_seq_index(views_of(ts@));
            }
        }
        match ts.pop() {
            Some(t) => t,
            None => Im::Zero,  // unreachable: the length is one
        }
    } else {
        Im::Sum { terms: ts }
    }
}

/// The exponent and base fixers for an unscaled power.
pub(crate) fn power_of(ts: Vec<Im>, e: Im) -> (r: Im)
    requires
        wf_seq(views_of(ts@)),
        ts@.len() >= 1,
        wf_v(e@),
    ensures
        r@ == v_power_of(views_of(ts@), e@),
        wf_v(r@),
{
    proof {
        lemma_views_of_index(ts@);
        lemma_wf_seq_index(views_of(ts@));
    }
    if e.is_none() {
        Im::Undefined
    } else if e.is_zero() {
        Im::one()
    } else if e.is_one() {
        sum_of(ts)
    } else {
        let base_info: Option<(Rat, i64)> = if ts.len() == 1 {
            match &ts[0] {
                Im::Simple { mag, ipow } => Some((*mag, *ipow)),
                _ => None,
            }
        } else {
            None
        };
        let exp_info: Option<(Rat, i64)> = match &e {
            Im::Simple { mag, ipow } => Some((*mag, *ipow)),
            _ => None,
        };
        if let (Some((bm, bt)), Some((em, et))) = (base_info, exp_info) {
            proof {
                assert(views_of(ts@)[0] == ts@[0].deep_view());
                assert(ts@[0].deep_view() == (ImV::Simple { mag: bm@, ipow: bt as int }));
                assert(wf_term(views_of(ts@)[0]));
                assert(e@ == (ImV::Simple { mag: em@, ipow: et as int }));
            }
            if et == 0 && em.is_int() {
                let kk = em.int_val();
                proof {
                    crate::rat::lemma_q_powi_props(bm@, kk as int);
                }
                match bm.pow_int(kk) {
                    Some(p) => simple_of(p, (bt as i128) * (kk as i128)),
                    None => Im::Undefined,
                }
            } else {
                Im::Power { terms: ts, exponent: Box::new(e) }
            }
        } else {
            Im::Power { terms: ts, exponent: Box::new(e) }
        }
    }
}

/// The full fixer pipeline for a scaled power.
pub(crate) fn product_of(ts: Vec<Im>, e: Im, m: Im) -> (r: Im)
    requires
        wf_seq(views_of(ts@)),
        ts@.len() >= 1,
        wf_v(e@),
        wf_v(m@),
    ensures
        r@ == v_product_of(views_of(ts@), e@, m@),
        wf_v(r@),
{
    proof {
        lemma_views_of_index(ts@);
        lemma_wf_seq_index(views_of(ts@));
    }
    if e.is_none() || m.is_none() {
        Im::Undefined
    } else if e.is_zero() {
        Im::one()
    } else if m.is_zero() {
        Im::Zero
    } else if m.is_one() {
        power_of(ts, e)
    } else if ts.len() == 1 && ts[0].is_one() {
        m
    } else {
        let base_info: Option<(Rat, i64)> = if ts.len() == 1 {
            match &ts[0] {
                Im::Simple { mag, ipow } => Some((*mag, *ipow)),
                _ => None,
            }
        } else {
            None
        };
        let exp_info: Option<(Rat, i64)> = match &e {
            Im::Simple { mag, ipow } => Some((*mag, *ipow)),
            _ => None,
        };
        let mul_info: Option<(Rat, i64)> = match &m {
            Im::Simple { mag, ipow } => Some((*mag, *ipow)),
            _ => None,
        };
        if let (Some((bm, bt)), Some((em, et)), Some((mm, mt))) = (
            base_info,
            exp_info,
            mul_info,
        ) {
            proof {
                assert(views_of(ts@)[0] == ts@[0].deep_view());
                assert(ts@[0].deep_view() == (ImV::Simple { mag: bm@, ipow: bt as int }));
                assert(wf_term(views_of(ts@)[0]));
                assert(e@ == (ImV::Simple { mag: em@, ipow: et as int }));
                assert(m@ == (ImV::Simple { mag: mm@, ipow: mt as int }));
            }
            if et == 0 && em.is_int() {
                let kk = em.int_val();
                proof {
                    crate::rat::lemma_q_powi_props(bm@, kk as int);
                }
                match bm.pow_int(kk) {
                    Some(p) => {
                        proof {
                            assert(tag_ok(bt as int) && tag_ok(mt as int));
                            assert(-(i64::MAX as int) <= kk as int <= i64::MAX as int);
                            assert(-(i64::MAX as int) <= (bt as int) * (kk as int)
                                <= i64::MAX as int) by (nonlinear_arith)
                                requires
                                    tag_ok(bt as int),
                                    -(i64::MAX as int) <= kk as int <= i64::MAX as int,
                            ;
                            assert(crate::rat::q_mul_raw(p@, mm@).d >= 1) by (nonlinear_arith)
                                requires p@.d >= 1, mm@.d >= 1,
                            ;
                            assert(crate::rat::q_mul_raw(p@, mm@).n != 0) by (nonlinear_arith)
                                requires p@.n != 0, mm@.n != 0,
                            ;
                            crate::rat::lemma_q_norm_props(crate::rat::q_mul_raw(p@, mm@));
                        }
                        match p.mul(&mm) {
                            Some(pm) => simple_of(
                                pm,
                                (bt as i128) * (kk as i128) + (mt as i128),
                            ),
                            None => Im::Undefined,
                        }
                    },
                    None => Im::Undefined,
                }
            } else {
                Im::Product { terms: ts, exponent: Box::new(e), multiplier: Box::new(m) }
            }
        } else {
            Im::Product { terms: ts, exponent: Box::new(e), multiplier: Box::new(m) }
        }
    }
}

/// Negating a term keeps it a legal term.
pub proof fn lemma_neg_term_shape(t: ImV)
    requires
        wf_v(t),
        term_shape(t),
    ensures
        term_shape(v_neg(t)),
        !(v_neg(t) is Zero),
        !(v_neg(t) is Undefined),
{
}

/// Negating a well-formed non-zero, non-undefined value never yields zero
/// or undefined.
pub proof fn lemma_neg_not_zero(m: ImV)
    requires
        wf_v(m),
        !(m is Zero),
        !(m is Undefined),
    ensures
        !(v_neg(m) is Zero),
        !(v_neg(m) is Undefined),
{
}

/// The negated counterpart of a term list.
fn neg_vec(v: &Vec<Im>) -> (r: Vec<Im>)
    requires
        wf_seq(views_of(v@)),
    ensures
        views_of(r@) == neg_seq(views_of(v@)),
        wf_seq(views_of(r@)),
    decreases *v,
{
    proof {
        lemma_views_of_index(v@);
        lemma_wf_seq_index(views_of(v@));
        lemma_neg_seq_index(views_of(v@));
    }
    let mut out: Vec<Im> = Vec::new();
    let mut idx: usize = 0;
    while idx < v.len()
        invariant
            idx <= v@.len(),
            out@.len() == idx,
            wf_seq(views_of(v@)),
            forall|j: int| 0 <= j < v@.len() ==> #[trigger] wf_term(views_of(v@)[j]),
            forall|j: int| 0 <= j < v@.len() ==> views_of(v@)[j] == #[trigger] v@[j].deep_view(),
            forall|j: int|
                0 <= j < idx ==> #[trigger] out@[j].deep_view() == v_neg(v@[j].deep_view())
                    && wf_term(out@[j].deep_view()),
        decreases v@.len() - idx,
    {
        proof {
            assert(views_of(v@)[idx as int] == v@[idx as int].deep_view());
            assert(wf_term(views_of(v@)[idx as int]));
            lemma_neg_term_shape(v@[idx as int].deep_view());
        }
        let e = neg_val(&v[idx]);
        out.push(e);
        idx = idx + 1;
    }
    proof {
        lemma_views_of_index(out@);
        assert forall|j: int| 0 <= j < views_of(out@).len() implies views_of(out@)[j] == neg_seq(
            views_of(v@),
        )[j] && wf_term(views_of(out@)[j]) by {
            assert(out@[j].deep_view() == v_neg(v@[j].deep_view()));
        }
        assert(views_of(out@) =~= neg_seq(views_of(v@)));
        lemma_wf_seq_build(views_of(out@));
    }
    out
}

/// The negation of a canonical value, as a fresh value.
pub(crate) fn neg_val(v: &Im) -> (r: Im)
    requires
        wf_v(v@),
    ensures
        r@ == v_neg(v@),
        wf_v(r@),
    decreases *v,
{
    proof {
        reveal_with_fuel(wf_v, 3);
    }
    match v {
        Im::Zero => Im::Zero,
        Im::Undefined => Im::Undefined,
        Im::Simple { mag, ipow } => Im::Simple { mag: mag.neg(), ipow: *ipow },
        Im::Sum { terms } => {
            proof {
                lemma_neg_seq_index(views_of(terms@));
            }
            let nt = neg_vec(terms);
            proof {
                lemma_views_of_index(nt@);
            }
            Im::Sum { terms: nt }
        },
        Im::Power { terms, exponent } => {
            let minus_one = Im::Simple { mag: Rat { n: -1, d: 1 }, ipow: 0 };
            proof {
                assert(minus_one@ == v_neg_one());
            }
            let r0 = Im::Product {
                terms: clone_vec(terms),
                exponent: Box::new(exponent.deep_clone()),
                multiplier: Box::new(minus_one),
            };
            proof {
                assert(r0@ == v_neg(v@));
            }
            r0
        },
        Im::Product { terms, exponent, multiplier } => {
            let nm = neg_val(multiplier);
            proof {
                lemma_neg_not_zero(multiplier@);
            }
            Im::Product {
                terms: clone_vec(terms),
                exponent: Box::new(exponent.deep_clone()),
                multiplier: Box::new(nm),
            }
        },
    }
}

/// Pointwise characterization of sequence equality.
pub proof fn lemma_eq_seq_iff(a: Seq<ImV>, b: Seq<ImV>)
    ensures
        eq_seq(a, b) <==> (a.len() == b.len() && forall|i: int|
            0 <= i < a.len() ==> eq_v(#[trigger] a[i], b[i])),
    decreases a.len(),
{
    if a.len() == b.len() && a.len() > 0 {
        let ar = a.subrange(1, a.len() as int);
        let br = b.subrange(1, b.len() as int);
        lemma_eq_seq_iff(ar, br);
        if eq_seq(a, b) {
            assert forall|i: int| 0 <= i < a.len() implies eq_v(#[trigger] a[i], b[i]) by {
                if i > 0 {
                    assert(ar[i - 1] == a[i] && br[i - 1] == b[i]);
                }
            }
        }
        if a.len() == b.len() && forall|i: int| 0 <= i < a.len() ==> eq_v(#[trigger] a[i], b[i]) {
            assert forall|i: int| 0 <= i < ar.len() implies eq_v(#[trigger] ar[i], br[i]) by {
                assert(ar[i] == a[i + 1] && br[i] == b[i + 1]);
            }
            assert(eq_v(a[0], b[0]));
        }
    }
}

/// Element-wise tolerance comparison of two term lists.
pub(crate) fn eq_vec(a: &Vec<Im>, b: &Vec<Im>) -> (r: bool)
    requires
        wf_seq(views_of(a@)),
        wf_seq(views_of(b@)),
    ensures
        r == eq_seq(views_of(a@), views_of(b@)),
    decreases *a,
{
    proof {
        lemma_views_of_index(a@);
        lemma_views_of_index(b@);
        lemma_wf_seq_index(views_of(a@));
        lemma_wf_seq_index(views_of(b@));
        lemma_eq_seq_iff(views_of(a@), views_of(b@));
    }
    if a.len() != b.len() {
        return false;
    }
    let mut idx: usize = 0;
    while idx < a.len()
        invariant
            idx <= a@.len(),
            a@.len() == b@.len(),
            wf_seq(views_of(a@)),
            wf_seq(views_of(b@)),
            forall|j: int| 0 <= j < a@.len() ==> #[trigger] wf_term(views_of(a@)[j]),
            forall|j: int| 0 <= j < b@.len() ==> #[trigger] wf_term(views_of(b@)[j]),
            forall|j: int| 0 <= j < a@.len() ==> views_of(a@)[j] == #[trigger] a@[j].deep_view(),
            forall|j: int| 0 <= j < b@.len() ==> views_of(b@)[j] == #[trigger] b@[j].deep_view(),
            eq_seq(views_of(a@), views_of(b@)) <==> (forall|i: int|
                0 <= i < a@.len() ==> eq_v(#[trigger] views_of(a@)[i], views_of(b@)[i])),
            forall|j: int|
                0 <= j < idx ==> eq_v(#[trigger] views_of(a@)[j], views_of(b@)[j]),
        decreases a@.len() - idx,
    {
        proof {
            assert(views_of(a@)[idx as int] == a@[idx as int].deep_view());
            assert(views_of(b@)[idx as int] == b@[idx as int].deep_view());
            assert(wf_term(views_of(a@)[idx as int]));
            assert(wf_term(views_of(b@)[idx as int]));
        }
        if !a[idx].equals(&b[idx]) {
            proof {
                assert(!eq_v(views_of(a@)[idx as int], views_of(b@)[idx as int]));
            }
            return false;
        }
        idx = idx + 1;
    }
    true
}

impl Im {
    /// Structural equality with the fixed tolerance on magnitudes.
    ///
    /// The comparison is shape-first: the distinguished `Zero` value equals
    /// only `Zero`, never a simple value whose magnitude merely lies within
    /// the tolerance of zero.  A flat comparison of raw fields would call
    /// those equal; keeping the shapes apart preserves the canonical-shape
    /// invariant that classification and rendering rely on, at the price
    /// that a value within one ten-thousandth of zero is still distinct
    /// from zero itself.
    pub fn equals(&self, other: &Im) -> (r: bool)
        requires
            wf_v(self@),
            wf_v(other@),
        ensures
            r == eq_v(self@, other@),
        decreases *self,
    {
        match (self, other) {
            (Im::Zero, Im::Zero) => true,
            (Im::Undefined, Im::Undefined) => true,
            (Im::Simple { mag: m1, ipow: t1 }, Im::Simple { mag: m2, ipow: t2 }) => m1.near(m2)
                && *t1 == *t2,
            (Im::Sum { terms: s1 }, Im::Sum { terms: s2 }) => eq_vec(s1, s2),
            (
                Im::Power { terms: s1, exponent: e1 },
                Im::Power { terms: s2, exponent: e2 },
            ) => eq_vec(s1, s2) && e1.equals(e2),
            (
                Im::Product { terms: s1, exponent: e1, multiplier: m1 },
                Im::Product { terms: s2, exponent: e2, multiplier: m2 },
            ) => eq_vec(s1, s2) && e1.equals(e2) && m1.equals(m2),
            _ => false,
        }
    }

    /// Compares two values up to sign: `Plus` when equal, `Minus` when the
    /// negation of `self` equals `other`, `Neither` otherwise.
    pub fn is_equal_by_abs(&self, other: &Im) -> (r: Sign)
        requires
            wf_v(self@),
            wf_v(other@),
        ensures
            r == (if eq_v(self@, other@) {
                Sign::Plus
            } else if eq_v(v_neg(self@), other@) {
                Sign::Minus
            } else {
                Sign::Neither
            }),
    {
        if self.equals(other) {
            Sign::Plus
        } else {
            let n = neg_val(self);
            if n.equals(other) {
                Sign::Minus
            } else {
                Sign::Neither
            }
        }
    }

    /// Negates the value in place.
    pub fn neg(&mut self)
        requires
            wf_v(old(self)@),
        ensures
            final(self)@ == v_neg(old(self)@),
            wf_v(final(self)@),
    {
        let r = neg_val(self);
        *self = r;
    }

    /// Reduces the stored imaginary power of a simple value modulo four,
    /// flipping the magnitude's sign once per pair of imaginary factors.
    pub fn im_pow_fixer(&mut self)
        requires
            old(self)@ matches ImV::Simple { mag, ipow } ==> mag_ok(mag),
        ensures
            final(self)@ == v_fix_ipow(old(self)@),
    {
        let mut tmp = Im::Zero;
        core::mem::swap(self, &mut tmp);
        match tmp {
            Im::Simple { mag, ipow } => {
                *self = simple_of(mag, ipow as i128);
            },
            other => {
                *self = other;
            },
        }
    }
}

/// The imaginary-power fixer on the model: only a simple value changes.
pub open spec fn v_fix_ipow(v: ImV) -> ImV {
    match v {
        ImV::Simple { mag, ipow } => v_simple_of(mag, ipow),
        _ => v,
    }
}

/// Appending to a term list appends to its view.
pub proof fn lemma_views_of_push(s: Seq<Im>, e: Im)
    ensures
        views_of(s.push(e)) == views_of(s).push(e.deep_view()),
{
    let sp = s.push(e);
    lemma_views_of_index(sp);
    lemma_views_of_index(s);
    assert forall|j: int| 0 <= j < views_of(sp).len() implies views_of(sp)[j] == views_of(s).push(
        e.deep_view(),
    )[j] by {
        if j < s.len() {
            assert(sp[j] == s[j]);
            assert(views_of(sp)[j] == sp[j].deep_view());
        } else {
            assert(sp[j] == e);
        }
    }
    assert(views_of(sp) =~= views_of(s).push(e.deep_view()));
}

/// What [`Im::push_in_mixed_base`] builds: appends one more term to the
/// value's term list, starting a list when there is none.
pub open spec fn v_push_base(v: ImV, e: ImV) -> ImV {
    match v {
        ImV::Zero => ImV::Sum { terms: seq![e] },
        ImV::Undefined => ImV::Undefined,
        ImV::Simple { .. } => ImV::Sum { terms: seq![v, e] },
        ImV::Sum { terms } => ImV::Sum { terms: terms.push(e) },
        ImV::Power { terms, exponent } => ImV::Power { terms: terms.push(e), exponent },
        ImV::Product { terms, exponent, multiplier } => ImV::Product {
            terms: terms.push(e),
            exponent,
            multiplier,
        },
    }
}

/// What [`Im::push_in_mixed_pow`] builds: attaches an exponent, or adds the
/// new exponent as a further term of the existing one.
pub open spec fn v_push_pow(v: ImV, e: ImV) -> ImV {
    match v {
        ImV::Zero => ImV::Zero,
        ImV::Undefined => ImV::Undefined,
        ImV::Simple { .. } => ImV::Power { terms: seq![v], exponent: Box::new(e) },
        ImV::Sum { terms } => ImV::Power { terms, exponent: Box::new(e) },
        ImV::Power { terms, exponent } => ImV::Power {
            terms,
            exponent: Box::new(ImV::Sum { terms: seq![*exponent, e] }),
        },
        ImV::Product { terms, exponent, multiplier } => ImV::Product {
            terms,
            exponent: Box::new(ImV::Sum { terms: seq![*exponent, e] }),
            multiplier,
        },
    }
}

/// What [`Im::push_in_mixed_mul`] builds: attaches a multiplier, or adds
/// the new multiplier as a further term of the existing one.
pub open spec fn v_push_mul(v: ImV, e: ImV) -> ImV {
    match v {
        ImV::Zero => ImV::Zero,
        ImV::Undefined => ImV::Undefined,
        ImV::Simple { .. } => ImV::Product {
            terms: seq![v],
            exponent: Box::new(v_one()),
            multiplier: Box::new(e),
        },
        ImV::Sum { terms } => ImV::Product {
            terms,
            exponent: Box::new(v_one()),
            multiplier: Box::new(e),
        },
        ImV::Power { terms, exponent } => ImV::Product { terms, exponent, multiplier: Box::new(e) },
        ImV::Product { terms, exponent, multiplier } => ImV::Product {
            terms,
            exponent,
            multiplier: Box::new(ImV::Sum { terms: seq![*multiplier, e] }),
        },
    }
}

/// A value counted as plain by the shape dispatch: zero or simple.
pub open spec fn v_plain(v: ImV) -> bool {
    v is Zero || v is Simple
}

impl Im {
    /// Appends `e` to the value's term list, used to assemble expected
    /// values by hand.
    pub fn push_in_mixed_base(&mut self, e: Im)
        ensures
            final(self)@ == v_push_base(old(self)@, e@),
    {
        let mut tmp = Im::Zero;
        core::mem::swap(self, &mut tmp);
        proof {
            lemma_views_of_index(Seq::<Im>::empty());
        }
        match tmp {
            Im::Zero => {
                let ts: Vec<Im> = vec![e];
                proof {
                    lemma_views_of_index(ts@);
                    assert(views_of(ts@) =~= seq![e@]);
                }
                *self = Im::Sum { terms: ts };
            },
            Im::Undefined => {
                *self = Im::Undefined;
            },
            Im::Simple { mag, ipow } => {
                let s = Im::Simple { mag, ipow };
                let ts: Vec<Im> = vec![s, e];
                proof {
                    lemma_views_of_index(ts@);
                    assert(views_of(ts@) =~= seq![
                        ImV::Simple { mag: mag@, ipow: ipow as int },
                        e@,
                    ]);
                }
                *self = Im::Sum { terms: ts };
            },
            Im::Sum { mut terms } => {
                let ghost old_terms = terms@;
                terms.push(e);
                proof {
                    lemma_views_of_push(old_terms, e);
                }
                *self = Im::Sum { terms };
            },
            Im::Power { mut terms, exponent } => {
                let ghost old_terms = terms@;
                terms.push(e);
                proof {
                    lemma_views_of_push(old_terms, e);
                }
                *self = Im::Power { terms, exponent };
            },
            Im::Product { mut terms, exponent, multiplier } => {
                let ghost old_terms = terms@;
                terms.push(e);
                proof {
                    lemma_views_of_push(old_terms, e);
                }
                *self = Im::Product { terms, exponent, multiplier };
            },
        }
    }

    /// Attaches `e` as the exponent, used to assemble expected values by
    /// hand.
    pub fn push_in_mixed_pow(&mut self, e: Im)
        ensures
            final(self)@ == v_push_pow(old(self)@, e@),
    {
        let mut tmp = Im::Zero;
        core::mem::swap(self, &mut tmp);
        match tmp {
            Im::Zero => {
                *self = Im::Zero;
            },
            Im::Undefined => {
                *self = Im::Undefined;
            },
            Im::Simple { mag, ipow } => {
                let s = Im::Simple { mag, ipow };
                let ts: Vec<Im> = vec![s];
                proof {
                    lemma_views_of_index(ts@);
                    assert(views_of(ts@) =~= seq![ImV::Simple { mag: mag@, ipow: ipow as int }]);
                }
                *self = Im::Power { terms: ts, exponent: Box::new(e) };
            },
            Im::Sum { terms } => {
                *self = Im::Power { terms, exponent: Box::new(e) };
                proof {
                    assert(self@ =~~= v_push_pow(old(self)@, e@));
                }
            },
            Im::Power { terms, exponent } => {
                let ghost gexp = (*exponent).deep_view();
                let ghost gev = e.deep_view();
                let ghost gterms = views_of(terms@);
                proof {
                    assert(old(self)@ == (ImV::Power { terms: gterms, exponent: Box::new(gexp) }));
                }
                let es: Vec<Im> = vec![*exponent, e];
                proof {
                    lemma_views_of_index(es@);
                    assert(es@.len() == 2);
                    assert(es@[0].deep_view() == gexp);
                    assert(es@[1].deep_view() == gev);
                    assert(views_of(es@) =~= seq![gexp, gev]);
                }
                let newexp = Im::Sum { terms: es };
                proof {
                    assert(newexp@ == (ImV::Sum { terms: seq![gexp, gev] }));
                }
                *self = Im::Power { terms, exponent: Box::new(newexp) };
                proof {
                    assert(self@ == (ImV::Power {
                        terms: gterms,
                        exponent: Box::new(ImV::Sum { terms: seq![gexp, gev] }),
                    }));
                    assert(v_push_pow(old(self)@, e@) == (ImV::Power {
                        terms: gterms,
                        exponent: Box::new(ImV::Sum { terms: seq![gexp, gev] }),
                    }));
                }
            },
            Im::Product { terms, exponent, multiplier } => {
                let ghost gexp = (*exponent).deep_view();
                let ghost gev = e.deep_view();
                let ghost gterms = views_of(terms@);
                let ghost gmul = (*multiplier).deep_view();
                let es: Vec<Im> = vec![*exponent, e];
                proof {
                    lemma_views_of_index(es@);
                    assert(views_of(es@) =~= seq![gexp, gev]);
                }
                let newexp = Im::Sum { terms: es };
                proof {
                    assert(newexp@ == (ImV::Sum { terms: seq![gexp, gev] }));
                }
                *self = Im::Product { terms, exponent: Box::new(newexp), multiplier };
                proof {
                    assert(self@ == (ImV::Product {
                        terms: gterms,
                        exponent: Box::new(ImV::Sum { terms: seq![gexp, gev] }),
                        multiplier: Box::new(gmul),
                    }));
                    assert(v_push_pow(old(self)@, e@) == (ImV::Product {
                        terms: gterms,
                        exponent: Box::new(ImV::Sum { terms: seq![gexp, gev] }),
                        multiplier: Box::new(gmul),
                    }));
                }
            },
        }
    }

    /// Attaches `e` as the multiplier, used to assemble expected values by
    /// hand.
    pub fn push_in_mixed_mul(&mut self, e: Im)
        ensures
            final(self)@ == v_push_mul(old(self)@, e@),
    {
        let mut tmp = Im::Zero;
        core::mem::swap(self, &mut tmp);
        match tmp {
            Im::Zero => {
                *self = Im::Zero;
            },
            Im::Undefined => {
                *self = Im::Undefined;
            },
            Im::Simple { mag, ipow } => {
                let s = Im::Simple { mag, ipow };
                let ts: Vec<Im> = vec![s];
                proof {
                    lemma_views_of_index(ts@);
                    assert(views_of(ts@) =~= seq![ImV::Simple { mag: mag@, ipow: ipow as int }]);
                }
                *self = Im::Product {
                    terms: ts,
                    exponent: Box::new(Im::one()),
                    multiplier: Box::new(e),
                };
            },
            Im::Sum { terms } => {
                *self = Im::Product {
                    terms,
                    exponent: Box::new(Im::one()),
                    multiplier: Box::new(e),
                };
            },
            Im::Power { terms, exponent } => {
                *self = Im::Product { terms, exponent, multiplier: Box::new(e) };
            },
            Im::Product { terms, exponent, multiplier } => {
                let ghost gmul = (*multiplier).deep_view();
                let ghost gev = e.deep_view();
                let ghost gterms = views_of(terms@);
                let ghost gexp = (*exponent).deep_view();
                let ms: Vec<Im> = vec![*multiplier, e];
                proof {
                    lemma_views_of_index(ms@);
                    assert(views_of(ms@) =~= seq![gmul, gev]);
                }
                let newmul = Im::Sum { terms: ms };
                proof {
                    assert(newmul@ == (ImV::Sum { terms: seq![gmul, gev] }));
                }
                *self = Im::Product { terms, exponent, multiplier: Box::new(newmul) };
                proof {
                    assert(self@ == (ImV::Product {
                        terms: gterms,
                        exponent: Box::new(gexp),
                        multiplier: Box::new(ImV::Sum { terms: seq![gmul, gev] }),
                    }));
                    assert(v_push_mul(old(self)@, e@) == (ImV::Product {
                        terms: gterms,
                        exponent: Box::new(gexp),
                        multiplier: Box::new(ImV::Sum { terms: seq![gmul, gev] }),
                    }));
                }
            },
        }
    }

    /// The shape-dispatch predicate for term-list against plain operands.
    pub fn is_mixed_base_logic(&self, rhs: &Im) -> (r: bool)
        ensures
            r == ((self@ is Sum && v_plain(rhs@)) || (rhs@ is Sum && v_plain(self@)) || (self@
                is Sum && rhs@ is Sum)),
    {
        let a_sum = matches!(self, Im::Sum { .. });
        let b_sum = matches!(rhs, Im::Sum { .. });
        let a_plain = matches!(self, Im::Zero | Im::Simple { .. });
        let b_plain = matches!(rhs, Im::Zero | Im::Simple { .. });
        (a_sum && b_plain) || (b_sum && a_plain) || (a_sum && b_sum)
    }
}

/// Element-wise copy of a term list.
pub(crate) fn clone_vec(v: &Vec<Im>) -> (r: Vec<Im>)
    ensures
        views_of(r@) == views_of(v@),
    decreases *v,
{
    let mut out: Vec<Im> = Vec::new();
    let mut idx: usize = 0;
    while idx < v.len()
        invariant
            idx <= v@.len(),
            out@.len() == idx,
            forall|j: int| 0 <= j < idx ==> #[trigger] out@[j].deep_view() == v@[j].deep_view(),
        decreases v@.len() - idx,
    {
        let e = v[idx].deep_clone();
        out.push(e);
        idx = idx + 1;
    }
    proof {
        lemma_views_of_index(out@);
        lemma_views_of_index(v@);
        assert forall|j: int| 0 <= j < views_of(out@).len() implies views_of(out@)[j] == views_of(
            v@,
        )[j] by {
            assert(out@[j].deep_view() == v@[j].deep_view());
        }
        assert(views_of(out@) =~= views_of(v@));
    }
    out
}

} // verus!
