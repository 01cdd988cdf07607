//! Rendering canonical values to their shortest unambiguous text.
//!
//! A simple value prints its magnitude (as a whole number, an exact
//! decimal, or a fraction) followed by `i` when imaginary; a reciprocal
//! imaginary tag puts the `i` under the bar (`-1/8i`); a unit coefficient
//! on the imaginary unit is left off (`i`, `-i`).  Sums are parenthesized
//! with the leading plus stripped; a power appends `^exponent`; a negative
//! whole exponent renders as a reciprocal bar with the multiplier as the
//! numerator.  The zero and undefined values print `0` and `None`.
//!
//! The whole rendering is specified by [`spec_format`] over the model, and
//! [`Im::format`] is proved to produce exactly that character sequence.

use vstd::prelude::*;
use crate::rat::{Rat, Q, abs1};
use crate::num::{Im, ImV, wf_v, views_of, lemma_views_of_index, lemma_wf_seq_index, wf_term};

verus! {

/// One decimal digit as text.
pub open spec fn spec_digit(d: nat) -> Seq<char> {
    if d == 0 {
        "0"@
    } else if d == 1 {
        "1"@
    } else if d == 2 {
        "2"@
    } else if d == 3 {
        "3"@
    } else if d == 4 {
        "4"@
    } else if d == 5 {
        "5"@
    } else if d == 6 {
        "6"@
    } else if d == 7 {
        "7"@
    } else if d == 8 {
        "8"@
    } else {
        "9"@
    }
}

/// A whole number in decimal.
pub open spec fn spec_int_text(n: nat) -> Seq<char>
    decreases n,
{
    if n < 10 {
        spec_digit(n)
    } else {
        spec_int_text(n / 10) + spec_digit(n % 10)
    }
}

/// Exactly `k` decimal digits of `f`, zero padded on the left.
pub open spec fn spec_frac_text(f: nat, k: nat) -> Seq<char>
    decreases k,
{
    if k == 0 {
        Seq::empty()
    } else {
        spec_frac_text(f / 10, (k - 1) as nat) + spec_digit(f % 10)
    }
}

/// Ten to the `k`.
pub open spec fn spec_pow10(k: nat) -> nat
    decreases k,
{
    if k == 0 {
        1
    } else {
        10 * spec_pow10((k - 1) as nat)
    }
}

/// The search for the smallest power of ten (up to twelve digits) that the
/// denominator divides, continuing from exponent `k` and power `p`.
pub open spec fn spec_dec_exp(den: nat, k: nat, p: nat) -> Option<(nat, nat)>
    decreases 12 - k,
{
    if k >= 12 {
        Option::None
    } else {
        let p2 = p * 10;
        if p2 % den == 0 {
            Some(((k + 1) as nat, p2))
        } else {
            spec_dec_exp(den, (k + 1) as nat, p2)
        }
    }
}

/// The magnitude `n / d` as text: a whole number, an exact decimal, or a
/// fraction.
pub open spec fn spec_mag_text(n: nat, d: nat) -> Seq<char> {
    if d == 1 {
        spec_int_text(n)
    } else {
        match spec_dec_exp(d, 0, 1) {
            Option::Some(kp) => {
                let unit = kp.1 / d;
                let scaled = n * unit;
                spec_int_text(scaled / kp.1) + "."@ + spec_frac_text(scaled % kp.1, kp.0)
            },
            Option::None => spec_int_text(n) + "/"@ + spec_int_text(d),
        }
    }
}

/// The unsigned text of a simple value: the magnitude, then `i` for the
/// imaginary tag (the unit coefficient left off), or the fraction-with-`i`
/// form for the reciprocal tag.
pub open spec fn spec_simple_body(m: Q, t: int) -> Seq<char> {
    if t == 0 {
        spec_mag_text(abs1(m.n), m.d as nat)
    } else if t >= 1 {
        (if (m.n == 1 || m.n == -1) && m.d == 1 {
            Seq::<char>::empty()
        } else {
            spec_mag_text(abs1(m.n), m.d as nat)
        }) + "i"@
    } else {
        spec_int_text(abs1(m.n)) + "/"@ + (if m.d == 1 {
            Seq::<char>::empty()
        } else {
            spec_int_text(m.d as nat)
        }) + "i"@
    }
}

/// Whether the leading sign of a rendered value is a minus: a negative
/// simple value, or a product whose simple multiplier is negative.
pub open spec fn spec_neg(v: ImV) -> bool {
    match v {
        ImV::Simple { mag, .. } => mag.n < 0,
        ImV::Product { multiplier, .. } => match *multiplier {
            ImV::Simple { mag, .. } => mag.n < 0,
            _ => false,
        },
        _ => false,
    }
}

/// The unsigned body of any canonical value.
pub open spec fn spec_body(v: ImV) -> Seq<char>
    decreases v, 0int,
{
    match v {
        ImV::Zero => "0"@,
        ImV::Undefined => "None"@,
        ImV::Simple { mag, ipow } => spec_simple_body(mag, ipow),
        ImV::Sum { terms } => "("@ + spec_join(terms, 0) + ")"@,
        ImV::Power { terms, exponent } => spec_power_tail(
            "("@ + spec_join(terms, 0) + ")"@,
            *exponent,
            Option::None,
        ),
        ImV::Product { terms, exponent, multiplier } => spec_power_tail(
            "("@ + spec_join(terms, 0) + ")"@,
            *exponent,
            Option::Some(spec_body(*multiplier)),
        ),
    }
}

/// `multiplier base ^ exponent` assembled, with a negative whole exponent
/// rendered as a reciprocal bar whose numerator is the multiplier (or one).
pub open spec fn spec_power_tail(base: Seq<char>, e: ImV, mul: Option<Seq<char>>) -> Seq<char>
    decreases e, 1int,
{
    match e {
        ImV::Simple { mag: em, ipow: et } => {
            if em.n < 0 {
                (match mul {
                    Option::Some(t) => t,
                    Option::None => "1"@,
                }) + "/"@ + base + (if em.n == -1 && em.d == 1 && et == 0 {
                    Seq::<char>::empty()
                } else {
                    "^"@ + spec_simple_body(em, et)
                })
            } else {
                (match mul {
                    Option::Some(t) => t,
                    Option::None => Seq::<char>::empty(),
                }) + base + "^"@ + spec_simple_body(em, et)
            }
        },
        _ => (match mul {
            Option::Some(t) => t,
            Option::None => Seq::<char>::empty(),
        }) + base + "^"@ + spec_body(e),
    }
}

/// The terms of a sum from position `i` on, signs between them, the
/// leading plus left off.
pub open spec fn spec_join(ts: Seq<ImV>, i: int) -> Seq<char>
    decreases ts, 2int, ts.len() - i,
{
    if i < 0 || i >= ts.len() {
        Seq::empty()
    } else {
        let sgn: Seq<char> = if i == 0 {
            if spec_neg(ts[i]) {
                "-"@
            } else {
                Seq::empty()
            }
        } else {
            if spec_neg(ts[i]) {
                "-"@
            } else {
                "+"@
            }
        };
        sgn + spec_body(ts[i]) + spec_join(ts, i + 1)
    }
}

/// The rendered text of a value: its sign, then its unsigned body.
pub open spec fn spec_format(v: ImV) -> Seq<char> {
    (if spec_neg(v) {
        "-"@
    } else {
        Seq::<char>::empty()
    }) + spec_body(v)
}

/// One decimal digit as text.
fn digit_text(d: u128) -> (r: String)
    requires
        d < 10,
    ensures
        r@ == spec_digit(d as nat),
{
    match d {
        0 => String::from_str("0"),
        1 => String::from_str("1"),
        2 => String::from_str("2"),
        3 => String::from_str("3"),
        4 => String::from_str("4"),
        5 => String::from_str("5"),
        6 => String::from_str("6"),
        7 => String::from_str("7"),
        8 => String::from_str("8"),
        _ => String::from_str("9"),
    }
}

/// A whole number in decimal.
fn int_text(n: u128) -> (r: String)
    ensures
        r@ == spec_int_text(n as nat),
    decreases n,
{
    if n < 10 {
        digit_text(n)
    } else {
        let mut hi = int_text(n / 10);
        let lo = digit_text(n % 10);
        hi.append(lo.as_str());
        hi
    }
}

/// Exactly `k` decimal digits of `f`, zero padded on the left.
fn frac_text(f: u128, k: u32) -> (r: String)
    ensures
        r@ == spec_frac_text(f as nat, k as nat),
    decreases k,
{
    if k == 0 {
        String::new()
    } else {
        let mut hi = frac_text(f / 10, k - 1);
        let lo = digit_text(f % 10);
        hi.append(lo.as_str());
        hi
    }
}

/// The smallest power of ten that the denominator divides, up to twelve
/// digits; the power itself is returned beside its exponent.
/// Small powers of ten stay inside twelve digits.
proof fn lemma_pow10_twelve(k: nat)
    requires
        k <= 12,
    ensures
        1 <= spec_pow10(k) <= 1000000000000,
    decreases k,
{
    if k > 0 {
        lemma_pow10_twelve((k - 1) as nat);
        assert(spec_pow10(0) == 1);
        assert(spec_pow10(1) == 10);
        assert(spec_pow10(2) == 100);
        assert(spec_pow10(3) == 1000);
        assert(spec_pow10(4) == 10000);
        assert(spec_pow10(5) == 100000);
        assert(spec_pow10(6) == 1000000);
        assert(spec_pow10(7) == 10000000);
        assert(spec_pow10(8) == 100000000);
        assert(spec_pow10(9) == 1000000000);
        assert(spec_pow10(10) == 10000000000);
        assert(spec_pow10(11) == 100000000000);
        assert(spec_pow10(12) == 1000000000000);
    }
}

fn dec_exp(den: u128, k: u32, p: u128) -> (r: Option<(u32, u128)>)
    requires
        den >= 2,
        k <= 12,
        p as nat == spec_pow10(k as nat),
    ensures
        r is Some <==> spec_dec_exp(den as nat, k as nat, p as nat) is Some,
        r matches Some(kp) ==> {
            &&& spec_dec_exp(den as nat, k as nat, p as nat) == Some(
                (kp.0 as nat, kp.1 as nat),
            )
            &&& 10 <= kp.1 <= 10000000000000u128
        },
    decreases 12 - k,
{
    if k >= 12 {
        return None;
    }
    proof {
        lemma_pow10_twelve(k as nat);
        assert(p * 10 <= 10000000000000u128) by (nonlinear_arith)
            requires p <= 1000000000000u128, p >= 1,
        ;
        assert(p * 10 >= 10) by (nonlinear_arith)
            requires p >= 1,
        ;
        lemma_pow10_twelve((k + 1) as nat);
        assert(spec_pow10((k + 1) as nat) == 10 * spec_pow10(k as nat));
    }
    let p2 = p * 10;
    if p2 % den == 0 {
        return Some((k + 1, p2));
    }
    dec_exp(den, k + 1, p2)
}

/// The magnitude `n / d` as text: a whole number, an exact decimal, or a
/// fraction.
fn mag_text(n: u128, d: u128) -> (r: String)
    requires
        d >= 1,
        n <= 0x8000_0000_0000_0000u128,
        d <= 0x8000_0000_0000_0000u128,
    ensures
        r@ == spec_mag_text(n as nat, d as nat),
{
    if d == 1 {
        return int_text(n);
    }
    proof {
        assert(1 as nat == spec_pow10(0));
    }
    match dec_exp(d, 0, 1) {
        Some((k, p)) => {
            let unit = p / d;
            proof {
                vstd::arithmetic::div_mod::lemma_fundamental_div_mod(p as int, d as int);
                assert(unit <= p);
                assert(n * unit <= 0x8000_0000_0000_0000u128 * 10000000000000u128)
                    by (nonlinear_arith)
                    requires
                        n <= 0x8000_0000_0000_0000u128,
                        unit <= 10000000000000u128,
                ;
            }
            let scaled = n * unit;
            let whole = scaled / p;
            let frac = scaled % p;
            let mut out = int_text(whole);
            let dot = String::from_str(".");
            out.append(dot.as_str());
            let fr = frac_text(frac, k);
            out.append(fr.as_str());
            out
        },
        None => {
            let mut out = int_text(n);
            let bar = String::from_str("/");
            out.append(bar.as_str());
            let den = int_text(d);
            out.append(den.as_str());
            out
        },
    }
}

/// The magnitude of a scalar, ignoring its sign.
fn rat_mag_text(m: &Rat) -> (r: String)
    requires
        m.wf(),
    ensures
        r@ == spec_mag_text(abs1(m@.n), m@.d as nat),
{
    let n: u128 = if m.n < 0 {
        (-(m.n as i128)) as u128
    } else {
        m.n as u128
    };
    proof {
        assert(n as nat == abs1(m@.n));
    }
    mag_text(n, m.d as u128)
}

/// Whether the leading sign of a rendered value is a minus.
fn starts_negative(v: &Im) -> (r: bool)
    requires
        wf_v(v@),
    ensures
        r == spec_neg(v@),
{
    match v {
        Im::Simple { mag, ipow } => {
            proof {
                assert(v@ == (ImV::Simple { mag: mag@, ipow: *ipow as int }));
            }
            mag.is_neg()
        },
        Im::Product { terms, exponent, multiplier } => {
            proof {
                assert(v@ is Product);
            }
            match &**multiplier {
                Im::Simple { mag, ipow } => {
                    proof {
                        assert((**multiplier).deep_view() == (ImV::Simple {
                            mag: mag@,
                            ipow: *ipow as int,
                        }));
                    }
                    mag.is_neg()
                },
                Im::Zero => false,
                Im::Undefined => false,
                Im::Sum { .. } => false,
                Im::Power { .. } => false,
                Im::Product { .. } => false,
            }
        },
        Im::Zero => false,
        Im::Undefined => false,
        Im::Sum { .. } => false,
        Im::Power { .. } => false,
    }
}

/// The unsigned text of a simple value.
fn simple_body(mag: &Rat, ipow: i64) -> (r: String)
    requires
        mag.wf(),
    ensures
        r@ == spec_simple_body(mag@, ipow as int),
{
    if ipow == 0 {
        rat_mag_text(mag)
    } else if ipow >= 1 {
        let one_mag = (mag.n == 1 || mag.n == -1) && mag.d == 1;
        let mut out = if one_mag {
            String::new()
        } else {
            rat_mag_text(mag)
        };
        let iu = String::from_str("i");
        out.append(iu.as_str());
        out
    } else {
        // a reciprocal imaginary tag puts the unit under the bar
        let n: u128 = if mag.n < 0 {
            (-(mag.n as i128)) as u128
        } else {
            mag.n as u128
        };
        proof {
            assert(n as nat == abs1(mag@.n));
        }
        let mut out = int_text(n);
        let bar = String::from_str("/");
        out.append(bar.as_str());
        if mag.d != 1 {
            let den = int_text(mag.d as u128);
            out.append(den.as_str());
        }
        let iu = String::from_str("i");
        out.append(iu.as_str());
        proof {
            let mid: Seq<char> = if mag@.d == 1 {
                Seq::<char>::empty()
            } else {
                spec_int_text(mag@.d as nat)
            };
            assert(out@ =~= spec_int_text(abs1(mag@.n)) + "/"@ + mid + "i"@);
        }
        out
    }
}

/// The unsigned body of any canonical value.
fn body_text(v: &Im) -> (r: String)
    requires
        wf_v(v@),
    ensures
        r@ == spec_body(v@),
    decreases *v, 0int,
{
    match v {
        Im::Zero => String::from_str("0"),
        Im::Undefined => String::from_str("None"),
        Im::Simple { mag, ipow } => simple_body(mag, *ipow),
        Im::Sum { terms } => {
            proof {
                lemma_views_of_index(terms@);
                lemma_wf_seq_index(views_of(terms@));
            }
            let mut out = String::from_str("(");
            let inner = join_terms(terms);
            out.append(inner.as_str());
            let close = String::from_str(")");
            out.append(close.as_str());
            out
        },
        Im::Power { terms, exponent } => {
            proof {
                lemma_views_of_index(terms@);
                lemma_wf_seq_index(views_of(terms@));
            }
            let mut base = String::from_str("(");
            let inner = join_terms(terms);
            base.append(inner.as_str());
            let close = String::from_str(")");
            base.append(close.as_str());
            power_tail(base, exponent, None)
        },
        Im::Product { terms, exponent, multiplier } => {
            proof {
                lemma_views_of_index(terms@);
                lemma_wf_seq_index(views_of(terms@));
            }
            let mut base = String::from_str("(");
            let inner = join_terms(terms);
            base.append(inner.as_str());
            let close = String::from_str(")");
            base.append(close.as_str());
            let mul_text = body_text(multiplier);
            power_tail(base, exponent, Some(mul_text))
        },
    }
}

/// Assembles `multiplier base ^ exponent`, with a negative whole exponent
/// rendered as a reciprocal bar whose numerator is the multiplier (or one).
fn power_tail(base: String, exponent: &Im, mul_text: Option<String>) -> (r: String)
    requires
        wf_v(exponent@),
    ensures
        r@ == spec_power_tail(
            base@,
            exponent@,
            match mul_text {
                Option::Some(t) => Option::Some(t@),
                Option::None => Option::None,
            },
        ),
    decreases *exponent, 1int,
{
    let ghost gmul: Option<Seq<char>> = match &mul_text {
        Option::Some(t) => Option::Some(t@),
        Option::None => Option::None,
    };
    let neg_info: Option<(Rat, i64)> = match exponent {
        Im::Simple { mag, ipow } => Some((*mag, *ipow)),
        _ => None,
    };
    if let Some((em, et)) = neg_info {
        proof {
            assert(exponent@ == (ImV::Simple { mag: em@, ipow: et as int }));
        }
        if em.is_neg() {
            // reciprocal bar: numerator, slash, base, remaining power
            let mut out = match mul_text {
                Some(t) => t,
                None => String::from_str("1"),
            };
            let bar = String::from_str("/");
            out.append(bar.as_str());
            out.append(base.as_str());
            if !(em.is_neg_one() && et == 0) {
                let caret = String::from_str("^");
                out.append(caret.as_str());
                let body = simple_body(&em, et);
                out.append(body.as_str());
                proof {
                    let head: Seq<char> = match gmul {
                        Option::Some(t) => t,
                        Option::None => "1"@,
                    };
                    assert(out@ =~= head + "/"@ + base@ + ("^"@ + spec_simple_body(
                        em@,
                        et as int,
                    )));
                }
            } else {
                proof {
                    let head: Seq<char> = match gmul {
                        Option::Some(t) => t,
                        Option::None => "1"@,
                    };
                    assert(out@ =~= head + "/"@ + base@ + Seq::<char>::empty());
                }
            }
            return out;
        }
        let mut out = match mul_text {
            Some(t) => t,
            None => String::new(),
        };
        out.append(base.as_str());
        let caret = String::from_str("^");
        out.append(caret.as_str());
        let body = simple_body(&em, et);
        out.append(body.as_str());
        proof {
            let head: Seq<char> = match gmul {
                Option::Some(t) => t,
                Option::None => Seq::<char>::empty(),
            };
            assert(out@ =~= head + base@ + "^"@ + spec_simple_body(em@, et as int));
        }
        return out;
    }
    let mut out = match mul_text {
        Some(t) => t,
        None => String::new(),
    };
    out.append(base.as_str());
    let caret = String::from_str("^");
    out.append(caret.as_str());
    let etext = body_text(exponent);
    out.append(etext.as_str());
    proof {
        let head: Seq<char> = match gmul {
            Option::Some(t) => t,
            Option::None => Seq::<char>::empty(),
        };
        assert(out@ =~= head + base@ + "^"@ + spec_body(exponent@));
    }
    out
}

/// The terms of a sum, signs between them, the leading plus left off.
fn join_terms(ts: &Vec<Im>) -> (r: String)
    requires
        forall|j: int| 0 <= j < views_of(ts@).len() ==> #[trigger] wf_term(views_of(ts@)[j]),
    ensures
        r@ == spec_join(views_of(ts@), 0),
    decreases *ts, 2int,
{
    proof {
        lemma_views_of_index(ts@);
    }
    let mut out = String::new();
    let mut idx: usize = 0;
    proof {
        assert(Seq::<char>::empty() + spec_join(views_of(ts@), 0) =~= spec_join(
            views_of(ts@),
            0,
        ));
    }
    while idx < ts.len()
        invariant
            idx <= ts@.len(),
            views_of(ts@).len() == ts@.len(),
            forall|j: int| 0 <= j < ts@.len() ==> views_of(ts@)[j] == #[trigger] ts@[j].deep_view(),
            forall|j: int| 0 <= j < views_of(ts@).len() ==> #[trigger] wf_term(views_of(ts@)[j]),
            spec_join(views_of(ts@), 0) == out@ + spec_join(views_of(ts@), idx as int),
        decreases ts@.len() - idx,
    {
        proof {
            assert(views_of(ts@)[idx as int] == ts@[idx as int].deep_view());
            assert(wf_term(views_of(ts@)[idx as int]));
        }
        let ghost before = out@;
        let ghost tv = views_of(ts@)[idx as int];
        let t = &ts[idx];
        let neg = starts_negative(t);
        if idx == 0 {
            if neg {
                let minus = String::from_str("-");
                out.append(minus.as_str());
            }
        } else {
            if neg {
                let minus = String::from_str("-");
                out.append(minus.as_str());
            } else {
                let plus = String::from_str("+");
                out.append(plus.as_str());
            }
        }
        let body = term_body(t);
        out.append(body.as_str());
        proof {
            let sgn: Seq<char> = if idx == 0 {
                if spec_neg(tv) {
                    "-"@
                } else {
                    Seq::<char>::empty()
                }
            } else {
                if spec_neg(tv) {
                    "-"@
                } else {
                    "+"@
                }
            };
            assert(spec_join(views_of(ts@), idx as int) == sgn + spec_body(tv) + spec_join(
                views_of(ts@),
                idx + 1,
            ));
            assert(out@ =~= before + sgn + spec_body(tv));
            assert(out@ + spec_join(views_of(ts@), idx + 1) =~= before + (sgn + spec_body(tv)
                + spec_join(views_of(ts@), idx + 1)));
        }
        idx = idx + 1;
    }
    proof {
        assert(spec_join(views_of(ts@), idx as int) == Seq::<char>::empty());
        assert(out@ + Seq::<char>::empty() =~= out@);
    }
    out
}

/// The unsigned body of one term: a simple term drops its sign, anything
/// else renders with its multiplier's sign already absorbed.
fn term_body(t: &Im) -> (r: String)
    requires
        wf_v(t@),
    ensures
        r@ == spec_body(t@),
    decreases *t, 1int,
{
    match t {
        Im::Simple { mag, ipow } => simple_body(mag, *ipow),
        Im::Product { terms, exponent, multiplier } => {
            proof {
                lemma_views_of_index(terms@);
                lemma_wf_seq_index(views_of(terms@));
            }
            let mut base = String::from_str("(");
            let inner = join_terms(terms);
            base.append(inner.as_str());
            let close = String::from_str(")");
            base.append(close.as_str());
            let mul_text = term_body(multiplier);
            power_tail(base, exponent, Some(mul_text))
        },
        _ => body_text(t),
    }
}

impl Im {
    /// Renders the value to its textual form: the sign, then the unsigned
    /// body, exactly as [`spec_format`] describes.  The zero and undefined
    /// values print `0` and `None`; a leading plus is never printed.
    pub fn format(&self) -> (r: String)
        requires
            wf_v(self@),
        ensures
            r@ == spec_format(self@),
            self@ is Zero ==> r@ == "0"@,
            self@ is Undefined ==> r@ == "None"@,
    {
        let neg = starts_negative(self);
        let body = term_body(self);
        if neg {
            let mut out = String::from_str("-");
            out.append(body.as_str());
            out
        } else {
            proof {
                assert(Seq::<char>::empty() + spec_body(self@) =~= spec_body(self@));
            }
            body
        }
    }
}

} // verus!
