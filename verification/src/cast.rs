//! Lifting plain numbers into the symbolic engine.
//!
//! Importing [`ImValue`] gives whole numbers the two postfix constructors
//! `.r()` (a real value) and `.i()` (an imaginary multiple); [`XValue`] is
//! the generic conversion the engine accepts from callers that want a
//! single entry point.

use vstd::prelude::*;
use crate::num::{Im, ImV, wf_v};
use crate::rat::Q;

verus! {

/// Postfix constructors for the symbolic engine: `.r()` lifts a number as
/// a real value, `.i()` as an imaginary multiple.
pub trait ImValue<T> {
    fn r(self) -> T;

    fn i(self) -> T;
}

impl ImValue<Im> for i32 {
    /// The real number `self`, lifted exactly.
    fn r(self) -> (res: Im)
        ensures
            self == 0 ==> res@ == ImV::Zero,
            self != 0 ==> res@ == (ImV::Simple { mag: Q { n: self as int, d: 1 }, ipow: 0 }),
            wf_v(res@),
    {
        Im::r(self as i64)
    }

    /// The imaginary multiple `self * i`, lifted exactly.
    fn i(self) -> (res: Im)
        ensures
            self == 0 ==> res@ == ImV::Zero,
            self != 0 ==> res@ == (ImV::Simple { mag: Q { n: self as int, d: 1 }, ipow: 1 }),
            wf_v(res@),
    {
        Im::i(self as i64)
    }
}

/// A single-method conversion into the engine's value type.
pub trait XValue<T> {
    fn cast(self) -> T;
}

impl XValue<Im> for i32 {
    /// Casting a whole number gives the real value it denotes.
    fn cast(self) -> (res: Im)
        ensures
            self == 0 ==> res@ == ImV::Zero,
            self != 0 ==> res@ == (ImV::Simple { mag: Q { n: self as int, d: 1 }, ipow: 0 }),
            wf_v(res@),
    {
        Im::r(self as i64)
    }
}

/// An integer sample point of a real-valued function, scaled by the
/// sampler's precision.
#[derive(Debug, Clone, Copy, PartialEq, Eq, Structural)]
pub struct RawPoint {
    pub x: i64,
    pub y: i64,
}

impl RawPoint {
    /// A sample at position `x` with value `y`.
    pub fn new(x: i64, y: i64) -> (r: RawPoint)
        ensures
            r.x == x,
            r.y == y,
    {
        RawPoint { x, y }
    }
}

} // verus!
