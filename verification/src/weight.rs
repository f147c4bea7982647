//! The edge-weight value type: a bounded signed integer with a zero, a
//! saturating "infinity" sentinel, total addition and subtraction, and a
//! total order. All arithmetic saturates at the representable bounds, so no
//! operation can fail.

use vstd::prelude::*;

verus! {

/// Clips a mathematical integer to the representable weight range.
pub open spec fn clip_weight(x: int) -> int {
    if x > i32::MAX {
        i32::MAX as int
    } else if x < i32::MIN {
        i32::MIN as int
    } else {
        x
    }
}

/// An edge weight. Its mathematical value is the view `self@`.
#[derive(Clone, Copy, Debug, PartialEq, Eq, Structural)]
pub struct Weight {
    pub v: i32,
}

impl View for Weight {
    type V = int;

    open spec fn view(&self) -> int {
        self.v as int
    }
}

impl DeepView for Weight {
    type V = int;

    open spec fn deep_view(&self) -> int {
        self.view()
    }
}

impl Weight {
    /// The additive identity.
    pub fn zero() -> (r: Weight)
        ensures
            r@ == 0,
    {
        Weight { v: 0 }
    }

    /// The saturating "infinity" sentinel: the greatest representable weight.
    pub fn inf() -> (r: Weight)
        ensures
            r@ == i32::MAX,
    {
        Weight { v: i32::MAX }
    }

    pub fn new(v: i32) -> (r: Weight)
        ensures
            r@ == v,
    {
        Weight { v }
    }

    /// Saturating addition: total, never fails.
    pub fn add(self, other: Weight) -> (r: Weight)
        ensures
            r@ == clip_weight(self@ + other@),
    {
        let s: i64 = self.v as i64 + other.v as i64;
        if s > i32::MAX as i64 {
            Weight { v: i32::MAX }
        } else if s < i32::MIN as i64 {
            Weight { v: i32::MIN }
        } else {
            Weight { v: s as i32 }
        }
    }

    /// Saturating subtraction: total, never fails.
    pub fn sub(self, other: Weight) -> (r: Weight)
        ensures
            r@ == clip_weight(self@ - other@),
    {
        let s: i64 = self.v as i64 - other.v as i64;
        if s > i32::MAX as i64 {
            Weight { v: i32::MAX }
        } else if s < i32::MIN as i64 {
            Weight { v: i32::MIN }
        } else {
            Weight { v: s as i32 }
        }
    }

    /// The smaller of the two weights under the total order.
    pub fn min_with(self, other: Weight) -> (r: Weight)
        ensures
            r@ == if self@ <= other@ { self@ } else { other@ },
    {
        if self.v <= other.v {
            self
        } else {
            other
        }
    }

    pub fn is_zero(self) -> (r: bool)
        ensures
            r == (self@ == 0),
    {
        self.v == 0
    }

    pub fn le(self, other: Weight) -> (r: bool)
        ensures
            r == (self@ <= other@),
    {
        self.v <= other.v
    }
}

/// The integer behind an optional weight, zero when absent.
pub open spec fn opt_int(o: Option<int>) -> int {
    match o {
        Some(v) => v,
        None => 0,
    }
}

} // verus!
