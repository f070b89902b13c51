//! Lengths of time.

use vstd::prelude::*;

verus! {

/// The longest span: `u64::MAX` seconds and 999 999 999 nanoseconds.
pub const MAX_NANOS: u128 = 18446744073709551615999999999;

/// How many nanoseconds make a second.
pub const NANOS_PER_SEC: u128 = 1000000000;

/// A length of time in nanoseconds.
#[derive(Clone, Copy, Debug, PartialEq, Eq, Structural)]
pub struct Span {
    pub nanos: u128,
}

impl Span {
    /// A span is no longer than the longest one.
    pub open spec fn wf(&self) -> bool {
        self.nanos <= MAX_NANOS
    }

    /// A number of whole seconds.
    pub fn from_secs(secs: u64) -> (r: Span)
        ensures
            r.wf(),
            r.nanos == secs * NANOS_PER_SEC,
            r.nanos == secs * 1000000000,
    {
        Span { nanos: secs as u128 * NANOS_PER_SEC }
    }

    /// A number of milliseconds.
    pub fn from_millis(millis: u64) -> (r: Span)
        ensures
            r.wf(),
            r.nanos == millis * 1000000,
    {
        Span { nanos: millis as u128 * 1000000 }
    }

    /// `k` times the span, or the longest span where that is longer.
    pub fn saturating_mul(&self, k: u32) -> (r: Span)
        requires
            self.wf(),
        ensures
            r.wf(),
            r.nanos == (if self.nanos * k <= MAX_NANOS {
                self.nanos * k
            } else {
                MAX_NANOS as int
            }),
            r.nanos <= 18446744073709551615999999999,
            self.nanos * k <= 18446744073709551615999999999 ==> r.nanos == self.nanos * k,
    {
        assert(0 <= self.nanos * k <= MAX_NANOS * 0xFFFF_FFFF) by (nonlinear_arith)
            requires
                self.nanos <= MAX_NANOS,
                k <= 0xFFFF_FFFF,
        ;
        let p: u128 = self.nanos * k as u128;
        if p <= MAX_NANOS {
            Span { nanos: p }
        } else {
            Span { nanos: MAX_NANOS }
        }
    }

    /// The longer of two spans.
    pub fn longer(self, other: Span) -> (r: Span)
        ensures
            r.nanos == (if self.nanos <= other.nanos {
                other.nanos
            } else {
                self.nanos
            }),
    {
        if self.nanos <= other.nanos {
            other
        } else {
            self
        }
    }
}

} // verus!
