//! Lengths of time.

use vstd::prelude::*;

verus! {

/// The longest span, in nanoseconds: 2^64 seconds less one nanosecond.
pub const MAX_NANOS: u128 = 18_446_744_073_709_551_615_999_999_999;

/// A span of time.
#[derive(Clone, Copy, Debug, PartialEq, Eq, Structural)]
pub struct Span {
    pub nanos: u128,
}

impl Span {
    /// A span in milliseconds.
    #[verifier::allow_in_spec]
    pub fn from_millis(ms: u64) -> (r: Span)
        returns
            (Span { nanos: (ms * 1_000_000) as u128 }),
    {
        Span { nanos: ms as u128 * 1_000_000 }
    }

    /// The two spans together, or the longest span where that is longer.
    pub open spec fn plus(self, other: Span) -> Span {
        if self.nanos + other.nanos <= MAX_NANOS {
            Span { nanos: (self.nanos + other.nanos) as u128 }
        } else {
            Span { nanos: MAX_NANOS }
        }
    }

    /// What is left of a span after another, nothing where that is longer.
    pub open spec fn minus(self, other: Span) -> Span {
        if self.nanos >= other.nanos {
            Span { nanos: (self.nanos - other.nanos) as u128 }
        } else {
            Span { nanos: 0 }
        }
    }

    /// The longer of two spans.
    pub open spec fn longer(self, other: Span) -> Span {
        if self.nanos < other.nanos {
            other
        } else {
            self
        }
    }

    /// The two spans together, or the longest span where that is longer.
    pub fn saturating_add(self, other: Span) -> (r: Span)
        ensures
            r == self.plus(other),
    {
        match self.nanos.checked_add(other.nanos) {
            Some(n) => {
                if n <= MAX_NANOS {
                    Span { nanos: n }
                } else {
                    Span { nanos: MAX_NANOS }
                }
            },
            None => Span { nanos: MAX_NANOS },
        }
    }

    /// What is left of a span after another, nothing where that is longer.
    pub fn saturating_sub(self, other: Span) -> (r: Span)
        ensures
            r == self.minus(other),
    {
        if self.nanos >= other.nanos {
            Span { nanos: self.nanos - other.nanos }
        } else {
            Span { nanos: 0 }
        }
    }

    /// The longer of two spans.
    pub fn max(self, other: Span) -> (r: Span)
        ensures
            r == self.longer(other),
    {
        if self.nanos < other.nanos {
            other
        } else {
            self
        }
    }
}

} // verus!
