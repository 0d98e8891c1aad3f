//! Saturating costs with `+inf` for forbidden transitions.
use vstd::prelude::*;

verus! {

/// The largest cost value, which stands for `+inf` (a forbidden transition).
pub const COST_INFINITY: u64 = 18446744073709551615;

/// A cost value with saturating arithmetic.
///
/// `u64::MAX` stands for `+inf` (a forbidden transition) and `0`, the smallest
/// value of the unsigned domain, for `-inf`. No operation overflows: results
/// clamp to the nearest end of the domain.
#[derive(Debug, Clone, Copy, PartialEq, Eq, PartialOrd, Ord, Hash, Structural)]
pub struct U64Cost {
    pub value: u64,
}

pub open spec fn saturating_add_spec(a: u64, b: u64) -> u64 {
    if a + b > COST_INFINITY { COST_INFINITY } else { (a + b) as u64 }
}

pub open spec fn saturating_sub_spec(a: u64, b: u64) -> u64 {
    if a < b { 0 } else { (a - b) as u64 }
}

pub open spec fn min_spec(a: u64, b: u64) -> u64 {
    if a <= b { a } else { b }
}

impl U64Cost {
    pub open spec fn is_infinite(self) -> bool {
        self.value == COST_INFINITY
    }

    /// `+inf`.
    pub fn max_value() -> (r: U64Cost)
        ensures
            r.is_infinite(),
    {
        U64Cost { value: COST_INFINITY }
    }

    /// The zero cost, which is also the smallest cost (`-inf`).
    pub fn zero() -> (r: U64Cost)
        ensures
            r.value == 0,
    {
        U64Cost { value: 0 }
    }

    pub fn from_u64(value: u64) -> (r: U64Cost)
        ensures
            r.value == value,
    {
        U64Cost { value }
    }

    pub fn as_u64(self) -> (r: u64)
        ensures
            r == self.value,
    {
        self.value
    }

    pub fn is_max(self) -> (r: bool)
        ensures
            r == self.is_infinite(),
    {
        self.value == COST_INFINITY
    }

    /// Saturating addition: a sum that would not fit is `+inf`.
    pub fn add(self, other: U64Cost) -> (r: U64Cost)
        ensures
            r.value == saturating_add_spec(self.value, other.value),
    {
        U64Cost { value: self.value.saturating_add(other.value) }
    }

    /// Saturating subtraction: a difference below zero is zero. `+inf` minus a
    /// finite cost stays `+inf`.
    pub fn saturating_sub(self, other: U64Cost) -> (r: U64Cost)
        ensures
            r.value == (if self.is_infinite() && !other.is_infinite() {
                COST_INFINITY
            } else {
                saturating_sub_spec(self.value, other.value)
            }),
    {
        if self.value == COST_INFINITY && other.value != COST_INFINITY {
            self
        } else {
            U64Cost { value: self.value.saturating_sub(other.value) }
        }
    }

    /// The smaller of two costs.
    pub fn min(self, other: U64Cost) -> (r: U64Cost)
        ensures
            r.value == min_spec(self.value, other.value),
    {
        if self.value <= other.value {
            self
        } else {
            other
        }
    }

    /// Three-way comparison of two costs.
    pub fn compare(self, other: U64Cost) -> (r: std::cmp::Ordering)
        ensures
            (r == std::cmp::Ordering::Less) == (self.value < other.value),
            (r == std::cmp::Ordering::Equal) == (self.value == other.value),
            (r == std::cmp::Ordering::Greater) == (self.value > other.value),
    {
        if self.value < other.value {
            std::cmp::Ordering::Less
        } else if self.value == other.value {
            std::cmp::Ordering::Equal
        } else {
            std::cmp::Ordering::Greater
        }
    }
}

impl From<u64> for U64Cost {
    fn from(value: u64) -> (r: U64Cost) {
        U64Cost { value }
    }
}

impl vstd::std_specs::convert::FromSpecImpl<u64> for U64Cost {
    open spec fn obeys_from_spec() -> bool {
        true
    }

    open spec fn from_spec(v: u64) -> U64Cost {
        U64Cost { value: v }
    }
}

/// Adding anything to `+inf` gives `+inf`, on either side.
pub proof fn lemma_add_infinite_absorbs(a: U64Cost, b: U64Cost)
    requires
        a.is_infinite() || b.is_infinite(),
    ensures
        saturating_add_spec(a.value, b.value) == COST_INFINITY,
        saturating_add_spec(b.value, a.value) == COST_INFINITY,
{
}

/// `+inf` is neutral for the minimum, on either side.
pub proof fn lemma_min_infinite_neutral(a: U64Cost, b: U64Cost)
    requires
        b.is_infinite(),
    ensures
        min_spec(a.value, b.value) == a.value,
        min_spec(b.value, a.value) == a.value,
{
}

} // verus!
