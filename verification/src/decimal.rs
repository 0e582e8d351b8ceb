//! Non-negative fixed-point arithmetic with 18 fractional decimal digits.
//!
//! Reward amounts are carried as an integer count of `10^-18` units
//! ("atomics"), so every operation here is exact integer arithmetic and the
//! contracts state the resulting atomic count directly.

use vstd::prelude::*;

verus! {

/// Number of atomic units in one whole reward unit.
pub const DECIMAL_FRACTIONAL: u128 = 1_000_000_000_000_000_000;

/// A non-negative fixed-point number with 18 fractional decimal digits.
///
/// The mathematical value is `atomics / DECIMAL_FRACTIONAL`; the view of a
/// `Decimal` is its atomic count, so contracts over `Decimal` values are
/// exact statements about integers.
#[derive(Clone, Copy, PartialEq, Eq, Structural, Debug)]
pub struct Decimal {
    pub atomics: u128,
}

impl View for Decimal {
    type V = int;

    open spec fn view(&self) -> int {
        self.atomics as int
    }
}

impl Decimal {
    /// The zero value.
    pub fn zero() -> (r: Decimal)
        ensures
            r@ == 0,
    {
        Decimal { atomics: 0 }
    }

    /// The value one (one whole reward unit).
    pub fn one() -> (r: Decimal)
        ensures
            r@ == DECIMAL_FRACTIONAL,
    {
        Decimal { atomics: DECIMAL_FRACTIONAL }
    }

    /// The fixed-point ratio `numerator / denominator`, rounded down to the
    /// nearest atomic unit.
    pub fn from_ratio(numerator: u128, denominator: u128) -> (r: Decimal)
        requires
            denominator > 0,
            numerator * DECIMAL_FRACTIONAL <= u128::MAX,
        ensures
            r@ == numerator * DECIMAL_FRACTIONAL / (denominator as int),
    {
        Decimal { atomics: numerator * DECIMAL_FRACTIONAL / denominator }
    }

    /// Addition; `None` when the sum does not fit the representable range.
    pub fn checked_add(self, other: Decimal) -> (r: Option<Decimal>)
        ensures
            self@ + other@ <= u128::MAX <==> r is Some,
            r matches Some(d) ==> d@ == self@ + other@,
    {
        if self.atomics <= u128::MAX - other.atomics {
            Some(Decimal { atomics: self.atomics + other.atomics })
        } else {
            None
        }
    }

    /// Addition of values whose sum is known to stay representable.
    pub fn add(self, other: Decimal) -> (r: Decimal)
        requires
            self@ + other@ <= u128::MAX,
        ensures
            r@ == self@ + other@,
    {
        Decimal { atomics: self.atomics + other.atomics }
    }

    /// Subtraction of a value known not to exceed `self`.
    pub fn sub(self, other: Decimal) -> (r: Decimal)
        requires
            other@ <= self@,
        ensures
            r@ == self@ - other@,
    {
        Decimal { atomics: self.atomics - other.atomics }
    }

    /// The integer part of the value: the number of whole reward units.
    pub fn floor_units(self) -> (r: u128)
        ensures
            r == self@ / (DECIMAL_FRACTIONAL as int),
    {
        self.atomics / DECIMAL_FRACTIONAL
    }

    /// The fractional part of the value, in atomic units.
    pub fn fraction_atomics(self) -> (r: u128)
        ensures
            r == self@ % (DECIMAL_FRACTIONAL as int),
    {
        self.atomics % DECIMAL_FRACTIONAL
    }

    /// Whether the value is exactly zero.
    pub fn is_zero(self) -> (r: bool)
        ensures
            r == (self@ == 0),
    {
        self.atomics == 0
    }
}

} // verus!
