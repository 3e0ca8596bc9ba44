//! Fixed-precision decimal amounts: costs, bandwidths, traffic volumes,
//! uptimes and shares.
//!
//! An [`Amount`] stands for `mantissa / 10^scale`. It holds what a
//! `rust_decimal::Decimal` holds, as two plain integers, and every amount
//! that exists fits into such a decimal. Sums, products and comparisons are
//! those of `rust_decimal`.

use rust_decimal::Decimal;
use vstd::arithmetic::power::pow;
use vstd::prelude::*;

verus! {

/// The largest number of decimal places an amount can have.
pub const MAX_SCALE: u32 = 28;

/// The largest mantissa an amount can have: `2^96 - 1`.
pub const MAX_MANTISSA: i128 = 79_228_162_514_264_337_593_543_950_335;

/// A decimal number `mantissa / 10^scale` with at most 28 decimal places and
/// a mantissa of at most 96 bits.
#[derive(Clone, Copy, Debug, PartialEq, Eq, Structural)]
pub struct Amount {
    mantissa: i128,
    scale: u32,
}

/// Whether a mantissa and a scale are within what an amount can hold.
pub open spec fn representable(mantissa: int, scale: int) -> bool {
    &&& 0 <= scale <= MAX_SCALE
    &&& -MAX_MANTISSA <= mantissa <= MAX_MANTISSA
}

/// The mantissa and scale of what `Decimal::checked_add` returns for the
/// decimals `a_mantissa / 10^a_scale` and `b_mantissa / 10^b_scale`; `None`
/// where it reports an overflow.
pub uninterp spec fn decimal_sum(a_mantissa: int, a_scale: int, b_mantissa: int, b_scale: int) -> Option<(int, int)>;

/// The mantissa and scale of what `Decimal::checked_sub` returns for the
/// decimals `a_mantissa / 10^a_scale` and `b_mantissa / 10^b_scale`; `None`
/// where it reports an overflow.
pub uninterp spec fn decimal_difference(a_mantissa: int, a_scale: int, b_mantissa: int, b_scale: int) -> Option<(int, int)>;

/// The mantissa and scale of what `Decimal::checked_mul` returns for the
/// decimals `a_mantissa / 10^a_scale` and `b_mantissa / 10^b_scale`; `None`
/// where it reports an overflow.
pub uninterp spec fn decimal_product(a_mantissa: int, a_scale: int, b_mantissa: int, b_scale: int) -> Option<(int, int)>;

/// The mantissa and scale of what `Decimal::checked_div` returns for the
/// decimals `a_mantissa / 10^a_scale` and `b_mantissa / 10^b_scale`; `None`
/// where the divisor is zero or it reports an overflow.
pub uninterp spec fn decimal_quotient(a_mantissa: int, a_scale: int, b_mantissa: int, b_scale: int) -> Option<(int, int)>;

impl Amount {
    #[verifier::type_invariant]
    spec fn well_formed(self) -> bool {
        representable(self.mantissa as int, self.scale as int)
    }

    /// The mantissa: the amount is `units() / 10^places()`.
    pub closed spec fn units(self) -> int {
        self.mantissa as int
    }

    /// The number of decimal places.
    pub closed spec fn places(self) -> int {
        self.scale as int
    }

    /// The amount with the given mantissa and scale.
    pub closed spec fn of(mantissa: int, scale: int) -> Amount {
        Amount { mantissa: mantissa as i128, scale: scale as u32 }
    }

    /// `self` is numerically smaller than `other`, whatever the two scales.
    pub open spec fn value_lt(self, other: Amount) -> bool {
        self.units() * pow(10, other.places() as nat) < other.units() * pow(
            10,
            self.places() as nat,
        )
    }

    /// The sum of two amounts as `rust_decimal` computes it.
    pub open spec fn sum(self, other: Amount) -> Option<Amount> {
        match decimal_sum(self.units(), self.places(), other.units(), other.places()) {
            Some((mantissa, scale)) => Some(Amount::of(mantissa, scale)),
            None => None,
        }
    }

    /// The difference of two amounts as `rust_decimal` computes it.
    pub open spec fn difference(self, other: Amount) -> Option<Amount> {
        match decimal_difference(self.units(), self.places(), other.units(), other.places()) {
            Some((mantissa, scale)) => Some(Amount::of(mantissa, scale)),
            None => None,
        }
    }

    /// The product of two amounts as `rust_decimal` computes it.
    pub open spec fn product(self, other: Amount) -> Option<Amount> {
        match decimal_product(self.units(), self.places(), other.units(), other.places()) {
            Some((mantissa, scale)) => Some(Amount::of(mantissa, scale)),
            None => None,
        }
    }

    /// The quotient of two amounts as `rust_decimal` computes it.
    pub open spec fn quotient(self, other: Amount) -> Option<Amount> {
        match decimal_quotient(self.units(), self.places(), other.units(), other.places()) {
            Some((mantissa, scale)) => Some(Amount::of(mantissa, scale)),
            None => None,
        }
    }

    /// An amount is fixed by its mantissa and scale.
    pub proof fn lemma_of_units_places(self)
        ensures
            Amount::of(self.units(), self.places()) == self,
    {
    }

    /// The amount made of a mantissa and a scale that an amount can hold
    /// has that mantissa and that scale.
    pub proof fn lemma_units_places_of(mantissa: int, scale: int)
        requires
            representable(mantissa, scale),
        ensures
            Amount::of(mantissa, scale).units() == mantissa,
            Amount::of(mantissa, scale).places() == scale,
    {
    }

    /// `mantissa / 10^scale`, or `None` where the scale exceeds 28 or the
    /// mantissa 96 bits.
    pub fn new(mantissa: i128, scale: u32) -> (amount: Option<Amount>)
        ensures
            amount is Some <==> representable(mantissa as int, scale as int),
            amount is Some ==> amount->0 == Amount::of(mantissa as int, scale as int),
            amount is Some ==> amount->0.units() == mantissa && amount->0.places() == scale,
    {
        if scale <= MAX_SCALE && -MAX_MANTISSA <= mantissa && mantissa <= MAX_MANTISSA {
            Some(Amount { mantissa, scale })
        } else {
            None
        }
    }

    /// The whole number `value`.
    pub fn from_int(value: i64) -> (amount: Amount)
        ensures
            amount == Amount::of(value as int, 0),
            amount.units() == value,
            amount.places() == 0,
    {
        Amount { mantissa: value as i128, scale: 0 }
    }

    /// Zero, without decimal places.
    pub fn zero() -> (amount: Amount)
        ensures
            amount == Amount::of(0, 0),
            amount.units() == 0,
            amount.places() == 0,
    {
        Amount { mantissa: 0, scale: 0 }
    }

    /// One, without decimal places.
    pub fn one() -> (amount: Amount)
        ensures
            amount == Amount::of(1, 0),
            amount.units() == 1,
            amount.places() == 0,
    {
        Amount { mantissa: 1, scale: 0 }
    }

    /// The mantissa.
    pub fn mantissa(&self) -> (mantissa: i128)
        ensures
            mantissa == self.units(),
            -MAX_MANTISSA <= mantissa <= MAX_MANTISSA,
    {
        proof {
            use_type_invariant(self);
        }
        self.mantissa
    }

    /// The number of decimal places.
    pub fn scale(&self) -> (scale: u32)
        ensures
            scale == self.places(),
            scale <= MAX_SCALE,
    {
        proof {
            use_type_invariant(self);
        }
        self.scale
    }

    /// The sum `self + other`, or `None` where it overflows.
    pub fn checked_add(&self, other: &Amount) -> (total: Option<Amount>)
        ensures
            total == self.sum(*other),
    {
        let total = decimal_add(*self, *other);
        proof {
            if let Some(t) = total {
                Amount::lemma_of_units_places(t);
            }
        }
        total
    }

    /// The difference `self - other`, or `None` where it overflows.
    pub fn checked_sub(&self, other: &Amount) -> (rest: Option<Amount>)
        ensures
            rest == self.difference(*other),
    {
        let rest = decimal_sub(*self, *other);
        proof {
            if let Some(t) = rest {
                Amount::lemma_of_units_places(t);
            }
        }
        rest
    }

    /// The product `self * other`, or `None` where it overflows.
    pub fn checked_mul(&self, other: &Amount) -> (scaled: Option<Amount>)
        ensures
            scaled == self.product(*other),
    {
        let scaled = decimal_mul(*self, *other);
        proof {
            if let Some(t) = scaled {
                Amount::lemma_of_units_places(t);
            }
        }
        scaled
    }

    /// The quotient `self / other`, or `None` where `other` is zero or the
    /// quotient overflows.
    pub fn checked_div(&self, other: &Amount) -> (ratio: Option<Amount>)
        ensures
            ratio == self.quotient(*other),
    {
        let ratio = decimal_div(*self, *other);
        proof {
            if let Some(t) = ratio {
                Amount::lemma_of_units_places(t);
            }
        }
        ratio
    }

    /// The smaller of the two; `self` where they are numerically equal.
    pub fn min(self, other: Amount) -> (least: Amount)
        ensures
            least == if other.value_lt(self) { other } else { self },
    {
        if decimal_less(other, self) {
            other
        } else {
            self
        }
    }
}

/// `Decimal::checked_add` on the two amounts: the result is the decimal that
/// `rust_decimal` computes for the sum, and `None` where it reports an
/// overflow. The amounts are handed over, and the result taken back, by
/// mantissa and scale.
#[verifier::external_body]
fn decimal_add(a: Amount, b: Amount) -> (total: Option<Amount>)
    ensures
        decimal_sum(a.units(), a.places(), b.units(), b.places()) == match total {
            Some(t) => Some((t.units(), t.places())),
            None => None,
        },
{
    let x = Decimal::from_i128_with_scale(a.mantissa, a.scale);
    let y = Decimal::from_i128_with_scale(b.mantissa, b.scale);
    match x.checked_add(y) {
        Some(t) => Some(Amount { mantissa: t.mantissa(), scale: t.scale() }),
        None => None,
    }
}

/// `Decimal::checked_sub` on the two amounts: the result is the decimal that
/// `rust_decimal` computes for the difference, and `None` where it reports
/// an overflow. The amounts are handed over, and the result taken back, by
/// mantissa and scale.
#[verifier::external_body]
fn decimal_sub(a: Amount, b: Amount) -> (rest: Option<Amount>)
    ensures
        decimal_difference(a.units(), a.places(), b.units(), b.places()) == match rest {
            Some(t) => Some((t.units(), t.places())),
            None => None,
        },
{
    let x = Decimal::from_i128_with_scale(a.mantissa, a.scale);
    let y = Decimal::from_i128_with_scale(b.mantissa, b.scale);
    match x.checked_sub(y) {
        Some(t) => Some(Amount { mantissa: t.mantissa(), scale: t.scale() }),
        None => None,
    }
}

/// `Decimal::checked_mul` on the two amounts: the result is the decimal that
/// `rust_decimal` computes for the product, and `None` where it reports an
/// overflow. The amounts are handed over, and the result taken back, by
/// mantissa and scale.
#[verifier::external_body]
fn decimal_mul(a: Amount, b: Amount) -> (scaled: Option<Amount>)
    ensures
        decimal_product(a.units(), a.places(), b.units(), b.places()) == match scaled {
            Some(t) => Some((t.units(), t.places())),
            None => None,
        },
{
    let x = Decimal::from_i128_with_scale(a.mantissa, a.scale);
    let y = Decimal::from_i128_with_scale(b.mantissa, b.scale);
    match x.checked_mul(y) {
        Some(t) => Some(Amount { mantissa: t.mantissa(), scale: t.scale() }),
        None => None,
    }
}

/// `Decimal::checked_div` on the two amounts: the result is the decimal
/// that `rust_decimal` computes for the quotient, and `None` where the
/// divisor is zero or it reports an overflow. The amounts are handed over,
/// and the result taken back, by mantissa and scale.
#[verifier::external_body]
fn decimal_div(a: Amount, b: Amount) -> (ratio: Option<Amount>)
    ensures
        decimal_quotient(a.units(), a.places(), b.units(), b.places()) == match ratio {
            Some(t) => Some((t.units(), t.places())),
            None => None,
        },
{
    let x = Decimal::from_i128_with_scale(a.mantissa, a.scale);
    let y = Decimal::from_i128_with_scale(b.mantissa, b.scale);
    match x.checked_div(y) {
        Some(t) => Some(Amount { mantissa: t.mantissa(), scale: t.scale() }),
        None => None,
    }
}

/// `Decimal`'s `<` on the two amounts: it compares the numbers, not their
/// representations, so `1.0` is not smaller than `1.00`.
#[verifier::external_body]
fn decimal_less(a: Amount, b: Amount) -> (less: bool)
    ensures
        less == a.value_lt(b),
{
    Decimal::from_i128_with_scale(a.mantissa, a.scale) < Decimal::from_i128_with_scale(
        b.mantissa,
        b.scale,
    )
}

} // verus!
