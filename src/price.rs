//! Exact decimal prices.
//!
//! A price is held as a signed mantissa and a decimal scale, so that its value
//! is `mantissa / 10^scale`, the representation that `rust_decimal::Decimal` uses.
use core::cmp::Ordering;
use vstd::prelude::*;

verus! {

/// The largest scale a decimal may carry.
pub const MAX_SCALE: u32 = 28;

/// One more than the largest magnitude of a mantissa (2^96).
pub const MANTISSA_BOUND: i128 = 79228162514264337593543950336;

/// 10^n.
pub open spec fn pow10(n: nat) -> int
    decreases n,
{
    if n == 0 {
        1
    } else {
        10 * pow10((n - 1) as nat)
    }
}

/// An exact decimal number `mantissa / 10^scale`.
#[derive(Clone, Copy, Debug)]
pub struct Price {
    pub mantissa: i128,
    pub scale: u32,
}

impl Price {
    /// The mantissa fits in 96 bits and the scale is at most 28.
    pub open spec fn wf(self) -> bool {
        &&& self.scale <= MAX_SCALE
        &&& -MANTISSA_BOUND < self.mantissa < MANTISSA_BOUND
    }

    /// The value in units of 10^-28: every well-formed price is a whole
    /// number of such units, so prices compare as these integers do.
    pub open spec fn units(self) -> int {
        self.mantissa * pow10((MAX_SCALE - self.scale) as nat)
    }

    /// Builds `mantissa / 10^scale`, or nothing where the pair is out of range.
    pub fn new(mantissa: i128, scale: u32) -> (r: Option<Price>)
        ensures
            r matches Some(p) <==> (Price { mantissa, scale }).wf(),
            r matches Some(p) ==> p.mantissa == mantissa && p.scale == scale,
            r matches Some(p) ==> (p.units() > 0 <==> mantissa > 0),
    {
        proof {
            if scale <= MAX_SCALE {
                lemma_units_sign(Price { mantissa, scale });
            }
        }
        if scale <= MAX_SCALE && -MANTISSA_BOUND < mantissa && mantissa < MANTISSA_BOUND {
            Some(Price { mantissa, scale })
        } else {
            None
        }
    }

    /// Whether the mantissa and scale are in range.
    pub fn is_wf(&self) -> (r: bool)
        ensures
            r == self.wf(),
    {
        self.scale <= MAX_SCALE && -MANTISSA_BOUND < self.mantissa && self.mantissa < MANTISSA_BOUND
    }

    /// A whole-number price.
    pub fn from_int(v: i64) -> (r: Price)
        ensures
            r.wf(),
            r.mantissa == v as int,
            r.scale == 0,
            r.units() > 0 <==> v > 0,
    {
        proof {
            lemma_units_sign(Price { mantissa: v as i128, scale: 0 });
        }
        Price { mantissa: v as i128, scale: 0 }
    }

    /// Whether the price is above zero.
    pub fn is_positive(&self) -> (r: bool)
        requires
            self.wf(),
        ensures
            r == (self.units() > 0),
    {
        proof {
            lemma_units_sign(*self);
        }
        self.mantissa > 0
    }
}

/// A price is positive exactly when its mantissa is.
pub proof fn lemma_units_sign(p: Price)
    requires
        p.scale <= MAX_SCALE,
    ensures
        p.units() > 0 <==> p.mantissa > 0,
{
    lemma_pow10_positive((MAX_SCALE - p.scale) as nat);
    let k = pow10((MAX_SCALE - p.scale) as nat);
    if p.mantissa > 0 {
        assert(p.mantissa * k > 0) by (nonlinear_arith)
            requires
                p.mantissa > 0,
                k > 0,
        ;
    } else {
        assert(p.mantissa * k <= 0) by (nonlinear_arith)
            requires
                p.mantissa <= 0,
                k > 0,
        ;
    }
}

pub proof fn lemma_pow10_positive(n: nat)
    ensures
        pow10(n) > 0,
    decreases n,
{
    if n > 0 {
        lemma_pow10_positive((n - 1) as nat);
    }
}

/// Relies on `Decimal::from_i128_with_scale`, which builds `mantissa / 10^scale`
/// for a 96-bit mantissa and a scale of at most 28, and on `Decimal`'s `Ord::cmp`,
/// which orders decimals by their exact values.
#[verifier::external_body]
pub(crate) fn compare(a: &Price, b: &Price) -> (r: Ordering)
    requires
        a.wf(),
        b.wf(),
    ensures
        (r == Ordering::Less) <==> a.units() < b.units(),
        (r == Ordering::Equal) <==> a.units() == b.units(),
        (r == Ordering::Greater) <==> a.units() > b.units(),
{
    let x = rust_decimal::Decimal::from_i128_with_scale(a.mantissa, a.scale);
    let y = rust_decimal::Decimal::from_i128_with_scale(b.mantissa, b.scale);
    x.cmp(&y)
}

} // verus!
