//! Conversion-ratio abstraction.
//!
//! A conversion ratio is kept as a fraction reduced to lowest terms with a
//! positive denominator.  Keeping the exact fraction lets the streaming
//! converters track their fractional position with integer arithmetic, so the
//! phase never drifts over long streams.

use vstd::prelude::*;

use crate::Error;

verus! {

/// Absolute value of a mathematical integer.
pub open spec fn abs_int(a: int) -> int {
    if a < 0 {
        -a
    } else {
        a
    }
}

/// Greatest common divisor, by Euclid's algorithm.
pub open spec fn gcd(a: nat, b: nat) -> nat
    decreases b,
{
    if b == 0 {
        a
    } else {
        gcd(b, a % b)
    }
}

/// Numerator of `numer / denom` in lowest terms, with the sign moved to the
/// numerator.
pub open spec fn red_numer(numer: int, denom: int) -> int {
    let g = gcd(abs_int(numer) as nat, abs_int(denom) as nat) as int;
    if numer * denom >= 0 {
        abs_int(numer) / g
    } else {
        -(abs_int(numer) / g)
    }
}

/// Denominator of `numer / denom` in lowest terms; positive whenever
/// `denom != 0`.
pub open spec fn red_denom(numer: int, denom: int) -> int {
    let g = gcd(abs_int(numer) as nat, abs_int(denom) as nat) as int;
    abs_int(denom) / g
}

/// The support window for a reduced ratio `numer / denom`: the ratio is
/// positive, at most 16, and at least 1/16 (stated as ceiling bounds on the
/// ratio and its reciprocal, which for positive fractions reduce to these
/// products).
pub open spec fn supported_pair(numer: int, denom: int) -> bool {
    &&& 1 <= numer
    &&& 1 <= denom
    &&& numer <= 16 * denom
    &&& denom <= 16 * numer
}

/// The support window for the windowed-sinc path: besides the general window,
/// the reduced numerator must stay small enough to bound the per-denominator
/// coefficient table.
pub open spec fn sinc_supported_pair(numer: int, denom: int) -> bool {
    supported_pair(numer, denom) && numer <= 1024
}

/// A conversion ratio `numer / denom`, output rate over input rate.
///
/// Values built by the library's constructors are always in lowest terms with
/// both parts positive.
#[derive(Clone, Copy, PartialEq, Eq, Structural, Debug)]
pub struct Ratio {
    pub numer: i64,
    pub denom: i64,
}

impl Ratio {
    /// `self` is `numer / denom` brought to lowest terms.
    pub open spec fn is_reduction_of(&self, numer: int, denom: int) -> bool {
        &&& self.numer as int == red_numer(numer, denom)
        &&& self.denom as int == red_denom(numer, denom)
    }

    /// The ratio lies in the supported window `[1/16, 16]`.
    pub open spec fn supported_spec(&self) -> bool {
        supported_pair(self.numer as int, self.denom as int)
    }

    /// The ratio is supported for the windowed-sinc path.
    pub open spec fn sinc_supported_spec(&self) -> bool {
        sinc_supported_pair(self.numer as int, self.denom as int)
    }

    /// Whether the ratio lies in the supported window `[1/16, 16]`.
    pub fn is_supported(&self) -> (r: bool)
        ensures
            r == self.supported_spec(),
    {
        1 <= self.numer && 1 <= self.denom && (self.numer as i128) <= 16 * (self.denom as i128)
            && (self.denom as i128) <= 16 * (self.numer as i128)
    }

    /// Whether the ratio is supported for the windowed-sinc path.
    pub fn is_sinc_supported(&self) -> (r: bool)
        ensures
            r == self.sinc_supported_spec(),
    {
        self.is_supported() && self.numer <= 1024
    }

    /// Bring `numer / denom` to lowest terms.
    ///
    /// Relies on `num_rational::Ratio::<i64>::new`, which divides both parts
    /// by their greatest common divisor and moves the sign to the numerator,
    /// leaving the denominator positive.
    #[verifier::external_body]
    pub fn reduced(numer: i64, denom: i64) -> (r: Ratio)
        requires
            denom != 0,
            numer != i64::MIN,
            denom != i64::MIN,
        ensures
            r.is_reduction_of(numer as int, denom as int),
    {
        let reduced = num_rational::Rational64::new(numer, denom);
        Ratio { numer: *reduced.numer(), denom: *reduced.denom() }
    }

    /// Build a supported ratio from a fraction of integers.
    ///
    /// A zero part is rejected as an invalid parameter; a fraction outside
    /// the supported window is rejected as an unsupported ratio.
    pub fn try_from_integers(numer: i64, denom: i64) -> (r: Result<Ratio, Error>)
        requires
            numer != i64::MIN,
            denom != i64::MIN,
        ensures
            (numer == 0 || denom == 0) ==> r == Err::<Ratio, Error>(Error::InvalidParam),
            (numer != 0 && denom != 0) ==> match r {
                Ok(ratio) => {
                    &&& ratio.is_reduction_of(numer as int, denom as int)
                    &&& ratio.supported_spec()
                },
                Err(e) => {
                    &&& e == Error::UnsupportedRatio
                    &&& !supported_pair(
                        red_numer(numer as int, denom as int),
                        red_denom(numer as int, denom as int),
                    )
                },
            },
    {
        if numer == 0 || denom == 0 {
            return Err(Error::InvalidParam);
        }
        let ratio = Ratio::reduced(numer, denom);
        if ratio.is_supported() {
            Ok(ratio)
        } else {
            Err(Error::UnsupportedRatio)
        }
    }
}

} // verus!
