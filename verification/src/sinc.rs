//! Windowed-sinc interpolation converter.
//!
//! A plan (`Manager`) fixes the conversion ratio and the FIR filter design:
//! the filter order, the sub-sample quantization, the cutoff, and the
//! latency.  The design layer works on exact fractions: fractional
//! parameters are given in millionths (micro-units), the ratio as a reduced
//! fraction, and the irrational constant `2.285 * pi` of the Kaiser order
//! formula is fixed as a single fraction, so every derived quantity is a
//! deterministic integer.  Evaluating the window and the sinc on machine
//! numbers — and summing the taps — is left to the embedding application.

use vstd::prelude::*;

use crate::Error;
use crate::ratio::abs_int;
use crate::ratio::red_denom;
use crate::ratio::red_numer;
use crate::ratio::sinc_supported_pair;
use crate::ratio::Ratio;

verus! {

pub const MIN_ORDER: u32 = 1;

pub const MAX_ORDER: u32 = 2048;

pub const MIN_QUAN: u32 = 1;

pub const MAX_QUAN: u32 = 16384;

/// Attenuations, widths, cutoffs and window betas are given in millionths:
/// an attenuation of 72 dB is `72_000_000`, a transition width of 0.01 is
/// `10_000`.
pub const MIN_ATTEN_MICRO: i64 = 12000000;

pub const MAX_ATTEN_MICRO: i64 = 180000000;

pub const MIN_BETA_MICRO: i64 = 0;

pub const MAX_BETA_MICRO: i64 = 20000000;

pub const MIN_CUTOFF_MICRO: i64 = 10000;

pub const MAX_CUTOFF_MICRO: i64 = 1000000;

pub const MIN_TRANS_MICRO: i64 = 10000;

pub const MAX_TRANS_MICRO: i64 = 1000000;

/// The constant `2.285 * pi` of the Kaiser order formula, fixed as the
/// fraction `KAISER_SLOPE_NUM / KAISER_SLOPE_DEN`.
pub const KAISER_SLOPE_NUM: u128 = 7178539213452677;

pub const KAISER_SLOPE_DEN: u128 = 1000000000000000;

/// Ceiling of `num / den`, for positive `den`.
pub open spec fn ceil_div(num: int, den: int) -> int {
    (num + den - 1) / den
}

/// Numerator of `min(ratio, 1)` for the reduced ratio `rn / rd`.
pub open spec fn min_one_numer(rn: int, rd: int) -> int {
    if rn >= rd {
        1
    } else {
        rn
    }
}

/// Denominator of `min(ratio, 1)` for the reduced ratio `rn / rd`.
pub open spec fn min_one_denom(rn: int, rd: int) -> int {
    if rn >= rd {
        1
    } else {
        rd
    }
}

/// The filter order derived from attenuation and transition width:
/// `ceil((atten - 8) / (2.285 * pi * trans_width * min(ratio, 1)))`,
/// evaluated over exact fractions of the micro-unit parameters.
pub open spec fn order_formula(rn: int, rd: int, atten_micro: int, trans_micro: int) -> int {
    let mn = min_one_numer(rn, rd);
    let md = min_one_denom(rn, rd);
    ceil_div(
        (atten_micro - 8000000) * (KAISER_SLOPE_DEN as int) * md,
        (KAISER_SLOPE_NUM as int) * trans_micro * mn,
    )
}

/// The cutoff `min(ratio, 1) * (1 - trans_width / 2)` in micro-units,
/// rounded to the nearest.
pub open spec fn cutoff_from_width(rn: int, rd: int, trans_micro: int) -> int {
    let mn = min_one_numer(rn, rd);
    let md = min_one_denom(rn, rd);
    (2 * mn * (2000000 - trans_micro) + 2 * md) / (4 * md)
}

/// The cutoff reached when the transition width is in turn derived from a
/// given order: `min(ratio, 1) * (1 - trans_width(order) / 2)` in
/// micro-units, rounded to the nearest.  The `min(ratio, 1)` factor of the
/// width cancels, leaving `min(ratio, 1) - (atten - 8) / (2 * 2.285 * pi *
/// order)`.
pub open spec fn cutoff_from_order(rn: int, rd: int, atten_micro: int, order: int) -> int {
    let mn = min_one_numer(rn, rd);
    let md = min_one_denom(rn, rd);
    let p = 2000000 * (KAISER_SLOPE_NUM as int) * order * mn - (atten_micro - 8000000) * (
    KAISER_SLOPE_DEN as int) * md;
    let q = 2 * (KAISER_SLOPE_NUM as int) * order * md;
    (2 * p + q) / (2 * q)
}

/// The latency of the designed filter: `round(ratio * order / 2)` for the
/// reduced ratio `rn / rd`, rounding half up.
pub open spec fn latency_formula(rn: int, rd: int, order: int) -> int {
    (rn * order + rd) / (2 * rd)
}

/// The transition width used by the sample-rate constructor, in
/// micro-units: `(min_rate - 2 * pass_freq) / min_rate`, clamped at zero
/// and rounded to the nearest.
pub open spec fn trans_width_from_rates(old_sr: int, new_sr: int, pass_freq: int) -> int {
    let min_sr = if new_sr <= old_sr {
        new_sr
    } else {
        old_sr
    };
    let diff = if 2 * pass_freq >= min_sr {
        0
    } else {
        min_sr - 2 * pass_freq
    };
    (2000000 * diff + min_sr) / (2 * min_sr)
}

/// An immutable plan: the validated ratio and filter design.  Converters
/// minted from one plan share the same design.
#[derive(Clone, Copy)]
pub struct Manager {
    pub ratio: Ratio,
    pub order: u32,
    pub quan: u32,
    pub latency: usize,
    pub cutoff_micro: i64,
}

/// Well-formedness of a plan: every parameter sits in its supported range
/// and the latency is the one determined by the ratio and the order.
pub open spec fn manager_wf(m: Manager) -> bool {
    &&& m.ratio.sinc_supported_spec()
    &&& 1 <= m.order <= 2048
    &&& 1 <= m.quan <= 16384
    &&& m.latency as int == latency_formula(m.ratio.numer as int, m.ratio.denom as int, m.order as int)
    &&& 10000 <= m.cutoff_micro <= 1000000
}

/// The outcome of `Manager::with_raw`, as a function of its arguments.
pub open spec fn spec_with_raw(
    rn: int,
    rd: int,
    quan: int,
    order: int,
    beta_micro: int,
    cutoff_micro: int,
) -> Result<Manager, Error> {
    let n = red_numer(rn, rd);
    let d = red_denom(rn, rd);
    if !sinc_supported_pair(n, d) {
        Err(Error::UnsupportedRatio)
    } else if !(1 <= quan <= 16384) || !(1 <= order <= 2048) || !(0 <= beta_micro <= 20000000)
        || !(10000 <= cutoff_micro <= 1000000) {
        Err(Error::InvalidParam)
    } else {
        Ok(
            Manager {
                ratio: Ratio { numer: n as i64, denom: d as i64 },
                order: order as u32,
                quan: quan as u32,
                latency: latency_formula(n, d, order) as usize,
                cutoff_micro: cutoff_micro as i64,
            },
        )
    }
}

/// The outcome of `Manager::new`, as a function of its arguments.
pub open spec fn spec_new(
    rn: int,
    rd: int,
    atten_micro: int,
    quan: int,
    trans_micro: int,
) -> Result<Manager, Error> {
    let n = red_numer(rn, rd);
    let d = red_denom(rn, rd);
    if !sinc_supported_pair(n, d) {
        Err(Error::UnsupportedRatio)
    } else if !(12000000 <= atten_micro <= 180000000) || !(1 <= quan <= 16384) || !(10000
        <= trans_micro <= 1000000) {
        Err(Error::InvalidParam)
    } else {
        let order = order_formula(n, d, atten_micro, trans_micro);
        let cutoff = cutoff_from_width(n, d, trans_micro);
        if !(1 <= order <= 2048) || !(10000 <= cutoff <= 1000000) {
            Err(Error::InvalidParam)
        } else {
            Ok(
                Manager {
                    ratio: Ratio { numer: n as i64, denom: d as i64 },
                    order: order as u32,
                    quan: quan as u32,
                    latency: latency_formula(n, d, order) as usize,
                    cutoff_micro: cutoff as i64,
                },
            )
        }
    }
}

/// The outcome of `Manager::with_order`, as a function of its arguments.
pub open spec fn spec_with_order(
    rn: int,
    rd: int,
    atten_micro: int,
    quan: int,
    order: int,
) -> Result<Manager, Error> {
    let n = red_numer(rn, rd);
    let d = red_denom(rn, rd);
    if !sinc_supported_pair(n, d) {
        Err(Error::UnsupportedRatio)
    } else if !(12000000 <= atten_micro <= 180000000) || !(1 <= quan <= 16384) || !(1 <= order
        <= 2048) {
        Err(Error::InvalidParam)
    } else {
        let cutoff = cutoff_from_order(n, d, atten_micro, order);
        if !(10000 <= cutoff <= 1000000) {
            Err(Error::InvalidParam)
        } else {
            Ok(
                Manager {
                    ratio: Ratio { numer: n as i64, denom: d as i64 },
                    order: order as u32,
                    quan: quan as u32,
                    latency: latency_formula(n, d, order) as usize,
                    cutoff_micro: cutoff as i64,
                },
            )
        }
    }
}

/// The outcome of `Manager::with_sample_rate`, as a function of its
/// arguments.
pub open spec fn spec_with_sample_rate(
    old_sr: int,
    new_sr: int,
    atten_micro: int,
    quan: int,
    pass_freq: int,
) -> Result<Manager, Error> {
    if old_sr == 0 || new_sr == 0 {
        Err(Error::InvalidParam)
    } else {
        let n = red_numer(new_sr, old_sr);
        let d = red_denom(new_sr, old_sr);
        if !sinc_supported_pair(n, d) {
            Err(Error::UnsupportedRatio)
        } else {
            spec_new(
                new_sr,
                old_sr,
                atten_micro,
                quan,
                trans_width_from_rates(old_sr, new_sr, pass_freq),
            )
        }
    }
}

/// For nonnegative `x` and positive `d`, the quotient lies between 0 and
/// `x`.
proof fn lemma_div_le(x: int, d: int)
    requires
        0 <= x,
        1 <= d,
    ensures
        0 <= x / d <= x,
{
    vstd::arithmetic::div_mod::lemma_fundamental_div_mod(x, d);
    assert(0 <= x / d) by (nonlinear_arith)
        requires
            d * (x / d) + x % d == x,
            0 <= x % d < d,
            1 <= d,
            0 <= x,
    ;
    assert(x / d <= x) by (nonlinear_arith)
        requires
            d * (x / d) + x % d == x,
            0 <= x % d < d,
            1 <= d,
            0 <= x / d,
    ;
}

/// If `x >= b * d` for positive `d` and nonnegative `b`, the quotient is at
/// least `b`.
proof fn lemma_div_lower(x: int, d: int, b: int)
    requires
        1 <= d,
        0 <= b,
        b * d <= x,
    ensures
        b <= x / d,
{
    vstd::arithmetic::div_mod::lemma_fundamental_div_mod(x, d);
    assert(b <= x / d) by (nonlinear_arith)
        requires
            d * (x / d) + x % d == x,
            0 <= x % d < d,
            1 <= d,
            0 <= b,
            b * d <= x,
    ;
}

/// If `x <= b * d` for positive `d`, the quotient is at most `b`.
proof fn lemma_div_bound(x: int, d: int, b: int)
    requires
        0 <= x,
        1 <= d,
        0 <= b,
        x <= b * d,
    ensures
        x / d <= b,
{
    vstd::arithmetic::div_mod::lemma_fundamental_div_mod(x, d);
    assert(x / d <= b) by (nonlinear_arith)
        requires
            d * (x / d) + x % d == x,
            0 <= x % d < d,
            1 <= d,
            0 <= b,
            x <= b * d,
    ;
}

impl Manager {
    /// Compute the latency field for a validated design.
    fn latency_of(ratio: Ratio, order: u32) -> (r: usize)
        requires
            ratio.sinc_supported_spec(),
            1 <= order <= 2048,
        ensures
            r as int == latency_formula(ratio.numer as int, ratio.denom as int, order as int),
    {
        let rn = ratio.numer as u64;
        let rd = ratio.denom as u64;
        let ord = order as u64;
        proof {
            assert(rn * ord <= 1024 * 2048) by (nonlinear_arith)
                requires
                    rn <= 1024,
                    ord <= 2048,
            ;
            lemma_div_bound((rn * ord + rd) as int, (2 * rd) as int, 1056768);
        }
        ((rn * ord + rd) / (2 * rd)) as usize
    }

    /// Build a plan from fully precomputed design parameters: the ratio as a
    /// fraction of integers, the quantization, the filter order, the Kaiser
    /// window beta and the cutoff (the last two in micro-units).
    pub fn with_raw(
        ratio_numer: i64,
        ratio_denom: i64,
        quan: u32,
        order: u32,
        kaiser_beta_micro: i64,
        cutoff_micro: i64,
    ) -> (r: Result<Manager, Error>)
        requires
            ratio_numer != i64::MIN,
            1 <= ratio_denom,
        ensures
            r == spec_with_raw(
                ratio_numer as int,
                ratio_denom as int,
                quan as int,
                order as int,
                kaiser_beta_micro as int,
                cutoff_micro as int,
            ),
            r matches Ok(m) ==> manager_wf(m),
    {
        let ratio = Ratio::reduced(ratio_numer, ratio_denom);
        if !ratio.is_sinc_supported() {
            return Err(Error::UnsupportedRatio);
        }
        if quan < MIN_QUAN || quan > MAX_QUAN || order < MIN_ORDER || order > MAX_ORDER
            || kaiser_beta_micro < MIN_BETA_MICRO || kaiser_beta_micro > MAX_BETA_MICRO
            || cutoff_micro < MIN_CUTOFF_MICRO || cutoff_micro > MAX_CUTOFF_MICRO {
            return Err(Error::InvalidParam);
        }
        let latency = Self::latency_of(ratio, order);
        Ok(Manager { ratio, order, quan, latency, cutoff_micro })
    }

    /// Derive the filter order for the reduced, supported ratio and
    /// validated parameters.
    fn order_of(ratio: Ratio, atten_micro: i64, trans_micro: i64) -> (r: u64)
        requires
            ratio.sinc_supported_spec(),
            12000000 <= atten_micro <= 180000000,
            10000 <= trans_micro <= 1000000,
        ensures
            r as int == order_formula(
                ratio.numer as int,
                ratio.denom as int,
                atten_micro as int,
                trans_micro as int,
            ),
            1 <= r,
    {
        let (mn, md): (u128, u128) = if ratio.numer >= ratio.denom {
            (1, 1)
        } else {
            (ratio.numer as u128, ratio.denom as u128)
        };
        let a = (atten_micro - 8000000) as u128;
        proof {
            assert(a * KAISER_SLOPE_DEN <= 172000000 * 1000000000000000) by (nonlinear_arith)
                requires
                    a <= 172000000,
            ;
            assert(a * KAISER_SLOPE_DEN * md <= 172000000000000000000000 * 16384)
                by (nonlinear_arith)
                requires
                    a * KAISER_SLOPE_DEN <= 172000000000000000000000,
                    md <= 16384,
            ;
            assert(KAISER_SLOPE_NUM * (trans_micro as u128) <= KAISER_SLOPE_NUM * 1000000)
                by (nonlinear_arith)
                requires
                    trans_micro as u128 <= 1000000,
            ;
            assert(KAISER_SLOPE_NUM * (trans_micro as u128) * mn <= 7178539213452677000000 * 1024)
                by (nonlinear_arith)
                requires
                    KAISER_SLOPE_NUM * (trans_micro as u128) <= 7178539213452677000000,
                    mn <= 1024,
            ;
            assert(KAISER_SLOPE_NUM * (trans_micro as u128) * mn >= KAISER_SLOPE_NUM * 10000 * 1)
                by (nonlinear_arith)
                requires
                    trans_micro as u128 >= 10000,
                    mn >= 1,
            ;
            assert(a * KAISER_SLOPE_DEN * md >= 1) by (nonlinear_arith)
                requires
                    a >= 1,
                    md >= 1,
            ;
        }
        let num = a * KAISER_SLOPE_DEN * md;
        let den = KAISER_SLOPE_NUM * (trans_micro as u128) * mn;
        let ord = (num + den - 1) / den;
        proof {
            assert(num + den - 1 >= den);
            vstd::arithmetic::div_mod::lemma_div_is_ordered(
                den as int,
                (num + den - 1) as int,
                den as int,
            );
            vstd::arithmetic::div_mod::lemma_div_by_self(den as int);
            lemma_div_bound(
                (num + den - 1) as int,
                den as int,
                100000000,
            );
            assert(100000000 * den >= num + den - 1) by (nonlinear_arith)
                requires
                    den >= 71785392134526770000,
                    num <= 2818048000000000000000000000,
            ;
        }
        ord as u64
    }

    /// Build a plan from attenuation, quantization and transition width (the
    /// fractional two in micro-units); the filter order is derived.
    pub fn new(
        ratio_numer: i64,
        ratio_denom: i64,
        atten_micro: i64,
        quan: u32,
        trans_width_micro: i64,
    ) -> (r: Result<Manager, Error>)
        requires
            ratio_numer != i64::MIN,
            1 <= ratio_denom,
        ensures
            r == spec_new(
                ratio_numer as int,
                ratio_denom as int,
                atten_micro as int,
                quan as int,
                trans_width_micro as int,
            ),
            r matches Ok(m) ==> manager_wf(m),
    {
        let ratio = Ratio::reduced(ratio_numer, ratio_denom);
        if !ratio.is_sinc_supported() {
            return Err(Error::UnsupportedRatio);
        }
        if atten_micro < MIN_ATTEN_MICRO || atten_micro > MAX_ATTEN_MICRO || quan < MIN_QUAN
            || quan > MAX_QUAN || trans_width_micro < MIN_TRANS_MICRO || trans_width_micro
            > MAX_TRANS_MICRO {
            return Err(Error::InvalidParam);
        }
        let order = Self::order_of(ratio, atten_micro, trans_width_micro);
        let cutoff = Self::cutoff_of_width(ratio, trans_width_micro);
        if order > (MAX_ORDER as u64) || cutoff < MIN_CUTOFF_MICRO || cutoff > MAX_CUTOFF_MICRO {
            return Err(Error::InvalidParam);
        }
        let order32 = order as u32;
        let latency = Self::latency_of(ratio, order32);
        Ok(Manager { ratio, order: order32, quan, latency, cutoff_micro: cutoff })
    }

    /// Compute the rounded cutoff from the ratio and the transition width.
    fn cutoff_of_width(ratio: Ratio, trans_micro: i64) -> (r: i64)
        requires
            ratio.sinc_supported_spec(),
            10000 <= trans_micro <= 1000000,
        ensures
            r as int == cutoff_from_width(
                ratio.numer as int,
                ratio.denom as int,
                trans_micro as int,
            ),
    {
        let (mn, md): (u64, u64) = if ratio.numer >= ratio.denom {
            (1, 1)
        } else {
            (ratio.numer as u64, ratio.denom as u64)
        };
        let w = trans_micro as u64;
        proof {
            assert(2 * mn * (2000000 - w) <= 4096000000000) by (nonlinear_arith)
                requires
                    mn <= 1024,
                    w <= 2000000,
            ;
            lemma_div_le((2 * mn * (2000000 - w) + 2 * md) as int, (4 * md) as int);
        }
        let num = 2 * mn * (2000000 - w) + 2 * md;
        let r = num / (4 * md);
        r as i64
    }

    /// Build a plan from attenuation, quantization and a given filter order
    /// (the attenuation in micro-units); the transition width, and with it
    /// the cutoff, is derived.
    pub fn with_order(
        ratio_numer: i64,
        ratio_denom: i64,
        atten_micro: i64,
        quan: u32,
        order: u32,
    ) -> (r: Result<Manager, Error>)
        requires
            ratio_numer != i64::MIN,
            1 <= ratio_denom,
        ensures
            r == spec_with_order(
                ratio_numer as int,
                ratio_denom as int,
                atten_micro as int,
                quan as int,
                order as int,
            ),
            r matches Ok(m) ==> manager_wf(m),
    {
        let ratio = Ratio::reduced(ratio_numer, ratio_denom);
        if !ratio.is_sinc_supported() {
            return Err(Error::UnsupportedRatio);
        }
        if atten_micro < MIN_ATTEN_MICRO || atten_micro > MAX_ATTEN_MICRO || quan < MIN_QUAN
            || quan > MAX_QUAN || order < MIN_ORDER || order > MAX_ORDER {
            return Err(Error::InvalidParam);
        }
        let cutoff = Self::cutoff_of_order(ratio, atten_micro, order);
        if cutoff < MIN_CUTOFF_MICRO || cutoff > MAX_CUTOFF_MICRO {
            return Err(Error::InvalidParam);
        }
        let latency = Self::latency_of(ratio, order);
        Ok(Manager { ratio, order, quan, latency, cutoff_micro: cutoff })
    }

    /// Compute the rounded cutoff from the ratio, the attenuation and a
    /// given order.  Values at or below zero are reported as `-1`, which the
    /// callers reject like any out-of-range cutoff.
    fn cutoff_of_order(ratio: Ratio, atten_micro: i64, order: u32) -> (r: i64)
        requires
            ratio.sinc_supported_spec(),
            12000000 <= atten_micro <= 180000000,
            1 <= order <= 2048,
        ensures
            r as int == cutoff_from_order(
                ratio.numer as int,
                ratio.denom as int,
                atten_micro as int,
                order as int,
            ) || (r == -1 && cutoff_from_order(
                ratio.numer as int,
                ratio.denom as int,
                atten_micro as int,
                order as int,
            ) <= 0),
    {
        let (mn, md): (u128, u128) = if ratio.numer >= ratio.denom {
            (1, 1)
        } else {
            (ratio.numer as u128, ratio.denom as u128)
        };
        let a = (atten_micro - 8000000) as u128;
        proof {
            assert(2000000 * KAISER_SLOPE_NUM * (order as u128) <= 2000000 * KAISER_SLOPE_NUM
                * 2048) by (nonlinear_arith)
                requires
                    order as u128 <= 2048,
            ;
            assert(2000000 * KAISER_SLOPE_NUM * (order as u128) * mn <= 29403296810262219980800000
                * 1024) by (nonlinear_arith)
                requires
                    2000000 * KAISER_SLOPE_NUM * (order as u128) <= 29403296810262219980800000,
                    mn <= 1024,
            ;
            assert(a * KAISER_SLOPE_DEN <= 172000000 * 1000000000000000) by (nonlinear_arith)
                requires
                    a <= 172000000,
            ;
            assert(a * KAISER_SLOPE_DEN * md <= 172000000000000000000000 * 16384)
                by (nonlinear_arith)
                requires
                    a * KAISER_SLOPE_DEN <= 172000000000000000000000,
                    md <= 16384,
            ;
            assert(2 * KAISER_SLOPE_NUM * (order as u128) <= 2 * KAISER_SLOPE_NUM * 2048)
                by (nonlinear_arith)
                requires
                    order as u128 <= 2048,
            ;
            assert(2 * KAISER_SLOPE_NUM * (order as u128) * md <= 29403296810262219980800 * 16384)
                by (nonlinear_arith)
                requires
                    2 * KAISER_SLOPE_NUM * (order as u128) <= 29403296810262219980800,
                    md <= 16384,
            ;
            assert(2 * KAISER_SLOPE_NUM * (order as u128) * md >= 2 * KAISER_SLOPE_NUM)
                by (nonlinear_arith)
                requires
                    KAISER_SLOPE_NUM >= 1,
                    order as u128 >= 1,
                    md >= 1,
            ;
        }
        let term1 = 2000000 * KAISER_SLOPE_NUM * (order as u128) * mn;
        let term2 = a * KAISER_SLOPE_DEN * md;
        let q = 2 * KAISER_SLOPE_NUM * (order as u128) * md;
        if term1 <= term2 {
            proof {
                let p = term1 as int - term2 as int;
                let qi = q as int;
                assert(2 * p + qi < 2 * qi);
                vstd::arithmetic::div_mod::lemma_fundamental_div_mod(2 * p + qi, 2 * qi);
                assert((2 * p + qi) / (2 * qi) <= 0) by (nonlinear_arith)
                    requires
                        2 * qi * ((2 * p + qi) / (2 * qi)) + (2 * p + qi) % (2 * qi) == 2 * p + qi,
                        0 <= (2 * p + qi) % (2 * qi) < 2 * qi,
                        2 * p + qi < 2 * qi,
                        qi >= 2,
                ;
            }
            return -1;
        }
        let p = term1 - term2;
        proof {
            assert((2 * p + q) as int <= 10000000000000 * ((2 * q) as int)) by (nonlinear_arith)
                requires
                    p <= 30108975933708513260339200000,
                    q >= 14357078426905354,
            ;
            lemma_div_bound((2 * p + q) as int, (2 * q) as int, 10000000000000);
        }
        let cut = (2 * p + q) / (2 * q);
        cut as i64
    }

    /// Build a plan from the two sample rates, the attenuation (micro-units),
    /// the quantization and the pass-band edge frequency; the transition
    /// width is derived from how much of the narrower band lies above the
    /// pass band.
    pub fn with_sample_rate(old_sr: u32, new_sr: u32, atten_micro: i64, quan: u32, pass_freq: u32) -> (r:
        Result<Manager, Error>)
        ensures
            r == spec_with_sample_rate(
                old_sr as int,
                new_sr as int,
                atten_micro as int,
                quan as int,
                pass_freq as int,
            ),
            r matches Ok(m) ==> manager_wf(m),
    {
        if old_sr == 0 || new_sr == 0 {
            return Err(Error::InvalidParam);
        }
        let ratio = Ratio::reduced(new_sr as i64, old_sr as i64);
        if !ratio.is_sinc_supported() {
            return Err(Error::UnsupportedRatio);
        }
        let min_sr = if new_sr <= old_sr {
            new_sr as u64
        } else {
            old_sr as u64
        };
        let pf2 = 2 * (pass_freq as u64);
        let diff = if pf2 >= min_sr {
            0
        } else {
            min_sr - pf2
        };
        let trans = ((2000000 * diff + min_sr) / (2 * min_sr)) as i64;
        Self::new(new_sr as i64, old_sr as i64, atten_micro, quan, trans)
    }

    /// Start a fluent `Builder` for a plan.
    pub fn builder() -> (r: Builder)
        ensures
            r == (Builder {
                ratio: None,
                order: None,
                quan: None,
                kaiser_beta: None,
                cutoff: None,
                atten: None,
                trans_width: None,
                old_sr: None,
                new_sr: None,
                pass_freq: None,
            }),
    {
        Builder::default()
    }

    /// The number of output samples to discard so that the filter's impulse
    /// response is centred on the first input sample.
    pub fn latency(&self) -> (r: usize)
        ensures
            r == self.latency,
    {
        self.latency
    }

    /// The order of the designed FIR filter.
    pub fn order(&self) -> (r: u32)
        ensures
            r == self.order,
    {
        self.order
    }
}

/// Cloning a plan changes nothing a caller can observe: a copy has the same
/// latency and order as the original.
pub proof fn lemma_clone_observers(m: Manager, c: Manager)
    requires
        c == m,
    ensures
        c.latency == m.latency,
        c.order == m.order,
{
}


/// Fluent accumulator of optional design parameters.  `build` resolves them
/// to one of the four construction modes, in a fixed priority order.
pub struct Builder {
    pub ratio: Option<(i64, i64)>,
    pub order: Option<u32>,
    pub quan: Option<u32>,
    pub kaiser_beta: Option<i64>,
    pub cutoff: Option<i64>,
    pub atten: Option<i64>,
    pub trans_width: Option<i64>,
    pub old_sr: Option<u32>,
    pub new_sr: Option<u32>,
    pub pass_freq: Option<u32>,
}

/// A builder whose stored ratio, if any, is a usable fraction.
pub open spec fn builder_wf(b: Builder) -> bool {
    b.ratio matches Some(rp) ==> rp.0 != i64::MIN && 1 <= rp.1
}

/// The mode dispatch of `Builder::build` once a ratio and a quantization
/// were resolved.
pub open spec fn spec_build_with(rn: int, rd: int, quan: int, b: Builder) -> Result<
    Manager,
    Error,
> {
    if !sinc_supported_pair(red_numer(rn, rd), red_denom(rn, rd)) {
        Err(Error::UnsupportedRatio)
    } else {
        match (b.order, b.kaiser_beta, b.cutoff, b.atten, b.trans_width, b.old_sr, b.new_sr, b.pass_freq) {
            (Some(order), Some(beta), Some(cutoff), _, _, _, _, _) => spec_with_raw(
                rn,
                rd,
                quan,
                order as int,
                beta as int,
                cutoff as int,
            ),
            (_, _, _, Some(atten), Some(tw), _, _, _) => spec_new(
                rn,
                rd,
                atten as int,
                quan,
                tw as int,
            ),
            (Some(order), _, _, Some(atten), _, _, _, _) => spec_with_order(
                rn,
                rd,
                atten as int,
                quan,
                order as int,
            ),
            (_, _, _, Some(atten), _, Some(osr), Some(nsr), Some(pf)) => spec_with_sample_rate(
                osr as int,
                nsr as int,
                atten as int,
                quan,
                pf as int,
            ),
            _ => Err(Error::NotEnoughParam),
        }
    }
}

/// The outcome of `Builder::build`, as a function of the accumulated
/// parameters.
pub open spec fn spec_build(b: Builder) -> Result<Manager, Error> {
    match (b.ratio, b.quan, b.old_sr, b.new_sr) {
        (Some(rp), Some(quan), _, _) => spec_build_with(rp.0 as int, rp.1 as int, quan as int, b),
        (None, Some(quan), Some(osr), Some(nsr)) => if osr == 0 || nsr == 0 {
            Err(Error::InvalidParam)
        } else {
            spec_build_with(nsr as int, osr as int, quan as int, b)
        },
        _ => Err(Error::NotEnoughParam),
    }
}

impl Default for Builder {
    /// A builder with nothing set.
    fn default() -> (r: Self)
        ensures
            r == (Builder {
                ratio: None,
                order: None,
                quan: None,
                kaiser_beta: None,
                cutoff: None,
                atten: None,
                trans_width: None,
                old_sr: None,
                new_sr: None,
                pass_freq: None,
            }),
    {
        Builder {
            ratio: None,
            order: None,
            quan: None,
            kaiser_beta: None,
            cutoff: None,
            atten: None,
            trans_width: None,
            old_sr: None,
            new_sr: None,
            pass_freq: None,
        }
    }
}

impl Builder {
    /// Set the conversion ratio as a fraction of integers.
    pub fn ratio(self, numer: i64, denom: i64) -> (r: Self)
        requires
            numer != i64::MIN,
            1 <= denom,
        ensures
            r == (Builder { ratio: Some((numer, denom)), ..self }),
    {
        Builder { ratio: Some((numer, denom)), ..self }
    }

    /// Set the old and the new sample rate.
    pub fn sample_rate(self, old_sr: u32, new_sr: u32) -> (r: Self)
        ensures
            r == (Builder { old_sr: Some(old_sr), new_sr: Some(new_sr), ..self }),
    {
        Builder { old_sr: Some(old_sr), new_sr: Some(new_sr), ..self }
    }

    /// Set the quantization: the number of sub-sample positions per tap.
    pub fn quantify(self, quan: u32) -> (r: Self)
        ensures
            r == (Builder { quan: Some(quan), ..self }),
    {
        Builder { quan: Some(quan), ..self }
    }

    /// Set the FIR filter order.
    pub fn order(self, order: u32) -> (r: Self)
        ensures
            r == (Builder { order: Some(order), ..self }),
    {
        Builder { order: Some(order), ..self }
    }

    /// Set the Kaiser window beta, in micro-units.
    pub fn kaiser_beta(self, beta_micro: i64) -> (r: Self)
        ensures
            r == (Builder { kaiser_beta: Some(beta_micro), ..self }),
    {
        Builder { kaiser_beta: Some(beta_micro), ..self }
    }

    /// Set the filter cutoff, in micro-units.
    pub fn cutoff(self, cutoff_micro: i64) -> (r: Self)
        ensures
            r == (Builder { cutoff: Some(cutoff_micro), ..self }),
    {
        Builder { cutoff: Some(cutoff_micro), ..self }
    }

    /// Set the stop-band attenuation in micro-decibels.
    pub fn attenuation(self, atten_micro: i64) -> (r: Self)
        ensures
            r == (Builder { atten: Some(atten_micro), ..self }),
    {
        Builder { atten: Some(atten_micro), ..self }
    }

    /// Set the transition band width, in micro-units.
    pub fn trans_width(self, width_micro: i64) -> (r: Self)
        ensures
            r == (Builder { trans_width: Some(width_micro), ..self }),
    {
        Builder { trans_width: Some(width_micro), ..self }
    }

    /// Set the pass band width, in micro-units; the transition width becomes
    /// its complement.
    pub fn pass_width(self, width_micro: i64) -> (r: Self)
        requires
            -1000000000 <= width_micro <= 1000000000,
        ensures
            r == (Builder { trans_width: Some((1000000 - width_micro) as i64), ..self }),
    {
        Builder { trans_width: Some(1000000 - width_micro), ..self }
    }

    /// Set the pass band edge frequency, in hertz.
    pub fn pass_freq(self, freq: u32) -> (r: Self)
        ensures
            r == (Builder { pass_freq: Some(freq), ..self }),
    {
        Builder { pass_freq: Some(freq), ..self }
    }

    /// Resolve the accumulated parameters and build the plan.
    ///
    /// The combinations, in priority order: ratio (or sample rates) and
    /// quantization, plus either {order, kaiser beta, cutoff}, or
    /// {attenuation, transition width}, or {attenuation, order}, or — for
    /// sample rates — {attenuation, pass frequency}.  Anything else is not
    /// enough.
    pub fn build(self) -> (r: Result<Manager, Error>)
        requires
            builder_wf(self),
        ensures
            r == spec_build(self),
            r matches Ok(m) ==> manager_wf(m),
    {
        let (rn, rd, quan): (i64, i64, u32) = match (self.ratio, self.quan, self.old_sr, self.new_sr) {
            (Some(rp), Some(quan), _, _) => (rp.0, rp.1, quan),
            (None, Some(quan), Some(osr), Some(nsr)) => {
                if osr == 0 || nsr == 0 {
                    return Err(Error::InvalidParam);
                }
                (nsr as i64, osr as i64, quan)
            },
            _ => {
                return Err(Error::NotEnoughParam);
            },
        };
        let reduced = Ratio::reduced(rn, rd);
        if !reduced.is_sinc_supported() {
            return Err(Error::UnsupportedRatio);
        }
        match (self.order, self.kaiser_beta, self.cutoff, self.atten, self.trans_width, self.old_sr, self.new_sr, self.pass_freq) {
            (Some(order), Some(beta), Some(cutoff), _, _, _, _, _) => Manager::with_raw(
                rn,
                rd,
                quan,
                order,
                beta,
                cutoff,
            ),
            (_, _, _, Some(atten), Some(tw), _, _, _) => Manager::new(rn, rd, atten, quan, tw),
            (Some(order), _, _, Some(atten), _, _, _, _) => Manager::with_order(
                rn,
                rd,
                atten,
                quan,
                order,
            ),
            (_, _, _, Some(atten), _, Some(osr), Some(nsr), Some(pf)) => Manager::with_sample_rate(
                osr,
                nsr,
                atten,
                quan,
                pf,
            ),
            _ => Err(Error::NotEnoughParam),
        }
    }
}


/// One filter tap of an output sample: the window sample paired with the
/// position of its filter weight in the half-symmetric table — the cell
/// `index` and the fraction `frac_num / frac_den` of the way toward cell
/// `index + 1`.
pub struct Tap<T> {
    pub sample: T,
    pub index: u64,
    pub frac_num: u64,
    pub frac_den: u64,
}

/// The mathematical state of a streaming converter: the sample window
/// (oldest first), the step `numer / denom` of an input period, the integer
/// phase `pos` in units of `1 / denom`, and the filter geometry.
pub struct Model<T> {
    pub suspended: bool,
    pub buf: Seq<T>,
    pub numer: int,
    pub denom: int,
    pub pos: int,
    pub quan: int,
    pub order: int,
    pub hlen: int,
}

/// Streaming state of the windowed-sinc converter.
pub struct Converter<T> {
    pub suspended: bool,
    pub buf: Vec<T>,
    pub numer: u64,
    pub denom: u64,
    pub pos: u64,
    pub quan: u64,
    pub order: u64,
    pub hlen: u64,
}

impl<T> View for Converter<T> {
    type V = Model<T>;

    open spec fn view(&self) -> Model<T> {
        Model {
            suspended: self.suspended,
            buf: self.buf@,
            numer: self.numer as int,
            denom: self.denom as int,
            pos: self.pos as int,
            quan: self.quan as int,
            order: self.order as int,
            hlen: self.hlen as int,
        }
    }
}

/// Structural invariant of a converter: the step parts stay within the
/// supported window, the phase never runs more than one step past the
/// denominator, the window spans `order + 1` samples, and `hlen` is the
/// length of the designed half-table.
pub open spec fn converter_wf<T>(m: Model<T>) -> bool {
    &&& 1 <= m.numer <= 16384
    &&& 1 <= m.denom <= 1024
    &&& 0 <= m.pos < m.denom + m.numer
    &&& 1 <= m.quan <= 16384
    &&& 1 <= m.order <= 2048
    &&& m.hlen == m.order * m.quan / 2 + 1
    &&& m.buf.len() == m.order + 1
}

/// Distance from the output instant to window index `i`, in
/// half-denominator units: `|pos / denom - (i - order / 2)|` times
/// `2 * denom`.
pub open spec fn tap_dist<T>(m: Model<T>, i: int) -> int {
    abs_int(2 * m.pos - (2 * i - m.order) * m.denom)
}

/// Whether the weight of window index `i` falls inside the table; beyond it
/// the impulse response is zero and the tap is left out.
pub open spec fn tap_included<T>(m: Model<T>, i: int) -> bool {
    (m.quan * tap_dist(m, i)) / (2 * m.denom) + 1 < m.hlen
}

/// The tap of window index `i`: its sample and the exact position
/// `index + frac_num / frac_den` of its weight in the table.
pub open spec fn tap_at<T>(m: Model<T>, i: int) -> Tap<T> {
    let u = m.quan * tap_dist(m, i);
    let den = 2 * m.denom;
    Tap {
        sample: m.buf[i],
        index: (u / den) as u64,
        frac_num: (u % den) as u64,
        frac_den: den as u64,
    }
}

/// The taps of the first `k` window indices that fall inside the table.
pub open spec fn taps_upto<T>(m: Model<T>, k: int) -> Seq<Tap<T>>
    decreases k,
{
    if k <= 0 {
        Seq::empty()
    } else if tap_included(m, k - 1) {
        taps_upto(m, k - 1).push(tap_at(m, k - 1))
    } else {
        taps_upto(m, k - 1)
    }
}

/// The taps of one output sample at the current phase: the output is the
/// sum, over these taps, of the sample weighted by the table value
/// interpolated at `index + frac_num / frac_den`.
pub open spec fn taps<T>(m: Model<T>) -> Seq<Tap<T>> {
    taps_upto(m, m.order + 1)
}

/// One pull on the converter, as a mathematical transition: from state `m`
/// with `input[cur..]` still unread, to the next state, the new read
/// position, and either the taps of one output or `None` when the input ran
/// dry.
pub open spec fn step<T>(m: Model<T>, input: Seq<T>, cur: int) -> (Model<T>, int, Option<
    Seq<Tap<T>>,
>)
    decreases input.len() - cur,
{
    if m.suspended {
        if 0 <= cur < input.len() {
            let m1 = Model { suspended: false, buf: m.buf.remove(0).push(input[cur]), ..m };
            step(m1, input, cur + 1)
        } else {
            (m, cur, None)
        }
    } else if m.pos >= m.denom {
        if 0 <= cur < input.len() {
            let m1 = Model {
                buf: m.buf.remove(0).push(input[cur]),
                pos: m.pos - m.denom,
                ..m
            };
            step(m1, input, cur + 1)
        } else {
            (Model { suspended: true, pos: m.pos - m.denom, ..m }, cur, None)
        }
    } else {
        (Model { pos: m.pos + m.numer, ..m }, cur, Some(taps(m)))
    }
}

/// The state a freshly minted converter starts in: window filled with
/// `fill`, phase zero, step equal to the reciprocal of the conversion
/// ratio, geometry taken from the plan.
pub open spec fn fresh_model<T>(m: Manager, fill: T) -> Model<T> {
    Model {
        suspended: false,
        buf: Seq::new((m.order + 1) as nat, |i: int| fill),
        numer: m.ratio.denom as int,
        denom: m.ratio.numer as int,
        pos: 0,
        quan: m.quan as int,
        order: m.order as int,
        hlen: m.order as int * m.quan as int / 2 + 1,
    }
}

impl<T: Copy> Converter<T> {
    /// Pull the taps of the next output sample, reading input samples from
    /// `input[*cursor..]` as needed; `taps_out` receives the taps when an
    /// output is due.
    ///
    /// Returns `false` when the input ran dry; the converter then suspends
    /// and a later call may resume with more input.  The call performs
    /// exactly the transition `step` describes.
    pub fn next_sample(&mut self, input: &Vec<T>, cursor: &mut usize, taps_out: &mut Vec<Tap<T>>) -> (got:
        bool)
        requires
            converter_wf(old(self)@),
            *old(cursor) <= input@.len(),
        ensures
            converter_wf(final(self)@),
            *old(cursor) <= *final(cursor) <= input@.len(),
            step(old(self)@, input@, *old(cursor) as int).0 == final(self)@,
            step(old(self)@, input@, *old(cursor) as int).1 == *final(cursor) as int,
            step(old(self)@, input@, *old(cursor) as int).2 == (if got {
                Some(final(taps_out)@)
            } else {
                None::<Seq<Tap<T>>>
            }),
    {
        let ghost m0 = self@;
        let ghost cur0 = *cursor as int;
        if self.suspended {
            if *cursor < input.len() {
                let s = input[*cursor];
                *cursor += 1;
                self.buf.remove(0);
                self.buf.push(s);
                self.suspended = false;
            } else {
                return false;
            }
        }
        while self.pos >= self.denom
            invariant
                converter_wf(self@),
                !self@.suspended,
                *cursor <= input@.len(),
                step(m0, input@, cur0) == step(self@, input@, *cursor as int),
                cur0 <= *cursor as int,
                m0 == old(self)@,
                cur0 == *old(cursor) as int,
            decreases input@.len() - *cursor as int,
        {
            self.pos = self.pos - self.denom;
            if *cursor < input.len() {
                let s = input[*cursor];
                *cursor += 1;
                self.buf.remove(0);
                self.buf.push(s);
            } else {
                self.suspended = true;
                return false;
            }
        }
        taps_out.clear();
        let ghost me = self@;
        let count = self.buf.len();
        let mut i: usize = 0;
        while i < count
            invariant
                converter_wf(self@),
                self@ == me,
                me.pos < me.denom,
                count == self.buf.len(),
                i <= count,
                taps_out@ == taps_upto(me, i as int),
                step(m0, input@, cur0) == step(me, input@, *cursor as int),
                cur0 <= *cursor as int <= input@.len(),
                m0 == old(self)@,
                cur0 == *old(cursor) as int,
            decreases count - i,
        {
            proof {
                assert((2 * (i as int) - me.order) * me.denom <= 2048 * 1024
                    && (2 * (i as int) - me.order) * me.denom >= -2048 * 1024) by (nonlinear_arith)
                    requires
                        -2048 <= 2 * (i as int) - me.order <= 2048,
                        1 <= me.denom <= 1024,
                ;
            }
            let two_pos = 2 * self.pos;
            let center = 2 * (i as i64) - (self.order as i64);
            let proj = center * (self.denom as i64);
            let diff = (two_pos as i64) - proj;
            let dabs = if diff < 0 {
                (-diff) as u64
            } else {
                diff as u64
            };
            proof {
                assert(self.quan * dabs <= 16384 * 2100000) by (nonlinear_arith)
                    requires
                        self.quan <= 16384,
                        dabs <= 2100000,
                ;
            }
            let u = self.quan * dabs;
            let den = 2 * self.denom;
            let idx = u / den;
            let frac = u % den;
            proof {
                assert(dabs as int == tap_dist(me, i as int));
                assert(idx as int == (me.quan * tap_dist(me, i as int)) / (2 * me.denom));
                assert(frac as int == (me.quan * tap_dist(me, i as int)) % (2 * me.denom));
            }
            if idx + 1 < self.hlen {
                let t = Tap { sample: self.buf[i], index: idx, frac_num: frac, frac_den: den };
                taps_out.push(t);
                proof {
                    assert(tap_included(me, i as int));
                    assert(t == tap_at(me, i as int));
                }
            } else {
                proof {
                    assert(!tap_included(me, i as int));
                }
            }
            i += 1;
        }
        proof {
            assert(taps_out@ == taps(me));
        }
        self.pos = self.pos + self.numer;
        true
    }
}

impl Manager {
    /// Mint a fresh streaming converter for this plan, with its window
    /// pre-filled with `fill` (zero, for audio samples).  Converters minted
    /// from equal plans start in the same state.
    pub fn converter<T: Copy>(&self, fill: T) -> (c: Converter<T>)
        requires
            manager_wf(*self),
        ensures
            c@ == fresh_model::<T>(*self, fill),
            converter_wf(c@),
    {
        let taps_count = (self.order as usize) + 1;
        let mut buf: Vec<T> = Vec::new();
        while buf.len() < taps_count
            invariant
                buf@.len() <= taps_count,
                forall|j: int| 0 <= j < buf@.len() ==> buf@[j] == fill,
            decreases taps_count - buf@.len(),
        {
            buf.push(fill);
        }
        proof {
            assert(buf@ =~= Seq::new(taps_count as nat, |i: int| fill));
            assert((self.order as u64) * (self.quan as u64) <= 2048 * 16384) by (nonlinear_arith)
                requires
                    self.order as u64 <= 2048,
                    self.quan as u64 <= 16384,
            ;
        }
        Converter {
            suspended: false,
            buf,
            numer: self.ratio.denom as u64,
            denom: self.ratio.numer as u64,
            pos: 0,
            quan: self.quan as u64,
            order: self.order as u64,
            hlen: (self.order as u64) * (self.quan as u64) / 2 + 1,
        }
    }
}


/// Iterate `n` pulls from state `m`, collecting the tap lists produced.
pub open spec fn run<T>(m: Model<T>, input: Seq<T>, cur: int, n: nat) -> (Model<T>, int, Seq<
    Seq<Tap<T>>,
>)
    decreases n,
{
    if n == 0 {
        (m, cur, Seq::empty())
    } else {
        let (m1, cur1, out) = step(m, input, cur);
        let (m2, cur2, outs) = run(m1, input, cur1, (n - 1) as nat);
        match out {
            Some(t) => (m2, cur2, seq![t] + outs),
            None => (m2, cur2, outs),
        }
    }
}

/// A run of `n` pulls produces at most `n` outputs.
pub proof fn lemma_run_len<T>(m: Model<T>, input: Seq<T>, cur: int, n: nat)
    ensures
        run(m, input, cur, n).2.len() <= n,
    decreases n,
{
    if n > 0 {
        let (m1, cur1, out) = step(m, input, cur);
        lemma_run_len(m1, input, cur1, (n - 1) as nat);
    }
}

/// Runs compose: pulling `j + k` times is pulling `j` times and then `k`
/// more, with the outputs in sequence.
pub proof fn lemma_run_compose<T>(m: Model<T>, input: Seq<T>, cur: int, j: nat, k: nat)
    ensures
        ({
            let (mj, curj, outsj) = run(m, input, cur, j);
            let (mk, curk, outsk) = run(mj, input, curj, k);
            run(m, input, cur, (j + k) as nat) == (mk, curk, outsj + outsk)
        }),
    decreases j,
{
    let (mj, curj, outsj) = run(m, input, cur, j);
    let (mk, curk, outsk) = run(mj, input, curj, k);
    if j == 0 {
        assert(outsj + outsk =~= outsk);
    } else {
        let (m1, cur1, out) = step(m, input, cur);
        lemma_run_compose(m1, input, cur1, (j - 1) as nat, k);
        let (mj1, curj1, outsj1) = run(m1, input, cur1, (j - 1) as nat);
        assert((j - 1 + k) as nat + 1 == (j + k) as nat);
        match out {
            Some(t) => {
                assert(seq![t] + (outsj1 + outsk) =~= (seq![t] + outsj1) + outsk);
            },
            None => {},
        }
    }
}

/// Exact phase accounting of one output-producing pull of a running
/// converter: the phase advances by `numer`, and every input sample
/// consumed pays `denom` of it.
pub proof fn lemma_step_accounting<T>(m: Model<T>, input: Seq<T>, cur: int)
    requires
        converter_wf(m),
        !m.suspended,
        step(m, input, cur).2 is Some,
    ensures
        ({
            let (m1, cur1, out) = step(m, input, cur);
            &&& converter_wf(m1)
            &&& !m1.suspended
            &&& m1.numer == m.numer
            &&& m1.denom == m.denom
            &&& m1.quan == m.quan
            &&& m1.order == m.order
            &&& m1.hlen == m.hlen
            &&& cur <= cur1
            &&& m.pos + m.numer == m1.pos + m.denom * (cur1 - cur)
            &&& m1.pos >= m.numer
            &&& out matches Some(ts) ==> ts == taps(
                Model {
                    suspended: false,
                    buf: m1.buf,
                    numer: m1.numer,
                    denom: m1.denom,
                    pos: m1.pos - m.numer,
                    quan: m1.quan,
                    order: m1.order,
                    hlen: m1.hlen,
                },
            )
        }),
    decreases input.len() - cur,
{
    if m.pos >= m.denom {
        if 0 <= cur < input.len() {
            let m1 = Model {
                buf: m.buf.remove(0).push(input[cur]),
                pos: m.pos - m.denom,
                ..m
            };
            lemma_step_accounting(m1, input, cur + 1);
            let (m2, cur2, out) = step(m1, input, cur + 1);
            assert(m.pos + m.numer == m2.pos + m.denom * (cur2 - cur)) by (nonlinear_arith)
                requires
                    m1.pos + m.numer == m2.pos + m.denom * (cur2 - (cur + 1)),
                    m.pos == m1.pos + m.denom,
            ;
        }
    }
}

/// Exact phase accounting of an uninterrupted run: `n` outputs advance the
/// phase by `n * numer` in total, paid for by the inputs consumed.
pub proof fn lemma_run_accounting<T>(m: Model<T>, input: Seq<T>, cur: int, n: nat)
    requires
        converter_wf(m),
        !m.suspended,
        run(m, input, cur, n).2.len() == n,
    ensures
        ({
            let (mn, curn, outs) = run(m, input, cur, n);
            &&& converter_wf(mn)
            &&& !mn.suspended
            &&& mn.numer == m.numer
            &&& mn.denom == m.denom
            &&& cur <= curn
            &&& m.pos + n * m.numer == mn.pos + m.denom * (curn - cur)
            &&& n >= 1 ==> mn.pos >= m.numer
        }),
    decreases n,
{
    if n > 0 {
        let (m1, cur1, out) = step(m, input, cur);
        let (m2, cur2, outs2) = run(m1, input, cur1, (n - 1) as nat);
        lemma_run_len(m1, input, cur1, (n - 1) as nat);
        assert(out is Some);
        lemma_step_accounting(m, input, cur);
        lemma_run_accounting(m1, input, cur1, (n - 1) as nat);
        assert(m.pos + n * m.numer == m2.pos + m.denom * (cur2 - cur)) by (nonlinear_arith)
            requires
                m.pos + m.numer == m1.pos + m.denom * (cur1 - cur),
                m1.pos + (n - 1) * m1.numer == m2.pos + m1.denom * (cur2 - cur1),
                m1.numer == m.numer,
                m1.denom == m.denom,
                n >= 1,
        ;
        if n == 1 {
            assert(m2 == m1);
        }
    } else {
        assert(n * m.numer == 0) by (nonlinear_arith)
            requires
                n == 0,
        ;
        assert(m.denom * (cur - cur) == 0) by (nonlinear_arith);
    }
}

/// Bounded consumption: an uninterrupted run of `n` outputs from a fresh
/// converter reads at most `n / r` input samples rounded up — stated
/// multiplicatively over the exact ratio, with the whole `order + 1` sample
/// warm-up window already accounted for by the zero pre-fill.
pub proof fn lemma_consumption_bound<T>(plan: Manager, fill: T, input: Seq<T>, n: nat)
    requires
        manager_wf(plan),
        run(fresh_model::<T>(plan, fill), input, 0, n).2.len() == n,
    ensures
        plan.ratio.numer * run(fresh_model::<T>(plan, fill), input, 0, n).1 <= n
            * plan.ratio.denom,
{
    let m = fresh_model::<T>(plan, fill);
    let (mn, curn, outs) = run(m, input, 0, n);
    lemma_run_accounting(m, input, 0, n);
    assert(plan.ratio.numer * curn <= n * plan.ratio.denom) by (nonlinear_arith)
        requires
            0 + n * m.numer == mn.pos + m.denom * (curn - 0),
            mn.pos >= 0,
            m.numer == plan.ratio.denom,
            m.denom == plan.ratio.numer,
            m.pos == 0,
    ;
}

/// Phase exactness over one period: an uninterrupted run of `denom` outputs
/// brings the integer phase back to its starting residue class.
pub proof fn lemma_phase_period<T>(m: Model<T>, input: Seq<T>, cur: int)
    requires
        converter_wf(m),
        !m.suspended,
        run(m, input, cur, m.denom as nat).2.len() == m.denom,
    ensures
        run(m, input, cur, m.denom as nat).0.pos % m.denom == m.pos % m.denom,
{
    let n = m.denom as nat;
    let (mn, curn, outs) = run(m, input, cur, n);
    lemma_run_accounting(m, input, cur, n);
    let k = curn - cur;
    let j = m.numer - k;
    assert(mn.pos == m.denom * j + m.pos) by (nonlinear_arith)
        requires
            m.pos + n * m.numer == mn.pos + m.denom * k,
            n == m.denom,
            j == m.numer - k,
    ;
    vstd::arithmetic::div_mod::lemma_mod_multiples_vanish(j, m.pos, m.denom);
}

/// The state of a fresh converter after `j` uninterrupted pulls: still
/// running, the phase and the reads locked to the exact ratio, and the
/// window holding the last `order + 1` samples of pre-fill plus input.
pub proof fn lemma_run_state<T>(plan: Manager, fill: T, input: Seq<T>, j: nat)
    requires
        manager_wf(plan),
        run(fresh_model::<T>(plan, fill), input, 0, j).2.len() == j,
    ensures
        ({
            let m = fresh_model::<T>(plan, fill);
            let (mj, curj, outs) = run(m, input, 0, j);
            &&& converter_wf(mj)
            &&& !mj.suspended
            &&& mj.numer == m.numer
            &&& mj.denom == m.denom
            &&& mj.quan == m.quan
            &&& mj.order == m.order
            &&& mj.hlen == m.hlen
            &&& 0 <= curj <= input.len()
            &&& mj.pos + m.denom * curj == j * m.numer
            &&& mj.buf == last_window(m.buf + input.take(curj), m.order + 1)
        }),
    decreases j,
{
    let m = fresh_model::<T>(plan, fill);
    let (mj, curj, outs) = run(m, input, 0, j);
    if j == 0 {
        assert(m.denom * 0 == 0) by (nonlinear_arith);
        assert(0 * m.numer == 0) by (nonlinear_arith);
        assert(m.buf + input.take(0) =~= m.buf);
        assert(m.buf == last_window(m.buf + input.take(0), m.order + 1));
    } else {
        lemma_run_compose(m, input, 0, (j - 1) as nat, 1);
        let (mp, curp, outsp) = run(m, input, 0, (j - 1) as nat);
        let (ml, curl, outsl) = run(mp, input, curp, 1);
        lemma_run_len(m, input, 0, (j - 1) as nat);
        lemma_run_len(mp, input, curp, 1);
        assert(outsp.len() == (j - 1) as nat && outsl.len() == 1);
        lemma_run_state(plan, fill, input, (j - 1) as nat);
        let (m1, cur1, out) = step(mp, input, curp);
        assert(run(m1, input, cur1, 0) == (m1, cur1, Seq::<Seq<Tap<T>>>::empty()));
        assert(out is Some);
        assert(mj == m1 && curj == cur1);
        lemma_step_accounting(mp, input, curp);
        lemma_step_cursor(mp, input, curp);
        let hp = m.buf + input.take(curp);
        assert(hp.len() >= m.order + 1);
        lemma_step_window(mp, input, curp, hp);
        assert(hp + input.subrange(curp, cur1) =~= m.buf + input.take(cur1));
        assert(m1.pos + m.denom * cur1 == j * m.numer) by (nonlinear_arith)
            requires
                mp.pos + m.denom * curp == (j - 1) * m.numer,
                mp.pos + mp.numer == m1.pos + mp.denom * (cur1 - curp),
                mp.numer == m.numer,
                mp.denom == m.denom,
                j >= 1,
        ;
    }
}

/// The closed form of an uninterrupted run from a fresh converter: the
/// j-th output (counting from zero) sits at stream time `j / ratio`.
/// Writing `a = j * numer` for the phase it has accumulated in units of
/// `1 / denom` (with `numer / denom` the reciprocal ratio), the output's
/// taps read the window of the last `order + 1` samples of "pre-fill, then
/// the first `a / denom` input samples", at fractional phase
/// `(a % denom) / denom`.
pub proof fn lemma_run_closed_form<T>(plan: Manager, fill: T, input: Seq<T>, n: nat, j: int)
    requires
        manager_wf(plan),
        run(fresh_model::<T>(plan, fill), input, 0, n).2.len() == n,
        0 <= j < n,
    ensures
        ({
            let m = fresh_model::<T>(plan, fill);
            let a = j * m.numer;
            run(m, input, 0, n).2[j] == taps(
                Model {
                    suspended: false,
                    buf: last_window(m.buf + input.take(a / m.denom), m.order + 1),
                    numer: m.numer,
                    denom: m.denom,
                    pos: a % m.denom,
                    quan: m.quan,
                    order: m.order,
                    hlen: m.hlen,
                },
            )
        }),
{
    let m = fresh_model::<T>(plan, fill);
    let a = j * m.numer;
    lemma_run_compose(m, input, 0, j as nat, (n - j) as nat);
    let (mj, curj, outsj) = run(m, input, 0, j as nat);
    let (mr, curr2, outsr) = run(mj, input, curj, (n - j) as nat);
    lemma_run_len(m, input, 0, j as nat);
    lemma_run_len(mj, input, curj, (n - j) as nat);
    assert(outsj.len() == j && outsr.len() == (n - j) as nat);
    let (m1, cur1, out) = step(mj, input, curj);
    let (m2, cur2, outs2) = run(m1, input, cur1, (n - j - 1) as nat);
    lemma_run_len(m1, input, cur1, (n - j - 1) as nat);
    assert(out is Some);
    let ts = out.unwrap();
    assert(outsr[0] == ts);
    assert(run(m, input, 0, n).2[j] == ts) by {
        assert(run(m, input, 0, n).2 == outsj + outsr);
        assert((outsj + outsr)[j] == outsr[0]);
    }
    lemma_run_state(plan, fill, input, j as nat);
    lemma_step_accounting(mj, input, curj);
    lemma_step_cursor(mj, input, curj);
    let hj = m.buf + input.take(curj);
    lemma_step_window(mj, input, curj, hj);
    assert(hj + input.subrange(curj, cur1) =~= m.buf + input.take(cur1));
    let pe = m1.pos - mj.numer;
    assert(0 <= pe < m.denom);
    assert(pe + m.denom * cur1 == a) by (nonlinear_arith)
        requires
            mj.pos + m.denom * curj == j * m.numer,
            mj.pos + mj.numer == m1.pos + mj.denom * (cur1 - curj),
            mj.numer == m.numer,
            mj.denom == m.denom,
            pe == m1.pos - mj.numer,
            a == j * m.numer,
    ;
    assert(a == cur1 * m.denom + pe) by (nonlinear_arith)
        requires
            pe + m.denom * cur1 == a,
    ;
    vstd::arithmetic::div_mod::lemma_fundamental_div_mod_converse(a, m.denom, cur1, pe);
    let me = Model {
        suspended: false,
        buf: m1.buf,
        numer: m1.numer,
        denom: m1.denom,
        pos: m1.pos - mj.numer,
        quan: m1.quan,
        order: m1.order,
        hlen: m1.hlen,
    };
    assert(ts == taps(me));
}

/// Every tap of a constant window carries the constant.
proof fn lemma_taps_constant<T>(m: Model<T>, x: T, k: int)
    requires
        forall|j: int| 0 <= j < m.buf.len() ==> m.buf[j] == x,
        k <= m.buf.len(),
    ensures
        forall|j: int| 0 <= j < taps_upto(m, k).len() ==> taps_upto(m, k)[j].sample == x,
    decreases k,
{
    if k > 0 {
        lemma_taps_constant(m, x, k - 1);
        let prev = taps_upto(m, k - 1);
        if tap_included(m, k - 1) {
            let t = tap_at(m, k - 1);
            assert(t.sample == x);
            assert(forall|j: int| 0 <= j < prev.len() ==> #[trigger] prev.push(t)[j] == prev[j]);
            assert(prev.push(t)[prev.len() as int] == t);
        }
    }
}

/// With a window already holding the constant `x` and a constant tail of
/// input, one pull keeps the window constant and every tap of any output
/// carries `x` — the converter then scales the constant only by the
/// filter's gain.
pub proof fn lemma_step_constant<T>(m: Model<T>, input: Seq<T>, cur: int, x: T)
    requires
        converter_wf(m),
        forall|j: int| 0 <= j < m.buf.len() ==> m.buf[j] == x,
        forall|i: int| cur <= i < input.len() ==> input[i] == x,
    ensures
        ({
            let (m1, cur1, out) = step(m, input, cur);
            &&& forall|j: int| 0 <= j < m1.buf.len() ==> m1.buf[j] == x
            &&& m1.buf.len() == m.buf.len()
            &&& (out matches Some(ts) ==> forall|j: int|
                0 <= j < ts.len() ==> ts[j].sample == x)
        }),
    decreases input.len() - cur,
{
    if m.suspended {
        if 0 <= cur < input.len() {
            let m1 = Model { suspended: false, buf: m.buf.remove(0).push(input[cur]), ..m };
            assert(forall|j: int| 0 <= j < m1.buf.len() ==> m1.buf[j] == x);
            lemma_step_constant(m1, input, cur + 1, x);
        }
    } else if m.pos >= m.denom {
        if 0 <= cur < input.len() {
            let m1 = Model {
                buf: m.buf.remove(0).push(input[cur]),
                pos: m.pos - m.denom,
                ..m
            };
            assert(forall|j: int| 0 <= j < m1.buf.len() ==> m1.buf[j] == x);
            lemma_step_constant(m1, input, cur + 1, x);
        }
    } else {
        lemma_taps_constant(m, x, m.order + 1);
    }
}

/// Every tap points into the designed half-table: the cell after `index`
/// still exists, and the fraction toward it is proper.  Weighing the taps
/// against a table of `hlen` values is therefore always in bounds.
pub proof fn lemma_taps_in_table<T>(m: Model<T>, k: int)
    requires
        converter_wf(m),
        0 <= k <= m.order + 1,
    ensures
        forall|j: int|
            0 <= j < taps_upto(m, k).len() ==> {
                let t = #[trigger] taps_upto(m, k)[j];
                &&& t.index + 1 < m.hlen
                &&& t.frac_num < t.frac_den
                &&& t.frac_den == 2 * m.denom
            },
    decreases k,
{
    if k > 0 {
        lemma_taps_in_table(m, k - 1);
        let prev = taps_upto(m, k - 1);
        if tap_included(m, k - 1) {
            let t = tap_at(m, k - 1);
            let u = m.quan * tap_dist(m, k - 1);
            let den = 2 * m.denom;
            assert(u >= 0) by (nonlinear_arith)
                requires
                    u == m.quan * tap_dist(m, k - 1),
                    m.quan >= 1,
                    tap_dist(m, k - 1) >= 0,
            ;
            assert(0 <= u % den < den);
            assert(u / den + 1 < m.hlen);
            assert(forall|j: int| 0 <= j < prev.len() ==> #[trigger] prev.push(t)[j] == prev[j]);
            assert(prev.push(t)[prev.len() as int] == t);
        }
    }
}

/// A pull never moves the read position backwards, nor past the input.
pub proof fn lemma_step_cursor<T>(m: Model<T>, input: Seq<T>, cur: int)
    ensures
        cur <= step(m, input, cur).1,
        cur <= input.len() ==> step(m, input, cur).1 <= input.len(),
    decreases input.len() - cur,
{
    if m.suspended {
        if 0 <= cur < input.len() {
            let m1 = Model { suspended: false, buf: m.buf.remove(0).push(input[cur]), ..m };
            lemma_step_cursor(m1, input, cur + 1);
        }
    } else if m.pos >= m.denom {
        if 0 <= cur < input.len() {
            let m1 = Model {
                buf: m.buf.remove(0).push(input[cur]),
                pos: m.pos - m.denom,
                ..m
            };
            lemma_step_cursor(m1, input, cur + 1);
        }
    }
}

/// The run form of the constant-input law: over a constant tail, every tap
/// of every output carries the constant.
pub proof fn lemma_run_constant<T>(m: Model<T>, input: Seq<T>, cur: int, x: T, n: nat)
    requires
        converter_wf(m),
        forall|j: int| 0 <= j < m.buf.len() ==> m.buf[j] == x,
        forall|i: int| cur <= i < input.len() ==> input[i] == x,
    ensures
        ({
            let (mn, curn, outs) = run(m, input, cur, n);
            forall|j: int, k: int|
                0 <= j < outs.len() && 0 <= k < outs[j].len() ==> (#[trigger] outs[j][k]).sample
                    == x
        }),
    decreases n,
{
    if n > 0 {
        let (m1, cur1, out) = step(m, input, cur);
        lemma_step_constant(m, input, cur, x);
        lemma_step_cursor(m, input, cur);
        lemma_step_wf(m, input, cur);
        lemma_run_constant(m1, input, cur1, x, (n - 1) as nat);
        let (m2, cur2, outs2) = run(m1, input, cur1, (n - 1) as nat);
        if let Some(ts) = out {
            let outs = seq![ts] + outs2;
            assert(run(m, input, cur, n).2 == outs);
            assert forall|j: int, k: int|
                0 <= j < outs.len() && 0 <= k < outs[j].len() implies (#[trigger] outs[j][k]).sample
                == x by {
                if j == 0 {
                    assert(outs[0] == ts);
                } else {
                    assert(outs[j] == outs2[j - 1]);
                }
            }
        }
    }
}

/// A pull preserves the structural invariant and never shrinks the window.
pub proof fn lemma_step_wf<T>(m: Model<T>, input: Seq<T>, cur: int)
    requires
        converter_wf(m),
    ensures
        converter_wf(step(m, input, cur).0),
    decreases input.len() - cur,
{
    if m.suspended {
        if 0 <= cur < input.len() {
            let m1 = Model { suspended: false, buf: m.buf.remove(0).push(input[cur]), ..m };
            lemma_step_wf(m1, input, cur + 1);
        }
    } else if m.pos >= m.denom {
        if 0 <= cur < input.len() {
            let m1 = Model {
                buf: m.buf.remove(0).push(input[cur]),
                pos: m.pos - m.denom,
                ..m
            };
            lemma_step_wf(m1, input, cur + 1);
        }
    }
}

/// The last `k` elements of a sample history.
pub open spec fn last_window<T>(h: Seq<T>, k: int) -> Seq<T> {
    h.skip(h.len() - k)
}

/// What the window holds: if it is the tail of the history "pre-fill, then
/// every sample read so far", one pull keeps it that way — the window is
/// always the last `order + 1` samples that passed the converter.
pub proof fn lemma_step_window<T>(m: Model<T>, input: Seq<T>, cur: int, h: Seq<T>)
    requires
        converter_wf(m),
        0 <= cur <= input.len(),
        h.len() >= m.order + 1,
        m.buf == last_window(h, m.order + 1),
    ensures
        ({
            let (m1, cur1, out) = step(m, input, cur);
            m1.buf == last_window(h + input.subrange(cur, cur1), m.order + 1)
        }),
    decreases input.len() - cur,
{
    let k = m.order + 1;
    let (m1, cur1, out) = step(m, input, cur);
    if (m.suspended || m.pos >= m.denom) && cur < input.len() {
        let s = input[cur];
        let h1 = h.push(s);
        let shifted = m.buf.remove(0).push(s);
        assert(shifted =~= last_window(h1, k));
        if m.suspended {
            let mm = Model { suspended: false, buf: shifted, ..m };
            lemma_step_window(mm, input, cur + 1, h1);
        } else {
            let mm = Model { buf: shifted, pos: m.pos - m.denom, ..m };
            lemma_step_window(mm, input, cur + 1, h1);
        }
        let (m2, cur2, out2) = step(m, input, cur);
        if m.suspended {
            lemma_step_cursor(Model { suspended: false, buf: shifted, ..m }, input, cur + 1);
        } else {
            lemma_step_cursor(
                Model { buf: shifted, pos: m.pos - m.denom, ..m },
                input,
                cur + 1,
            );
        }
        assert(h1 + input.subrange(cur + 1, cur2) =~= h + input.subrange(cur, cur2));
    } else {
        assert(h + input.subrange(cur, cur) =~= h);
    }
}

/// Reading from a longer input cannot change a pull that already produced
/// an output: the transition depends only on the samples actually read.
pub proof fn lemma_step_prefix<T>(m: Model<T>, input1: Seq<T>, input2: Seq<T>, cur: int)
    requires
        input1.len() <= input2.len(),
        input2.take(input1.len() as int) == input1,
        0 <= cur,
        step(m, input1, cur).2 is Some,
    ensures
        step(m, input2, cur) == step(m, input1, cur),
    decreases input1.len() - cur,
{
    assert(forall|i: int|
        0 <= i < input1.len() ==> input1[i] == #[trigger] input2.take(input1.len() as int)[i]);
    if m.suspended {
        let m1 = Model { suspended: false, buf: m.buf.remove(0).push(input1[cur]), ..m };
        lemma_step_prefix(m1, input1, input2, cur + 1);
    } else if m.pos >= m.denom {
        let m1 = Model {
            buf: m.buf.remove(0).push(input1[cur]),
            pos: m.pos - m.denom,
            ..m
        };
        lemma_step_prefix(m1, input1, input2, cur + 1);
    }
}

/// Suspending on a short input and resuming on an extension of it behaves
/// exactly as if the whole input had been available from the start.
pub proof fn lemma_step_resume<T>(m: Model<T>, input1: Seq<T>, input2: Seq<T>, cur: int)
    requires
        input1.len() <= input2.len(),
        input2.take(input1.len() as int) == input1,
        0 <= cur <= input1.len(),
        step(m, input1, cur).2 is None,
    ensures
        step(step(m, input1, cur).0, input2, step(m, input1, cur).1) == step(m, input2, cur),
    decreases input1.len() - cur,
{
    assert(forall|i: int|
        0 <= i < input1.len() ==> input1[i] == #[trigger] input2.take(input1.len() as int)[i]);
    if m.suspended {
        if cur < input1.len() {
            let m1 = Model { suspended: false, buf: m.buf.remove(0).push(input1[cur]), ..m };
            lemma_step_resume(m1, input1, input2, cur + 1);
        }
    } else if m.pos >= m.denom {
        if cur < input1.len() {
            let m1 = Model {
                buf: m.buf.remove(0).push(input1[cur]),
                pos: m.pos - m.denom,
                ..m
            };
            lemma_step_resume(m1, input1, input2, cur + 1);
        }
    }
}


/// Every supported parameter combination yields a plan whenever the derived
/// order also fits its supported window, and the plan's latency is then
/// `round(ratio * order / 2)`.  (At extreme combinations — say ratio 1/16,
/// attenuation 180 dB, width 0.01 — the derived order overflows the window
/// and construction reports an invalid parameter instead.)
pub proof fn lemma_new_in_range(rn: int, rd: int, atten_micro: int, quan: int, trans_micro: int)
    requires
        sinc_supported_pair(red_numer(rn, rd), red_denom(rn, rd)),
        12000000 <= atten_micro <= 180000000,
        1 <= quan <= 16384,
        10000 <= trans_micro <= 1000000,
        order_formula(red_numer(rn, rd), red_denom(rn, rd), atten_micro, trans_micro) <= 2048,
    ensures
        ({
            let n = red_numer(rn, rd);
            let d = red_denom(rn, rd);
            let order = order_formula(n, d, atten_micro, trans_micro);
            spec_new(rn, rd, atten_micro, quan, trans_micro) == Ok::<Manager, Error>(
                Manager {
                    ratio: Ratio { numer: n as i64, denom: d as i64 },
                    order: order as u32,
                    quan: quan as u32,
                    latency: latency_formula(n, d, order) as usize,
                    cutoff_micro: cutoff_from_width(n, d, trans_micro) as i64,
                },
            )
        }),
{
    let n = red_numer(rn, rd);
    let d = red_denom(rn, rd);
    let mn = min_one_numer(n, d);
    let md = min_one_denom(n, d);
    // The derived order is at least one: its numerator covers its
    // denominator at least once.
    let num = (atten_micro - 8000000) * (KAISER_SLOPE_DEN as int) * md;
    let den = (KAISER_SLOPE_NUM as int) * trans_micro * mn;
    assert(1 <= mn && 1 <= md && md <= 16 * mn && mn <= md);
    assert(num >= 1 && den >= 1) by (nonlinear_arith)
        requires
            num == (atten_micro - 8000000) * (KAISER_SLOPE_DEN as int) * md,
            den == (KAISER_SLOPE_NUM as int) * trans_micro * mn,
            atten_micro - 8000000 >= 4000000,
            md >= 1,
            mn >= 1,
            trans_micro >= 10000,
    ;
    assert(num + den - 1 >= den);
    vstd::arithmetic::div_mod::lemma_div_is_ordered(den, num + den - 1, den);
    vstd::arithmetic::div_mod::lemma_div_by_self(den);
    assert(order_formula(n, d, atten_micro, trans_micro) >= 1);
    // The derived cutoff always lands inside its supported window.
    let x = 2 * mn * (2000000 - trans_micro) + 2 * md;
    assert(10000 * (4 * md) <= x) by (nonlinear_arith)
        requires
            x == 2 * mn * (2000000 - trans_micro) + 2 * md,
            md <= 16 * mn,
            1 <= mn,
            1 <= md,
            trans_micro <= 1000000,
    ;
    assert(x <= 1000000 * (4 * md)) by (nonlinear_arith)
        requires
            x == 2 * mn * (2000000 - trans_micro) + 2 * md,
            mn <= md,
            1 <= mn,
            1 <= md,
            10000 <= trans_micro <= 1000000,
    ;
    lemma_div_lower(x, 4 * md, 10000);
    lemma_div_bound(x, 4 * md, 1000000);
    // The latency value fits the machine word it is stored in.
    let order = order_formula(n, d, atten_micro, trans_micro);
    assert(n * order + d <= 1024 * 2048 + 16384) by (nonlinear_arith)
        requires
            1 <= n <= 1024,
            1 <= d <= 16384,
            1 <= order <= 2048,
    ;
    lemma_div_le(n * order + d, 2 * d);
    lemma_div_bound(n * order + d, 2 * d, 1056768);
}

} // verus!
