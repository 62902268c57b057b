use num_rational::Rational64;
use simple_src::linear;
use simple_src::sinc;
use simple_src::Error;

/// Mirror of the float-ratio entry point: approximate the float by a
/// rational, then hand the fraction to the library.
fn linear_from_float(ratio: f64) -> Result<linear::Manager, Error> {
    match Rational64::approximate_float(ratio) {
        Some(r) => linear::Manager::new(*r.numer(), *r.denom()),
        None => Err(Error::UnsupportedRatio),
    }
}

#[test]
fn test_manager_ok() {
    let ratio_ok = vec![0.0625, 0.063, 1.0, 15.9, 16.0, 0.123456];
    for ratio in ratio_ok {
        assert!(linear_from_float(ratio).is_ok());
    }
}

#[test]
fn test_manager_err() {
    let ratio_err = vec![
        -1.0,
        0.0,
        0.0624,
        16.01,
        f64::INFINITY,
        f64::NEG_INFINITY,
        f64::NAN,
    ];
    for ratio in ratio_err {
        assert!(linear_from_float(ratio).is_err());
    }
}

#[test]
fn test_manager_with_raw() {
    assert!(sinc::Manager::with_raw(2, 1, 32, 32, 5_000_000, 800_000).is_ok());
    assert!(sinc::Manager::with_raw(2, 1, 0, 32, 5_000_000, 800_000).is_err());
    assert!(sinc::Manager::with_raw(2, 1, 32, 0, 5_000_000, 800_000).is_err());
    assert!(sinc::Manager::with_raw(2, 1, 32, 32, 5_000_000, 0).is_err());
    assert!(sinc::Manager::with_raw(2, 1, 32, 32, 5_000_000, 1_100_000).is_err());
    assert!(sinc::Manager::with_raw(2, 1, 32, 32, -100_000, 800_000).is_err());
    assert!(sinc::Manager::with_raw(2, 1, 32, 32, 20_100_000, 800_000).is_err());
}

#[test]
fn test_manager_new() {
    assert!(sinc::Manager::new(2, 1, 72_000_000, 32, 100_000).is_ok());
    assert!(sinc::Manager::new(2, 1, 72_000_000, 0, 100_000).is_err());
    assert!(sinc::Manager::new(2, 1, 72_000_000, 32, 0).is_err());
    assert!(sinc::Manager::new(2, 1, 72_000_000, 32, 1_100_000).is_err());
    assert!(sinc::Manager::new(2, 1, 12_000_000, 32, 100_000).is_ok());
    assert!(sinc::Manager::new(2, 1, 11_900_000, 32, 100_000).is_err());
}

#[test]
fn test_manager_with_order() {
    assert!(sinc::Manager::with_order(2, 1, 72_000_000, 32, 32).is_ok());
    assert!(sinc::Manager::with_order(2, 1, 72_000_000, 32, 0).is_err());
    assert!(sinc::Manager::with_order(2, 1, 72_000_000, 0, 32).is_err());
    assert!(sinc::Manager::with_order(2, 1, 12_000_000, 32, 32).is_ok());
    assert!(sinc::Manager::with_order(2, 1, 11_900_000, 32, 32).is_err());
}

#[test]
fn test_builder() {
    assert!(sinc::Manager::builder().build().is_err());
    let manager = sinc::Manager::builder()
        .sample_rate(44100, 48000)
        .quantify(32)
        .attenuation(72_000_000)
        .pass_freq(20000)
        .build();
    assert!(manager.is_ok());
}

#[test]
fn derived_design_values() {
    // Attenuation 72 dB and width 0.1 at ratio 2 give order 90.
    let m = sinc::Manager::new(2, 1, 72_000_000, 32, 100_000).unwrap();
    assert_eq!(m.order(), 90);
    assert_eq!(m.latency(), 90);
    assert_eq!(m.cutoff_micro, 950_000);
    // A raw plan keeps its order; latency is round(ratio * order / 2).
    let m = sinc::Manager::with_raw(2, 1, 32, 32, 5_000_000, 800_000).unwrap();
    assert_eq!(m.order(), 32);
    assert_eq!(m.latency(), 32);
    // Attenuation 12 dB and width 0.1 give a short filter.
    let m = sinc::Manager::new(2, 1, 12_000_000, 32, 100_000).unwrap();
    assert_eq!(m.order(), 6);
    // The derived cutoff of the fixed-order path.
    let m = sinc::Manager::with_order(2, 1, 72_000_000, 32, 32).unwrap();
    assert_eq!(m.cutoff_micro, 860_696);
}

#[test]
fn sample_rate_design_values() {
    let m = sinc::Manager::with_sample_rate(44100, 48000, 72_000_000, 32, 20000).unwrap();
    assert_eq!(m.ratio.numer, 160);
    assert_eq!(m.ratio.denom, 147);
    assert_eq!(m.order(), 96);
    assert_eq!(m.cutoff_micro, 953_515);
    assert_eq!(m.latency(), 52);
}

#[test]
fn ratio_bounds() {
    // The extreme supported ratios succeed with minimal quality parameters.
    assert!(sinc::Manager::new(1, 16, 12_000_000, 1, 10_000).is_ok());
    assert!(sinc::Manager::new(16, 1, 12_000_000, 1, 10_000).is_ok());
    // Just outside the window the ratio is rejected.
    assert!(matches!(
        sinc::Manager::new(17, 1, 12_000_000, 1, 10_000),
        Err(Error::UnsupportedRatio)
    ));
    assert!(matches!(
        sinc::Manager::new(1, 17, 12_000_000, 1, 10_000),
        Err(Error::UnsupportedRatio)
    ));
    // A reduced numerator above 1024 overflows the phase table.
    assert!(matches!(
        sinc::Manager::new(1025, 1024, 12_000_000, 1, 10_000),
        Err(Error::UnsupportedRatio)
    ));
    // An attenuation below the supported floor is an invalid parameter.
    assert!(matches!(
        sinc::Manager::new(2, 1, 11_900_000, 32, 100_000),
        Err(Error::InvalidParam)
    ));
}

#[test]
fn sample_rate_bounds() {
    // Zero sample rates are invalid parameters.
    assert!(matches!(
        sinc::Manager::with_sample_rate(0, 48000, 72_000_000, 32, 20000),
        Err(Error::InvalidParam)
    ));
    assert!(matches!(
        sinc::Manager::with_sample_rate(44100, 0, 72_000_000, 32, 20000),
        Err(Error::InvalidParam)
    ));
    // A pass band reaching half the narrower rate leaves no transition band.
    assert!(matches!(
        sinc::Manager::with_sample_rate(44100, 48000, 72_000_000, 32, 22050),
        Err(Error::InvalidParam)
    ));
    assert!(matches!(
        sinc::Manager::with_sample_rate(44100, 48000, 72_000_000, 32, 40000),
        Err(Error::InvalidParam)
    ));
}

#[test]
fn builder_dispatch() {
    // Ratio and quantization alone are not enough.
    assert!(matches!(
        sinc::Manager::builder().ratio(2, 1).quantify(32).build(),
        Err(Error::NotEnoughParam)
    ));
    // The raw mode takes priority when order, beta and cutoff are given.
    let raw = sinc::Manager::builder()
        .ratio(2, 1)
        .quantify(32)
        .order(32)
        .kaiser_beta(5_000_000)
        .cutoff(800_000)
        .build()
        .unwrap();
    let direct = sinc::Manager::with_raw(2, 1, 32, 32, 5_000_000, 800_000).unwrap();
    assert_eq!(raw.order(), direct.order());
    assert_eq!(raw.latency(), direct.latency());
    // Attenuation plus transition width derives the order.
    let derived = sinc::Manager::builder()
        .ratio(2, 1)
        .quantify(32)
        .attenuation(72_000_000)
        .trans_width(100_000)
        .build()
        .unwrap();
    assert_eq!(derived.order(), 90);
    // pass_width sets the complementary transition width.
    let via_pass = sinc::Manager::builder()
        .ratio(2, 1)
        .quantify(32)
        .attenuation(72_000_000)
        .pass_width(900_000)
        .build()
        .unwrap();
    assert_eq!(via_pass.order(), derived.order());
    assert_eq!(via_pass.cutoff_micro, derived.cutoff_micro);
    // Attenuation plus order derives the width instead.
    let fixed = sinc::Manager::builder()
        .ratio(2, 1)
        .quantify(32)
        .attenuation(72_000_000)
        .order(32)
        .build()
        .unwrap();
    assert_eq!(fixed.order(), 32);
    assert_eq!(fixed.cutoff_micro, 860_696);
    // An unsupported ratio is reported before the mode is picked.
    assert!(matches!(
        sinc::Manager::builder().ratio(17, 1).quantify(32).build(),
        Err(Error::UnsupportedRatio)
    ));
}

#[test]
fn manager_clone_keeps_observers() {
    let m = sinc::Manager::new(2, 1, 72_000_000, 32, 100_000).unwrap();
    let c = m.clone();
    assert_eq!(c.latency(), m.latency());
    assert_eq!(c.order(), m.order());
    let lm = linear::Manager::new(2, 1).unwrap();
    let lc = lm.clone();
    assert_eq!(lc.ratio.numer, lm.ratio.numer);
    assert_eq!(lc.ratio.denom, lm.ratio.denom);
}

#[test]
fn ratio_reduction() {
    let r = simple_src::ratio::Ratio::try_from_integers(48000, 44100).unwrap();
    assert_eq!(r.numer, 160);
    assert_eq!(r.denom, 147);
    let r = simple_src::ratio::Ratio::try_from_integers(-3, -6).unwrap();
    assert_eq!(r.numer, 1);
    assert_eq!(r.denom, 2);
    assert!(matches!(
        simple_src::ratio::Ratio::try_from_integers(0, 5),
        Err(Error::InvalidParam)
    ));
    assert!(matches!(
        simple_src::ratio::Ratio::try_from_integers(5, 0),
        Err(Error::InvalidParam)
    ));
    assert!(matches!(
        simple_src::ratio::Ratio::try_from_integers(-1, 1),
        Err(Error::UnsupportedRatio)
    ));
}
