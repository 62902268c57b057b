use simple_src::linear;
use simple_src::sinc;
use simple_src::ConvertIter;

/// Evaluate a linear output command on machine numbers.
fn mix(l: &linear::Lerp<f64>) -> f64 {
    l.from + (l.to - l.from) * (l.coef_num as f64 / l.coef_den as f64)
}

/// Pull up to `pulls` times, collecting the produced samples.
fn run_linear(c: &mut linear::Converter<f64>, input: &Vec<f64>, cursor: &mut usize, pulls: usize) -> Vec<f64> {
    let mut out = Vec::new();
    for _ in 0..pulls {
        if let Some(l) = c.next_sample(input, cursor) {
            out.push(mix(&l));
        }
    }
    out
}

/// Evaluate one sinc output from its taps against a filter half-table.
fn weigh(taps: &Vec<sinc::Tap<f64>>, table: &Vec<f64>) -> f64 {
    let mut acc = 0.0;
    for t in taps {
        let h1 = table[t.index as usize];
        let h2 = table[t.index as usize + 1];
        let h = h1 + (h2 - h1) * (t.frac_num as f64 / t.frac_den as f64);
        acc += t.sample * h;
    }
    acc
}

/// Modified Bessel function of the first kind, order zero, by power series.
fn bessel_i0(x: f64) -> f64 {
    let mut y = 1.0;
    let mut t = 1.0;
    for k in 1..32 {
        t *= (x / (2.0 * k as f64)).powi(2);
        y += t;
        if t < 1e-10 {
            break;
        }
    }
    y
}

/// The Kaiser beta for a stop-band attenuation in decibels.
fn calc_beta(atten: f64) -> f64 {
    if atten > 50.0 {
        0.1102 * (atten - 8.7)
    } else if atten >= 21.0 {
        0.5842 * (atten - 21.0).powf(0.4) + 0.07886 * (atten - 21.0)
    } else {
        0.0
    }
}

/// The half-symmetric windowed-sinc table for a plan.
fn gen_table(quan: u32, order: u32, beta: f64, cutoff: f64) -> Vec<f64> {
    let len = order * quan / 2;
    let i0_beta = bessel_i0(beta);
    let half = order as f64 * 0.5;
    let pi = std::f64::consts::PI;
    let mut table = Vec::with_capacity(len as usize + 1);
    for i in 0..len {
        let pos = i as f64 / quan as f64;
        let w = bessel_i0(beta * (1.0 - (pos / half).powi(2)).sqrt()) / i0_beta;
        let s = if pos != 0.0 { (pi * pos * cutoff).sin() / (pi * pos) } else { cutoff };
        table.push(s * w);
    }
    table.push(0.0);
    table
}

#[test]
fn linear_upsample_2x() {
    let manager = linear::Manager::new(2, 1).unwrap();
    let mut c = manager.converter(0.0f64);
    let input = vec![1.0, 2.0, 3.0, 4.0];
    let mut cursor = 0usize;
    let out = run_linear(&mut c, &input, &mut cursor, 10);
    assert_eq!(out, vec![0.5, 1.0, 1.5, 2.0, 2.5, 3.0, 3.5]);
    assert_eq!(cursor, 4);
}

#[test]
fn linear_downsample_half() {
    let manager = linear::Manager::new(1, 2).unwrap();
    let mut c = manager.converter(0.0f64);
    let input = vec![1.0, 2.0, 3.0, 4.0, 5.0, 6.0];
    let mut cursor = 0usize;
    let out = run_linear(&mut c, &input, &mut cursor, 10);
    assert_eq!(out, vec![2.0, 4.0]);
    assert_eq!(cursor, 6);
}

#[test]
fn linear_dc_invariance() {
    let manager = linear::Manager::new(3, 2).unwrap();
    let mut c = manager.converter(0.0f64);
    let input = vec![5.0; 12];
    let mut cursor = 0usize;
    let out = run_linear(&mut c, &input, &mut cursor, 16);
    // Once both window samples hold the constant, the output is exactly it.
    assert!(out.len() >= 10);
    for &x in &out[1..] {
        assert_eq!(x, 5.0);
    }
}

#[test]
fn linear_suspend_resume() {
    let full = vec![1.0, 2.5, -3.0, 4.0, 0.5, 7.0];
    let manager = linear::Manager::new(3, 1).unwrap();

    let mut direct = manager.converter(0.0f64);
    let mut cursor_d = 0usize;
    let out_direct = run_linear(&mut direct, &full, &mut cursor_d, 40);

    let mut resumed = manager.converter(0.0f64);
    let truncated: Vec<f64> = full[..3].to_vec();
    let mut cursor_r = 0usize;
    let mut out_resumed = run_linear(&mut resumed, &truncated, &mut cursor_r, 20);
    assert!(resumed.next_sample(&truncated, &mut cursor_r).is_none());
    out_resumed.extend(run_linear(&mut resumed, &full, &mut cursor_r, 40));

    assert_eq!(out_direct, out_resumed);
}

#[test]
fn linear_phase_period() {
    // Over `denom` outputs the integer phase returns to its residue class.
    let manager = linear::Manager::new(160, 147).unwrap();
    let mut c = manager.converter(0.0f64);
    let input = vec![0.25; 400];
    let mut cursor = 0usize;
    // Warm up past the first pull so the converter is in its running phase.
    assert!(c.next_sample(&input, &mut cursor).is_some());
    let denom = c.denom;
    let before = c.pos % denom;
    for _ in 0..denom {
        assert!(c.next_sample(&input, &mut cursor).is_some());
    }
    assert_eq!(c.pos % denom, before);
}

#[test]
fn linear_consumption_bound() {
    // Pulling n outputs reads at most ceil(n / ratio) + 2 input samples.
    let manager = linear::Manager::new(3, 2).unwrap();
    let mut c = manager.converter(0.0f64);
    let input = vec![1.0; 100];
    let mut cursor = 0usize;
    let n: usize = 30;
    let out = run_linear(&mut c, &input, &mut cursor, n);
    assert_eq!(out.len(), n);
    // ratio 3/2: ceil(30 * 2 / 3) + 2 = 22.
    assert!(cursor <= 22);
}

#[test]
fn linear_managers_are_shared() {
    // Two converters minted from one plan run independently.
    let manager = linear::Manager::new(2, 1).unwrap();
    let xs = vec![1.0, 2.0, 3.0, 4.0];
    let ys = vec![9.0, 8.0, 7.0, 6.0];
    let mut a = manager.converter(0.0f64);
    let mut b = manager.converter(0.0f64);
    let mut ca = 0usize;
    let mut cb = 0usize;
    let mut out_a = Vec::new();
    let mut out_b = Vec::new();
    for _ in 0..10 {
        if let Some(l) = a.next_sample(&xs, &mut ca) {
            out_a.push(mix(&l));
        }
        if let Some(l) = b.next_sample(&ys, &mut cb) {
            out_b.push(mix(&l));
        }
    }
    let mut fresh = manager.converter(0.0f64);
    let mut cf = 0usize;
    assert_eq!(out_a, run_linear(&mut fresh, &xs, &mut cf, 10));
    let mut fresh = manager.converter(0.0f64);
    let mut cf = 0usize;
    assert_eq!(out_b, run_linear(&mut fresh, &ys, &mut cf, 10));
}

#[test]
fn convert_iter_pairs_parts() {
    let manager = linear::Manager::new(2, 1).unwrap();
    let c = manager.converter(0.0f64);
    let it = ConvertIter::new(vec![1.0f64, 2.0], c);
    assert_eq!(it.iter, vec![1.0, 2.0]);
    assert_eq!(it.cvtr.denom, 2);
}

#[test]
fn sinc_delta_mirrors_table() {
    // Ratio one, order four: a unit impulse walks the window and reads the
    // half-table symmetrically about the centre tap.
    let manager = sinc::Manager::with_raw(1, 1, 32, 4, 5_000_000, 1_000_000).unwrap();
    assert_eq!(manager.latency(), 2);
    let mut c = manager.converter(0.0f64);
    // A table the test can predict: cell j holds j + 1.
    let table: Vec<f64> = (0..(4 * 32 / 2 + 1)).map(|j| (j + 1) as f64).collect();
    let input: Vec<f64> = std::iter::once(1.0).chain(std::iter::repeat(0.0).take(12)).collect();
    let mut cursor = 0usize;
    let mut taps: Vec<sinc::Tap<f64>> = Vec::new();
    let mut out = Vec::new();
    for _ in 0..8 {
        if c.next_sample(&input, &mut cursor, &mut taps) {
            out.push(weigh(&taps, &table));
        }
    }
    // Two warm-up outputs, then the impulse reads cells 32, 0, 32 — the
    // sample spacing in a quantization of 32 — mirrored about the centre.
    assert_eq!(out, vec![0.0, 0.0, 33.0, 1.0, 33.0, 0.0, 0.0, 0.0]);
}

#[test]
fn sinc_dc_gain_near_one() {
    // For a constant input the outputs settle on the constant within the
    // designed stop-band attenuation once the window has filled.
    let manager = sinc::Manager::new(1, 1, 100_000_000, 32, 100_000).unwrap();
    let order = manager.order();
    let table = gen_table(32, order, calc_beta(100.0), manager.cutoff_micro as f64 / 1e6);
    let mut c = manager.converter(0.0f64);
    let input = vec![1.0; 600];
    let mut cursor = 0usize;
    let mut taps: Vec<sinc::Tap<f64>> = Vec::new();
    let mut produced = 0usize;
    while produced < order as usize + 60 {
        if c.next_sample(&input, &mut cursor, &mut taps) {
            produced += 1;
            if produced > order as usize + 2 {
                let y = weigh(&taps, &table);
                assert!((y - 1.0).abs() < 1e-5, "dc output {y}");
            }
        }
    }
}

#[test]
fn sinc_suspend_resume() {
    let full: Vec<f64> = (0..40).map(|i| ((i * 7) % 11) as f64 - 5.0).collect();
    let manager = sinc::Manager::new(2, 3, 40_000_000, 16, 200_000).unwrap();
    let table = gen_table(16, manager.order(), calc_beta(40.0), manager.cutoff_micro as f64 / 1e6);

    let mut direct = manager.converter(0.0f64);
    let mut cursor_d = 0usize;
    let mut taps: Vec<sinc::Tap<f64>> = Vec::new();
    let mut out_direct = Vec::new();
    for _ in 0..40 {
        if direct.next_sample(&full, &mut cursor_d, &mut taps) {
            out_direct.push(weigh(&taps, &table));
        }
    }

    let mut resumed = manager.converter(0.0f64);
    let truncated: Vec<f64> = full[..13].to_vec();
    let mut cursor_r = 0usize;
    let mut out_resumed = Vec::new();
    for _ in 0..40 {
        if resumed.next_sample(&truncated, &mut cursor_r, &mut taps) {
            out_resumed.push(weigh(&taps, &table));
        }
    }
    assert!(!resumed.next_sample(&truncated, &mut cursor_r, &mut taps));
    for _ in 0..40 {
        if resumed.next_sample(&full, &mut cursor_r, &mut taps) {
            out_resumed.push(weigh(&taps, &table));
        }
    }
    assert_eq!(out_direct, out_resumed);
}

#[test]
fn sinc_consumption_bound() {
    // Pulling n outputs reads at most ceil(n / ratio) + order + 1 inputs.
    let manager = sinc::Manager::new(2, 1, 40_000_000, 16, 200_000).unwrap();
    let order = manager.order() as usize;
    let mut c = manager.converter(0.0f64);
    let input = vec![1.0; 200];
    let mut cursor = 0usize;
    let mut taps: Vec<sinc::Tap<f64>> = Vec::new();
    let mut produced = 0usize;
    let n = 100usize;
    while produced < n {
        assert!(c.next_sample(&input, &mut cursor, &mut taps));
        produced += 1;
    }
    assert!(cursor <= n / 2 + order + 1);
}

#[test]
fn sinc_degenerate_geometry() {
    // Order one at quantization one leaves a single-cell table whose only
    // readable weight is the trailing zero: every tap falls outside and the
    // output is an empty sum.
    let manager = sinc::Manager::with_raw(1, 1, 1, 1, 0, 1_000_000).unwrap();
    let mut c = manager.converter(0.0f64);
    let input = vec![1.0, 2.0, 3.0, 4.0];
    let mut cursor = 0usize;
    let mut taps: Vec<sinc::Tap<f64>> = Vec::new();
    assert!(c.next_sample(&input, &mut cursor, &mut taps));
    assert!(taps.is_empty());
}

#[test]
fn sinc_phase_period() {
    // Over `denom` outputs the integer phase returns to its residue class.
    let manager = sinc::Manager::new(160, 147, 40_000_000, 8, 200_000).unwrap();
    let mut c = manager.converter(0.0f64);
    let input = vec![0.5; 600];
    let mut cursor = 0usize;
    let mut taps: Vec<sinc::Tap<f64>> = Vec::new();
    let denom = c.denom;
    assert_eq!(denom, 160);
    assert!(c.next_sample(&input, &mut cursor, &mut taps));
    let before = c.pos % denom;
    for _ in 0..denom {
        assert!(c.next_sample(&input, &mut cursor, &mut taps));
    }
    assert_eq!(c.pos % denom, before);
}
