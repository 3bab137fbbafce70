//! Prototype filters and special functions over `f64`.

use decibri_resampler::kernel::{
    build_prototype, exact_prototype_len, Prototype, DESIGN_STOPBAND_DB,
};
use decibri_resampler::special;
use decibri_resampler::Arithmetic;
use std::f64::consts::PI;

/// Mono `f32` audio with `f64` sums, every operation the primitive one.
struct Binary;

impl Arithmetic for Binary {
    type Sample = f32;
    type Real = f64;

    fn silence() -> f32 {
        0.0
    }
    fn pi() -> f64 {
        PI
    }
    fn count(n: u64) -> f64 {
        n as f64
    }
    fn widen(s: f32) -> f64 {
        s as f64
    }
    fn narrow(x: f64) -> f32 {
        x as f32
    }
    fn plus(x: f64, y: f64) -> f64 {
        x + y
    }
    fn minus(x: f64, y: f64) -> f64 {
        x - y
    }
    fn times(x: f64, y: f64) -> f64 {
        x * y
    }
    fn over(x: f64, y: f64) -> f64 {
        x / y
    }
    fn negate(x: f64) -> f64 {
        -x
    }
    fn root(x: f64) -> f64 {
        x.sqrt()
    }
    fn nearest(x: f64) -> f64 {
        x.round()
    }
    fn larger(x: f64, y: f64) -> f64 {
        x.max(y)
    }
    fn below(x: f64, y: f64) -> bool {
        x < y
    }
    fn same(x: f64, y: f64) -> bool {
        x == y
    }
    fn ceiling(x: f64) -> u64 {
        x.ceil() as u64
    }
}

fn i0(x: f64) -> f64 {
    special::i0::<Binary>(x)
}

fn sin(x: f64) -> f64 {
    special::sin::<Binary>(x)
}

/// The exact engine's prototype at its own length.
fn prototype(in_rate: u32, out_rate: u32, m: u32) -> Prototype<Binary> {
    let n = exact_prototype_len::<Binary>(in_rate, out_rate, m, DESIGN_STOPBAND_DB);
    build_prototype(in_rate, out_rate, m, n as usize, DESIGN_STOPBAND_DB)
}

/// Stopband attenuation the realized filter must clear, in dB.
const TARGET_STOPBAND_DB: f64 = 80.0;

// ---- Measurement tools (test-only) -------------------------------------
//
// These measure the realized frequency response of a built prototype. They
// use the standard library's sin/cos (FFT twiddles and the direct response
// sum): this is measurement code, not the coefficient path, so its
// platform-dependent transcendental precision does not affect the shipped
// filter.

// In-place iterative radix-2 Cooley-Tukey FFT.
fn fft(re: &mut [f64], im: &mut [f64]) {
    let n = re.len();
    assert!(n.is_power_of_two());

    // Bit-reversal permutation.
    let mut j = 0usize;
    for i in 1..n {
        let mut bit = n >> 1;
        while j & bit != 0 {
            j ^= bit;
            bit >>= 1;
        }
        j |= bit;
        if i < j {
            re.swap(i, j);
            im.swap(i, j);
        }
    }

    // Butterflies.
    let mut len = 2usize;
    while len <= n {
        let ang = -2.0 * PI / len as f64;
        let (wlen_re, wlen_im) = (ang.cos(), ang.sin());
        let mut base = 0usize;
        while base < n {
            let mut w_re = 1.0_f64;
            let mut w_im = 0.0_f64;
            let half = len / 2;
            for k in 0..half {
                let a = base + k;
                let b = base + k + half;
                let v_re = re[b] * w_re - im[b] * w_im;
                let v_im = re[b] * w_im + im[b] * w_re;
                let u_re = re[a];
                let u_im = im[a];
                re[a] = u_re + v_re;
                im[a] = u_im + v_im;
                re[b] = u_re - v_re;
                im[b] = u_im - v_im;
                let nw_re = w_re * wlen_re - w_im * wlen_im;
                let nw_im = w_re * wlen_im + w_im * wlen_re;
                w_re = nw_re;
                w_im = nw_im;
            }
            base += len;
        }
        len <<= 1;
    }
}

// Exact zero-phase magnitude of the symmetric FIR at a given frequency.
fn response_mag(coeffs: &[f64], fs_op: f64, freq: f64) -> f64 {
    let center = (coeffs.len() - 1) / 2;
    let w = 2.0 * PI * freq / fs_op;
    let mut acc = coeffs[center];
    for k in 1..=center {
        acc += 2.0 * coeffs[center + k] * (w * k as f64).cos();
    }
    acc.abs()
}

struct Measurement {
    passband_ripple_db: f64,
    stopband_db: f64,
    stopband_freq: f64,
}

fn measure(coeffs: &[f64], fs_op: f64, passband_edge: f64, stopband_edge: f64) -> Measurement {
    let n = coeffs.len();

    // FFT size: power of two, at least 4*N, with resolution <= ~12 Hz.
    let mut nf = (4 * n).next_power_of_two();
    while fs_op / nf as f64 > 12.0 {
        nf <<= 1;
    }

    let mut re = vec![0.0_f64; nf];
    let mut im = vec![0.0_f64; nf];
    re[..n].copy_from_slice(coeffs);
    fft(&mut re, &mut im);

    let bin_hz = fs_op / nf as f64;
    let mag = |k: usize| (re[k] * re[k] + im[k] * im[k]).sqrt();
    let reference = mag(0); // unity DC gain after normalization

    // Passband ripple over [0, fp].
    let kp = (passband_edge / bin_hz).floor() as usize;
    let mut pmax = f64::MIN;
    let mut pmin = f64::MAX;
    for k in 0..=kp {
        let g = mag(k);
        if g > pmax {
            pmax = g;
        }
        if g < pmin {
            pmin = g;
        }
    }
    let passband_ripple_db = 20.0 * (pmax / pmin).log10();

    // Worst-case stopband over [fs, fs_op/2], scanned on FFT bins.
    let ks = (stopband_edge / bin_hz).ceil() as usize;
    let mut worst = 0.0_f64;
    let mut worst_k = ks;
    for k in ks..=(nf / 2) {
        let g = mag(k);
        if g > worst {
            worst = g;
            worst_k = k;
        }
    }

    // Refine the peak with the exact response around the worst bin, to
    // recover the true sidelobe peak that can fall between FFT bins.
    let mut peak = worst;
    let mut peak_freq = worst_k as f64 * bin_hz;
    let lo = (worst_k as f64 - 3.0) * bin_hz;
    let hi = (worst_k as f64 + 3.0) * bin_hz;
    let steps = 240usize;
    for s in 0..=steps {
        let f = lo + (hi - lo) * (s as f64) / (steps as f64);
        if f < stopband_edge || f > fs_op / 2.0 {
            continue;
        }
        let g = response_mag(coeffs, fs_op, f);
        if g > peak {
            peak = g;
            peak_freq = f;
        }
    }

    Measurement {
        passband_ripple_db,
        stopband_db: 20.0 * (peak / reference).log10(),
        stopband_freq: peak_freq,
    }
}

// Geometry the measurement references, mirroring build_prototype.
fn geometry(in_rate: u32, out_rate: u32, m: u32) -> (f64, f64, f64) {
    let fs_op = f64::from(m) * f64::from(out_rate);
    let control = f64::from(in_rate.min(out_rate));
    (fs_op, 0.475 * control, 0.5 * control)
}

// ---- The measurement gate ----------------------------------------------

#[test]
fn fft_of_unit_impulse_is_flat() {
    let n = 64usize;
    let mut re = vec![0.0_f64; n];
    let mut im = vec![0.0_f64; n];
    re[0] = 1.0;
    fft(&mut re, &mut im);
    for (k, (&rk, &ik)) in re.iter().zip(&im).enumerate() {
        let m = (rk * rk + ik * ik).sqrt();
        assert!((m - 1.0).abs() < 1e-12, "bin {k} magnitude {m}");
    }
}

#[test]
fn kernel_meets_spec_48k_to_16k() {
    // out/in = 16000/48000 = 1/3 -> L = 1, M = 3.
    let (in_rate, out_rate, m) = (48000u32, 16000u32, 3u32);
    let proto = prototype(in_rate, out_rate, m);
    let (fs_op, fp, fs) = geometry(in_rate, out_rate, m);

    assert_eq!((proto.num_taps - 1) % (2 * m as usize), 0);
    assert_eq!(
        proto.group_delay_out,
        (proto.num_taps - 1) / (2 * m as usize)
    );

    let r = measure(&proto.coeffs, fs_op, fp, fs);
    let beta = 0.1102 * (f64::from(DESIGN_STOPBAND_DB) - 8.7);
    println!(
        "48k->16k: N={}, group_delay_out={}, beta={:.6}, stopband={:.3} dB @ {:.1} Hz, passband_ripple={:.6} dB",
        proto.num_taps, proto.group_delay_out, beta, r.stopband_db, r.stopband_freq, r.passband_ripple_db
    );

    assert!(
        r.stopband_db <= -TARGET_STOPBAND_DB,
        "stopband {:.3} dB must clear -{} dB",
        r.stopband_db,
        TARGET_STOPBAND_DB
    );
    assert!(
        r.passband_ripple_db < 0.1,
        "passband ripple {:.6} dB exceeds 0.1 dB",
        r.passband_ripple_db
    );
}

#[test]
fn kernel_meets_spec_44k_to_16k() {
    // out/in = 16000/44100 = 160/441 -> L = 160, M = 441.
    let (in_rate, out_rate, m) = (44100u32, 16000u32, 441u32);
    let proto = prototype(in_rate, out_rate, m);
    let (fs_op, fp, fs) = geometry(in_rate, out_rate, m);

    assert_eq!((proto.num_taps - 1) % (2 * m as usize), 0);
    assert_eq!(
        proto.group_delay_out,
        (proto.num_taps - 1) / (2 * m as usize)
    );

    let r = measure(&proto.coeffs, fs_op, fp, fs);
    let beta = 0.1102 * (f64::from(DESIGN_STOPBAND_DB) - 8.7);
    println!(
        "44.1k->16k: N={}, group_delay_out={}, beta={:.6}, stopband={:.3} dB @ {:.1} Hz, passband_ripple={:.6} dB",
        proto.num_taps, proto.group_delay_out, beta, r.stopband_db, r.stopband_freq, r.passband_ripple_db
    );

    assert!(
        r.stopband_db <= -TARGET_STOPBAND_DB,
        "stopband {:.3} dB must clear -{} dB",
        r.stopband_db,
        TARGET_STOPBAND_DB
    );
    assert!(
        r.passband_ripple_db < 0.1,
        "passband ripple {:.6} dB exceeds 0.1 dB",
        r.passband_ripple_db
    );
}

#[test]
fn prototype_is_reproducible() {
    let a = prototype(48000, 16000, 3);
    let b = prototype(48000, 16000, 3);
    assert_eq!(a.coeffs.len(), b.coeffs.len());
    for (x, y) in a.coeffs.iter().zip(&b.coeffs) {
        assert_eq!(x.to_bits(), y.to_bits());
    }
}

// ---- Special functions ------------------------------------------------------

// Reference I0 via its integral form I0(x) = (1/pi) * integral_0^pi
// exp(x cos theta) d theta, evaluated with composite Simpson's rule. This
// is an independent algorithm from the power series, and it deliberately
// uses the standard library's exp/cos: it is a test reference, not the
// coefficient path, so platform-dependent transcendental precision is fine.
fn i0_integral_reference(x: f64) -> f64 {
    let n = 20_000usize; // even, for Simpson's rule
    let h = PI / n as f64;
    let mut s = 0.0_f64;
    for i in 0..=n {
        let theta = i as f64 * h;
        let f = (x * theta.cos()).exp();
        let weight = if i == 0 || i == n {
            1.0
        } else if i % 2 == 1 {
            4.0
        } else {
            2.0
        };
        s += weight * f;
    }
    (s * h / 3.0) / PI
}

#[test]
fn i0_matches_integral_reference() {
    let mut max_rel = 0.0_f64;
    for &x in &[0.0, 0.5, 1.0, 2.0, 3.5, 5.0, 7.857, 8.298, 10.0, 12.0] {
        let reference = i0_integral_reference(x);
        let value = i0(x);
        let rel = ((value - reference) / reference).abs();
        if rel > max_rel {
            max_rel = rel;
        }
    }
    println!("i0 max relative error vs integral reference = {max_rel:e}");
    assert!(max_rel < 1e-9, "i0 relative error {max_rel:e} exceeds 1e-9");
}

#[test]
fn sin_matches_reference_over_kernel_range() {
    // Cover the argument range reached by the kernel builder (a few hundred
    // radians). The standard library's sin is the reference here.
    let mut max_err = 0.0_f64;
    let n = 200_000usize;
    for i in 0..=n {
        let x = -330.0 + 660.0 * (i as f64) / (n as f64);
        let e = (sin(x) - x.sin()).abs();
        if e > max_err {
            max_err = e;
        }
    }
    println!("sin max absolute error vs reference over [-330, 330] = {max_err:e}");
    assert!(
        max_err < 1e-10,
        "sin absolute error {max_err:e} exceeds 1e-10"
    );
}

#[test]
fn special_functions_are_reproducible() {
    // Pure functions: identical inputs must yield identical bits.
    for &x in &[0.0, 1.0, 7.857, 123.456, -200.0] {
        assert_eq!(i0(x).to_bits(), i0(x).to_bits());
        assert_eq!(sin(x).to_bits(), sin(x).to_bits());
    }
}
