//! Exact values of the library's rules: ratios, routing, lengths, tables,
//! schedules, and the errors.

use decibri_resampler::exact::ExactEngine;
use decibri_resampler::general::GeneralEngine;
use decibri_resampler::history::History;
use decibri_resampler::kernel::{
    align_len, build_oversampled_prototype, build_prototype, exact_prototype_len,
    general_prototype_len, kaiser_len, odd_up, windowed_sinc, Band, DESIGN_STOPBAND_DB,
    MAX_FILTER_TAPS,
};
use decibri_resampler::polyphase::{check_length, route, EngineKind, Route};
use decibri_resampler::ratio::{gcd, reduce};
use decibri_resampler::schedule::position_fits;
use decibri_resampler::special;
use decibri_resampler::table::phase_table;
use decibri_resampler::{Arithmetic, Resampler, ResamplerError};
use std::f64::consts::PI;

/// Mono `f32` audio with `f64` sums, every operation the primitive one.
struct Binary;

impl Arithmetic for Binary {
    type Sample = f32;
    type Real = f64;

    fn silence() -> f32 {
        0.0
    }
    fn pi() -> f64 {
        PI
    }
    fn count(n: u64) -> f64 {
        n as f64
    }
    fn widen(s: f32) -> f64 {
        s as f64
    }
    fn narrow(x: f64) -> f32 {
        x as f32
    }
    fn plus(x: f64, y: f64) -> f64 {
        x + y
    }
    fn minus(x: f64, y: f64) -> f64 {
        x - y
    }
    fn times(x: f64, y: f64) -> f64 {
        x * y
    }
    fn over(x: f64, y: f64) -> f64 {
        x / y
    }
    fn negate(x: f64) -> f64 {
        -x
    }
    fn root(x: f64) -> f64 {
        x.sqrt()
    }
    fn nearest(x: f64) -> f64 {
        x.round()
    }
    fn larger(x: f64, y: f64) -> f64 {
        x.max(y)
    }
    fn below(x: f64, y: f64) -> bool {
        x < y
    }
    fn same(x: f64, y: f64) -> bool {
        x == y
    }
    fn ceiling(x: f64) -> u64 {
        x.ceil() as u64
    }
}

type PolyphaseResampler = decibri_resampler::PolyphaseResampler<Binary>;

/// Deterministic test signal in [-1, 1).
fn noise(n: usize) -> Vec<f32> {
    let mut state = 0x0bad_cafe_u32;
    (0..n)
        .map(|_| {
            state = state.wrapping_mul(1_664_525).wrapping_add(1_013_904_223);
            ((state >> 8) as f32 / (1u32 << 24) as f32) * 2.0 - 1.0
        })
        .collect()
}

fn bits(samples: &[f32]) -> Vec<u32> {
    samples.iter().map(|s| s.to_bits()).collect()
}

/// `ceil(taken * out / in)`.
fn due(in_rate: u64, out_rate: u64, taken: u64) -> u64 {
    (taken * out_rate).div_ceil(in_rate)
}

// ---- Ratios and routing ----------------------------------------------------

#[test]
fn gcd_values() {
    assert_eq!(gcd(48, 18), 6);
    assert_eq!(gcd(18, 48), 6);
    assert_eq!(gcd(44_100, 16_000), 100);
    assert_eq!(gcd(17, 31), 1);
    assert_eq!(gcd(0, 5), 5);
    assert_eq!(gcd(5, 0), 5);
    assert_eq!(gcd(0, 0), 0);
    assert_eq!(gcd(u32::MAX, u32::MAX), u32::MAX);
}

#[test]
fn reduce_values() {
    assert_eq!(reduce(48_000, 16_000), (1, 3));
    assert_eq!(reduce(44_100, 16_000), (160, 441));
    assert_eq!(reduce(11_025, 16_000), (640, 441));
    assert_eq!(reduce(44_101, 16_000), (16_000, 44_101));
    assert_eq!(reduce(7, 7), (1, 1));
}

#[test]
fn route_values() {
    assert!(matches!(route(0, 1), Err(ResamplerError::ZeroSampleRate)));
    assert!(matches!(route(1, 0), Err(ResamplerError::ZeroSampleRate)));
    assert!(matches!(route(0, 0), Err(ResamplerError::ZeroSampleRate)));
    assert!(matches!(route(8_000, 8_000), Ok(Route::Identity)));
    assert!(matches!(
        route(44_100, 16_000),
        Ok(Route::Exact { l: 160, m: 441 })
    ));
    // The largest phase count of the exact engine, and the one after it.
    assert!(matches!(
        route(1_025, 1_024),
        Ok(Route::Exact { l: 1_024, m: 1_025 })
    ));
    assert!(matches!(
        route(1_024, 1_025),
        Ok(Route::General { l: 1_025, m: 1_024 })
    ));
}

#[test]
fn length_cap_is_inclusive() {
    assert_eq!(MAX_FILTER_TAPS, 1 << 22);
    assert!(matches!(check_length(5, 7, 4_194_304), Ok(4_194_304)));
    assert!(matches!(
        check_length(5, 7, 4_194_305),
        Err(ResamplerError::RatePairUnsupported {
            in_rate: 5,
            out_rate: 7
        })
    ));
}

#[test]
fn with_taps_follows_the_length() {
    let r = Route::Exact { l: 1, m: 3 };
    let p = PolyphaseResampler::with_taps(48_000, 16_000, r, 13).unwrap();
    assert_eq!(p.engine_kind(), EngineKind::Exact);
    assert_eq!(p.latency_samples(), 2);
    assert_eq!(p.as_exact().tpp(), 13);
    assert!(matches!(
        PolyphaseResampler::with_taps(48_000, 16_000, r, 6_000_001),
        Err(ResamplerError::RatePairUnsupported {
            in_rate: 48_000,
            out_rate: 16_000
        })
    ));
}

#[test]
fn error_messages() {
    assert_eq!(
        ResamplerError::ZeroSampleRate.message(),
        "sample rate must be greater than 0"
    );
    assert_eq!(
        ResamplerError::RatePairUnsupported {
            in_rate: 1,
            out_rate: 2
        }
        .message(),
        "the requested rate pair requires a filter larger than the supported maximum"
    );
}

#[test]
fn engine_path_labels() {
    let path = |i, o| PolyphaseResampler::new(i, o).unwrap().engine_path();
    assert_eq!(path(16_000, 16_000), "identity");
    assert_eq!(path(48_000, 16_000), "exact");
    assert_eq!(path(44_101, 16_000), "general");
}

#[test]
fn forced_general_has_no_length_cap() {
    let taps = general_prototype_len::<Binary>(624_000, 16_000, 512, DESIGN_STOPBAND_DB);
    assert!(taps > MAX_FILTER_TAPS as u128);
    let r = PolyphaseResampler::new_forced_general(624_000, 16_000).unwrap();
    assert_eq!(r.engine_kind(), EngineKind::General);
    assert_eq!(r.as_general().tpp() as u128, (taps - 1) / 512 + 1);
}

#[test]
fn exact_downsampling_latency_is_one_constant() {
    for &(i, o) in &[
        (48_000u32, 16_000u32),
        (44_100, 16_000),
        (96_000, 16_000),
        (192_000, 16_000),
        (48_000, 44_100),
        (16_000, 8_000),
        (3, 2),
    ] {
        let r = PolyphaseResampler::new(i, o).unwrap();
        assert_eq!(r.engine_kind(), EngineKind::Exact);
        assert_eq!(r.latency_samples(), 106, "{i}->{o}");
    }
}

// ---- Lengths ---------------------------------------------------------------

#[test]
fn aligned_and_odd_lengths() {
    assert_eq!(align_len(637, 3), 637);
    assert_eq!(align_len(638, 3), 643);
    assert_eq!(align_len(643, 3), 643);
    assert_eq!(align_len(0, 3), 1);
    assert_eq!(align_len(1, 3), 1);
    assert_eq!(align_len(2, 3), 7);
    assert_eq!(align_len(u64::MAX, 1), u64::MAX as u128);
    assert_eq!(odd_up(0), 1);
    assert_eq!(odd_up(4), 5);
    assert_eq!(odd_up(5), 5);
    assert_eq!(odd_up(u64::MAX), u64::MAX as u128);
}

/// The Kaiser formula in plain floating point.
fn kaiser_plain(fs_op: f64, control: f64, design_db: f64) -> u64 {
    let transition = 0.025 * control;
    let width = 2.0 * transition / fs_op;
    let n0 = (design_db - 7.95) / (2.285 * PI * width) + 1.0;
    n0.ceil() as u64
}

#[test]
fn kaiser_length_matches_plain_formula() {
    for &(i, o) in &[
        (48_000u32, 16_000u32),
        (44_100, 16_000),
        (8_000, 16_000),
        (11_025, 48_000),
        (1, u32::MAX),
        (u32::MAX, 1),
        (1_234_567, 7_654_321),
    ] {
        let (_, m) = reduce(i, o);
        let control = f64::from(i.min(o));
        assert_eq!(
            kaiser_len::<Binary>(Band::exact(i, o, m, 84)),
            kaiser_plain(f64::from(m) * f64::from(o), control, 84.0)
        );
        assert_eq!(
            kaiser_len::<Binary>(Band::general(i, o, 512, 84)),
            kaiser_plain(512.0 * f64::from(i), control, 84.0)
        );
    }
}

#[test]
fn low_attenuation_asks_for_no_taps() {
    let band = Band::exact(48_000, 16_000, 3, 0);
    assert_eq!(kaiser_len::<Binary>(band), 0);
    assert_eq!(kaiser_plain(48_000.0, 16_000.0, 0.0), 0);
    assert_eq!(exact_prototype_len::<Binary>(48_000, 16_000, 3, 0), 1);
    assert_eq!(general_prototype_len::<Binary>(48_000, 16_000, 512, 0), 1);
}

#[test]
fn aligned_to_two_is_odd() {
    for k in 0..1000u64 {
        assert_eq!(align_len(k, 1), odd_up(k));
    }
}

#[test]
fn prototype_lengths() {
    assert_eq!(
        exact_prototype_len::<Binary>(48_000, 16_000, 3, DESIGN_STOPBAND_DB),
        637
    );
    assert_eq!(
        exact_prototype_len::<Binary>(316_800_000, 16_000, 19_800, DESIGN_STOPBAND_DB),
        4_197_601
    );
    assert_eq!(
        exact_prototype_len::<Binary>(288_000_000, 16_000, 18_000, DESIGN_STOPBAND_DB),
        3_816_001
    );
    assert_eq!(
        general_prototype_len::<Binary>(44_101, 16_000, 512, DESIGN_STOPBAND_DB) % 2,
        1
    );
}

// ---- Prototypes ------------------------------------------------------------

/// The windowed sinc in plain floating point.
fn sinc_plain(fs_op: f64, control: f64, design_db: f64, n: usize) -> Vec<f64> {
    let cutoff = 0.4875 * control;
    let beta = 0.1102 * (design_db - 8.7);
    let center = (n - 1) / 2;
    let wc = 2.0 * PI * cutoff / fs_op;
    let i0_beta = i0_plain(beta);
    let mut coeffs = vec![0.0_f64; n];
    for (i, coeff) in coeffs.iter_mut().enumerate() {
        let offset = i as i64 - center as i64;
        let ideal = if offset == 0 {
            wc / PI
        } else {
            let off = offset as f64;
            sin_plain(wc * off) / (PI * off)
        };
        let t = (i as f64 - center as f64) / center as f64;
        let arg = beta * (1.0 - t * t).max(0.0).sqrt();
        *coeff = ideal * (i0_plain(arg) / i0_beta);
    }
    let mut sum = 0.0_f64;
    for &c in &coeffs {
        sum += c;
    }
    let inv = 1.0 / sum;
    for c in &mut coeffs {
        *c *= inv;
    }
    coeffs
}

fn i0_plain(x: f64) -> f64 {
    let quarter_x_sq = (x * 0.5) * (x * 0.5);
    let (mut term, mut sum, mut k) = (1.0_f64, 1.0_f64, 1.0_f64);
    loop {
        term = term * quarter_x_sq / (k * k);
        let next = sum + term;
        if next == sum {
            return sum;
        }
        sum = next;
        k += 1.0;
    }
}

fn sin_plain(x: f64) -> f64 {
    let two_pi = 2.0 * PI;
    let half_pi = 0.5 * PI;
    let k = (x / two_pi).round();
    let mut r = x - k * two_pi;
    if r > half_pi {
        r = PI - r;
    } else if r < -half_pi {
        r = -PI - r;
    }
    let r2 = r * r;
    let mut p = -1.0 / 121_645_100_408_832_000.0;
    p = p * r2 + 1.0 / 355_687_428_096_000.0;
    p = p * r2 + -1.0 / 1_307_674_368_000.0;
    p = p * r2 + 1.0 / 6_227_020_800.0;
    p = p * r2 + -1.0 / 39_916_800.0;
    p = p * r2 + 1.0 / 362_880.0;
    p = p * r2 + -1.0 / 5040.0;
    p = p * r2 + 1.0 / 120.0;
    p = p * r2 + -1.0 / 6.0;
    p = p * r2 + 1.0;
    p * r
}

#[test]
fn special_functions_match_plain_floats_bit_for_bit() {
    for i in 0..=4000 {
        let x = -400.0 + 0.2 * i as f64;
        assert_eq!(
            special::sin::<Binary>(x).to_bits(),
            sin_plain(x).to_bits(),
            "sin({x})"
        );
        let y = 0.005 * i as f64;
        assert_eq!(
            special::i0::<Binary>(y).to_bits(),
            i0_plain(y).to_bits(),
            "i0({y})"
        );
    }
    assert_eq!(special::i0::<Binary>(0.0), 1.0);
    assert_eq!(special::sin::<Binary>(0.0), 0.0);
}

#[test]
fn prototypes_match_plain_floats_bit_for_bit() {
    let n = exact_prototype_len::<Binary>(44_100, 16_000, 441, DESIGN_STOPBAND_DB) as usize;
    let exact = build_prototype::<Binary>(44_100, 16_000, 441, n, DESIGN_STOPBAND_DB);
    let plain = sinc_plain(441.0 * 16_000.0, 16_000.0, 84.0, n);
    assert_eq!(exact.num_taps, n);
    assert_eq!(exact.coeffs.len(), n);
    for (a, b) in exact.coeffs.iter().zip(&plain) {
        assert_eq!(a.to_bits(), b.to_bits());
    }

    let n = general_prototype_len::<Binary>(44_101, 16_000, 512, DESIGN_STOPBAND_DB) as usize;
    let general =
        build_oversampled_prototype::<Binary>(44_101, 16_000, 512, n, DESIGN_STOPBAND_DB);
    let plain = sinc_plain(512.0 * 44_101.0, 16_000.0, 84.0, n);
    for (a, b) in general.iter().zip(&plain) {
        assert_eq!(a.to_bits(), b.to_bits());
    }
}

#[test]
fn one_operating_rate_one_prototype() {
    let n = exact_prototype_len::<Binary>(48_000, 16_000, 3, DESIGN_STOPBAND_DB);
    assert_eq!(n, 637);
    assert_eq!(
        general_prototype_len::<Binary>(16_000, 48_000, 3, DESIGN_STOPBAND_DB),
        n
    );
    let exact = build_prototype::<Binary>(48_000, 16_000, 3, 637, DESIGN_STOPBAND_DB);
    let over = build_oversampled_prototype::<Binary>(16_000, 48_000, 3, 637, DESIGN_STOPBAND_DB);
    assert_eq!(exact.coeffs.len(), over.len());
    for (a, b) in exact.coeffs.iter().zip(&over) {
        assert_eq!(a.to_bits(), b.to_bits());
    }

    assert_eq!(
        exact_prototype_len::<Binary>(16_000, 48_000, 1, DESIGN_STOPBAND_DB),
        n
    );
    let raised = build_prototype::<Binary>(16_000, 48_000, 1, 637, DESIGN_STOPBAND_DB);
    assert_eq!(raised.num_taps, over.len());
    for (a, b) in raised.coeffs.iter().zip(&over) {
        assert_eq!(a.to_bits(), b.to_bits());
    }
}

#[test]
fn sine_is_odd_with_exact_zeros() {
    for i in 0..=4000 {
        let x = 0.1 * i as f64;
        assert_eq!(special::sin::<Binary>(-x), -special::sin::<Binary>(x), "sin({x})");
    }
    assert_eq!(special::sin::<Binary>(0.0), 0.0);
    assert_eq!(special::sin::<Binary>(PI), 0.0);
}

#[test]
fn bessel_is_even() {
    for i in 0..=2000 {
        let x = 0.01 * i as f64;
        assert_eq!(
            special::i0::<Binary>(-x).to_bits(),
            special::i0::<Binary>(x).to_bits(),
            "i0({x})"
        );
    }
}

/// Numbers with every kind of sign and size, and what is not a number.
const SPECIALS: [f64; 17] = [
    0.0,
    -0.0,
    1.0,
    -1.0,
    0.5,
    -0.5,
    2.5,
    -2.5,
    PI,
    -PI,
    5e-324,
    -5e-324,
    f64::MAX,
    f64::MIN,
    f64::INFINITY,
    f64::NEG_INFINITY,
    f64::NAN,
];

#[test]
fn floats_treat_signs_alike() {
    let opposite = |x: f64, y: f64| y == -x;
    let number = |x: f64| !x.is_nan();
    let pairs: Vec<(f64, f64)> = SPECIALS
        .iter()
        .flat_map(|&p| SPECIALS.iter().map(move |&q| (p, q)))
        .filter(|&(p, q)| opposite(p, q))
        .collect();
    assert_eq!(pairs.len(), 18);
    for &(p, q) in &pairs {
        assert!(opposite(q, p));
        assert!(opposite(p.round(), q.round()));
        assert_eq!((p * p).to_bits(), (q * q).to_bits());
        for &c in &SPECIALS {
            assert!(!number(p * c) || opposite(p * c, q * c));
            assert!(!number(c * p) || opposite(c * p, c * q));
            assert!(!number(p / c) || opposite(p / c, q / c));
        }
        for &(u, v) in &pairs {
            assert!(!number(p - u) || opposite(p - u, q - v));
            assert!(u == 0.0 || !number(p / u) || p / u == q / v);
            assert_eq!(p < u, v < q);
        }
    }
    for &p in &SPECIALS {
        for &q in &SPECIALS {
            if p == q {
                for &c in &SPECIALS {
                    assert!(!number(p * c) || p * c == q * c);
                }
                assert_eq!(p as f32 as f64, q as f32 as f64);
                assert_eq!((0.0 + p).to_bits(), (0.0 + q).to_bits());
            }
            for x in [p + q, p - q, p * q, p / q] {
                assert!(!number(x) || (number(p) && number(q)));
            }
        }
        assert_eq!(number(p as f32 as f64), number(p));
    }
}

#[test]
fn oversampled_prototype_is_symmetric() {
    let n = general_prototype_len::<Binary>(44_101, 16_000, 512, DESIGN_STOPBAND_DB) as usize;
    let c = build_oversampled_prototype::<Binary>(44_101, 16_000, 512, n, DESIGN_STOPBAND_DB);
    assert_eq!(c.len() % 2, 1);
    for i in 0..c.len() {
        assert_eq!(c[i], c[c.len() - 1 - i], "tap {i}");
    }
}

#[test]
fn prototype_is_symmetric_with_unity_gain() {
    let c = windowed_sinc::<Binary>(Band::exact(48_000, 16_000, 3, 84), 637);
    for i in 0..c.len() {
        assert_eq!(c[i], c[c.len() - 1 - i], "tap {i}");
    }
    assert!((c.iter().sum::<f64>() - 1.0).abs() < 1e-12);
}

// ---- Tables and history ----------------------------------------------------

#[test]
fn phase_table_interleaves_and_pads() {
    let coeffs = vec![1.0_f64, 2.0, 3.0, 4.0, 5.0];
    let table = phase_table::<Binary>(&coeffs, 2, 3, 0.0);
    assert_eq!(table, vec![2.0_f32, 6.0, 10.0, 4.0, 8.0, 0.0]);
    let table = phase_table::<Binary>(&coeffs, 3, 2, -9.0);
    assert_eq!(table, vec![3.0_f32, 12.0, 6.0, 15.0, 9.0, -9.0]);
}

#[test]
fn history_keeps_the_newest() {
    let mut h = History::new(3, 0u8);
    assert_eq!(h.len(), 3);
    for x in 1..=5u8 {
        h.push(x);
    }
    assert_eq!([h.back(0), h.back(1), h.back(2)], [5, 4, 3]);
    h.push(6);
    assert_eq!([h.back(0), h.back(1), h.back(2)], [6, 5, 4]);
    assert_eq!(h.ring().len(), 3);
    h.clear(9);
    assert_eq!([h.back(0), h.back(1), h.back(2)], [9, 9, 9]);
}

// ---- Schedules -------------------------------------------------------------

#[test]
fn positions_fit_up_to_the_counter() {
    assert!(position_fits(1, 1, u64::MAX - 1, 1));
    assert!(!position_fits(1, 1, u64::MAX, 1));
    // One step ahead of the last sample is 3 samples on.
    assert!(position_fits(3, 1, u64::MAX - 3, 1));
    assert!(position_fits(3, 1, u64::MAX - 1, 1));
    assert!(!position_fits(4, 1, u64::MAX - 1, 1));
    assert!(!position_fits(u32::MAX as u64, u32::MAX as u64, u64::MAX, u64::MAX));
}

#[test]
fn output_count_is_the_closed_form() {
    for &(i, o) in &[
        (48_000u32, 16_000u32),
        (44_100, 16_000),
        (16_000, 48_000),
        (8_000, 11_025),
        (44_101, 16_000),
    ] {
        let mut r = PolyphaseResampler::new(i, o).unwrap();
        let mut out = Vec::new();
        let mut taken = 0u64;
        for n in [0usize, 1, 2, 3, 50, 1, 7, 300, 0, 5] {
            r.process(&noise(n), &mut out);
            taken += n as u64;
            assert_eq!(out.len() as u64, due(i as u64, o as u64, taken), "{i}->{o} {taken}");
        }
        let tail = match r.engine_kind() {
            EngineKind::Exact => r.as_exact().tpp() - 1,
            _ => r.as_general().tpp() - 1,
        } as u64;
        r.flush(&mut out);
        assert_eq!(out.len() as u64, due(i as u64, o as u64, taken + tail));
        assert!(out.len() as u64 >= taken * o as u64 / i as u64);
    }
}

#[test]
fn both_engines_keep_one_schedule() {
    let input = noise(777);
    for &(i, o) in &[(44_100u32, 16_000u32), (16_000, 48_000), (48_000, 44_100)] {
        let mut exact = PolyphaseResampler::new(i, o).unwrap();
        let mut general = PolyphaseResampler::new_forced_general(i, o).unwrap();
        assert_eq!(exact.engine_kind(), EngineKind::Exact);
        assert_eq!(general.engine_kind(), EngineKind::General);
        let (mut a, mut b) = (Vec::new(), Vec::new());
        for chunk in input.chunks(31) {
            exact.process(chunk, &mut a);
            general.process(chunk, &mut b);
            assert_eq!(a.len(), b.len());
        }
    }
}

#[test]
fn general_matches_closed_form_reference() {
    let input = noise(1500);
    let (in_rate, out_rate, phases) = (44_101u64, 16_000u64, 512u64);
    let mut r = PolyphaseResampler::new(44_101, 16_000).unwrap();
    let mut out = Vec::new();
    r.process(&input, &mut out);
    r.flush(&mut out);

    let g = r.as_general();
    let tpp = g.tpp();
    let table = g.table();
    let mut reference = Vec::new();
    for n in 0u64.. {
        let newest = (n * in_rate / out_rate) as i64;
        if newest > input.len() as i64 - 1 + tpp as i64 - 1 {
            break;
        }
        let rp = n * in_rate % out_rate * phases;
        let phase = (rp / out_rate) as usize;
        let eta = (rp % out_rate) as f64 / out_rate as f64;
        let mut acc = 0.0_f64;
        for j in 0..tpp {
            // The next coefficient of the oversampled prototype.
            let at = |step: usize| -> f64 {
                let (p, k) = (step % 512, step / 512);
                if k < tpp {
                    table[p * tpp + k] as f64
                } else {
                    0.0
                }
            };
            let a = at(phase + 512 * j);
            let b = at(phase + 512 * j + 1);
            let xi = newest - j as i64;
            let x = if xi >= 0 && (xi as usize) < input.len() {
                input[xi as usize]
            } else {
                0.0
            };
            acc += (a + eta * (b - a)) * x as f64;
        }
        reference.push(acc as f32);
    }
    assert_eq!(bits(&out), bits(&reference));
}

#[test]
fn exact_impulse_response_is_the_decimated_prototype() {
    let n = exact_prototype_len::<Binary>(44_100, 16_000, 441, DESIGN_STOPBAND_DB) as usize;
    let proto = build_prototype::<Binary>(44_100, 16_000, 441, n, DESIGN_STOPBAND_DB);
    let mut engine = ExactEngine::<Binary>::new(44_100, 16_000, 160, 441, n);
    assert_eq!((engine.l(), engine.m()), (160, 441));
    let mut out = Vec::new();
    engine.process(&[1.0], &mut out);
    engine.flush(&mut out);
    for (k, y) in out.iter().enumerate() {
        let want = if k * 441 < n {
            (proto.coeffs[k * 441] * 160.0) as f32
        } else {
            0.0
        };
        assert_eq!(*y, want, "output {k}");
    }
    let d = engine.latency();
    assert_eq!(d * 441, (n - 1) / 2);
    assert!(out.len() > 2 * d);
    for k in 0..=2 * d {
        assert_eq!(out[k], out[2 * d - k], "output {k}");
    }
    assert!(out[2 * d + 1..].iter().all(|y| *y == 0.0));
}

#[test]
fn general_latency_is_rounded_to_nearest() {
    // 1024 taps past the first, two per phase: one input sample of delay.
    let g = GeneralEngine::<Binary>::new(3, 2, 1025);
    assert_eq!(g.tpp(), 3);
    // 1024 * 2 / (1024 * 3) = 0.67
    assert_eq!(g.latency(), 1);
    // 1024 * 1 / (1024 * 2) = 0.5, up
    assert_eq!(GeneralEngine::<Binary>::new(2, 1, 1025).latency(), 1);
    // 1024 * 1 / (1024 * 3) = 0.33
    assert_eq!(GeneralEngine::<Binary>::new(3, 1, 1025).latency(), 0);
}

// ---- Streaming -------------------------------------------------------------

#[test]
fn flush_then_process_continues_from_the_drained_state() {
    let (a, b) = (noise(100), noise(90));
    let mut r = PolyphaseResampler::new(48_000, 16_000).unwrap();
    let tail = vec![0.0_f32; r.as_exact().tpp() - 1];
    let mut out = Vec::new();
    assert!(!r.is_flushed());
    r.process(&a, &mut out);
    r.flush(&mut out);
    assert!(r.is_flushed());
    r.process(&b, &mut out);

    let mut s = PolyphaseResampler::new(48_000, 16_000).unwrap();
    let mut want = Vec::new();
    s.process(&a, &mut want);
    s.process(&tail, &mut want);
    s.process(&b, &mut want);
    assert_eq!(bits(&out), bits(&want));
    r.reset();
    assert!(!r.is_flushed());
}

#[test]
fn a_second_flush_is_silent() {
    for &(i, o) in &[(48_000u32, 16_000u32), (16_000, 48_000), (44_101, 16_000)] {
        let mut r = PolyphaseResampler::new(i, o).unwrap();
        let mut out = Vec::new();
        r.process(&noise(500), &mut out);
        r.flush(&mut out);
        let drained = out.len();
        r.flush(&mut out);
        assert!(out.len() > drained);
        assert!(out[drained..].iter().all(|y| y.to_bits() == 0), "{i}->{o}");
    }
}

/// One run: the input in one call, then a flush.
fn run(mut r: PolyphaseResampler, input: &[f32]) -> Vec<f32> {
    let mut out = Vec::new();
    r.process(input, &mut out);
    r.flush(&mut out);
    out
}

#[test]
fn delayed_input_delays_the_output() {
    let input = noise(400);
    let general = PolyphaseResampler::new_forced_general;
    for &(i, o) in &[
        (48_000u32, 16_000u32),
        (44_100, 16_000),
        (16_000, 48_000),
        (44_101, 16_000),
    ] {
        let (l, m) = reduce(i, o);
        let mut delayed = vec![0.0_f32; m as usize];
        delayed.extend_from_slice(&input);
        for (plain, late) in [
            (
                run(PolyphaseResampler::new(i, o).unwrap(), &input),
                run(PolyphaseResampler::new(i, o).unwrap(), &delayed),
            ),
            (
                run(general(i, o).unwrap(), &input),
                run(general(i, o).unwrap(), &delayed),
            ),
        ] {
            let (lead, rest) = late.split_at(l as usize);
            assert!(lead.iter().all(|y| y.to_bits() == 0), "{i}->{o}");
            assert_eq!(bits(rest), bits(&plain), "{i}->{o}");
        }
    }
}

#[test]
fn output_is_appended_never_cleared() {
    for &(i, o) in &[(16_000u32, 16_000u32), (48_000, 16_000), (44_101, 16_000)] {
        let mut r = PolyphaseResampler::new(i, o).unwrap();
        let mut out = vec![7.0_f32, 8.0];
        r.process(&noise(40), &mut out);
        r.flush(&mut out);
        assert_eq!(&out[..2], &[7.0, 8.0]);
        assert!(out.len() > 2);
    }
}

#[test]
fn reset_restores_construction_on_every_engine() {
    let input = noise(333);
    for &(i, o) in &[(16_000u32, 16_000u32), (16_000, 48_000), (44_101, 16_000)] {
        let mut r = PolyphaseResampler::new(i, o).unwrap();
        let latency = r.latency_samples();
        let mut first = Vec::new();
        r.process(&input, &mut first);
        r.flush(&mut first);
        r.reset();
        let mut second = Vec::new();
        r.process(&input, &mut second);
        r.flush(&mut second);
        assert_eq!(bits(&first), bits(&second));
        r.reset();
        r.reset();
        let mut third = Vec::new();
        r.process(&input, &mut third);
        r.flush(&mut third);
        assert_eq!(bits(&first), bits(&third));
        assert_eq!(r.latency_samples(), latency);
        assert_eq!(r.is_identity(), i == o);
    }
}

#[test]
fn a_new_stream_has_room() {
    for &(i, o) in &[(16_000u32, 16_000u32), (48_000, 16_000), (44_101, 16_000)] {
        let r = PolyphaseResampler::new(i, o).unwrap();
        assert!(r.can_process(1 << 20));
        assert!(r.can_flush());
    }
}

#[test]
fn non_finite_samples_propagate() {
    let mut r = PolyphaseResampler::new(48_000, 16_000).unwrap();
    let mut out = Vec::new();
    r.process(&[f32::NAN; 3], &mut out);
    assert!(out.iter().all(|y| y.is_nan()));
    let mut id = PolyphaseResampler::new(16_000, 16_000).unwrap();
    let mut same = Vec::new();
    id.process(&[f32::INFINITY, -0.0], &mut same);
    assert_eq!(bits(&same), bits(&[f32::INFINITY, -0.0]));
}

#[test]
fn construction_is_reproducible() {
    let a = PolyphaseResampler::new(44_100, 16_000).unwrap();
    let b = PolyphaseResampler::new(44_100, 16_000).unwrap();
    assert_eq!(bits(a.as_exact().table()), bits(b.as_exact().table()));
    assert_eq!(a.latency_samples(), b.latency_samples());
}
