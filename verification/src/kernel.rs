//! Windowed-sinc prototype filter construction.
//!
//! Builds the Kaiser-windowed sinc lowpass prototype that a polyphase resampler
//! decomposes into phases, band-limited to the controlling Nyquist
//! `min(in, out) / 2`. All coefficient arithmetic uses the functions in
//! [`crate::special`] and primitive operations, in a fixed evaluation order.

use crate::arithmetic::{
    alike, combined, deterministic, fraction, gives, is_nonzero, is_number, lemma_gives_once,
    lemma_operand, lemma_operands, numbers_come_from_numbers, opposite, sign_symmetric, Arithmetic,
    Binary, Formula, Term, Unary,
};
use crate::special::{
    half_pi_is_positive, i0, is_i0, is_sine, law_i0_is_determined, law_sine_is_determined,
    law_sine_is_odd, lemma_sine_number, sin,
};
use vstd::arithmetic::div_mod::*;
use vstd::arithmetic::mul::*;
use vstd::prelude::*;

verus! {

/// Attenuation the prototype is designed to, in dB.
///
/// For a Kaiser window the stopband floor is set by the window shape, while the
/// length sets the transition width. The Kaiser length formula is slightly
/// optimistic at the band edge, so designing to 84 dB leaves the realized
/// stopband comfortably past an 80 dB target.
pub const DESIGN_STOPBAND_DB: u32 = 84;

/// Maximum supported windowed-sinc prototype length, in taps.
pub const MAX_FILTER_TAPS: usize = 4_194_304;

/// What a prototype is designed for: the operating rate as the product
/// `multiplier * rate`, the controlling rate, and the stopband attenuation.
#[derive(Clone, Copy)]
pub struct Band {
    pub multiplier: u32,
    pub rate: u32,
    pub control: u32,
    pub design_db: u32,
}

/// The smaller of two rates, which controls the passband.
pub open spec fn control_rate(in_rate: u32, out_rate: u32) -> u32 {
    if in_rate <= out_rate {
        in_rate
    } else {
        out_rate
    }
}

/// The band of the exact engine: operating rate `m * out_rate`.
pub open spec fn exact_band(in_rate: u32, out_rate: u32, m: u32, design_db: u32) -> Band {
    Band { multiplier: m, rate: out_rate, control: control_rate(in_rate, out_rate), design_db }
}

/// The band of the general engine: operating rate `phases * in_rate`.
pub open spec fn general_band(in_rate: u32, out_rate: u32, phases: u32, design_db: u32) -> Band {
    Band { multiplier: phases, rate: in_rate, control: control_rate(in_rate, out_rate), design_db }
}

impl Band {
    /// The band of the exact engine.
    pub fn exact(in_rate: u32, out_rate: u32, m: u32, design_db: u32) -> (band: Self)
        ensures
            band == exact_band(in_rate, out_rate, m, design_db),
    {
        let control = if in_rate <= out_rate {
            in_rate
        } else {
            out_rate
        };
        Band { multiplier: m, rate: out_rate, control, design_db }
    }

    /// The band of the general engine.
    pub fn general(in_rate: u32, out_rate: u32, phases: u32, design_db: u32) -> (band: Self)
        ensures
            band == general_band(in_rate, out_rate, phases, design_db),
    {
        let control = if in_rate <= out_rate {
            in_rate
        } else {
            out_rate
        };
        Band { multiplier: phases, rate: in_rate, control, design_db }
    }
}

/// The operating rate.
pub open spec fn operating_rate<R, S>(band: Band) -> Formula<R, S> {
    Formula::Count(band.multiplier as u64).times(Formula::Count(band.rate as u64))
}

/// The transition width relative to the operating rate: twice `0.025` of the
/// controlling rate.
pub open spec fn transition_width<R, S>(band: Band) -> Formula<R, S> {
    let transition = fraction(25, 1000).times(Formula::Count(band.control as u64));
    Formula::Count(2).times(transition).over(operating_rate(band))
}

/// The Kaiser length before rounding:
/// `(design_db - 7.95) / (2.285 * pi * width) + 1`.
pub open spec fn kaiser_length<R, S>(band: Band) -> Formula<R, S> {
    Formula::Count(band.design_db as u64).minus(fraction(795, 100)).over(
        fraction(2285, 1000).times(Formula::Pi).times(transition_width(band)),
    ).plus(Formula::Count(1))
}

/// `n` is the Kaiser length `x`, rounded up.
pub open spec fn kaiser_by<A: Arithmetic>(band: Band, x: A::Real, n: u64) -> bool {
    &&& gives::<A>(kaiser_length(band), x)
    &&& call_ensures(A::ceiling, (x,), n)
}

/// `n` is the Kaiser length for `band`, in whole taps.
pub open spec fn is_kaiser_len<A: Arithmetic>(band: Band, n: u64) -> bool {
    exists|x: A::Real| #[trigger] kaiser_by::<A>(band, x, n)
}

/// The Kaiser windowed-sinc length for `band`, rounded up to whole taps.
pub fn kaiser_len<A: Arithmetic>(band: Band) -> (n: u64)
    ensures
        is_kaiser_len::<A>(band, n),
{
    let fs_op = Term::<A>::count(band.multiplier as u64).times(
        Term::<A>::count(band.rate as u64),
    );
    let transition = Term::<A>::fraction(25, 1000).times(Term::<A>::count(band.control as u64));
    let width = Term::<A>::count(2).times(transition).over(fs_op);
    let n0 = Term::<A>::count(band.design_db as u64).minus(Term::<A>::fraction(795, 100)).over(
        Term::<A>::fraction(2285, 1000).times(Term::<A>::pi()).times(width),
    ).plus(Term::<A>::count(1)).value();
    let n: u64 = A::ceiling(n0);
    assert(kaiser_by::<A>(band, n0, n));
    n
}

/// The least length of at least `kaiser` taps with `len - 1` a multiple of
/// `2 * m`. A filter has at least one tap, also where `kaiser` is zero.
pub open spec fn aligned_len(kaiser: nat, m: nat) -> nat {
    let past = (kaiser - 1) % (2 * m as int);
    if past == 0 {
        kaiser
    } else {
        (kaiser + 2 * m - past) as nat
    }
}

/// The least odd length of at least `kaiser` taps.
pub open spec fn odd_len(kaiser: nat) -> nat {
    if kaiser % 2 == 0 {
        kaiser + 1
    } else {
        kaiser
    }
}

/// What [`aligned_len`] is: aligned, long enough, and the first such length.
pub proof fn law_aligned_len(kaiser: nat, m: nat)
    requires
        m >= 1,
    ensures
        aligned_len(kaiser, m) >= 1,
        (aligned_len(kaiser, m) - 1) % (2 * m as int) == 0,
        kaiser <= aligned_len(kaiser, m),
        forall|n: nat|
            kaiser <= n && #[trigger] ((n - 1) % (2 * m as int)) == 0 ==> aligned_len(kaiser, m)
                <= n,
        aligned_len(kaiser, m) % 2 == 1,
{
    let d = 2 * m as int;
    let k = kaiser - 1;
    let q = k / d;
    let past = k % d;
    let len = aligned_len(kaiser, m) as int;
    lemma_fundamental_div_mod(k, d);
    lemma_mod_bound(k, d);
    let steps = if past == 0 {
        q
    } else {
        q + 1
    };
    assert(len - 1 == steps * d) by (nonlinear_arith)
        requires
            k == d * q + past,
            len == k + 1 + (if past == 0 {
                0
            } else {
                d - past
            }),
            steps == (if past == 0 {
                q
            } else {
                q + 1
            }),
    ;
    lemma_mod_multiples_basic(steps, d);
    assert(steps >= 0) by (nonlinear_arith)
        requires
            -1 <= k,
            d >= 2,
            k == d * q + past,
            0 <= past < d,
            steps == (if past == 0 {
                q
            } else {
                q + 1
            }),
    ;
    assert(steps * d >= 0) by (nonlinear_arith)
        requires
            steps >= 0,
            d >= 2,
    ;
    assert forall|n: nat|
        kaiser <= n && #[trigger] ((n - 1) % (2 * m as int)) == 0 implies aligned_len(kaiser, m)
        <= n by {
        let j = (n - 1) / d;
        lemma_fundamental_div_mod(n - 1, d);
        assert(steps * d <= n - 1) by (nonlinear_arith)
            requires
                n - 1 == d * j,
                k <= n - 1,
                k == d * q + past,
                0 <= past < d,
                steps == (if past == 0 {
                    q
                } else {
                    q + 1
                }),
        ;
    }
    assert(steps * d == 2 * (steps * m)) by (nonlinear_arith)
        requires
            d == 2 * m,
    ;
}

/// Rounds a Kaiser length up so that `len - 1` is a multiple of `2 * m`.
pub fn align_len(kaiser: u64, m: u32) -> (n: u128)
    requires
        m >= 1,
    ensures
        n == aligned_len(kaiser as nat, m as nat),
{
    if kaiser == 0 {
        proof {
            lemma_fundamental_div_mod_converse(-1, 2 * m as int, -1, 2 * m - 1);
        }
        return 1;
    }
    let mut n: u128 = kaiser as u128;
    let two_m: u128 = 2 * m as u128;
    let rem: u128 = (n - 1) % two_m;
    if rem != 0 {
        n = n + (two_m - rem);
    }
    n
}

/// Rounds a Kaiser length up to an odd one.
pub fn odd_up(kaiser: u64) -> (n: u128)
    ensures
        n == odd_len(kaiser as nat),
{
    let mut n: u128 = kaiser as u128;
    if n % 2 == 0 {
        n = n + 1;
    }
    n
}

/// The prototype length the exact engine uses for this rate pair and decimation
/// factor `m`: the Kaiser length at operating rate `m * out_rate`, rounded up so
/// that `len - 1` is a multiple of `2 * m`.
pub fn exact_prototype_len<A: Arithmetic>(
    in_rate: u32,
    out_rate: u32,
    m: u32,
    design_db: u32,
) -> (n: u128)
    requires
        m >= 1,
    ensures
        exists|kaiser: u64| #[trigger]
            is_kaiser_len::<A>(exact_band(in_rate, out_rate, m, design_db), kaiser) && n
                == aligned_len(kaiser as nat, m as nat),
{
    let kaiser = kaiser_len::<A>(Band::exact(in_rate, out_rate, m, design_db));
    align_len(kaiser, m)
}

/// The prototype length the general engine uses for this rate pair and phase
/// count: the Kaiser length at operating rate `phases * in_rate`, rounded up to
/// an odd length.
pub fn general_prototype_len<A: Arithmetic>(
    in_rate: u32,
    out_rate: u32,
    phases: u32,
    design_db: u32,
) -> (n: u128)
    ensures
        exists|kaiser: u64| #[trigger]
            is_kaiser_len::<A>(general_band(in_rate, out_rate, phases, design_db), kaiser)
                && n == odd_len(kaiser as nat),
{
    let kaiser = kaiser_len::<A>(Band::general(in_rate, out_rate, phases, design_db));
    odd_up(kaiser)
}

/// The numbers a windowed sinc is computed from: cutoff in radians per sample
/// at the operating rate, Kaiser `beta`, and `I0(beta)`.
pub struct Lowpass<R> {
    pub wc: R,
    pub beta: R,
    pub i0_beta: R,
}

/// The cutoff `2 * pi * cutoff / operating rate`, at the transition midpoint
/// `0.4875` of the controlling rate.
pub open spec fn cutoff<R, S>(band: Band) -> Formula<R, S> {
    Formula::Count(2).times(Formula::Pi).times(
        fraction(4875, 10000).times(Formula::Count(band.control as u64)),
    ).over(operating_rate(band))
}

/// The Kaiser shape parameter `0.1102 * (design_db - 8.7)`.
pub open spec fn kaiser_beta<R, S>(band: Band) -> Formula<R, S> {
    fraction(1102, 10000).times(
        Formula::Count(band.design_db as u64).minus(fraction(87, 10)),
    )
}

/// `low` is the lowpass of `band`.
pub open spec fn is_lowpass<A: Arithmetic>(band: Band, low: Lowpass<A::Real>) -> bool {
    &&& gives::<A>(cutoff(band), low.wc)
    &&& gives::<A>(kaiser_beta(band), low.beta)
    &&& is_i0::<A>(low.beta, low.i0_beta)
}

/// How far tap `i` is from the center.
pub open spec fn offset<R, S>(i: u64, center: u64) -> Formula<R, S> {
    Formula::Count(i).minus(Formula::Count(center))
}

/// `v` is `sin(wc * off) / (pi * off)`, by way of the angle and its sine.
pub open spec fn sinc_by<A: Arithmetic>(
    wc: A::Real,
    i: u64,
    center: u64,
    angle: A::Real,
    sine: A::Real,
    v: A::Real,
) -> bool {
    &&& gives::<A>(Formula::Value(wc).times(offset(i, center)), angle)
    &&& is_sine::<A>(angle, sine)
    &&& gives::<A>(Formula::Value(sine).over(Formula::Pi.times(offset(i, center))), v)
}

/// `v` is tap `i` of the ideal lowpass impulse response about `center`: a sinc,
/// whose peak is `wc / pi`.
pub open spec fn is_ideal<A: Arithmetic>(wc: A::Real, i: u64, center: u64, v: A::Real) -> bool {
    if i == center {
        gives::<A>(Formula::Value(wc).over(Formula::Pi), v)
    } else {
        exists|angle: A::Real, sine: A::Real| #[trigger]
            sinc_by::<A>(wc, i, center, angle, sine, v)
    }
}

/// `w` is the Kaiser window at tap `i`, `I0(beta * sqrt(1 - t^2)) / I0(beta)`
/// for `t` from `-1` to `1`, by way of `t`, the argument and its `I0`.
pub open spec fn window_by<A: Arithmetic>(
    low: Lowpass<A::Real>,
    i: u64,
    center: u64,
    t: A::Real,
    arg: A::Real,
    bessel: A::Real,
    w: A::Real,
) -> bool {
    let square = Formula::Value(t).times(Formula::Value(t));
    &&& gives::<A>(offset(i, center).over(Formula::Count(center)), t)
    &&& gives::<A>(
        Formula::Value(low.beta).times(
            Formula::Count(1).minus(square).larger(Formula::Count(0)).root(),
        ),
        arg,
    )
    &&& is_i0::<A>(arg, bessel)
    &&& gives::<A>(Formula::Value(bessel).over(Formula::Value(low.i0_beta)), w)
}

/// `w` is the Kaiser window at tap `i`.
pub open spec fn is_window<A: Arithmetic>(
    low: Lowpass<A::Real>,
    i: u64,
    center: u64,
    w: A::Real,
) -> bool {
    exists|t: A::Real, arg: A::Real, bessel: A::Real| #[trigger]
        window_by::<A>(low, i, center, t, arg, bessel, w)
}

/// `c` is the product of the ideal response `ideal` and the window `w` at tap `i`.
pub open spec fn tap_by<A: Arithmetic>(
    low: Lowpass<A::Real>,
    i: u64,
    center: u64,
    ideal: A::Real,
    w: A::Real,
    c: A::Real,
) -> bool {
    &&& is_ideal::<A>(low.wc, i, center, ideal)
    &&& is_window::<A>(low, i, center, w)
    &&& gives::<A>(Formula::Value(ideal).times(Formula::Value(w)), c)
}

/// `c` is tap `i` of the windowed sinc, before normalization.
pub open spec fn is_tap<A: Arithmetic>(
    low: Lowpass<A::Real>,
    i: u64,
    center: u64,
    c: A::Real,
) -> bool {
    exists|ideal: A::Real, w: A::Real| #[trigger] tap_by::<A>(low, i, center, ideal, w, c)
}

/// The first `k` numbers of `xs`, summed from zero in order.
pub open spec fn running_sum<R, S>(xs: Seq<R>, k: nat) -> Formula<R, S>
    decreases k,
{
    if k == 0 {
        Formula::Count(0)
    } else {
        running_sum::<R, S>(xs, (k - 1) as nat).plus(Formula::Value(xs[k - 1]))
    }
}

/// `coeffs` is `raw` normalized to unity sum: every number times `inv`, the
/// reciprocal of the running sum `sum`.
pub open spec fn normalized<A: Arithmetic>(
    raw: Seq<A::Real>,
    sum: A::Real,
    inv: A::Real,
    coeffs: Seq<A::Real>,
) -> bool {
    &&& gives::<A>(running_sum(raw, raw.len()), sum)
    &&& gives::<A>(Formula::Count(1).over(Formula::Value(sum)), inv)
    &&& coeffs.len() == raw.len()
    &&& forall|i: int|
        0 <= i < raw.len() ==> gives::<A>(
            Formula::Value(raw[i]).times(Formula::Value(inv)),
            #[trigger] coeffs[i],
        )
}

/// `coeffs` is the windowed sinc of `band`, by way of the lowpass and the taps
/// before normalization.
pub open spec fn prototype_by<A: Arithmetic>(
    band: Band,
    low: Lowpass<A::Real>,
    raw: Seq<A::Real>,
    sum: A::Real,
    inv: A::Real,
    coeffs: Seq<A::Real>,
) -> bool {
    let center = ((coeffs.len() - 1) / 2) as u64;
    &&& is_lowpass::<A>(band, low)
    &&& forall|i: int| 0 <= i < raw.len() ==> is_tap::<A>(low, i as u64, center, #[trigger] raw[i])
    &&& normalized::<A>(raw, sum, inv, coeffs)
}

/// `coeffs` is the windowed-sinc prototype of its length for `band`, with
/// unity DC gain.
pub open spec fn is_prototype<A: Arithmetic>(band: Band, coeffs: Seq<A::Real>) -> bool {
    exists|low: Lowpass<A::Real>, raw: Seq<A::Real>, sum: A::Real, inv: A::Real| #[trigger]
        prototype_by::<A>(band, low, raw, sum, inv, coeffs)
}

/// Tap `i` of the ideal lowpass impulse response.
fn ideal_tap<A: Arithmetic>(wc: A::Real, i: u64, center: u64) -> (v: A::Real)
    ensures
        is_ideal::<A>(wc, i, center, v),
{
    if i == center {
        Term::<A>::of(wc).over(Term::<A>::pi()).value()
    } else {
        let angle = Term::<A>::of(wc).times(
            Term::<A>::count(i).minus(Term::<A>::count(center)),
        ).value();
        let sine = sin::<A>(angle);
        let v = Term::<A>::of(sine).over(
            Term::<A>::pi().times(Term::<A>::count(i).minus(Term::<A>::count(center))),
        ).value();
        assert(sinc_by::<A>(wc, i, center, angle, sine, v));
        v
    }
}

/// The Kaiser window at tap `i`.
fn window_tap<A: Arithmetic>(low: &Lowpass<A::Real>, i: u64, center: u64) -> (w: A::Real)
    ensures
        is_window::<A>(*low, i, center, w),
{
    let t = Term::<A>::count(i).minus(Term::<A>::count(center)).over(
        Term::<A>::count(center),
    ).value();
    let square = Term::<A>::of(t).times(Term::<A>::of(t));
    let arg = Term::<A>::of(low.beta).times(
        Term::<A>::count(1).minus(square).larger(Term::<A>::count(0)).root(),
    ).value();
    let bessel = i0::<A>(arg);
    let w = Term::<A>::of(bessel).over(Term::<A>::of(low.i0_beta)).value();
    assert(window_by::<A>(*low, i, center, t, arg, bessel, w));
    w
}

/// The lowpass of `band`.
fn lowpass<A: Arithmetic>(band: Band) -> (low: Lowpass<A::Real>)
    ensures
        is_lowpass::<A>(band, low),
{
    let fs_op = Term::<A>::count(band.multiplier as u64).times(
        Term::<A>::count(band.rate as u64),
    );
    let edge = Term::<A>::fraction(4875, 10000).times(Term::<A>::count(band.control as u64));
    let wc = Term::<A>::count(2).times(Term::<A>::pi()).times(edge).over(fs_op).value();
    let beta = Term::<A>::fraction(1102, 10000).times(
        Term::<A>::count(band.design_db as u64).minus(Term::<A>::fraction(87, 10)),
    ).value();
    let i0_beta = i0::<A>(beta);
    Lowpass { wc, beta, i0_beta }
}

/// Computes the windowed-sinc prototype of `n` taps for `band`.
pub fn windowed_sinc<A: Arithmetic>(band: Band, n: usize) -> (coeffs: Vec<A::Real>)
    requires
        n >= 1,
    ensures
        coeffs@.len() == n,
        is_prototype::<A>(band, coeffs@),
{
    let low = lowpass::<A>(band);
    let center: u64 = ((n - 1) / 2) as u64;
    let mut raw: Vec<A::Real> = Vec::with_capacity(n);
    let mut sum = Term::<A>::count(0);
    let mut i: usize = 0;
    while i < n
        invariant
            i <= n,
            raw@.len() == i,
            forall|k: int| 0 <= k < i ==> is_tap::<A>(low, k as u64, center, #[trigger] raw@[k]),
        decreases n - i,
    {
        let ideal = ideal_tap::<A>(low.wc, i as u64, center);
        let w = window_tap::<A>(&low, i as u64, center);
        let c = Term::<A>::of(ideal).times(Term::<A>::of(w)).value();
        assert(tap_by::<A>(low, i as u64, center, ideal, w, c));
        raw.push(c);
        i += 1;
    }
    // Normalize to unity DC gain, summed in a fixed order.
    i = 0;
    while i < n
        invariant
            i <= n,
            raw@.len() == n,
            sum.formula() == running_sum::<A::Real, A::Sample>(raw@, i as nat),
        decreases n - i,
    {
        sum = sum.plus(Term::<A>::of(raw[i]));
        i += 1;
    }
    let total = sum.value();
    let inv = Term::<A>::count(1).over(Term::<A>::of(total)).value();
    let mut coeffs: Vec<A::Real> = Vec::with_capacity(n);
    i = 0;
    while i < n
        invariant
            i <= n,
            raw@.len() == n,
            coeffs@.len() == i,
            forall|k: int|
                0 <= k < i ==> gives::<A>(
                    Formula::Value(raw@[k]).times(Formula::Value(inv)),
                    #[trigger] coeffs@[k],
                ),
        decreases n - i,
    {
        let c = Term::<A>::of(raw[i]).times(Term::<A>::of(inv)).value();
        coeffs.push(c);
        i += 1;
    }
    assert(prototype_by::<A>(band, low, raw@, total, inv, coeffs@));
    coeffs
}

/// A windowed-sinc lowpass prototype for the exact engine.
pub struct Prototype<A: Arithmetic> {
    /// Prototype coefficients, symmetric, with unity DC gain.
    pub coeffs: Vec<A::Real>,
    /// Filter length `N`, with `N - 1` a multiple of `2 * m`.
    pub num_taps: usize,
    /// Group delay in output samples, `(N - 1) / (2 * m)`, an exact integer.
    pub group_delay_out: usize,
}

/// Builds the windowed-sinc prototype of `n` taps for the rate pair and the
/// decimation factor `m`, designed at the common rate `m * out_rate`.
pub fn build_prototype<A: Arithmetic>(
    in_rate: u32,
    out_rate: u32,
    m: u32,
    n: usize,
    design_db: u32,
) -> (proto: Prototype<A>)
    requires
        n >= 1,
        m >= 1,
        (n - 1) % (2 * m as int) == 0,
    ensures
        is_prototype::<A>(exact_band(in_rate, out_rate, m, design_db), proto.coeffs@),
        proto.coeffs@.len() == n,
        proto.num_taps == n,
        proto.group_delay_out * (2 * m) == n - 1,
{
    let coeffs = windowed_sinc::<A>(Band::exact(in_rate, out_rate, m, design_db), n);
    let two_m: u64 = 2 * m as u64;
    let group_delay_out: usize = ((n - 1) as u64 / two_m) as usize;
    proof {
        lemma_fundamental_div_mod(n - 1, two_m as int);
        lemma_mul_is_commutative((n - 1) / (two_m as int), two_m as int);
        lemma_div_is_ordered_by_denominator(n - 1, 1, two_m as int);
    }
    Prototype { coeffs, num_taps: n, group_delay_out }
}

/// Builds the oversampled windowed-sinc prototype of `n` taps for the
/// arbitrary-ratio path, designed at the operating rate `phases * in_rate` so
/// that it decomposes into `phases` sub-sample phases.
pub fn build_oversampled_prototype<A: Arithmetic>(
    in_rate: u32,
    out_rate: u32,
    phases: u32,
    n: usize,
    design_db: u32,
) -> (coeffs: Vec<A::Real>)
    requires
        n >= 1,
    ensures
        is_prototype::<A>(general_band(in_rate, out_rate, phases, design_db), coeffs@),
        coeffs@.len() == n,
{
    windowed_sinc::<A>(Band::general(in_rate, out_rate, phases, design_db), n)
}

proof fn lemma_tap_is_determined<A: Arithmetic>(
    low: Lowpass<A::Real>,
    i: u64,
    center: u64,
    x: A::Real,
    y: A::Real,
)
    requires
        deterministic::<A>(),
        is_tap::<A>(low, i, center, x),
        is_tap::<A>(low, i, center, y),
    ensures
        x == y,
{
    let (a, v) = choose|ideal: A::Real, w: A::Real| #[trigger]
        tap_by::<A>(low, i, center, ideal, w, x);
    let (b, w) = choose|ideal: A::Real, w: A::Real| #[trigger]
        tap_by::<A>(low, i, center, ideal, w, y);
    if i == center {
        lemma_gives_once::<A>(Formula::Value(low.wc).over(Formula::Pi), a, b);
    } else {
        let (p, s) = choose|angle: A::Real, sine: A::Real| #[trigger]
            sinc_by::<A>(low.wc, i, center, angle, sine, a);
        let (q, t) = choose|angle: A::Real, sine: A::Real| #[trigger]
            sinc_by::<A>(low.wc, i, center, angle, sine, b);
        lemma_gives_once::<A>(Formula::Value(low.wc).times(offset(i, center)), p, q);
        law_sine_is_determined::<A>(p, s, t);
        lemma_gives_once::<A>(
            Formula::Value(s).over(Formula::Pi.times(offset(i, center))),
            a,
            b,
        );
    }
    let (t, p, j) = choose|t: A::Real, arg: A::Real, bessel: A::Real| #[trigger]
        window_by::<A>(low, i, center, t, arg, bessel, v);
    let (u, q, k) = choose|t: A::Real, arg: A::Real, bessel: A::Real| #[trigger]
        window_by::<A>(low, i, center, t, arg, bessel, w);
    lemma_gives_once::<A>(offset(i, center).over(Formula::Count(center)), t, u);
    let square = Formula::Value(t).times(Formula::Value(t));
    lemma_gives_once::<A>(
        Formula::Value(low.beta).times(
            Formula::Count(1).minus(square).larger(Formula::Count(0)).root(),
        ),
        p,
        q,
    );
    law_i0_is_determined::<A>(p, j, k);
    lemma_gives_once::<A>(Formula::Value(j).over(Formula::Value(low.i0_beta)), v, w);
    lemma_gives_once::<A>(Formula::Value(a).times(Formula::Value(v)), x, y);
}

/// In a deterministic number system the prototype of a band and a length is
/// determined: coefficients are reproducible.
pub proof fn law_prototype_is_determined<A: Arithmetic>(
    band: Band,
    x: Seq<A::Real>,
    y: Seq<A::Real>,
)
    requires
        deterministic::<A>(),
        is_prototype::<A>(band, x),
        is_prototype::<A>(band, y),
        x.len() == y.len(),
    ensures
        x == y,
{
    let (a, r, s, u) = choose|
        low: Lowpass<A::Real>,
        raw: Seq<A::Real>,
        sum: A::Real,
        inv: A::Real,
    | #[trigger]
        prototype_by::<A>(band, low, raw, sum, inv, x);
    let (b, q, t, v) = choose|
        low: Lowpass<A::Real>,
        raw: Seq<A::Real>,
        sum: A::Real,
        inv: A::Real,
    | #[trigger]
        prototype_by::<A>(band, low, raw, sum, inv, y);
    lemma_gives_once::<A>(cutoff(band), a.wc, b.wc);
    lemma_gives_once::<A>(kaiser_beta(band), a.beta, b.beta);
    law_i0_is_determined::<A>(a.beta, a.i0_beta, b.i0_beta);
    let center = ((x.len() - 1) / 2) as u64;
    assert forall|i: int| 0 <= i < r.len() implies r[i] == q[i] by {
        assert(is_tap::<A>(a, i as u64, center, r[i]));
        assert(is_tap::<A>(b, i as u64, center, q[i]));
        lemma_tap_is_determined::<A>(a, i as u64, center, r[i], q[i]);
    }
    assert(r =~= q);
    lemma_gives_once::<A>(running_sum(r, r.len()), s, t);
    lemma_gives_once::<A>(Formula::Count(1).over(Formula::Value(s)), u, v);
    assert forall|i: int| 0 <= i < x.len() implies x[i] == y[i] by {
        lemma_gives_once::<A>(Formula::Value(r[i]).times(Formula::Value(u)), x[i], y[i]);
    }
    assert(x =~= y);
}

/// In a deterministic number system the Kaiser length of a band is determined.
pub proof fn law_kaiser_len_is_determined<A: Arithmetic>(band: Band, x: u64, y: u64)
    requires
        deterministic::<A>(),
        is_kaiser_len::<A>(band, x),
        is_kaiser_len::<A>(band, y),
    ensures
        x == y,
{
    let a = choose|v: A::Real| #[trigger] kaiser_by::<A>(band, v, x);
    let b = choose|v: A::Real| #[trigger] kaiser_by::<A>(band, v, y);
    lemma_gives_once::<A>(kaiser_length(band), a, b);
}

/// The taps about `center` have opposite offsets, which other than at the center
/// are not zero. So it is in floating point up to the integers it can hold.
pub open spec fn offsets_mirror<A: Arithmetic>(center: u64) -> bool {
    &&& forall|i: u64, j: u64, a: A::Real, b: A::Real|
        i + j == 2 * center && i != j && #[trigger] gives::<A>(offset(i, center), a)
            && #[trigger] gives::<A>(offset(j, center), b) ==> opposite::<A>(a, b)
    &&& forall|i: u64, t: A::Real|
        i <= 2 * center && i != center && #[trigger] gives::<A>(
            offset(i, center).over(Formula::Count(center)),
            t,
        ) ==> is_number::<A>(t)
    &&& forall|i: u64, d: A::Real|
        i <= 2 * center && i != center && #[trigger] gives::<A>(
            Formula::Pi.times(offset(i, center)),
            d,
        ) ==> is_nonzero::<A>(d)
}

/// The prototype is symmetric: at an odd length, coefficients equally far from
/// the two ends compare equal, wherever they are numbers, in a deterministic
/// number system that treats signs alike.
pub proof fn law_prototype_is_symmetric<A: Arithmetic>(band: Band, coeffs: Seq<A::Real>, i: int)
    requires
        deterministic::<A>(),
        numbers_come_from_numbers::<A>(),
        sign_symmetric::<A>(),
        half_pi_is_positive::<A>(),
        offsets_mirror::<A>(((coeffs.len() - 1) / 2) as u64),
        is_prototype::<A>(band, coeffs),
        coeffs.len() % 2 == 1,
        coeffs.len() <= u64::MAX,
        0 <= i < coeffs.len(),
        is_number::<A>(coeffs[i]),
    ensures
        alike::<A>(coeffs[i], coeffs[coeffs.len() - 1 - i]),
{
    let center = ((coeffs.len() - 1) / 2) as u64;
    let j = coeffs.len() - 1 - i;
    if i != j {
        let (low, raw, sum, inv) = choose|
            low: Lowpass<A::Real>,
            raw: Seq<A::Real>,
            sum: A::Real,
            inv: A::Real,
        | #[trigger]
            prototype_by::<A>(band, low, raw, sum, inv, coeffs);
        assert(gives::<A>(Formula::Value(raw[i]).times(Formula::Value(inv)), coeffs[i]));
        assert(gives::<A>(Formula::Value(raw[j]).times(Formula::Value(inv)), coeffs[j]));
        let (a, u) = lemma_operands::<A>(
            Binary::Times,
            Formula::Value(raw[i]),
            Formula::Value(inv),
            coeffs[i],
        );
        let (b, v) = lemma_operands::<A>(
            Binary::Times,
            Formula::Value(raw[j]),
            Formula::Value(inv),
            coeffs[j],
        );
        assert(is_tap::<A>(low, i as u64, center, raw[i]));
        assert(is_tap::<A>(low, j as u64, center, raw[j]));
        lemma_taps_mirror::<A>(low, center, i as u64, j as u64, raw[i], raw[j]);
    }
}

/// Taps equally far from the center compare equal.
proof fn lemma_taps_mirror<A: Arithmetic>(
    low: Lowpass<A::Real>,
    center: u64,
    i: u64,
    j: u64,
    x: A::Real,
    y: A::Real,
)
    requires
        deterministic::<A>(),
        numbers_come_from_numbers::<A>(),
        sign_symmetric::<A>(),
        half_pi_is_positive::<A>(),
        offsets_mirror::<A>(center),
        i + j == 2 * center,
        i != j,
        is_tap::<A>(low, i, center, x),
        is_tap::<A>(low, j, center, y),
        is_number::<A>(x),
    ensures
        alike::<A>(x, y),
{
    let (a, v) = choose|ideal: A::Real, w: A::Real| #[trigger]
        tap_by::<A>(low, i, center, ideal, w, x);
    let (b, w) = choose|ideal: A::Real, w: A::Real| #[trigger]
        tap_by::<A>(low, j, center, ideal, w, y);
    let (a1, v1) = lemma_operands::<A>(Binary::Times, Formula::Value(a), Formula::Value(v), x);
    let (b1, w1) = lemma_operands::<A>(Binary::Times, Formula::Value(b), Formula::Value(w), y);
    lemma_ideal_mirrors::<A>(low.wc, center, i, j, a, b);
    lemma_window_mirrors::<A>(low, center, i, j, v, w);
}

/// The ideal response is even about the center.
proof fn lemma_ideal_mirrors<A: Arithmetic>(
    wc: A::Real,
    center: u64,
    i: u64,
    j: u64,
    x: A::Real,
    y: A::Real,
)
    requires
        deterministic::<A>(),
        numbers_come_from_numbers::<A>(),
        sign_symmetric::<A>(),
        half_pi_is_positive::<A>(),
        offsets_mirror::<A>(center),
        i + j == 2 * center,
        i != j,
        is_ideal::<A>(wc, i, center, x),
        is_ideal::<A>(wc, j, center, y),
        is_number::<A>(x),
    ensures
        alike::<A>(x, y),
{
    let (p, s) = choose|angle: A::Real, sine: A::Real| #[trigger]
        sinc_by::<A>(wc, i, center, angle, sine, x);
    let (q, t) = choose|angle: A::Real, sine: A::Real| #[trigger]
        sinc_by::<A>(wc, j, center, angle, sine, y);
    let (s1, d) = lemma_operands::<A>(
        Binary::Over,
        Formula::Value(s),
        Formula::Pi.times(offset(i, center)),
        x,
    );
    let (t1, e) = lemma_operands::<A>(
        Binary::Over,
        Formula::Value(t),
        Formula::Pi.times(offset(j, center)),
        y,
    );
    let (pi, a) = lemma_operands::<A>(Binary::Times, Formula::Pi, offset(i, center), d);
    let (pi2, b) = lemma_operands::<A>(Binary::Times, Formula::Pi, offset(j, center), e);
    lemma_gives_once::<A>(Formula::Pi, pi, pi2);
    assert(opposite::<A>(a, b));
    assert(opposite::<A>(d, e));
    let (wc1, a1) = lemma_operands::<A>(
        Binary::Times,
        Formula::Value(wc),
        offset(i, center),
        p,
    );
    let (wc2, b1) = lemma_operands::<A>(
        Binary::Times,
        Formula::Value(wc),
        offset(j, center),
        q,
    );
    lemma_sine_number::<A>(p, s);
    assert(opposite::<A>(a1, b1));
    assert(opposite::<A>(p, q));
    law_sine_is_odd::<A>(p, q, s, t);
}

/// The window is even about the center.
proof fn lemma_window_mirrors<A: Arithmetic>(
    low: Lowpass<A::Real>,
    center: u64,
    i: u64,
    j: u64,
    v: A::Real,
    w: A::Real,
)
    requires
        deterministic::<A>(),
        sign_symmetric::<A>(),
        offsets_mirror::<A>(center),
        i + j == 2 * center,
        i != j,
        is_window::<A>(low, i, center, v),
        is_window::<A>(low, j, center, w),
    ensures
        v == w,
{
    let (t, p, x) = choose|t: A::Real, arg: A::Real, bessel: A::Real| #[trigger]
        window_by::<A>(low, i, center, t, arg, bessel, v);
    let (u, q, y) = choose|t: A::Real, arg: A::Real, bessel: A::Real| #[trigger]
        window_by::<A>(low, j, center, t, arg, bessel, w);
    let (a, c) = lemma_operands::<A>(
        Binary::Over,
        offset(i, center),
        Formula::Count(center),
        t,
    );
    let (b, d) = lemma_operands::<A>(
        Binary::Over,
        offset(j, center),
        Formula::Count(center),
        u,
    );
    lemma_gives_once::<A>(Formula::Count(center), c, d);
    assert(opposite::<A>(a, b));
    assert(opposite::<A>(t, u));
    let t2 = lemma_argument::<A>(low.beta, t, p);
    let u2 = lemma_argument::<A>(low.beta, u, q);
    assert(t2 == u2);
    lemma_gives_once::<A>(
        Formula::Value(low.beta).times(
            Formula::Count(1).minus(Formula::Value(t2)).larger(Formula::Count(0)).root(),
        ),
        p,
        q,
    );
    law_i0_is_determined::<A>(p, x, y);
    lemma_gives_once::<A>(Formula::Value(x).over(Formula::Value(low.i0_beta)), v, w);
}

/// The square that the argument of the window was computed from.
proof fn lemma_argument<A: Arithmetic>(beta: A::Real, t: A::Real, arg: A::Real) -> (t2: A::Real)
    requires
        gives::<A>(
            Formula::Value(beta).times(
                Formula::Count(1).minus(Formula::Value(t).times(Formula::Value(t))).larger(
                    Formula::Count(0),
                ).root(),
            ),
            arg,
        ),
    ensures
        combined::<A>(Binary::Times, t, t, t2),
        gives::<A>(
            Formula::Value(beta).times(
                Formula::Count(1).minus(Formula::Value(t2)).larger(Formula::Count(0)).root(),
            ),
            arg,
        ),
{
    let square = Formula::Value(t).times(Formula::Value(t));
    let inner = Formula::Count(1).minus(square);
    let clamped = inner.larger(Formula::Count(0));
    let (b, r) = lemma_operands::<A>(Binary::Times, Formula::Value(beta), clamped.root(), arg);
    let c = lemma_operand::<A>(Unary::Root, clamped, r);
    let (d, zero) = lemma_operands::<A>(Binary::Larger, inner, Formula::Count(0), c);
    let (one, t2) = lemma_operands::<A>(Binary::Minus, Formula::Count(1), square, d);
    let (p, q) = lemma_operands::<A>(Binary::Times, Formula::Value(t), Formula::Value(t), t2);
    let inner2 = Formula::Count(1).minus(Formula::Value(t2));
    assert(gives::<A>(Formula::Value(t2), t2));
    assert(gives::<A>(inner2, d));
    assert(gives::<A>(inner2.larger(Formula::Count(0)), c));
    assert(gives::<A>(inner2.larger(Formula::Count(0)).root(), r));
    t2
}

/// What [`odd_len`] is: odd, long enough, and the first such length.
pub proof fn law_odd_len(kaiser: nat)
    ensures
        odd_len(kaiser) % 2 == 1,
        kaiser <= odd_len(kaiser),
        forall|n: nat| kaiser <= n && #[trigger] (n % 2) == 1 ==> odd_len(kaiser) <= n,
{
}

/// With no decimation the exact alignment is oddness.
pub proof fn law_aligned_to_two_is_odd(kaiser: nat)
    ensures
        aligned_len(kaiser, 1) == odd_len(kaiser),
{
    assert((kaiser - 1) % 2 == 0 <==> kaiser % 2 == 1);
}

/// The two prototypes are one lowpass: bands with the same controlling rate and
/// attenuation, and operating rates that the number system computes alike, have
/// the same Kaiser lengths and the same prototypes.
pub proof fn law_prototype_follows_operating_rate<A: Arithmetic>(
    a: Band,
    b: Band,
    kaiser: u64,
    coeffs: Seq<A::Real>,
)
    requires
        a.control == b.control,
        a.design_db == b.design_db,
        forall|x: A::Real| #[trigger]
            gives::<A>(operating_rate(a), x) <==> gives::<A>(operating_rate(b), x),
    ensures
        is_kaiser_len::<A>(a, kaiser) <==> is_kaiser_len::<A>(b, kaiser),
        is_prototype::<A>(a, coeffs) <==> is_prototype::<A>(b, coeffs),
{
    lemma_follows_operating_rate::<A>(a, b, kaiser, coeffs);
    assert forall|x: A::Real| #[trigger]
        gives::<A>(operating_rate(b), x) <==> gives::<A>(operating_rate(a), x) by {
        assert(gives::<A>(operating_rate(a), x) <==> gives::<A>(operating_rate(b), x));
    }
    lemma_follows_operating_rate::<A>(b, a, kaiser, coeffs);
}

/// Raising a rate `k` times, the oversampled prototype is the exact engine's:
/// where the number system multiplies the rate by `k` exactly, and is
/// deterministic, both have one odd length and the same coefficients.
pub proof fn law_oversampled_prototype_is_exact_prototype<A: Arithmetic>(
    rate: u32,
    k: u32,
    raised: u32,
    design_db: u32,
    x: u64,
    y: u64,
    exact: Seq<A::Real>,
    oversampled: Seq<A::Real>,
)
    requires
        deterministic::<A>(),
        raised == k * rate,
        forall|r: A::Real| #[trigger]
            gives::<A>(Formula::Count(1).times(Formula::Count(raised as u64)), r) <==> gives::<A>(
                Formula::Count(k as u64).times(Formula::Count(rate as u64)),
                r,
            ),
        is_kaiser_len::<A>(exact_band(rate, raised, 1, design_db), x),
        is_kaiser_len::<A>(general_band(rate, raised, k, design_db), y),
        is_prototype::<A>(exact_band(rate, raised, 1, design_db), exact),
        is_prototype::<A>(general_band(rate, raised, k, design_db), oversampled),
        exact.len() == aligned_len(x as nat, 1),
        oversampled.len() == odd_len(y as nat),
    ensures
        exact.len() % 2 == 1,
        exact == oversampled,
{
    let a = exact_band(rate, raised, 1, design_db);
    let b = general_band(rate, raised, k, design_db);
    law_prototype_follows_operating_rate::<A>(a, b, x, exact);
    law_kaiser_len_is_determined::<A>(b, x, y);
    law_aligned_to_two_is_odd(x as nat);
    law_prototype_is_determined::<A>(b, exact, oversampled);
}

/// Replacing a right operand by one that gives the same numbers.
proof fn lemma_replace_right<A: Arithmetic>(
    op: Binary,
    f: Formula<A::Real, A::Sample>,
    g: Formula<A::Real, A::Sample>,
    h: Formula<A::Real, A::Sample>,
    x: A::Real,
)
    requires
        forall|y: A::Real| #[trigger] gives::<A>(g, y) ==> gives::<A>(h, y),
        gives::<A>(Formula::Combine(op, Box::new(f), Box::new(g)), x),
    ensures
        gives::<A>(Formula::Combine(op, Box::new(f), Box::new(h)), x),
{
    let (p, q) = lemma_operands::<A>(op, f, g, x);
    assert(gives::<A>(h, q));
    assert(combined::<A>(op, p, q, x));
}

/// Replacing a left operand by one that gives the same numbers.
proof fn lemma_replace_left<A: Arithmetic>(
    op: Binary,
    g: Formula<A::Real, A::Sample>,
    h: Formula<A::Real, A::Sample>,
    f: Formula<A::Real, A::Sample>,
    x: A::Real,
)
    requires
        forall|y: A::Real| #[trigger] gives::<A>(g, y) ==> gives::<A>(h, y),
        gives::<A>(Formula::Combine(op, Box::new(g), Box::new(f)), x),
    ensures
        gives::<A>(Formula::Combine(op, Box::new(h), Box::new(f)), x),
{
    let (p, q) = lemma_operands::<A>(op, g, f, x);
    assert(gives::<A>(h, p));
    assert(combined::<A>(op, p, q, x));
}

proof fn lemma_follows_operating_rate<A: Arithmetic>(
    a: Band,
    b: Band,
    kaiser: u64,
    coeffs: Seq<A::Real>,
)
    requires
        a.control == b.control,
        a.design_db == b.design_db,
        forall|x: A::Real| #[trigger]
            gives::<A>(operating_rate(a), x) ==> gives::<A>(operating_rate(b), x),
    ensures
        is_kaiser_len::<A>(a, kaiser) ==> is_kaiser_len::<A>(b, kaiser),
        is_prototype::<A>(a, coeffs) ==> is_prototype::<A>(b, coeffs),
{
    let transition = Formula::Count(2).times(
        fraction(25, 1000).times(Formula::Count(a.control as u64)),
    );
    let unit = fraction(2285, 1000).times(Formula::Pi);
    let excess = Formula::Count(a.design_db as u64).minus(fraction(795, 100));
    if is_kaiser_len::<A>(a, kaiser) {
        let x = choose|x: A::Real| #[trigger] kaiser_by::<A>(a, x, kaiser);
        assert forall|y: A::Real| #[trigger] gives::<A>(transition_width(a), y) implies gives::<A>(
            transition_width(b),
            y,
        ) by {
            lemma_replace_right::<A>(
                Binary::Over,
                transition,
                operating_rate(a),
                operating_rate(b),
                y,
            );
        }
        assert forall|y: A::Real| #[trigger]
            gives::<A>(unit.times(transition_width(a)), y) implies gives::<A>(
            unit.times(transition_width(b)),
            y,
        ) by {
            lemma_replace_right::<A>(
                Binary::Times,
                unit,
                transition_width(a),
                transition_width(b),
                y,
            );
        }
        assert forall|y: A::Real| #[trigger]
            gives::<A>(excess.over(unit.times(transition_width(a))), y) implies gives::<A>(
            excess.over(unit.times(transition_width(b))),
            y,
        ) by {
            lemma_replace_right::<A>(
                Binary::Over,
                excess,
                unit.times(transition_width(a)),
                unit.times(transition_width(b)),
                y,
            );
        }
        lemma_replace_left::<A>(
            Binary::Plus,
            excess.over(unit.times(transition_width(a))),
            excess.over(unit.times(transition_width(b))),
            Formula::Count(1),
            x,
        );
        assert(kaiser_by::<A>(b, x, kaiser));
    }
    if is_prototype::<A>(a, coeffs) {
        let (low, raw, sum, inv) = choose|
            low: Lowpass<A::Real>,
            raw: Seq<A::Real>,
            sum: A::Real,
            inv: A::Real,
        | #[trigger]
            prototype_by::<A>(a, low, raw, sum, inv, coeffs);
        let edge = Formula::Count(2).times(Formula::Pi).times(
            fraction(4875, 10000).times(Formula::Count(a.control as u64)),
        );
        lemma_replace_right::<A>(
            Binary::Over,
            edge,
            operating_rate(a),
            operating_rate(b),
            low.wc,
        );
        assert(is_lowpass::<A>(b, low));
        assert(prototype_by::<A>(b, low, raw, sum, inv, coeffs));
    }
}

}
