//! The prototype, held against exact arithmetic.

use crate::arithmetic::{
    fraction, gives, lemma_operand, lemma_operands, Arithmetic, Binary, Formula, Unary,
};
use crate::design::{lemma_fraction, lemma_operating_rate};
use crate::kernel::{
    cutoff, exact_band, general_band, is_lowpass, is_prototype, is_tap, kaiser_beta, offset,
    operating_rate, prototype_by, running_sum, sinc_by, tap_by, window_by, Band, Lowpass,
};
use crate::reading::{
    exact, is_rational, larger, lemma_factor, lemma_positive_factor, lemma_quotient,
    lemma_regroup, lemma_reorder, lemma_sum_scaled, lemma_times_positive, lemma_worth, reads, sum,
    Reading,
};
use crate::series::law_i0;
use crate::special::{is_i0, is_sine};
use vstd::prelude::*;

verus! {

/// The coefficient `c`, `d` taps from the center of `2 * center + 1`, is the gain
/// times the sinc `sin(radians * d) / (pi * d)`, whose peak is `radians / pi`,
/// times the Kaiser window `I0(arg) / I0(b)` with
/// `arg^2 = b^2 * (1 - (d / center)^2)`.
pub open spec fn windowed_tap_by<A: Arithmetic>(
    e: Reading<A::Real, A::Sample>,
    radians: real,
    b: A::Real,
    b0: A::Real,
    gain: real,
    center: int,
    d: int,
    arg: A::Real,
    bessel: A::Real,
    angle: A::Real,
    sine: A::Real,
    c: real,
) -> bool {
    &&& is_i0::<A>(arg, bessel)
    &&& (center as real * (e.worth)(arg)) * (center as real * (e.worth)(arg)) == ((e.worth)(b) * (
    e.worth)(b)) * (center as real * center as real - d as real * d as real)
    &&& if d == 0 {
        c * e.pi * (e.worth)(b0) == gain * radians * (e.worth)(bessel)
    } else {
        &&& (e.worth)(angle) == radians * d as real
        &&& is_sine::<A>(angle, sine)
        &&& c * (e.pi * d as real) * (e.worth)(b0) == gain * (e.worth)(sine) * (e.worth)(bessel)
    }
}

/// The coefficient `c`, `d` taps from the center, is a tap of the windowed sinc.
pub open spec fn is_windowed_tap<A: Arithmetic>(
    e: Reading<A::Real, A::Sample>,
    radians: real,
    b: A::Real,
    b0: A::Real,
    gain: real,
    center: int,
    d: int,
    c: real,
) -> bool {
    exists|arg: A::Real, bessel: A::Real, angle: A::Real, sine: A::Real| #[trigger]
        windowed_tap_by::<A>(
            e,
            radians,
            b,
            b0,
            gain,
            center,
            d,
            arg,
            bessel,
            angle,
            sine,
            c,
        )
}

/// `coeffs` is a windowed sinc, by way of the window shape `b`, its `I0` and the
/// gain.
pub open spec fn windowed_sinc_by<A: Arithmetic>(
    e: Reading<A::Real, A::Sample>,
    radians: real,
    beta: real,
    b: A::Real,
    b0: A::Real,
    gain: real,
    coeffs: Seq<A::Real>,
) -> bool {
    &&& (e.worth)(b) == beta
    &&& is_i0::<A>(b, b0)
    &&& forall|i: int|
        0 <= i < coeffs.len() ==> is_windowed_tap::<A>(
            e,
            radians,
            b,
            b0,
            gain,
            (coeffs.len() - 1) / 2,
            i - (coeffs.len() - 1) / 2,
            (e.worth)(#[trigger] coeffs[i]),
        )
}

/// `coeffs` is a sinc at the cutoff `radians`, in radians per sample, under a
/// Kaiser window of shape `beta`.
pub open spec fn is_windowed_sinc<A: Arithmetic>(
    e: Reading<A::Real, A::Sample>,
    radians: real,
    beta: real,
    coeffs: Seq<A::Real>,
) -> bool {
    exists|b: A::Real, b0: A::Real, gain: real| #[trigger]
        windowed_sinc_by::<A>(e, radians, beta, b, b0, gain, coeffs)
}

/// The exact engine's prototype: a Kaiser-windowed sinc with its cutoff at
/// `0.4875` of the smaller rate, designed at the rate `m * out_rate`.
pub proof fn law_exact_prototype<A: Arithmetic>(
    e: Reading<A::Real, A::Sample>,
    in_rate: u32,
    out_rate: u32,
    m: u32,
    design_db: u32,
    coeffs: Seq<A::Real>,
)
    requires
        exact::<A>(e),
        in_rate > 0,
        out_rate > 0,
        m > 0,
        is_prototype::<A>(exact_band(in_rate, out_rate, m, design_db), coeffs),
        3 <= coeffs.len() <= u64::MAX,
        coeffs.len() % 2 == 1,
    ensures
        ({
            let smaller = if in_rate < out_rate {
                in_rate
            } else {
                out_rate
            };
            is_windowed_sinc::<A>(
                e,
                ((2 as real) * e.pi) * ((4875 as real / 10000 as real) * smaller as real) / (
                m as real * out_rate as real),
                (1102 as real / 10000 as real) * (design_db as real - 87 as real / 10 as real),
                coeffs,
            )
        }),
{
    lemma_prototype::<A>(e, exact_band(in_rate, out_rate, m, design_db), coeffs);
}

/// The general engine's prototype: a Kaiser-windowed sinc with its cutoff at
/// `0.4875` of the smaller rate, designed at the rate `phases * in_rate`.
pub proof fn law_general_prototype<A: Arithmetic>(
    e: Reading<A::Real, A::Sample>,
    in_rate: u32,
    out_rate: u32,
    phases: u32,
    design_db: u32,
    coeffs: Seq<A::Real>,
)
    requires
        exact::<A>(e),
        in_rate > 0,
        out_rate > 0,
        phases > 0,
        is_prototype::<A>(general_band(in_rate, out_rate, phases, design_db), coeffs),
        3 <= coeffs.len() <= u64::MAX,
        coeffs.len() % 2 == 1,
    ensures
        ({
            let smaller = if in_rate < out_rate {
                in_rate
            } else {
                out_rate
            };
            is_windowed_sinc::<A>(
                e,
                ((2 as real) * e.pi) * ((4875 as real / 10000 as real) * smaller as real) / (
                phases as real * in_rate as real),
                (1102 as real / 10000 as real) * (design_db as real - 87 as real / 10 as real),
                coeffs,
            )
        }),
{
    lemma_prototype::<A>(e, general_band(in_rate, out_rate, phases, design_db), coeffs);
}

/// Unity gain: the coefficients of a prototype sum to one. The one exception is a
/// windowed sinc whose own taps sum to zero, which no factor can normalize.
pub proof fn law_prototype_has_unity_gain<A: Arithmetic>(
    e: Reading<A::Real, A::Sample>,
    band: Band,
    coeffs: Seq<A::Real>,
)
    requires
        exact::<A>(e),
        is_prototype::<A>(band, coeffs),
    ensures
        sum(|i: int| (e.worth)(coeffs[i]), 0, coeffs.len() as int) == 1 as real || exists|
            low: Lowpass<A::Real>,
            raw: Seq<A::Real>,
        |
            #![trigger is_lowpass::<A>(band, low), raw.len()]
            is_lowpass::<A>(band, low) && raw.len() == coeffs.len() && (forall|i: int|
                0 <= i < raw.len() ==> is_tap::<A>(
                    low,
                    i as u64,
                    ((coeffs.len() - 1) / 2) as u64,
                    #[trigger] raw[i],
                )) && sum(|i: int| (e.worth)(raw[i]), 0, raw.len() as int) == 0 as real,
{
    reveal_with_fuel(reads, 2);
    reveal_with_fuel(is_rational, 2);
    let (low, raw, total, inv) = choose|
        low: Lowpass<A::Real>,
        raw: Seq<A::Real>,
        sum: A::Real,
        inv: A::Real,
    | #[trigger]
        prototype_by::<A>(band, low, raw, sum, inv, coeffs);
    lemma_running_sum::<A>(e, raw, raw.len());
    lemma_worth::<A>(e, running_sum(raw, raw.len()), total);
    let plain = |i: int| (e.worth)(raw[i]);
    let scaled = |i: int| (e.worth)(coeffs[i]);
    let s = sum(plain, 0, raw.len() as int);
    if s != 0 as real {
        let reciprocal = Formula::Count(1).over(Formula::<A::Real, A::Sample>::Value(total));
        assert(reads(e, reciprocal) == 1 as real / s && is_rational(e, reciprocal));
        lemma_worth::<A>(e, reciprocal, inv);
        let g = (e.worth)(inv);
        assert forall|i: int| 0 <= i < raw.len() implies #[trigger] scaled(i) == g * plain(i) by {
            let product = Formula::Value(raw[i]).times(Formula::<A::Real, A::Sample>::Value(inv));
            assert(gives::<A>(product, coeffs[i]));
            assert(reads(e, product) == (e.worth)(raw[i]) * g && is_rational(e, product));
            lemma_worth::<A>(e, product, coeffs[i]);
            lemma_reorder(plain(i), g, g);
        }
        lemma_sum_scaled(scaled, plain, g, 0, raw.len() as int);
        lemma_quotient(1 as real, s);
    }
}

/// The prototype of a band.
proof fn lemma_prototype<A: Arithmetic>(
    e: Reading<A::Real, A::Sample>,
    band: Band,
    coeffs: Seq<A::Real>,
)
    requires
        exact::<A>(e),
        band.multiplier > 0,
        band.rate > 0,
        band.control > 0,
        is_prototype::<A>(band, coeffs),
        3 <= coeffs.len() <= u64::MAX,
        coeffs.len() % 2 == 1,
    ensures
        is_windowed_sinc::<A>(
            e,
            ((2 as real) * e.pi) * ((4875 as real / 10000 as real) * band.control as real) / (
            band.multiplier as real * band.rate as real),
            (1102 as real / 10000 as real) * (band.design_db as real - 87 as real / 10 as real),
            coeffs,
        ),
{
    let (low, raw, total, inv) = choose|
        low: Lowpass<A::Real>,
        raw: Seq<A::Real>,
        sum: A::Real,
        inv: A::Real,
    | #[trigger]
        prototype_by::<A>(band, low, raw, sum, inv, coeffs);
    lemma_lowpass::<A>(e, band, low);
    law_i0::<A>(e, low.beta, low.i0_beta);
    let radians = (e.worth)(low.wc);
    let center = (coeffs.len() - 1) / 2;
    let gain = (e.worth)(inv);
    assert forall|i: int| 0 <= i < coeffs.len() implies is_windowed_tap::<A>(
        e,
        radians,
        low.beta,
        low.i0_beta,
        gain,
        (coeffs.len() - 1) / 2,
        i - (coeffs.len() - 1) / 2,
        (e.worth)(#[trigger] coeffs[i]),
    ) by {
        assert(is_tap::<A>(low, i as u64, center as u64, raw[i]));
        let (arg, bessel, angle, sine) = lemma_tap::<A>(e, low, i as u64, center as u64, raw[i]);
        let product = Formula::Value(raw[i]).times(Formula::<A::Real, A::Sample>::Value(inv));
        assert(gives::<A>(product, coeffs[i]));
        reveal_with_fuel(reads, 2);
        reveal_with_fuel(is_rational, 2);
        lemma_worth::<A>(e, product, coeffs[i]);
        let r = (e.worth)(raw[i]);
        let c = (e.worth)(coeffs[i]);
        let b0 = (e.worth)(low.i0_beta);
        let w = (e.worth)(bessel);
        let d = i - center;
        if d == 0 {
            lemma_scaled(r, gain, e.pi, b0, radians, w);
        } else {
            lemma_scaled(r, gain, e.pi * d as real, b0, (e.worth)(sine), w);
        }
        assert(windowed_tap_by::<A>(
            e,
            radians,
            low.beta,
            low.i0_beta,
            gain,
            center,
            d,
            arg,
            bessel,
            angle,
            sine,
            c,
        ));
    }
    assert(windowed_sinc_by::<A>(
        e,
        radians,
        (e.worth)(low.beta),
        low.beta,
        low.i0_beta,
        gain,
        coeffs,
    ));
}

/// The cutoff and the window shape in reals.
proof fn lemma_lowpass<A: Arithmetic>(
    e: Reading<A::Real, A::Sample>,
    band: Band,
    low: Lowpass<A::Real>,
)
    requires
        exact::<A>(e),
        band.multiplier > 0,
        band.rate > 0,
        is_lowpass::<A>(band, low),
    ensures
        (e.worth)(low.wc) == ((2 as real) * e.pi) * ((4875 as real / 10000 as real)
            * band.control as real) / (band.multiplier as real * band.rate as real),
        (e.worth)(low.beta) == (1102 as real / 10000 as real) * (band.design_db as real
            - 87 as real / 10 as real),
{
    reveal_with_fuel(reads, 2);
    reveal_with_fuel(is_rational, 2);
    lemma_operating_rate::<A::Real, A::Sample>(e, band);
    lemma_fraction::<A::Real, A::Sample>(e, 4875, 10000);
    lemma_fraction::<A::Real, A::Sample>(e, 1102, 10000);
    lemma_fraction::<A::Real, A::Sample>(e, 87, 10);
    let turn = Formula::<A::Real, A::Sample>::Count(2).times(Formula::Pi);
    assert(reads(e, turn) == (2 as real) * e.pi && is_rational(e, turn));
    let edge = fraction::<A::Real, A::Sample>(4875, 10000).times(
        Formula::Count(band.control as u64),
    );
    assert(reads(e, edge) == (4875 as real / 10000 as real) * band.control as real && is_rational(
        e,
        edge,
    ));
    let arc = turn.times(edge);
    assert(reads(e, arc) == reads(e, turn) * reads(e, edge) && is_rational(e, arc));
    let wc = cutoff::<A::Real, A::Sample>(band);
    assert(wc == arc.over(operating_rate(band)));
    assert(is_rational(e, wc));
    lemma_worth::<A>(e, wc, low.wc);
    let above = Formula::<A::Real, A::Sample>::Count(band.design_db as u64).minus(
        fraction(87, 10),
    );
    assert(reads(e, above) == band.design_db as real - 87 as real / 10 as real && is_rational(
        e,
        above,
    ));
    let beta = kaiser_beta::<A::Real, A::Sample>(band);
    assert(beta == fraction::<A::Real, A::Sample>(1102, 10000).times(above));
    assert(is_rational(e, beta));
    lemma_worth::<A>(e, beta, low.beta);
}

/// A tap of the windowed sinc before normalization, in reals.
proof fn lemma_tap<A: Arithmetic>(
    e: Reading<A::Real, A::Sample>,
    low: Lowpass<A::Real>,
    i: u64,
    center: u64,
    x: A::Real,
) -> (parts: (A::Real, A::Real, A::Real, A::Real))
    requires
        exact::<A>(e),
        center >= 1,
        i <= 2 * center,
        (e.worth)(low.i0_beta) >= 1 as real,
        is_tap::<A>(low, i, center, x),
    ensures
        ({
            let d = i - center;
            let b = (e.worth)(low.beta);
            let b0 = (e.worth)(low.i0_beta);
            let r = (e.worth)(x);
            let arg = (e.worth)(parts.0);
            let w = (e.worth)(parts.1);
            &&& is_i0::<A>(parts.0, parts.1)
            &&& (center as real * arg) * (center as real * arg) == (b * b) * (center as real
                * center as real - d as real * d as real)
            &&& d == 0 ==> r * e.pi * b0 == (e.worth)(low.wc) * w
            &&& d != 0 ==> (e.worth)(parts.2) == (e.worth)(low.wc) * d as real && is_sine::<A>(
                parts.2,
                parts.3,
            ) && r * (e.pi * d as real) * b0 == (e.worth)(parts.3) * w
        }),
{
    reveal_with_fuel(reads, 2);
    reveal_with_fuel(is_rational, 2);
    let d = i - center;
    let dv = d as real;
    let cv = center as real;
    let b0 = (e.worth)(low.i0_beta);
    let r = (e.worth)(x);
    let (ideal, w) = choose|ideal: A::Real, w: A::Real| #[trigger]
        tap_by::<A>(low, i, center, ideal, w, x);
    let product = Formula::Value(ideal).times(Formula::<A::Real, A::Sample>::Value(w));
    assert(reads(e, product) == (e.worth)(ideal) * (e.worth)(w) && is_rational(e, product));
    lemma_worth::<A>(e, product, x);
    let (t, arg, bessel) = choose|t: A::Real, arg: A::Real, bessel: A::Real| #[trigger]
        window_by::<A>(low, i, center, t, arg, bessel, w);
    let quotient = Formula::Value(bessel).over(
        Formula::<A::Real, A::Sample>::Value(low.i0_beta),
    );
    assert(is_rational(e, quotient));
    lemma_worth::<A>(e, quotient, w);
    let wv = (e.worth)(w);
    let jv = (e.worth)(bessel);
    lemma_quotient(jv, b0);
    lemma_window_argument::<A>(e, low.beta, i, center, t, arg);
    let off = offset::<A::Real, A::Sample>(i, center);
    assert(reads(e, off) == dv && is_rational(e, off));
    let iv = (e.worth)(ideal);
    let wc = (e.worth)(low.wc);
    if d == 0 {
        let peak = Formula::Value(low.wc).over(Formula::<A::Real, A::Sample>::Pi);
        assert(is_rational(e, peak));
        lemma_worth::<A>(e, peak, ideal);
        lemma_quotient(wc, e.pi);
        lemma_regroup(iv, wv, e.pi, b0);
        lemma_reorder(iv * wv, e.pi, b0);
        (arg, bessel, arg, bessel)
    } else {
        let (angle, sine) = choose|angle: A::Real, sine: A::Real| #[trigger]
            sinc_by::<A>(low.wc, i, center, angle, sine, ideal);
        let turned = Formula::Value(low.wc).times(off);
        assert(reads(e, turned) == wc * dv && is_rational(e, turned));
        lemma_worth::<A>(e, turned, angle);
        let arc = Formula::<A::Real, A::Sample>::Pi.times(off);
        assert(reads(e, arc) == e.pi * dv && is_rational(e, arc));
        let span = e.pi * dv;
        lemma_times_positive(e.pi, dv);
        let sinc = Formula::Value(sine).over(arc);
        assert(reads(e, sinc) == (e.worth)(sine) / span && is_rational(e, sinc));
        lemma_worth::<A>(e, sinc, ideal);
        let sv = (e.worth)(sine);
        lemma_quotient(sv, span);
        lemma_regroup(iv, wv, span, b0);
        lemma_reorder(iv * wv, span, b0);
        (arg, bessel, angle, sine)
    }
}

/// The argument of the window in reals.
proof fn lemma_window_argument<A: Arithmetic>(
    e: Reading<A::Real, A::Sample>,
    beta: A::Real,
    i: u64,
    center: u64,
    t: A::Real,
    arg: A::Real,
)
    requires
        exact::<A>(e),
        center >= 1,
        i <= 2 * center,
        gives::<A>(offset(i, center).over(Formula::Count(center)), t),
        gives::<A>(
            Formula::Value(beta).times(
                Formula::Count(1).minus(Formula::Value(t).times(Formula::Value(t))).larger(
                    Formula::Count(0),
                ).root(),
            ),
            arg,
        ),
    ensures
        ({
            let d = i - center;
            let b = (e.worth)(beta);
            let a = (e.worth)(arg);
            (center as real * a) * (center as real * a) == (b * b) * (center as real
                * center as real - d as real * d as real)
        }),
{
    reveal_with_fuel(reads, 2);
    reveal_with_fuel(is_rational, 2);
    let d = i - center;
    let dv = d as real;
    let cv = center as real;
    let tv = (e.worth)(t);
    let b = (e.worth)(beta);
    let off = offset::<A::Real, A::Sample>(i, center);
    assert(reads(e, off) == dv && is_rational(e, off));
    let place = off.over(Formula::Count(center));
    assert(reads(e, place) == dv / cv && is_rational(e, place));
    lemma_worth::<A>(e, place, t);
    let square = Formula::Value(t).times(Formula::<A::Real, A::Sample>::Value(t));
    assert(reads(e, square) == tv * tv && is_rational(e, square));
    let inner = Formula::Count(1).minus(square);
    assert(reads(e, inner) == 1 as real - tv * tv && is_rational(e, inner));
    let clamped = inner.larger(Formula::Count(0));
    assert(reads(e, clamped) == larger(1 as real - tv * tv, 0 as real) && is_rational(e, clamped));
    let (b1, root) = lemma_operands::<A>(
        Binary::Times,
        Formula::Value(beta),
        clamped.root(),
        arg,
    );
    let c = lemma_operand::<A>(Unary::Root, clamped, root);
    lemma_worth::<A>(e, clamped, c);
    lemma_quotient(dv, cv);
    assert(-cv <= dv <= cv);
    lemma_reorder(tv, cv, cv);
    lemma_positive_factor(cv, 1 as real, tv);
    lemma_positive_factor(cv, tv, (-1) as real);
    assert(cv * (1 as real) == cv && cv * ((-1) as real) == -cv) by (nonlinear_arith);
    assert((-1) as real <= tv <= 1 as real);
    assert(tv * tv <= 1 as real) by (nonlinear_arith)
        requires
            (-1) as real <= tv <= 1 as real,
    ;
    let rv = (e.worth)(root);
    let a = (e.worth)(arg);
    let r2 = rv * rv;
    lemma_regroup(cv, a, cv, a);
    lemma_regroup(b, rv, b, rv);
    assert((cv * a) * (cv * a) == (cv * cv) * ((b * b) * r2));
    lemma_reorder(cv * cv, b * b, r2);
    lemma_reorder(b * b, cv * cv, r2);
    let one = 1 as real;
    lemma_factor(one, tv * tv, cv * cv);
    lemma_regroup(tv, tv, cv, cv);
    lemma_reorder(cv * cv, r2, r2);
    assert(one * (cv * cv) == cv * cv) by (nonlinear_arith)
        requires
            one == 1 as real,
    ;
}

/// The running sum in reals.
proof fn lemma_running_sum<A: Arithmetic>(
    e: Reading<A::Real, A::Sample>,
    xs: Seq<A::Real>,
    k: nat,
)
    ensures
        is_rational(e, running_sum::<A::Real, A::Sample>(xs, k)),
        reads(e, running_sum::<A::Real, A::Sample>(xs, k)) == sum(
            |i: int| (e.worth)(xs[i]),
            0,
            k as int,
        ),
    decreases k,
{
    reveal_with_fuel(reads, 2);
    reveal_with_fuel(is_rational, 2);
    if k > 0 {
        lemma_running_sum::<A>(e, xs, (k - 1) as nat);
        let before = running_sum::<A::Real, A::Sample>(xs, (k - 1) as nat);
        assert(running_sum::<A::Real, A::Sample>(xs, k) == before.plus(Formula::Value(xs[k - 1])));
    }
}

/// A factor goes through an equation.
proof fn lemma_scaled(r: real, gain: real, a: real, b: real, x: real, y: real)
    requires
        r * a * b == x * y,
    ensures
        (r * gain) * a * b == gain * x * y,
{
    lemma_reorder(r, gain, a);
    lemma_reorder(r * a, gain, b);
    lemma_reorder(r * a * b, gain, gain);
    lemma_reorder(gain, x, y);
}

}
