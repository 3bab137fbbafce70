//! What the filters are designed to be, held against exact arithmetic.
//!
//! Where the number system is exact, the prototype is a sinc at the cutoff
//! `0.4875` of the smaller rate under a Kaiser window, with unity gain, and its
//! length is the one the Kaiser formula asks for.

use crate::arithmetic::{fraction, Arithmetic, Formula};
use crate::kernel::{
    is_kaiser_len, kaiser_by, kaiser_length, operating_rate, transition_width, Band,
};
use crate::reading::{
    exact, is_ceiling, is_rational, lemma_positive_factor, lemma_quotient, lemma_regroup,
    lemma_reorder, lemma_times_positive, lemma_worth, reads, Reading,
};
use vstd::prelude::*;

verus! {

/// A fraction in reals.
pub proof fn lemma_fraction<R, S>(e: Reading<R, S>, a: u64, b: u64)
    requires
        b > 0,
    ensures
        reads(e, fraction::<R, S>(a, b)) == a as real / b as real,
        is_rational(e, fraction::<R, S>(a, b)),
{
    reveal_with_fuel(reads, 2);
    reveal_with_fuel(is_rational, 2);
}

/// The operating rate in reals.
pub proof fn lemma_operating_rate<R, S>(e: Reading<R, S>, band: Band)
    requires
        band.multiplier > 0,
        band.rate > 0,
    ensures
        reads(e, operating_rate::<R, S>(band)) == band.multiplier as real * band.rate as real,
        is_rational(e, operating_rate::<R, S>(band)),
        band.multiplier as real * band.rate as real > 0 as real,
{
    reveal_with_fuel(reads, 2);
    reveal_with_fuel(is_rational, 2);
    lemma_times_positive(band.multiplier as real, band.rate as real);
}

/// The Kaiser length is the least that the Kaiser formula
/// `(design_db - 7.95) / (2.285 * pi * width) + 1` asks for, with the width of the
/// transition `2 * 0.025` of the controlling rate over the operating rate. Stated
/// without division, over a millionth: one tap less is too short, and this many
/// are enough.
pub proof fn law_kaiser_length<A: Arithmetic>(
    e: Reading<A::Real, A::Sample>,
    band: Band,
    kaiser: u64,
)
    requires
        exact::<A>(e),
        band.multiplier > 0,
        band.rate > 0,
        band.control > 0,
        is_kaiser_len::<A>(band, kaiser),
    ensures
        ({
            let per_tap = (2285 * 50) as real * e.pi * band.control as real;
            let asked = ((100 * band.design_db - 795) * 10000) as real * (band.multiplier as real
                * band.rate as real);
            &&& asked <= per_tap * (kaiser - 1) as real || kaiser == u64::MAX
            &&& kaiser == 0 || asked > per_tap * (kaiser - 2) as real
        }),
{
    reveal_with_fuel(reads, 2);
    reveal_with_fuel(is_rational, 2);
    let x = choose|x: A::Real| #[trigger] kaiser_by::<A>(band, x, kaiser);
    let edge = fraction::<A::Real, A::Sample>(25, 1000).times(Formula::Count(band.control as u64));
    let transition = Formula::<A::Real, A::Sample>::Count(2).times(edge);
    let width = transition_width::<A::Real, A::Sample>(band);
    let unit = fraction::<A::Real, A::Sample>(2285, 1000).times(Formula::Pi);
    let slope = unit.times(width);
    let excess = Formula::<A::Real, A::Sample>::Count(band.design_db as u64).minus(
        fraction(795, 100),
    );
    let quotient = excess.over(slope);
    let length = kaiser_length::<A::Real, A::Sample>(band);
    lemma_fraction::<A::Real, A::Sample>(e, 25, 1000);
    lemma_fraction::<A::Real, A::Sample>(e, 2285, 1000);
    lemma_fraction::<A::Real, A::Sample>(e, 795, 100);
    lemma_operating_rate::<A::Real, A::Sample>(e, band);
    let c = band.control as real;
    let op = band.multiplier as real * band.rate as real;
    let db = band.design_db as real;
    let n25 = 25 as real / 1000 as real;
    let n2285 = 2285 as real / 1000 as real;
    let n795 = 795 as real / 100 as real;
    let two = 2 as real;
    assert(reads(e, Formula::<A::Real, A::Sample>::Count(band.control as u64)) == c);
    assert(reads(e, edge) == n25 * c && is_rational(e, edge));
    assert(reads(e, transition) == two * (n25 * c) && is_rational(e, transition));
    assert(width == transition.over(operating_rate(band)));
    assert(is_rational(e, width));
    let w = (two * (n25 * c)) / op;
    assert(reads(e, width) == w);
    assert(reads(e, unit) == n2285 * e.pi && is_rational(e, unit));
    let s = (n2285 * e.pi) * w;
    assert(reads(e, slope) == s && is_rational(e, slope));
    lemma_quotient(two * (n25 * c), op);
    lemma_times_positive(n25, c);
    lemma_times_positive(two, n25 * c);
    lemma_reorder(op, w, w);
    lemma_positive_factor(op, w, w);
    lemma_times_positive(n2285, e.pi);
    lemma_times_positive(n2285 * e.pi, w);
    assert(reads(e, Formula::<A::Real, A::Sample>::Count(band.design_db as u64)) == db);
    assert(reads(e, excess) == db - n795 && is_rational(e, excess));
    assert(reads(e, quotient) == (db - n795) / s && is_rational(e, quotient));
    assert(length == quotient.plus(Formula::Count(1)));
    assert(reads(e, length) == (db - n795) / s + 1 as real && is_rational(e, length));
    lemma_worth::<A>(e, length, x);
    let v = (e.worth)(x);
    let per_tap = (2285 * 50) as real * e.pi * c;
    let asked = ((100 * band.design_db - 795) * 10000) as real * op;
    lemma_quotient(db - n795, s);
    lemma_kaiser_scale(v - 1 as real, w, op, c, e.pi, db - n795);
    assert(asked == (1000000 as real * (db - n795)) * op);
    let unit = (2285 * 50) as real;
    lemma_times_positive(unit, e.pi);
    lemma_times_positive(unit * e.pi, c);
    assert(is_ceiling(v, kaiser));
    let k = kaiser as real;
    lemma_positive_factor(per_tap, v - 1 as real, k - 1 as real);
    lemma_positive_factor(per_tap, k - 2 as real, v - 1 as real);
}

/// The Kaiser formula without division.
proof fn lemma_kaiser_scale(y: real, w: real, op: real, c: real, pi: real, d: real)
    requires
        w * op == 2 as real * ((25 as real / 1000 as real) * c),
        y * (((2285 as real / 1000 as real) * pi) * w) == d,
    ensures
        ((2285 * 50) as real * pi * c) * y == (1000000 as real * d) * op,
{
    let n25 = 25 as real / 1000 as real;
    let n2285 = 2285 as real / 1000 as real;
    let million = 1000000 as real;
    let u = n2285 * pi;
    let a = 2 as real * (n25 * c);
    // d * op == y * (u * a)
    lemma_reorder(y, u * w, op);
    lemma_reorder(u, w, op);
    assert(d * op == y * (u * a));
    // u * a == k * (pi * c)
    let k = n2285 * (2 as real * n25);
    lemma_reorder(2 as real, n25, c);
    lemma_regroup(n2285, pi, 2 as real * n25, c);
    assert(u * a == k * (pi * c));
    // million * (k * (pi * c)) == per_tap
    let unit = (2285 * 50) as real;
    assert(million * k == unit);
    lemma_reorder(million, k, pi * c);
    lemma_reorder(unit, pi, c);
    let per_tap = unit * pi * c;
    assert(million * (u * a) == per_tap);
    // per_tap * y == million * (y * (u * a))
    lemma_reorder(million, u * a, y);
    lemma_reorder(y, u * a, y);
    lemma_reorder(million, d, op);
}

/// A prototype of `t` taps is long enough for the transition of `0.05` of the
/// smaller rate at 84 dB: `2.285 * pi * width * (t - 1) >= 84 - 7.95`, where the
/// width is over the operating rate `op`. Stated without division, over a
/// millionth.
pub open spec fn is_long_enough(pi: real, in_rate: u32, out_rate: u32, op: real, t: nat) -> bool {
    let smaller = if in_rate < out_rate {
        in_rate
    } else {
        out_rate
    };
    (2285 * 50) as real * pi * smaller as real * (t - 1) as real >= ((8400 - 795) * 10000) as real
        * op
}

/// A length is long enough exactly from the Kaiser length on.
pub proof fn lemma_long_enough<A: Arithmetic>(
    e: Reading<A::Real, A::Sample>,
    band: Band,
    in_rate: u32,
    out_rate: u32,
    kaiser: u64,
    t: nat,
)
    requires
        exact::<A>(e),
        in_rate > 0,
        out_rate > 0,
        band.multiplier > 0,
        band.rate > 0,
        band.control == (if in_rate < out_rate {
            in_rate
        } else {
            out_rate
        }),
        band.design_db == 84,
        is_kaiser_len::<A>(band, kaiser),
        t < u64::MAX,
    ensures
        is_long_enough(
            e.pi,
            in_rate,
            out_rate,
            band.multiplier as real * band.rate as real,
            t,
        ) <==> kaiser <= t,
{
    law_kaiser_length::<A>(e, band, kaiser);
    lemma_operating_rate::<A::Real, A::Sample>(e, band);
    let per_tap = (2285 * 50) as real * e.pi * band.control as real;
    let op = band.multiplier as real * band.rate as real;
    let asked = ((100 * band.design_db - 795) * 10000) as real * op;
    let c = band.control as real;
    let unit = (2285 * 50) as real;
    let excess = ((100 * band.design_db - 795) * 10000) as real;
    lemma_times_positive(unit, e.pi);
    lemma_times_positive(unit * e.pi, c);
    lemma_times_positive(excess, op);
    let tv = (t - 1) as real;
    lemma_positive_factor(per_tap, (kaiser - 1) as real, tv);
    lemma_positive_factor(per_tap, tv, (kaiser - 2) as real);
}

}
