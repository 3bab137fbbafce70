//! The sine and the Bessel function, held against their power series.

use crate::arithmetic::{fraction, gives, lemma_operand, Arithmetic, Formula, Unary};
use crate::design::lemma_fraction;
use crate::reading::{
    exact, is_nearest, is_rational, lemma_factor, lemma_positive_factor, lemma_quotient,
    lemma_regroup, lemma_reorder, lemma_sum_low, lemma_times_positive, lemma_whole_product,
    lemma_worth, reads, sum, whole, Reading,
};
use crate::special::{
    bessel_series, bessel_settles, bessel_step, factorial, folds, folds_high, folds_low, half_pi,
    i0_by, is_i0, is_sine, lemma_odd_factorials, next_bessel_term, sine_by, sine_coefficient,
    sine_horner, two_pi, MAX_BESSEL_TERMS,
};
use vstd::prelude::*;

verus! {

/// `x` to the power `k`.
pub open spec fn power(x: real, k: nat) -> real
    decreases k,
{
    if k == 0 {
        1 as real
    } else {
        power(x, (k - 1) as nat) * x
    }
}

/// The number of orders of `n` things, `1 * 2 * .. * n`.
pub open spec fn orders(n: nat) -> nat
    decreases n,
{
    if n == 0 {
        1
    } else {
        orders((n - 1) as nat) * n
    }
}

proof fn lemma_orders(n: nat)
    ensures
        orders(n) == factorial(n),
        orders(n) >= 1,
    decreases n,
{
    if n > 0 {
        lemma_orders((n - 1) as nat);
        let a = orders((n - 1) as nat);
        assert(a * n == n * a && a * n >= 1) by (nonlinear_arith)
            requires
                a >= 1,
                n >= 1,
        ;
    }
}

/// Term `k` of the power series of the sine: `(-1)^k f^(2k+1) / (2k+1)!`.
pub open spec fn sine_term(f: real, k: int) -> real {
    let size = power(f, (2 * k + 1) as nat) / orders((2 * k + 1) as nat) as real;
    if k % 2 == 0 {
        size
    } else {
        -size
    }
}

/// `f` is the angle in `[-pi / 2, pi / 2]` with the sine of `x`: whole turns off
/// `x`, or off its mirror image.
pub open spec fn has_sine_of(pi: real, x: real, turns: int, f: real) -> bool {
    let r = x - (2 as real) * pi * turns as real;
    &&& -pi <= (2 as real) * f <= pi
    &&& f == r || f == pi - r || f == -pi - r
}

/// The sine is the power series of the sine, ten terms of it, at an angle between
/// `-pi / 2` and `pi / 2` that has the same sine.
pub proof fn law_sine<A: Arithmetic>(
    e: Reading<A::Real, A::Sample>,
    x: A::Real,
    s: A::Real,
)
    requires
        exact::<A>(e),
        is_sine::<A>(x, s),
    ensures
        exists|turns: int, f: real| #[trigger]
            has_sine_of(e.pi, (e.worth)(x), turns, f) && (e.worth)(s) == sum(
                |k: int| sine_term(f, k),
                0,
                10,
            ),
{
    reveal_with_fuel(reads, 2);
    reveal_with_fuel(is_rational, 2);
    let (k, r, f, r2) = choose|k: A::Real, r: A::Real, f: A::Real, r2: A::Real| #[trigger]
        sine_by::<A>(x, k, r, f, r2, s);
    let turn = two_pi::<A::Real, A::Sample>();
    let tau = (2 as real) * e.pi;
    assert(reads(e, turn) == tau && is_rational(e, turn));
    let ratio = Formula::Value(x).over(turn);
    assert(reads(e, ratio) == (e.worth)(x) / tau && is_rational(e, ratio));
    let q = lemma_operand::<A>(Unary::Nearest, ratio, k);
    lemma_worth::<A>(e, ratio, q);
    assert(is_nearest((e.worth)(q), (e.worth)(k)));
    let turns = choose|i: int| (e.worth)(k) == #[trigger] whole(i);
    let whole_turns = Formula::Value(k).times(turn);
    assert(reads(e, whole_turns) == (e.worth)(k) * tau && is_rational(e, whole_turns));
    let rest = Formula::Value(x).minus(whole_turns);
    assert(reads(e, rest) == (e.worth)(x) - (e.worth)(k) * tau && is_rational(e, rest));
    lemma_worth::<A>(e, rest, r);
    let rv = (e.worth)(r);
    let fv = (e.worth)(f);
    let kv = turns as real;
    let xv = (e.worth)(x);
    // The rest is a fraction of a turn, at most half of one.
    let z = xv / tau;
    let y = z - kv;
    lemma_quotient(xv, tau);
    lemma_factor(z, kv, tau);
    assert(rv == y * tau);
    lemma_reorder(kv, tau, tau);
    lemma_reorder(y, 2 as real, e.pi);
    lemma_reorder(y * (2 as real), e.pi, e.pi);
    lemma_reorder(e.pi, 1 as real, e.pi);
    lemma_positive_factor(e.pi, y * (2 as real), 1 as real);
    lemma_positive_factor(e.pi, (-1) as real, y * (2 as real));
    assert(e.pi * (1 as real) == e.pi && e.pi * ((-1) as real) == -e.pi) by (nonlinear_arith);
    lemma_folded::<A>(e, r, f);
    assert(has_sine_of(e.pi, xv, turns, fv));
    let square = Formula::Value(f).times(Formula::Value(f));
    assert(reads(e, square) == fv * fv && is_rational(e, square));
    lemma_worth::<A>(e, square, r2);
    lemma_horner::<A>(e, fv, r2, 0);
    let series = sine_horner::<A::Real, A::Sample>(r2, 0).times(Formula::Value(f));
    assert(reads(e, series) == reads(e, sine_horner::<A::Real, A::Sample>(r2, 0)) * fv);
    assert(is_rational(e, series));
    lemma_worth::<A>(e, series, s);
    assert(power(fv, 1) == fv) by {
        reveal_with_fuel(power, 2);
        assert((1 as real) * fv == fv) by (nonlinear_arith);
    }
}

/// Folding keeps the sine and lands between `-pi / 2` and `pi / 2`.
proof fn lemma_folded<A: Arithmetic>(
    e: Reading<A::Real, A::Sample>,
    r: A::Real,
    f: A::Real,
)
    requires
        exact::<A>(e),
        folds::<A>(r, f),
        -e.pi <= (e.worth)(r) <= e.pi,
    ensures
        ({
            let rv = (e.worth)(r);
            let fv = (e.worth)(f);
            &&& -e.pi <= (2 as real) * fv <= e.pi
            &&& fv == rv || fv == e.pi - rv || fv == -e.pi - rv
        }),
{
    reveal_with_fuel(reads, 2);
    reveal_with_fuel(is_rational, 2);
    let half = half_pi::<A::Real, A::Sample>();
    lemma_fraction::<A::Real, A::Sample>(e, 1, 2);
    assert(reads(e, half) == (1 as real / 2 as real) * e.pi && is_rational(e, half));
    let (b, high) = choose|b: A::Real, high: bool| #[trigger] folds_high::<A>(r, b, high, f);
    lemma_worth::<A>(e, half, b);
    if high {
        let mirrored = Formula::<A::Real, A::Sample>::Pi.minus(Formula::Value(r));
        assert(is_rational(e, mirrored));
        lemma_worth::<A>(e, mirrored, f);
    } else {
        let (c, low) = choose|b: A::Real, low: bool| #[trigger] folds_low::<A>(r, b, low, f);
        assert(reads(e, half.negate()) == -reads(e, half) && is_rational(e, half.negate()));
        lemma_worth::<A>(e, half.negate(), c);
        if low {
            let negative = Formula::<A::Real, A::Sample>::Pi.negate();
            assert(reads(e, negative) == -e.pi && is_rational(e, negative));
            let mirrored = negative.minus(Formula::Value(r));
            assert(reads(e, mirrored) == -e.pi - (e.worth)(r) && is_rational(e, mirrored));
            lemma_worth::<A>(e, mirrored, f);
        }
    }
}

/// A sine coefficient in reals.
proof fn lemma_sine_coefficient<A: Arithmetic>(e: Reading<A::Real, A::Sample>, k: nat)
    requires
        k <= 9,
    ensures
        is_rational(e, sine_coefficient::<A::Real, A::Sample>(k)),
        reads(e, sine_coefficient::<A::Real, A::Sample>(k)) == (if k % 2 == 0 {
            1 as real
        } else {
            (-1) as real
        }) / orders(2 * k + 1) as real,
{
    reveal_with_fuel(reads, 3);
    reveal_with_fuel(is_rational, 3);
    lemma_odd_factorials();
    lemma_orders(2 * k + 1);
    if k == 0 {
        assert(orders(1) == 1) by {
            reveal_with_fuel(orders, 2);
        }
    } else {
        assert(1 <= factorial(2 * k + 1) <= u64::MAX) by {
            assert(k == 1 || k == 2 || k == 3 || k == 4 || k == 5 || k == 6 || k == 7 || k == 8 || k
                == 9);
        }
    }
}

/// The Horner form is the power series, from term `k` up.
proof fn lemma_horner<A: Arithmetic>(
    e: Reading<A::Real, A::Sample>,
    f: real,
    r2: A::Real,
    k: nat,
)
    requires
        k <= 9,
        (e.worth)(r2) == f * f,
    ensures
        is_rational(e, sine_horner::<A::Real, A::Sample>(r2, k)),
        reads(e, sine_horner::<A::Real, A::Sample>(r2, k)) * power(f, 2 * k + 1) == sum(
            |i: int| sine_term(f, i),
            k as int,
            10,
        ),
    decreases 9 - k,
{
    reveal_with_fuel(reads, 2);
    reveal_with_fuel(is_rational, 2);
    let term = |i: int| sine_term(f, i);
    let h = reads(e, sine_horner::<A::Real, A::Sample>(r2, k));
    let c = reads(e, sine_coefficient::<A::Real, A::Sample>(k));
    let p = power(f, 2 * k + 1);
    let o = orders(2 * k + 1) as real;
    lemma_sine_coefficient::<A>(e, k);
    lemma_orders(2 * k + 1);
    lemma_sum_low(term, k as int, 10);
    assert((2 * (k as int) + 1) as nat == 2 * k + 1);
    assert(c * p == sine_term(f, k as int)) by {
        if k % 2 == 0 {
            lemma_divided(1 as real, o, p);
        } else {
            lemma_divided((-1) as real, o, p);
        }
    }
    if k == 9 {
        assert(sum(term, 10, 10) == 0 as real);
        assert(sine_horner::<A::Real, A::Sample>(r2, 9) == sine_coefficient::<
            A::Real,
            A::Sample,
        >(9));
    } else {
        lemma_horner::<A>(e, f, r2, k + 1);
        let g = reads(e, sine_horner::<A::Real, A::Sample>(r2, k + 1));
        let product = sine_horner::<A::Real, A::Sample>(r2, k + 1).times(Formula::Value(r2));
        assert(reads(e, product) == g * (f * f) && is_rational(e, product));
        assert(h == g * (f * f) + c);
        let p2 = power(f, 2 * (k + 1) + 1);
        assert(p2 == p * f * f) by {
            reveal_with_fuel(power, 3);
        }
        lemma_factor(g * (f * f), c, p);
        lemma_reorder(g, f * f, p);
        lemma_reorder(p, f, f);
        lemma_reorder(p, f * f, p);
    }
}

/// A unit over `o`, times `p`.
proof fn lemma_divided(unit: real, o: real, p: real)
    requires
        o >= 1 as real,
        unit == 1 as real || unit == (-1) as real,
    ensures
        (unit / o) * p == (if unit == 1 as real {
            p / o
        } else {
            -(p / o)
        }),
{
    let x = unit / o;
    let y = p / o;
    lemma_quotient(unit, o);
    lemma_quotient(p, o);
    // o * (x * p) == unit * p == o * (unit * y)
    lemma_reorder(x, o, p);
    lemma_reorder(o, x, p);
    lemma_reorder(unit, y, o);
    lemma_reorder(o, unit * y, o);
    lemma_positive_factor(o, x * p, unit * y);
    assert((1 as real) * y == y && ((-1) as real) * y == -y) by (nonlinear_arith);
}

/// Term `k` of the power series of the Bessel function: `q^k / (k!)^2` for
/// `q = (x / 2)^2`.
pub open spec fn bessel_term(q: real, k: int) -> real {
    power(q, k as nat) / (orders(k as nat) as real * orders(k as nat) as real)
}

/// The power series of the Bessel function up to term `n`.
pub open spec fn bessel_sum(q: real, n: nat) -> real {
    sum(|k: int| bessel_term(q, k), 0, n as int + 1)
}

/// The Bessel function is its power series in `(x / 2)^2`, up to the first term
/// that is nothing; and no more terms are added than 64 bits can count.
pub proof fn law_i0<A: Arithmetic>(
    e: Reading<A::Real, A::Sample>,
    x: A::Real,
    s: A::Real,
)
    requires
        exact::<A>(e),
        is_i0::<A>(x, s),
    ensures
        ({
            let q = (e.worth)(x) * (e.worth)(x) / 4 as real;
            &&& (e.worth)(s) >= 1 as real
            &&& exists|n: nat|
                n <= u64::MAX && (e.worth)(s) == #[trigger] bessel_sum(q, n) && (n == u64::MAX || q
                    == 0 as real)
        }),
{
    reveal_with_fuel(reads, 2);
    reveal_with_fuel(is_rational, 2);
    let (q, i, k, t) = choose|q: A::Real, i: nat, k: A::Real, t: A::Real| #[trigger]
        i0_by::<A>(x, q, i, k, t, s);
    lemma_fraction::<A::Real, A::Sample>(e, 1, 2);
    let half = Formula::Value(x).times(fraction::<A::Real, A::Sample>(1, 2));
    let h = (e.worth)(x) * (1 as real / 2 as real);
    assert(reads(e, half) == h && is_rational(e, half));
    let square = half.times(half);
    assert(reads(e, square) == h * h && is_rational(e, square));
    lemma_worth::<A>(e, square, q);
    let xv = (e.worth)(x);
    let qv = (e.worth)(q);
    lemma_regroup(xv, 1 as real / 2 as real, xv, 1 as real / 2 as real);
    assert((1 as real / 2 as real) * (1 as real / 2 as real) == 1 as real / 4 as real);
    let x2 = xv * xv;
    assert(x2 * (1 as real / 4 as real) == x2 / 4 as real);
    assert(x2 >= 0 as real) by (nonlinear_arith)
        requires
            x2 == xv * xv,
    ;
    lemma_bessel_series::<A>(e, q, i, k, t, s);
    if i < MAX_BESSEL_TERMS {
        let (u, next) = choose|u: A::Real, next: A::Real| #[trigger]
            bessel_settles::<A>(q, k, t, s, u, next);
        lemma_bessel_term::<A>(e, q, k, t, u, i);
        let added = Formula::Value(s).plus(Formula::<A::Real, A::Sample>::Value(u));
        assert(reads(e, added) == (e.worth)(s) + (e.worth)(u) && is_rational(e, added));
        lemma_worth::<A>(e, added, next);
        assert(bessel_term(qv, i as int + 1) == 0 as real);
        lemma_power_positive(qv, i + 1);
        lemma_orders(i + 1);
        if qv > 0 as real {
            let o = orders(i + 1) as real;
            let p = power(qv, i + 1);
            lemma_times_positive(o, o);
            lemma_sign_of_quotient(p, o * o);
        }
    }
}

proof fn lemma_power_positive(x: real, k: nat)
    requires
        x >= 0 as real,
    ensures
        power(x, k) >= 0 as real,
        x > 0 as real ==> power(x, k) > 0 as real,
    decreases k,
{
    if k > 0 {
        lemma_power_positive(x, (k - 1) as nat);
        let p = power(x, (k - 1) as nat);
        if x > 0 as real {
            lemma_times_positive(p, x);
        } else {
            assert(p * (0 as real) == 0 as real) by (nonlinear_arith);
        }
    }
}

/// The sign of a quotient by a positive number.
proof fn lemma_sign_of_quotient(a: real, b: real)
    requires
        b > 0 as real,
    ensures
        a > 0 as real ==> a / b > 0 as real,
        a >= 0 as real ==> a / b >= 0 as real,
{
    lemma_quotient(a, b);
    lemma_reorder(a / b, b, b);
    lemma_positive_factor(b, a / b, a / b);
}

/// The next term of the series, in reals.
proof fn lemma_bessel_term<A: Arithmetic>(
    e: Reading<A::Real, A::Sample>,
    q: A::Real,
    k: A::Real,
    t: A::Real,
    u: A::Real,
    i: nat,
)
    requires
        exact::<A>(e),
        (e.worth)(k) == (i + 1) as real,
        (e.worth)(t) == bessel_term((e.worth)(q), i as int),
        gives::<A>(next_bessel_term(q, k, t), u),
    ensures
        (e.worth)(u) == bessel_term((e.worth)(q), i as int + 1),
{
    reveal_with_fuel(reads, 2);
    reveal_with_fuel(is_rational, 2);
    let qv = (e.worth)(q);
    let kv = (i + 1) as real;
    let up = Formula::Value(t).times(Formula::<A::Real, A::Sample>::Value(q));
    let down = Formula::Value(k).times(Formula::<A::Real, A::Sample>::Value(k));
    assert(reads(e, up) == (e.worth)(t) * qv && is_rational(e, up));
    assert(reads(e, down) == kv * kv && is_rational(e, down));
    lemma_times_positive(kv, kv);
    let f = next_bessel_term::<A::Real, A::Sample>(q, k, t);
    assert(f == up.over(down));
    lemma_worth::<A>(e, f, u);
    lemma_orders(i);
    let o = orders(i);
    let p = power(qv, i);
    assert(orders(i + 1) == o * (i + 1));
    let ov = o as real;
    let ov2 = orders(i + 1) as real;
    lemma_whole_product(o, i + 1);
    assert(ov2 == ov * kv);
    lemma_next_quotient(p, qv, ov, kv);
    assert(((i as int) + 1) as nat == i + 1);
    assert(power(qv, i + 1) == p * qv);
}

/// From one term of the series to the next.
proof fn lemma_next_quotient(p: real, q: real, o: real, k: real)
    requires
        o >= 1 as real,
        k >= 1 as real,
    ensures
        (p / (o * o)) * q / (k * k) == (p * q) / ((o * k) * (o * k)),
{
    let o2 = o * o;
    let k2 = k * k;
    let t = p / o2;
    let u = (t * q) / k2;
    let v = (p * q) / (o2 * k2);
    lemma_times_positive(o, o);
    lemma_times_positive(k, k);
    lemma_times_positive(o2, k2);
    lemma_quotient(p, o2);
    lemma_quotient(t * q, k2);
    lemma_quotient(p * q, o2 * k2);
    lemma_regroup(o, k, o, k);
    // (o2 * k2) * u == p * q
    lemma_reorder(u, k2, o2);
    lemma_reorder(k2, o2, o2);
    lemma_reorder(o2 * k2, u, u);
    lemma_reorder(t, q, o2);
    assert((o2 * k2) * u == p * q);
    lemma_reorder(o2 * k2, v, v);
    lemma_positive_factor(o2 * k2, u, v);
}

/// After `i` terms the series stands at term `i` and at the sum up to it.
proof fn lemma_bessel_series<A: Arithmetic>(
    e: Reading<A::Real, A::Sample>,
    q: A::Real,
    i: nat,
    k: A::Real,
    t: A::Real,
    s: A::Real,
)
    requires
        exact::<A>(e),
        (e.worth)(q) >= 0 as real,
        bessel_series::<A>(q, i, k, t, s),
    ensures
        (e.worth)(k) == (i + 1) as real,
        (e.worth)(t) == bessel_term((e.worth)(q), i as int),
        (e.worth)(s) == bessel_sum((e.worth)(q), i),
        (e.worth)(s) >= 1 as real,
    decreases i,
{
    reveal_with_fuel(reads, 2);
    reveal_with_fuel(is_rational, 2);
    let qv = (e.worth)(q);
    let term = |k: int| bessel_term(qv, k);
    let one = Formula::<A::Real, A::Sample>::Count(1);
    if i == 0 {
        lemma_worth::<A>(e, one, k);
        lemma_worth::<A>(e, one, t);
        lemma_worth::<A>(e, one, s);
        assert(term(0) == 1 as real) by {
            assert(power(qv, 0) == 1 as real && orders(0) == 1);
            assert((1 as real) / ((1 as real) * (1 as real)) == 1 as real) by (nonlinear_arith);
        }
        assert(sum(term, 0, 0) == 0 as real);
        assert(sum(term, 0, 1) == term(0));
    } else {
        let j = (i - 1) as nat;
        let (k0, t0, s0) = choose|k0: A::Real, t0: A::Real, s0: A::Real|
            bessel_series::<A>(q, j, k0, t0, s0) && #[trigger] bessel_step::<A>(
                q,
                k0,
                t0,
                s0,
                k,
                t,
                s,
            );
        lemma_bessel_series::<A>(e, q, j, k0, t0, s0);
        lemma_bessel_term::<A>(e, q, k0, t0, t, j);
        let added = Formula::Value(s0).plus(Formula::<A::Real, A::Sample>::Value(t));
        assert(reads(e, added) == (e.worth)(s0) + (e.worth)(t) && is_rational(e, added));
        lemma_worth::<A>(e, added, s);
        let index = Formula::Value(k0).plus(one);
        assert(reads(e, index) == (e.worth)(k0) + 1 as real && is_rational(e, index));
        lemma_worth::<A>(e, index, k);
        assert(term(i as int) == (e.worth)(t));
        assert(sum(term, 0, i as int + 1) == sum(term, 0, i as int) + term(i as int));
        lemma_power_positive(qv, i);
        lemma_orders(i);
        let o = orders(i) as real;
        let p = power(qv, i);
        lemma_times_positive(o, o);
        lemma_sign_of_quotient(p, o * o);
    }
}

}
