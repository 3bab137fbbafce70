//! Deterministic special functions for filter-coefficient construction.
//!
//! Both are evaluated from primitive operations alone, in a fixed order, so in
//! a deterministic number system a given input has one result.

use crate::arithmetic::{
    combined, deterministic, fraction, gives, is_number, lemma_gives_once, lemma_operand,
    lemma_operands, numbers_come_from_numbers, opposite, sign_symmetric, Arithmetic, Binary,
    Formula, Term, Unary,
};
use vstd::prelude::*;

verus! {

/// `2 * pi`.
pub open spec fn two_pi<R, S>() -> Formula<R, S> {
    Formula::Count(2).times(Formula::Pi)
}

/// `pi / 2`.
pub open spec fn half_pi<R, S>() -> Formula<R, S> {
    fraction(1, 2).times(Formula::Pi)
}

/// `n!`.
pub open spec fn factorial(n: nat) -> nat
    decreases n,
{
    if n == 0 {
        1
    } else {
        n * factorial((n - 1) as nat)
    }
}

/// Degree of the sine polynomial is `2 * SINE_TERMS + 1`.
pub const SINE_TERMS: u64 = 9;

/// Taylor coefficient of `r^(2k+1)` in the sine: `(-1)^k / (2k+1)!`.
pub open spec fn sine_coefficient<R, S>(k: nat) -> Formula<R, S> {
    if k == 0 {
        Formula::Count(1)
    } else {
        let unit = if k % 2 == 1 {
            Formula::Count(1).negate()
        } else {
            Formula::Count(1)
        };
        unit.over(Formula::Count(factorial(2 * k + 1) as u64))
    }
}

/// The sine polynomial over `r`, from coefficient `k` up, in `r2 = r * r` by
/// Horner's method.
pub open spec fn sine_horner<R, S>(r2: R, k: nat) -> Formula<R, S>
    decreases SINE_TERMS - k,
{
    if k >= SINE_TERMS {
        sine_coefficient(SINE_TERMS as nat)
    } else {
        sine_horner::<R, S>(r2, k + 1).times(Formula::Value(r2)).plus(sine_coefficient(k))
    }
}

/// `low` tells whether `r` is under `-pi / 2`; if so `f` is `-pi - r`, and if
/// not it is `r` itself.
pub open spec fn folds_low<A: Arithmetic>(
    r: A::Real,
    bound: A::Real,
    low: bool,
    f: A::Real,
) -> bool {
    &&& gives::<A>(half_pi().negate(), bound)
    &&& call_ensures(A::below, (r, bound), low)
    &&& if low {
        gives::<A>(Formula::Pi.negate().minus(Formula::Value(r)), f)
    } else {
        f == r
    }
}

/// `high` tells whether `r` is over `pi / 2`; if so `f` is `pi - r`, and if
/// not the low end is folded.
pub open spec fn folds_high<A: Arithmetic>(
    r: A::Real,
    bound: A::Real,
    high: bool,
    f: A::Real,
) -> bool {
    &&& gives::<A>(half_pi(), bound)
    &&& call_ensures(A::below, (bound, r), high)
    &&& if high {
        gives::<A>(Formula::Pi.minus(Formula::Value(r)), f)
    } else {
        exists|b: A::Real, low: bool| #[trigger] folds_low::<A>(r, b, low, f)
    }
}

/// `f` is `r` folded from `[-pi, pi]` into `[-pi / 2, pi / 2]` by
/// `sin(pi - r) = sin(r)` and `sin(-pi - r) = sin(r)`.
pub open spec fn folds<A: Arithmetic>(r: A::Real, f: A::Real) -> bool {
    exists|b: A::Real, high: bool| #[trigger] folds_high::<A>(r, b, high, f)
}

/// `s` is the sine of `x` by way of the multiple `k` of `2 * pi`, the remainder
/// `r`, the folded remainder `f` and its square `r2`.
pub open spec fn sine_by<A: Arithmetic>(
    x: A::Real,
    k: A::Real,
    r: A::Real,
    f: A::Real,
    r2: A::Real,
    s: A::Real,
) -> bool {
    &&& gives::<A>(Formula::Value(x).over(two_pi()).nearest(), k)
    &&& gives::<A>(Formula::Value(x).minus(Formula::Value(k).times(two_pi())), r)
    &&& folds::<A>(r, f)
    &&& gives::<A>(Formula::Value(f).times(Formula::Value(f)), r2)
    &&& gives::<A>(sine_horner(r2, 0).times(Formula::Value(f)), s)
}

/// `s` is the sine of `x`: reduced to `[-pi, pi]` by the nearest multiple of
/// `2 * pi`, folded into `[-pi / 2, pi / 2]`, and evaluated by an odd Taylor
/// polynomial.
pub open spec fn is_sine<A: Arithmetic>(x: A::Real, s: A::Real) -> bool {
    exists|k: A::Real, r: A::Real, f: A::Real, r2: A::Real| #[trigger]
        sine_by::<A>(x, k, r, f, r2, s)
}

/// A sine coefficient other than the first.
fn sine_term<A: Arithmetic>(negative: bool, odd_factorial: u64) -> (c: Term<A>)
    ensures
        c.formula() == (if negative {
            Formula::<A::Real, A::Sample>::Count(1).negate()
        } else {
            Formula::<A::Real, A::Sample>::Count(1)
        }).over(Formula::Count(odd_factorial)),
{
    let unit = if negative {
        Term::<A>::count(1).negate()
    } else {
        Term::<A>::count(1)
    };
    unit.over(Term::<A>::count(odd_factorial))
}

/// Folds `r` from `[-pi, pi]` into `[-pi / 2, pi / 2]`.
fn fold<A: Arithmetic>(r: A::Real) -> (f: A::Real)
    ensures
        folds::<A>(r, f),
{
    let upper = Term::<A>::fraction(1, 2).times(Term::<A>::pi()).value();
    let high = A::below(upper, r);
    if high {
        let f = Term::<A>::pi().minus(Term::<A>::of(r)).value();
        assert(folds_high::<A>(r, upper, high, f));
        f
    } else {
        let lower = Term::<A>::fraction(1, 2).times(Term::<A>::pi()).negate().value();
        let low = A::below(r, lower);
        let f = if low {
            Term::<A>::pi().negate().minus(Term::<A>::of(r)).value()
        } else {
            r
        };
        assert(folds_low::<A>(r, lower, low, f));
        assert(folds_high::<A>(r, upper, high, f));
        f
    }
}

/// The factorials that divide the sine coefficients.
pub proof fn lemma_odd_factorials()
    ensures
        factorial(3) == 6,
        factorial(5) == 120,
        factorial(7) == 5_040,
        factorial(9) == 362_880,
        factorial(11) == 39_916_800,
        factorial(13) == 6_227_020_800,
        factorial(15) == 1_307_674_368_000,
        factorial(17) == 355_687_428_096_000,
        factorial(19) == 121_645_100_408_832_000,
{
    reveal_with_fuel(factorial, 2);
    assert(factorial(3) == 3 * (2 * (1 * factorial(0)))) by {
        reveal_with_fuel(factorial, 4);
    }
    assert(factorial(5) == 5 * (4 * factorial(3)));
    assert(factorial(7) == 7 * (6 * factorial(5)));
    assert(factorial(9) == 9 * (8 * factorial(7)));
    assert(factorial(11) == 11 * (10 * factorial(9)));
    assert(factorial(13) == 13 * (12 * factorial(11)));
    assert(factorial(15) == 15 * (14 * factorial(13)));
    assert(factorial(17) == 17 * (16 * factorial(15)));
    assert(factorial(19) == 19 * (18 * factorial(17)));
}

/// Sine of `x` in radians.
pub fn sin<A: Arithmetic>(x: A::Real) -> (s: A::Real)
    ensures
        is_sine::<A>(x, s),
{
    // Reduce to [-pi, pi].
    let k = Term::<A>::of(x).over(Term::<A>::count(2).times(Term::<A>::pi())).nearest().value();
    let r = Term::<A>::of(x).minus(
        Term::<A>::of(k).times(Term::<A>::count(2).times(Term::<A>::pi())),
    ).value();
    let f = fold::<A>(r);
    let r2 = Term::<A>::of(f).times(Term::<A>::of(f)).value();
    proof {
        lemma_odd_factorials();
    }
    // Horner from the highest coefficient down.
    let p = sine_term::<A>(true, 121_645_100_408_832_000);
    assert(p.formula() == sine_horner::<A::Real, A::Sample>(r2, 9));
    let p = p.times(Term::<A>::of(r2)).plus(sine_term::<A>(false, 355_687_428_096_000));
    assert(p.formula() == sine_horner::<A::Real, A::Sample>(r2, 8));
    let p = p.times(Term::<A>::of(r2)).plus(sine_term::<A>(true, 1_307_674_368_000));
    assert(p.formula() == sine_horner::<A::Real, A::Sample>(r2, 7));
    let p = p.times(Term::<A>::of(r2)).plus(sine_term::<A>(false, 6_227_020_800));
    assert(p.formula() == sine_horner::<A::Real, A::Sample>(r2, 6));
    let p = p.times(Term::<A>::of(r2)).plus(sine_term::<A>(true, 39_916_800));
    assert(p.formula() == sine_horner::<A::Real, A::Sample>(r2, 5));
    let p = p.times(Term::<A>::of(r2)).plus(sine_term::<A>(false, 362_880));
    assert(p.formula() == sine_horner::<A::Real, A::Sample>(r2, 4));
    let p = p.times(Term::<A>::of(r2)).plus(sine_term::<A>(true, 5_040));
    assert(p.formula() == sine_horner::<A::Real, A::Sample>(r2, 3));
    let p = p.times(Term::<A>::of(r2)).plus(sine_term::<A>(false, 120));
    assert(p.formula() == sine_horner::<A::Real, A::Sample>(r2, 2));
    let p = p.times(Term::<A>::of(r2)).plus(sine_term::<A>(true, 6));
    assert(p.formula() == sine_horner::<A::Real, A::Sample>(r2, 1));
    let p = p.times(Term::<A>::of(r2)).plus(Term::<A>::count(1));
    assert(p.formula() == sine_horner::<A::Real, A::Sample>(r2, 0));
    let s = p.times(Term::<A>::of(f)).value();
    assert(sine_by::<A>(x, k, r, f, r2, s));
    s
}

/// Most terms of the Bessel series that are ever added. The series settles long
/// before; the bound is what the term counter can hold.
pub const MAX_BESSEL_TERMS: u64 = u64::MAX;

/// The series term after `term`, at index `k`: `term * q / (k * k)`.
pub open spec fn next_bessel_term<R, S>(q: R, k: R, term: R) -> Formula<R, S> {
    Formula::Value(term).times(Formula::Value(q)).over(Formula::Value(k).times(Formula::Value(k)))
}

/// One more term: from index `k0`, last term `t0` and sum `s0`, the term `t` is
/// added to give `s`, which the number system tells apart from `s0`, and the
/// index moves on to `k`.
pub open spec fn bessel_step<A: Arithmetic>(
    q: A::Real,
    k0: A::Real,
    t0: A::Real,
    s0: A::Real,
    k: A::Real,
    t: A::Real,
    s: A::Real,
) -> bool {
    &&& gives::<A>(next_bessel_term(q, k0, t0), t)
    &&& gives::<A>(Formula::Value(s0).plus(Formula::Value(t)), s)
    &&& call_ensures(A::same, (s, s0), false)
    &&& gives::<A>(Formula::Value(k0).plus(Formula::Count(1)), k)
}

/// After `i` terms past the first, the series in `q` stands at index `k`, last
/// term `t` and sum `s`.
pub open spec fn bessel_series<A: Arithmetic>(
    q: A::Real,
    i: nat,
    k: A::Real,
    t: A::Real,
    s: A::Real,
) -> bool
    decreases i,
{
    if i == 0 {
        &&& gives::<A>(Formula::Count(1), k)
        &&& gives::<A>(Formula::Count(1), t)
        &&& gives::<A>(Formula::Count(1), s)
    } else {
        exists|k0: A::Real, t0: A::Real, s0: A::Real|
            bessel_series::<A>(q, (i - 1) as nat, k0, t0, s0) && #[trigger] bessel_step::<A>(
                q,
                k0,
                t0,
                s0,
                k,
                t,
                s,
            )
    }
}

/// Adding the term `t` after `t0` gives `next`, which the number system holds
/// equal to the sum `s`.
pub open spec fn bessel_settles<A: Arithmetic>(
    q: A::Real,
    k: A::Real,
    t0: A::Real,
    s: A::Real,
    t: A::Real,
    next: A::Real,
) -> bool {
    &&& gives::<A>(next_bessel_term(q, k, t0), t)
    &&& gives::<A>(Formula::Value(s).plus(Formula::Value(t)), next)
    &&& call_ensures(A::same, (next, s), true)
}

/// `s` is the series for `x` by way of `q = (x/2)^2`, stopped after `i` terms at
/// index `k` and term `t`.
pub open spec fn i0_by<A: Arithmetic>(
    x: A::Real,
    q: A::Real,
    i: nat,
    k: A::Real,
    t: A::Real,
    s: A::Real,
) -> bool {
    let half = Formula::Value(x).times(fraction(1, 2));
    &&& gives::<A>(half.times(half), q)
    &&& i <= MAX_BESSEL_TERMS
    &&& bessel_series::<A>(q, i, k, t, s)
    &&& i < MAX_BESSEL_TERMS ==> exists|u: A::Real, next: A::Real| #[trigger]
        bessel_settles::<A>(q, k, t, s, u, next)
}

/// `s` is `I0(x)`: the power series `sum (x/2)^(2k) / (k!)^2`, added in
/// ascending order of `k` up to the first term that no longer changes the sum.
pub open spec fn is_i0<A: Arithmetic>(x: A::Real, s: A::Real) -> bool {
    exists|q: A::Real, i: nat, k: A::Real, t: A::Real| #[trigger] i0_by::<A>(x, q, i, k, t, s)
}

/// Modified Bessel function of the first kind, order zero.
pub fn i0<A: Arithmetic>(x: A::Real) -> (s: A::Real)
    ensures
        is_i0::<A>(x, s),
{
    let q = Term::<A>::of(x).times(Term::<A>::fraction(1, 2)).times(
        Term::<A>::of(x).times(Term::<A>::fraction(1, 2)),
    ).value();
    let mut term = Term::<A>::count(1).value();
    let mut sum = Term::<A>::count(1).value();
    let mut k = Term::<A>::count(1).value();
    let mut i: u64 = 0;
    while i < MAX_BESSEL_TERMS
        invariant_except_break
            bessel_series::<A>(q, i as nat, k, term, sum),
        ensures
            bessel_series::<A>(q, i as nat, k, term, sum),
            i < MAX_BESSEL_TERMS ==> exists|u: A::Real, next: A::Real| #[trigger]
                bessel_settles::<A>(q, k, term, sum, u, next),
        decreases MAX_BESSEL_TERMS - i,
    {
        let t = Term::<A>::of(term).times(Term::<A>::of(q)).over(
            Term::<A>::of(k).times(Term::<A>::of(k)),
        ).value();
        let next = Term::<A>::of(sum).plus(Term::<A>::of(t)).value();
        let settled = A::same(next, sum);
        if settled {
            // The remaining terms are below the precision of the running sum.
            assert(bessel_settles::<A>(q, k, term, sum, t, next));
            break;
        }
        let k2 = Term::<A>::of(k).plus(Term::<A>::count(1)).value();
        assert(bessel_step::<A>(q, k, term, sum, k2, t, next));
        term = t;
        sum = next;
        k = k2;
        i += 1;
    }
    assert(i0_by::<A>(x, q, i as nat, k, term, sum));
    sum
}

/// In a deterministic number system the sine of a number is determined.
pub proof fn law_sine_is_determined<A: Arithmetic>(x: A::Real, s: A::Real, t: A::Real)
    requires
        deterministic::<A>(),
        is_sine::<A>(x, s),
        is_sine::<A>(x, t),
    ensures
        s == t,
{
    let (k, r, f, r2) = choose|k: A::Real, r: A::Real, f: A::Real, r2: A::Real| #[trigger]
        sine_by::<A>(x, k, r, f, r2, s);
    let (l, u, g, u2) = choose|k: A::Real, r: A::Real, f: A::Real, r2: A::Real| #[trigger]
        sine_by::<A>(x, k, r, f, r2, t);
    lemma_gives_once::<A>(Formula::Value(x).over(two_pi()).nearest(), k, l);
    lemma_gives_once::<A>(Formula::Value(x).minus(Formula::Value(k).times(two_pi())), r, u);
    lemma_fold_is_determined::<A>(r, f, g);
    lemma_gives_once::<A>(Formula::Value(f).times(Formula::Value(f)), r2, u2);
    lemma_gives_once::<A>(sine_horner(r2, 0).times(Formula::Value(f)), s, t);
}

/// Half of pi is a positive number: of a number and its opposite, one at most
/// is above it.
pub open spec fn half_pi_is_positive<A: Arithmetic>() -> bool {
    &&& forall|h: A::Real| #[trigger] gives::<A>(half_pi(), h) ==> is_number::<A>(h)
    &&& forall|h: A::Real, p: A::Real, q: A::Real|
        #[trigger] gives::<A>(half_pi(), h) && #[trigger] opposite::<A>(p, q) ==> !(call_ensures(
            A::below,
            (h, p),
            true,
        ) && call_ensures(A::below, (h, q), true))
}

/// The sine is odd: the sines of opposite numbers are opposite, wherever they
/// are numbers, in a deterministic number system that treats signs alike.
pub proof fn law_sine_is_odd<A: Arithmetic>(x: A::Real, y: A::Real, s: A::Real, t: A::Real)
    requires
        deterministic::<A>(),
        numbers_come_from_numbers::<A>(),
        sign_symmetric::<A>(),
        half_pi_is_positive::<A>(),
        opposite::<A>(x, y),
        is_sine::<A>(x, s),
        is_sine::<A>(y, t),
        is_number::<A>(s),
    ensures
        opposite::<A>(s, t),
{
    let (k, r, f, r2) = choose|k: A::Real, r: A::Real, f: A::Real, r2: A::Real| #[trigger]
        sine_by::<A>(x, k, r, f, r2, s);
    let (l, u, g, u2) = choose|k: A::Real, r: A::Real, f: A::Real, r2: A::Real| #[trigger]
        sine_by::<A>(y, k, r, f, r2, t);
    // What is met on the way is a number, from the last to the first.
    let (p, f1) = lemma_operands::<A>(Binary::Times, sine_horner(r2, 0), Formula::Value(f), s);
    lemma_folded_number::<A>(r, f);
    let (x1, turns) = lemma_operands::<A>(
        Binary::Minus,
        Formula::Value(x),
        Formula::Value(k).times(two_pi()),
        r,
    );
    let (k1, turn) = lemma_operands::<A>(Binary::Times, Formula::Value(k), two_pi(), turns);
    let ratio = lemma_operand::<A>(Unary::Nearest, Formula::Value(x).over(two_pi()), k);
    let (x2, turn2) = lemma_operands::<A>(Binary::Over, Formula::Value(x), two_pi(), ratio);
    // The same operations on the opposite.
    let ratio_y = lemma_operand::<A>(Unary::Nearest, Formula::Value(y).over(two_pi()), l);
    let (y2, turn3) = lemma_operands::<A>(Binary::Over, Formula::Value(y), two_pi(), ratio_y);
    lemma_gives_once::<A>(two_pi(), turn2, turn3);
    assert(opposite::<A>(ratio, ratio_y));
    assert(opposite::<A>(k, l));
    let (y1, turns_y) = lemma_operands::<A>(
        Binary::Minus,
        Formula::Value(y),
        Formula::Value(l).times(two_pi()),
        u,
    );
    let (l1, turn4) = lemma_operands::<A>(Binary::Times, Formula::Value(l), two_pi(), turns_y);
    lemma_gives_once::<A>(two_pi(), turn, turn4);
    assert(opposite::<A>(turns, turns_y));
    assert(opposite::<A>(r, u));
    lemma_fold_is_odd::<A>(r, u, f, g);
    let (a, b) = lemma_operands::<A>(Binary::Times, Formula::Value(f), Formula::Value(f), r2);
    let (c, d) = lemma_operands::<A>(Binary::Times, Formula::Value(g), Formula::Value(g), u2);
    assert(combined::<A>(Binary::Times, f, f, r2) && combined::<A>(Binary::Times, g, g, u2));
    assert(r2 == u2);
    let (q, g1) = lemma_operands::<A>(Binary::Times, sine_horner(u2, 0), Formula::Value(g), t);
    lemma_gives_once::<A>(sine_horner(r2, 0), p, q);
}

/// What has a number for its sine is a number.
pub proof fn lemma_sine_number<A: Arithmetic>(x: A::Real, s: A::Real)
    requires
        numbers_come_from_numbers::<A>(),
        is_sine::<A>(x, s),
        is_number::<A>(s),
    ensures
        is_number::<A>(x),
{
    let (k, r, f, r2) = choose|k: A::Real, r: A::Real, f: A::Real, r2: A::Real| #[trigger]
        sine_by::<A>(x, k, r, f, r2, s);
    let (p, f1) = lemma_operands::<A>(Binary::Times, sine_horner(r2, 0), Formula::Value(f), s);
    lemma_folded_number::<A>(r, f);
    let (x1, turns) = lemma_operands::<A>(
        Binary::Minus,
        Formula::Value(x),
        Formula::Value(k).times(two_pi()),
        r,
    );
}

/// What is folded to a number is a number.
proof fn lemma_folded_number<A: Arithmetic>(r: A::Real, f: A::Real)
    requires
        numbers_come_from_numbers::<A>(),
        folds::<A>(r, f),
        is_number::<A>(f),
    ensures
        is_number::<A>(r),
{
    let (b, high) = choose|b: A::Real, high: bool| #[trigger] folds_high::<A>(r, b, high, f);
    if high {
        let (p, q) = lemma_operands::<A>(Binary::Minus, Formula::Pi, Formula::Value(r), f);
    } else {
        let (c, low) = choose|b: A::Real, low: bool| #[trigger] folds_low::<A>(r, b, low, f);
        if low {
            let (p, q) = lemma_operands::<A>(
                Binary::Minus,
                Formula::Pi.negate(),
                Formula::Value(r),
                f,
            );
        }
    }
}

/// Folding keeps opposites.
proof fn lemma_fold_is_odd<A: Arithmetic>(r: A::Real, u: A::Real, f: A::Real, g: A::Real)
    requires
        deterministic::<A>(),
        numbers_come_from_numbers::<A>(),
        sign_symmetric::<A>(),
        half_pi_is_positive::<A>(),
        opposite::<A>(r, u),
        folds::<A>(r, f),
        folds::<A>(u, g),
        is_number::<A>(f),
    ensures
        opposite::<A>(f, g),
{
    let (h, high) = choose|b: A::Real, high: bool| #[trigger] folds_high::<A>(r, b, high, f);
    let (i, high_u) = choose|b: A::Real, high: bool| #[trigger] folds_high::<A>(u, b, high, g);
    lemma_gives_once::<A>(half_pi(), h, i);
    assert(opposite::<A>(u, r));
    assert(!(high && high_u));
    if high {
        let (c, low) = choose|b: A::Real, low: bool| #[trigger] folds_low::<A>(u, b, low, g);
        lemma_bounds_are_opposite::<A>(h, c);
        assert(low);
        let (pi, r1) = lemma_operands::<A>(Binary::Minus, Formula::Pi, Formula::Value(r), f);
        let (neg, u1) = lemma_operands::<A>(
            Binary::Minus,
            Formula::Pi.negate(),
            Formula::Value(u),
            g,
        );
        let pi2 = lemma_operand::<A>(Unary::Negate, Formula::Pi, neg);
        lemma_gives_once::<A>(Formula::Pi, pi, pi2);
        assert(opposite::<A>(pi, neg));
    } else {
        let (c, low) = choose|b: A::Real, low: bool| #[trigger] folds_low::<A>(r, b, low, f);
        lemma_bounds_are_opposite::<A>(h, c);
        assert(opposite::<A>(c, h));
        assert(low == high_u);
        if high_u {
            let (pi, u1) = lemma_operands::<A>(Binary::Minus, Formula::Pi, Formula::Value(u), g);
            let (neg, r1) = lemma_operands::<A>(
                Binary::Minus,
                Formula::Pi.negate(),
                Formula::Value(r),
                f,
            );
            let pi2 = lemma_operand::<A>(Unary::Negate, Formula::Pi, neg);
            lemma_gives_once::<A>(Formula::Pi, pi, pi2);
            assert(opposite::<A>(pi, neg));
            assert(opposite::<A>(neg, pi));
        } else {
            let (d, low_u) = choose|b: A::Real, low: bool| #[trigger] folds_low::<A>(u, b, low, g);
            lemma_gives_once::<A>(half_pi().negate(), c, d);
            assert(low_u == high);
        }
    }
}

/// The bounds of the folding are opposite.
proof fn lemma_bounds_are_opposite<A: Arithmetic>(h: A::Real, c: A::Real)
    requires
        deterministic::<A>(),
        sign_symmetric::<A>(),
        half_pi_is_positive::<A>(),
        gives::<A>(half_pi(), h),
        gives::<A>(half_pi().negate(), c),
    ensures
        opposite::<A>(h, c),
{
    let i = lemma_operand::<A>(Unary::Negate, half_pi(), c);
    lemma_gives_once::<A>(half_pi(), h, i);
}

/// The Bessel function is even: opposite numbers whose halves are numbers have
/// the same value, in a deterministic number system that treats signs alike.
pub proof fn law_i0_is_even<A: Arithmetic>(x: A::Real, y: A::Real, s: A::Real, z: A::Real)
    requires
        deterministic::<A>(),
        sign_symmetric::<A>(),
        opposite::<A>(x, y),
        forall|h: A::Real| #[trigger]
            gives::<A>(Formula::Value(x).times(fraction(1, 2)), h) ==> is_number::<A>(h),
        is_i0::<A>(x, s),
        is_i0::<A>(y, z),
    ensures
        s == z,
{
    let (q, i, k, t) = choose|q: A::Real, i: nat, k: A::Real, t: A::Real| #[trigger]
        i0_by::<A>(x, q, i, k, t, s);
    let (p, j, l, u) = choose|q: A::Real, i: nat, k: A::Real, t: A::Real| #[trigger]
        i0_by::<A>(y, q, i, k, t, z);
    let half_x = Formula::Value(x).times(fraction(1, 2));
    let half_y = Formula::Value(y).times(fraction(1, 2));
    let (a, b) = lemma_operands::<A>(Binary::Times, half_x, half_x, q);
    let (c, d) = lemma_operands::<A>(Binary::Times, half_y, half_y, p);
    lemma_gives_once::<A>(half_x, a, b);
    lemma_gives_once::<A>(half_y, c, d);
    let (x1, half) = lemma_operands::<A>(Binary::Times, Formula::Value(x), fraction(1, 2), a);
    let (y1, half2) = lemma_operands::<A>(Binary::Times, Formula::Value(y), fraction(1, 2), c);
    lemma_gives_once::<A>(fraction(1, 2), half, half2);
    assert(opposite::<A>(a, c));
    assert(q == p);
    assert(i0_by::<A>(x, q, j, l, u, z));
    law_i0_is_determined::<A>(x, s, z);
}

proof fn lemma_fold_is_determined<A: Arithmetic>(r: A::Real, f: A::Real, g: A::Real)
    requires
        deterministic::<A>(),
        folds::<A>(r, f),
        folds::<A>(r, g),
    ensures
        f == g,
{
    let (a, h) = choose|b: A::Real, high: bool| #[trigger] folds_high::<A>(r, b, high, f);
    let (b, i) = choose|b: A::Real, high: bool| #[trigger] folds_high::<A>(r, b, high, g);
    lemma_gives_once::<A>(half_pi(), a, b);
    if h {
        lemma_gives_once::<A>(Formula::Pi.minus(Formula::Value(r)), f, g);
    } else {
        let (c, l) = choose|b: A::Real, low: bool| #[trigger] folds_low::<A>(r, b, low, f);
        let (d, m) = choose|b: A::Real, low: bool| #[trigger] folds_low::<A>(r, b, low, g);
        lemma_gives_once::<A>(half_pi().negate(), c, d);
        if l {
            lemma_gives_once::<A>(Formula::Pi.negate().minus(Formula::Value(r)), f, g);
        }
    }
}

proof fn lemma_series_is_determined<A: Arithmetic>(
    q: A::Real,
    i: nat,
    k: A::Real,
    t: A::Real,
    s: A::Real,
    k2: A::Real,
    t2: A::Real,
    s2: A::Real,
)
    requires
        deterministic::<A>(),
        bessel_series::<A>(q, i, k, t, s),
        bessel_series::<A>(q, i, k2, t2, s2),
    ensures
        k == k2,
        t == t2,
        s == s2,
    decreases i,
{
    if i == 0 {
        lemma_gives_once::<A>(Formula::Count(1), k, k2);
        lemma_gives_once::<A>(Formula::Count(1), t, t2);
        lemma_gives_once::<A>(Formula::Count(1), s, s2);
    } else {
        let j = (i - 1) as nat;
        let (a, b, c) = choose|a: A::Real, b: A::Real, c: A::Real|
            bessel_series::<A>(q, j, a, b, c) && #[trigger] bessel_step::<A>(q, a, b, c, k, t, s);
        let (d, e, f) = choose|a: A::Real, b: A::Real, c: A::Real|
            bessel_series::<A>(q, j, a, b, c) && #[trigger] bessel_step::<A>(
                q,
                a,
                b,
                c,
                k2,
                t2,
                s2,
            );
        lemma_series_is_determined::<A>(q, j, a, b, c, d, e, f);
        lemma_gives_once::<A>(next_bessel_term(q, a, b), t, t2);
        lemma_gives_once::<A>(Formula::Value(c).plus(Formula::Value(t)), s, s2);
        lemma_gives_once::<A>(Formula::Value(a).plus(Formula::Count(1)), k, k2);
    }
}

/// A series that went on to `j` terms had not settled at any fewer `i`.
proof fn lemma_series_goes_on<A: Arithmetic>(
    q: A::Real,
    i: nat,
    k: A::Real,
    t: A::Real,
    s: A::Real,
    j: nat,
    k2: A::Real,
    t2: A::Real,
    s2: A::Real,
)
    requires
        deterministic::<A>(),
        i < j,
        bessel_series::<A>(q, i, k, t, s),
        bessel_series::<A>(q, j, k2, t2, s2),
    ensures
        forall|u: A::Real, next: A::Real| !#[trigger] bessel_settles::<A>(q, k, t, s, u, next),
    decreases j,
{
    let h = (j - 1) as nat;
    let (a, b, c) = choose|a: A::Real, b: A::Real, c: A::Real|
        bessel_series::<A>(q, h, a, b, c) && #[trigger] bessel_step::<A>(q, a, b, c, k2, t2, s2);
    if i < h {
        lemma_series_goes_on::<A>(q, i, k, t, s, h, a, b, c);
    } else {
        lemma_series_is_determined::<A>(q, i, k, t, s, a, b, c);
        assert forall|u: A::Real, next: A::Real| !#[trigger] bessel_settles::<A>(
            q,
            k,
            t,
            s,
            u,
            next,
        ) by {
            if bessel_settles::<A>(q, k, t, s, u, next) {
                lemma_gives_once::<A>(next_bessel_term(q, k, t), u, t2);
                lemma_gives_once::<A>(Formula::Value(s).plus(Formula::Value(u)), next, s2);
            }
        }
    }
}

/// In a deterministic number system `I0` of a number is determined.
pub proof fn law_i0_is_determined<A: Arithmetic>(x: A::Real, s: A::Real, z: A::Real)
    requires
        deterministic::<A>(),
        is_i0::<A>(x, s),
        is_i0::<A>(x, z),
    ensures
        s == z,
{
    let (q, i, k, t) = choose|q: A::Real, i: nat, k: A::Real, t: A::Real| #[trigger]
        i0_by::<A>(x, q, i, k, t, s);
    let (p, j, l, u) = choose|q: A::Real, i: nat, k: A::Real, t: A::Real| #[trigger]
        i0_by::<A>(x, q, i, k, t, z);
    let half = Formula::Value(x).times(fraction(1, 2));
    lemma_gives_once::<A>(half.times(half), q, p);
    if i < j {
        lemma_series_goes_on::<A>(q, i, k, t, s, j, l, u, z);
    } else if j < i {
        lemma_series_goes_on::<A>(q, j, l, u, z, i, k, t, s);
    }
    lemma_series_is_determined::<A>(q, i, k, t, s, l, u, z);
}

}
