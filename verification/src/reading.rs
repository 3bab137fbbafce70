//! Exact arithmetic, as a yardstick.
//!
//! The library computes in whatever number system it is given. What its
//! formulas are for shows where that number system is exact: then every number
//! is worth a real, every operation is the operation on reals, and results can
//! be held against what the mathematics says they are.

use crate::arithmetic::{
    gives, lemma_operand, lemma_operands, Arithmetic, Binary, Formula, Unary,
};
use vstd::prelude::*;

verus! {

/// How numbers and samples are read as reals.
#[verifier::reject_recursive_types(R)]
#[verifier::reject_recursive_types(S)]
pub struct Reading<R, S> {
    /// What a number is worth.
    pub worth: spec_fn(R) -> real,
    /// The level of a sample.
    pub level: spec_fn(S) -> real,
    /// What the number pi is worth.
    pub pi: real,
}

/// Every operation of the number system is exact in the reading `e`.
pub open spec fn exact<A: Arithmetic>(e: Reading<A::Real, A::Sample>) -> bool {
    &&& e.pi > 0 as real
    &&& exact_constants::<A>(e)
    &&& exact_operations::<A>(e)
    &&& exact_decisions::<A>(e)
}

/// Constants and samples are read exactly.
pub open spec fn exact_constants<A: Arithmetic>(e: Reading<A::Real, A::Sample>) -> bool {
    &&& forall|x: A::Real| #[trigger] call_ensures(A::pi, (), x) ==> (e.worth)(x) == e.pi
    &&& forall|n: u64, x: A::Real| #[trigger]
        call_ensures(A::count, (n,), x) ==> (e.worth)(x) == n as real
    &&& forall|s: A::Sample| #[trigger]
        call_ensures(A::silence, (), s) ==> (e.level)(s) == 0 as real
    &&& forall|s: A::Sample, x: A::Real| #[trigger]
        call_ensures(A::widen, (s,), x) ==> (e.worth)(x) == (e.level)(s)
    &&& forall|x: A::Real, s: A::Sample| #[trigger]
        call_ensures(A::narrow, (x,), s) ==> (e.level)(s) == (e.worth)(x)
}

/// Sums, differences, products, quotients, negation, roots, maxima and rounding
/// are those of the reals.
pub open spec fn exact_operations<A: Arithmetic>(e: Reading<A::Real, A::Sample>) -> bool {
    &&& forall|p: A::Real, q: A::Real, x: A::Real| #[trigger]
        call_ensures(A::plus, (p, q), x) ==> (e.worth)(x) == (e.worth)(p) + (e.worth)(q)
    &&& forall|p: A::Real, q: A::Real, x: A::Real| #[trigger]
        call_ensures(A::minus, (p, q), x) ==> (e.worth)(x) == (e.worth)(p) - (e.worth)(q)
    &&& forall|p: A::Real, q: A::Real, x: A::Real| #[trigger]
        call_ensures(A::times, (p, q), x) ==> (e.worth)(x) == (e.worth)(p) * (e.worth)(q)
    &&& forall|p: A::Real, q: A::Real, x: A::Real| #[trigger]
        call_ensures(A::over, (p, q), x) && (e.worth)(q) != 0 as real ==> (e.worth)(x) == (e.worth)(
            p,
        ) / (e.worth)(q)
    &&& forall|p: A::Real, q: A::Real, x: A::Real| #[trigger]
        call_ensures(A::larger, (p, q), x) ==> (e.worth)(x) == larger((e.worth)(p), (e.worth)(q))
    &&& forall|p: A::Real, x: A::Real| #[trigger]
        call_ensures(A::negate, (p,), x) ==> (e.worth)(x) == -(e.worth)(p)
    &&& forall|p: A::Real, x: A::Real| #[trigger]
        call_ensures(A::root, (p,), x) && (e.worth)(p) >= 0 as real ==> (e.worth)(x) >= 0 as real
            && (e.worth)(x) * (e.worth)(x) == (e.worth)(p)
    &&& forall|p: A::Real, x: A::Real| #[trigger]
        call_ensures(A::nearest, (p,), x) ==> is_nearest((e.worth)(p), (e.worth)(x))
}

/// Comparisons and the ceiling are those of the reals.
pub open spec fn exact_decisions<A: Arithmetic>(e: Reading<A::Real, A::Sample>) -> bool {
    &&& forall|p: A::Real, q: A::Real, b: bool| #[trigger]
        call_ensures(A::below, (p, q), b) ==> b == ((e.worth)(p) < (e.worth)(q))
    &&& forall|p: A::Real, q: A::Real, b: bool| #[trigger]
        call_ensures(A::same, (p, q), b) ==> b == ((e.worth)(p) == (e.worth)(q))
    &&& forall|p: A::Real, n: u64| #[trigger]
        call_ensures(A::ceiling, (p,), n) ==> is_ceiling((e.worth)(p), n)
}

/// The larger of two reals.
pub open spec fn larger(x: real, y: real) -> real {
    if x >= y {
        x
    } else {
        y
    }
}

/// An integer among the reals.
pub open spec fn whole(i: int) -> real {
    i as real
}

/// `k` is an integer at most a half away from `x`.
pub open spec fn is_nearest(x: real, k: real) -> bool {
    &&& exists|i: int| k == #[trigger] whole(i)
    &&& (-1) as real <= (2 as real) * (x - k) <= 1 as real
}

/// `n` is `x` rounded up, kept within 64 bits.
pub open spec fn is_ceiling(x: real, n: u64) -> bool {
    &&& x <= n as real || n == u64::MAX
    &&& n == 0 || x > (n - 1) as real
}

/// The formula in reals.
pub open spec fn reads<R, S>(e: Reading<R, S>, f: Formula<R, S>) -> real
    decreases f,
{
    match f {
        Formula::Value(v) => (e.worth)(v),
        Formula::Pi => e.pi,
        Formula::Count(n) => n as real,
        Formula::Widened(s) => (e.level)(s),
        Formula::Apply(op, a) => match op {
            Unary::Negate => -reads(e, *a),
            _ => 0 as real,
        },
        Formula::Combine(op, a, b) => match op {
            Binary::Plus => reads(e, *a) + reads(e, *b),
            Binary::Minus => reads(e, *a) - reads(e, *b),
            Binary::Times => reads(e, *a) * reads(e, *b),
            Binary::Over => reads(e, *a) / reads(e, *b),
            Binary::Larger => larger(reads(e, *a), reads(e, *b)),
        },
    }
}

/// The formula has a value in reals: it divides by nothing that is zero, and it
/// neither takes roots nor rounds.
pub open spec fn is_rational<R, S>(e: Reading<R, S>, f: Formula<R, S>) -> bool
    decreases f,
{
    match f {
        Formula::Apply(op, a) => op == Unary::Negate && is_rational(e, *a),
        Formula::Combine(op, a, b) => is_rational(e, *a) && is_rational(e, *b) && (op
            == Binary::Over ==> reads(e, *b) != 0 as real),
        _ => true,
    }
}

/// What a formula gives is worth the formula.
pub proof fn lemma_worth<A: Arithmetic>(
    e: Reading<A::Real, A::Sample>,
    f: Formula<A::Real, A::Sample>,
    x: A::Real,
)
    requires
        exact::<A>(e),
        gives::<A>(f, x),
        is_rational(e, f),
    ensures
        (e.worth)(x) == reads(e, f),
    decreases f,
{
    match f {
        Formula::Apply(op, a) => {
            let p = lemma_operand::<A>(op, *a, x);
            lemma_worth::<A>(e, *a, p);
        },
        Formula::Combine(op, a, b) => {
            let (p, q) = lemma_operands::<A>(op, *a, *b, x);
            lemma_worth::<A>(e, *a, p);
            lemma_worth::<A>(e, *b, q);
            match op {
                Binary::Plus => {},
                Binary::Minus => {},
                Binary::Times => {},
                Binary::Over => {},
                Binary::Larger => {},
            }
        },
        _ => {},
    }
}

/// The sum of `f(a), .., f(b - 1)`.
pub open spec fn sum(f: spec_fn(int) -> real, a: int, b: int) -> real
    decreases b - a,
{
    if b <= a {
        0 as real
    } else {
        sum(f, a, b - 1) + f(b - 1)
    }
}

/// A sum, taken apart at its low end.
pub proof fn lemma_sum_low(f: spec_fn(int) -> real, a: int, b: int)
    requires
        a < b,
    ensures
        sum(f, a, b) == f(a) + sum(f, a + 1, b),
    decreases b - a,
{
    if a + 1 < b {
        lemma_sum_low(f, a, b - 1);
    } else {
        assert(sum(f, a, b - 1) == 0 as real);
        assert(sum(f, a + 1, b) == 0 as real);
    }
}

/// Terms that agree have sums that agree.
pub proof fn lemma_sum_agrees(
    f: spec_fn(int) -> real,
    g: spec_fn(int) -> real,
    a: int,
    b: int,
)
    requires
        forall|i: int| a <= i < b ==> #[trigger] f(i) == g(i),
    ensures
        sum(f, a, b) == sum(g, a, b),
    decreases b - a,
{
    if a < b {
        lemma_sum_agrees(f, g, a, b - 1);
        assert(f(b - 1) == g(b - 1));
    }
}

/// A sum is the sum of its two parts.
pub proof fn lemma_sum_parts(f: spec_fn(int) -> real, a: int, c: int, b: int)
    requires
        a <= c <= b,
    ensures
        sum(f, a, b) == sum(f, a, c) + sum(f, c, b),
    decreases b - c,
{
    if c < b {
        lemma_sum_parts(f, a, c, b - 1);
    } else {
        assert(sum(f, c, b) == 0 as real);
    }
}

/// A sum of nothing but zeros is zero.
pub proof fn lemma_sum_zero(f: spec_fn(int) -> real, a: int, b: int)
    requires
        forall|i: int| a <= i < b ==> #[trigger] f(i) == 0 as real,
    ensures
        sum(f, a, b) == 0 as real,
    decreases b - a,
{
    if a < b {
        lemma_sum_zero(f, a, b - 1);
        assert(f(b - 1) == 0 as real);
    }
}

/// Terms outside a range where all else is zero do not matter.
pub proof fn lemma_sum_support(
    f: spec_fn(int) -> real,
    a: int,
    b: int,
    c: int,
    d: int,
)
    requires
        a <= b,
        c <= d,
        forall|i: int| !(a <= i < b) || !(c <= i < d) ==> #[trigger] f(i) == 0 as real,
    ensures
        sum(f, a, b) == sum(f, c, d),
{
    let low = if a < c {
        a
    } else {
        c
    };
    let high = if b > d {
        b
    } else {
        d
    };
    lemma_sum_parts(f, low, a, high);
    lemma_sum_parts(f, a, b, high);
    lemma_sum_zero(f, low, a);
    lemma_sum_zero(f, b, high);
    lemma_sum_parts(f, low, c, high);
    lemma_sum_parts(f, c, d, high);
    lemma_sum_zero(f, low, c);
    lemma_sum_zero(f, d, high);
}

/// A constant factor goes through a sum.
pub proof fn lemma_sum_scaled(
    f: spec_fn(int) -> real,
    g: spec_fn(int) -> real,
    k: real,
    a: int,
    b: int,
)
    requires
        forall|i: int| a <= i < b ==> #[trigger] f(i) == k * g(i),
    ensures
        sum(f, a, b) == k * sum(g, a, b),
    decreases b - a,
{
    if a < b {
        lemma_sum_scaled(f, g, k, a, b - 1);
        assert(f(b - 1) == k * g(b - 1));
        let s = sum(g, a, b - 1);
        let t = g(b - 1);
        lemma_factor(s, t, k);
        lemma_reorder(k, s, k);
        lemma_reorder(k, t, k);
        lemma_reorder(k, s + t, k);
    } else {
        assert(k * (0 as real) == 0 as real) by (nonlinear_arith);
    }
}

/// The same terms from the last to the first.
pub proof fn lemma_sum_backwards(
    f: spec_fn(int) -> real,
    g: spec_fn(int) -> real,
    top: int,
    k: int,
)
    requires
        k >= 0,
        forall|j: int| 0 <= j < k ==> #[trigger] g(j) == f(top - j),
    ensures
        sum(g, 0, k) == sum(f, top - k + 1, top + 1),
    decreases k,
{
    if k > 0 {
        lemma_sum_backwards(f, g, top, k - 1);
        lemma_sum_low(f, top - k + 1, top + 1);
        assert(g(k - 1) == f(top - (k - 1)));
    }
}

/// The same terms, further on.
pub proof fn lemma_sum_shifted(
    f: spec_fn(int) -> real,
    g: spec_fn(int) -> real,
    base: int,
    k: int,
)
    requires
        forall|j: int| 0 <= j < k ==> #[trigger] f(j) == g(base + j),
    ensures
        sum(f, 0, k) == sum(g, base, base + k),
    decreases k,
{
    if k > 0 {
        lemma_sum_shifted(f, g, base, k - 1);
        assert(f(k - 1) == g(base + (k - 1)));
    }
}

/// Sums add term by term.
pub proof fn lemma_sum_added(
    f: spec_fn(int) -> real,
    g: spec_fn(int) -> real,
    h: spec_fn(int) -> real,
    a: int,
    b: int,
)
    requires
        forall|i: int| a <= i < b ==> #[trigger] f(i) == g(i) + h(i),
    ensures
        sum(f, a, b) == sum(g, a, b) + sum(h, a, b),
    decreases b - a,
{
    if a < b {
        lemma_sum_added(f, g, h, a, b - 1);
        assert(f(b - 1) == g(b - 1) + h(b - 1));
    }
}

/// A quotient times its divisor.
pub proof fn lemma_quotient(a: real, b: real)
    requires
        b != 0 as real,
    ensures
        (a / b) * b == a,
{
    assert((a / b) * b == a) by (nonlinear_arith)
        requires
            b != 0 as real,
    ;
}

/// Products with zero, and zero over `b`.
pub proof fn lemma_nothing(a: real, b: real)
    requires
        b > 0 as real,
    ensures
        a * (0 as real) == 0 as real,
        (0 as real) * a == 0 as real,
        (0 as real) / b == 0 as real,
{
    assert(a * (0 as real) == 0 as real) by (nonlinear_arith);
    assert((0 as real) * a == 0 as real) by (nonlinear_arith);
    lemma_quotient(0 as real, b);
    lemma_reorder((0 as real) / b, b, b);
    lemma_times_positive(b, (0 as real) / b);
}

/// A product in another order.
pub proof fn lemma_reorder(a: real, b: real, c: real)
    ensures
        a * b == b * a,
        (a * b) * c == a * (b * c),
        (a * b) * c == (a * c) * b,
{
    assert(a * b == b * a) by (nonlinear_arith);
    assert((a * b) * c == a * (b * c)) by (nonlinear_arith);
    assert((a * b) * c == (a * c) * b) by (nonlinear_arith);
}

/// Two products, regrouped.
pub proof fn lemma_regroup(a: real, b: real, c: real, d: real)
    ensures
        (a * b) * (c * d) == (a * c) * (b * d),
{
    assert((a * b) * (c * d) == (a * c) * (b * d)) by (nonlinear_arith);
}

/// A factor over a difference.
pub proof fn lemma_factor(a: real, b: real, c: real)
    ensures
        (a - b) * c == a * c - b * c,
        (a + b) * c == a * c + b * c,
{
    assert((a - b) * c == a * c - b * c) by (nonlinear_arith);
    assert((a + b) * c == a * c + b * c) by (nonlinear_arith);
}

/// A positive factor keeps the order and can be cancelled.
pub proof fn lemma_positive_factor(k: real, a: real, b: real)
    requires
        k > 0 as real,
    ensures
        a <= b ==> k * a <= k * b,
        a < b ==> k * a < k * b,
        a == b <==> k * a == k * b,
        a > 0 as real <==> k * a > 0 as real,
        a >= 0 as real <==> k * a >= 0 as real,
{
    lemma_times_positive(k, b - a);
    lemma_times_positive(k, a - b);
    lemma_times_positive(k, a);
    lemma_factor(b, a, k);
    lemma_factor(a, b, k);
    lemma_reorder(k, a, k);
    lemma_reorder(k, b, k);
    lemma_reorder(k, b - a, k);
    lemma_reorder(k, a - b, k);
}

/// The sign of a product with a positive number.
pub proof fn lemma_times_positive(k: real, a: real)
    requires
        k > 0 as real,
    ensures
        a > 0 as real ==> k * a > 0 as real,
        a == 0 as real ==> k * a == 0 as real,
        a < 0 as real ==> k * a < 0 as real,
{
    assert(a > 0 as real ==> k * a > 0 as real) by (nonlinear_arith)
        requires
            k > 0 as real,
    ;
    assert(a == 0 as real ==> k * a == 0 as real) by (nonlinear_arith);
    assert(a < 0 as real ==> k * a < 0 as real) by (nonlinear_arith)
        requires
            k > 0 as real,
    ;
}

/// A product of integers among the reals.
pub proof fn lemma_whole_product(a: nat, b: nat)
    ensures
        (a * b) as real == a as real * b as real,
    decreases b,
{
    if b == 0 {
        assert(a * 0 == 0) by (nonlinear_arith);
        let x = a as real;
        assert(x * (0 as real) == 0 as real) by (nonlinear_arith);
    } else {
        let c = (b - 1) as nat;
        lemma_whole_product(a, c);
        assert(a * b == a * c + a) by (nonlinear_arith)
            requires
                b == c + 1,
        ;
        let x = a as real;
        let y = c as real;
        lemma_factor(y, (-1) as real, x);
        lemma_reorder(x, y, x);
        lemma_reorder(x, y + 1 as real, x);
        assert((y + 1 as real) * x == y * x + x) by {
            lemma_factor(y, 1 as real, x);
            assert((1 as real) * x == x) by (nonlinear_arith);
        }
    }
}

}
