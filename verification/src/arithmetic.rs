//! The number system the filters compute in.
//!
//! The library never inspects a sample or a coefficient: it decides which
//! numbers meet, in which order, and hands each single operation to an
//! [`Arithmetic`]. The operations carry no contract, so nothing is taken for
//! granted about them, not even that repeating one repeats its result. What a
//! computation is specified to do is written as a [`Formula`], and
//! [`gives`] relates a formula to the numbers the operations may return for it.

use vstd::prelude::*;

verus! {

/// The operations of a number system: samples as they are stored and
/// streamed, and reals in which filters are designed and sums are accumulated.
///
/// For mono `f32` audio a sample is an `f32` and a real is an `f64`, and every
/// operation is the primitive one of that type.
pub trait Arithmetic {
    /// A stored sample or filter tap.
    type Sample: Copy + Send;

    /// A number of the working precision.
    type Real: Copy;

    /// The zero sample.
    fn silence() -> Self::Sample;

    /// The number pi.
    fn pi() -> Self::Real;

    /// An integer as a real.
    fn count(n: u64) -> Self::Real;

    /// A sample in working precision.
    fn widen(s: Self::Sample) -> Self::Real;

    /// A real rounded to a sample.
    fn narrow(x: Self::Real) -> Self::Sample;

    /// `x + y`.
    fn plus(x: Self::Real, y: Self::Real) -> Self::Real;

    /// `x - y`.
    fn minus(x: Self::Real, y: Self::Real) -> Self::Real;

    /// `x * y`.
    fn times(x: Self::Real, y: Self::Real) -> Self::Real;

    /// `x / y`.
    fn over(x: Self::Real, y: Self::Real) -> Self::Real;

    /// `-x`.
    fn negate(x: Self::Real) -> Self::Real;

    /// The square root of `x`.
    fn root(x: Self::Real) -> Self::Real;

    /// `x` rounded to the nearest integer.
    fn nearest(x: Self::Real) -> Self::Real;

    /// The larger of `x` and `y`.
    fn larger(x: Self::Real, y: Self::Real) -> Self::Real;

    /// Whether `x < y`.
    fn below(x: Self::Real, y: Self::Real) -> bool;

    /// Whether `x == y`.
    fn same(x: Self::Real, y: Self::Real) -> bool;

    /// `x` rounded up to an integer.
    fn ceiling(x: Self::Real) -> u64;
}

/// An operation on one real.
pub enum Unary {
    Negate,
    Root,
    Nearest,
}

/// An operation on two reals.
pub enum Binary {
    Plus,
    Minus,
    Times,
    Over,
    Larger,
}

/// An arithmetic expression over reals of type `R` and samples of type `S`.
pub enum Formula<R, S> {
    /// A number already computed.
    Value(R),
    /// Pi.
    Pi,
    /// An integer.
    Count(u64),
    /// A sample in working precision.
    Widened(S),
    /// An operation on one operand.
    Apply(Unary, Box<Formula<R, S>>),
    /// An operation on two operands.
    Combine(Binary, Box<Formula<R, S>>, Box<Formula<R, S>>),
}

impl<R, S> Formula<R, S> {
    pub open spec fn plus(self, other: Self) -> Self {
        Formula::Combine(Binary::Plus, Box::new(self), Box::new(other))
    }

    pub open spec fn minus(self, other: Self) -> Self {
        Formula::Combine(Binary::Minus, Box::new(self), Box::new(other))
    }

    pub open spec fn times(self, other: Self) -> Self {
        Formula::Combine(Binary::Times, Box::new(self), Box::new(other))
    }

    pub open spec fn over(self, other: Self) -> Self {
        Formula::Combine(Binary::Over, Box::new(self), Box::new(other))
    }

    pub open spec fn larger(self, other: Self) -> Self {
        Formula::Combine(Binary::Larger, Box::new(self), Box::new(other))
    }

    pub open spec fn negate(self) -> Self {
        Formula::Apply(Unary::Negate, Box::new(self))
    }

    pub open spec fn root(self) -> Self {
        Formula::Apply(Unary::Root, Box::new(self))
    }

    pub open spec fn nearest(self) -> Self {
        Formula::Apply(Unary::Nearest, Box::new(self))
    }
}

/// The formula `numerator / denominator`, for decimal constants.
pub open spec fn fraction<R, S>(numerator: u64, denominator: u64) -> Formula<R, S> {
    Formula::Count(numerator).over(Formula::Count(denominator))
}

/// The operation `op` on `p` may return `x`.
pub open spec fn applied<A: Arithmetic>(op: Unary, p: A::Real, x: A::Real) -> bool {
    match op {
        Unary::Negate => call_ensures(A::negate, (p,), x),
        Unary::Root => call_ensures(A::root, (p,), x),
        Unary::Nearest => call_ensures(A::nearest, (p,), x),
    }
}

/// The operation `op` on `p` and `q` may return `x`.
pub open spec fn combined<A: Arithmetic>(op: Binary, p: A::Real, q: A::Real, x: A::Real) -> bool {
    match op {
        Binary::Plus => call_ensures(A::plus, (p, q), x),
        Binary::Minus => call_ensures(A::minus, (p, q), x),
        Binary::Times => call_ensures(A::times, (p, q), x),
        Binary::Over => call_ensures(A::over, (p, q), x),
        Binary::Larger => call_ensures(A::larger, (p, q), x),
    }
}

/// Evaluating `f` operation by operation, operands before operators, may
/// result in `x`.
pub open spec fn gives<A: Arithmetic>(f: Formula<A::Real, A::Sample>, x: A::Real) -> bool
    decreases f,
{
    match f {
        Formula::Value(v) => x == v,
        Formula::Pi => call_ensures(A::pi, (), x),
        Formula::Count(n) => call_ensures(A::count, (n,), x),
        Formula::Widened(s) => call_ensures(A::widen, (s,), x),
        Formula::Apply(op, a) => exists|p: A::Real|
            gives::<A>(*a, p) && #[trigger] applied::<A>(op, p, x),
        Formula::Combine(op, a, b) => exists|p: A::Real, q: A::Real|
            gives::<A>(*a, p) && gives::<A>(*b, q) && #[trigger] combined::<A>(op, p, q, x),
    }
}

/// Every operation of the number system has one result per operands.
pub open spec fn deterministic<A: Arithmetic>() -> bool {
    &&& forall|a: A::Sample, b: A::Sample|
        #![trigger call_ensures(A::silence, (), a), call_ensures(A::silence, (), b)]
        call_ensures(A::silence, (), a) && call_ensures(A::silence, (), b) ==> a == b
    &&& forall|a: A::Real, b: A::Real|
        #![trigger call_ensures(A::pi, (), a), call_ensures(A::pi, (), b)]
        call_ensures(A::pi, (), a) && call_ensures(A::pi, (), b) ==> a == b
    &&& forall|n: u64, a: A::Real, b: A::Real|
        #![trigger call_ensures(A::count, (n,), a), call_ensures(A::count, (n,), b)]
        call_ensures(A::count, (n,), a) && call_ensures(A::count, (n,), b) ==> a == b
    &&& forall|s: A::Sample, a: A::Real, b: A::Real|
        #![trigger call_ensures(A::widen, (s,), a), call_ensures(A::widen, (s,), b)]
        call_ensures(A::widen, (s,), a) && call_ensures(A::widen, (s,), b) ==> a == b
    &&& forall|x: A::Real, a: A::Sample, b: A::Sample|
        #![trigger call_ensures(A::narrow, (x,), a), call_ensures(A::narrow, (x,), b)]
        call_ensures(A::narrow, (x,), a) && call_ensures(A::narrow, (x,), b) ==> a == b
    &&& forall|x: A::Real, y: A::Real, a: A::Real, b: A::Real|
        #![trigger call_ensures(A::plus, (x, y), a), call_ensures(A::plus, (x, y), b)]
        call_ensures(A::plus, (x, y), a) && call_ensures(A::plus, (x, y), b) ==> a == b
    &&& forall|x: A::Real, y: A::Real, a: A::Real, b: A::Real|
        #![trigger call_ensures(A::minus, (x, y), a), call_ensures(A::minus, (x, y), b)]
        call_ensures(A::minus, (x, y), a) && call_ensures(A::minus, (x, y), b) ==> a == b
    &&& forall|x: A::Real, y: A::Real, a: A::Real, b: A::Real|
        #![trigger call_ensures(A::times, (x, y), a), call_ensures(A::times, (x, y), b)]
        call_ensures(A::times, (x, y), a) && call_ensures(A::times, (x, y), b) ==> a == b
    &&& forall|x: A::Real, y: A::Real, a: A::Real, b: A::Real|
        #![trigger call_ensures(A::over, (x, y), a), call_ensures(A::over, (x, y), b)]
        call_ensures(A::over, (x, y), a) && call_ensures(A::over, (x, y), b) ==> a == b
    &&& forall|x: A::Real, a: A::Real, b: A::Real|
        #![trigger call_ensures(A::negate, (x,), a), call_ensures(A::negate, (x,), b)]
        call_ensures(A::negate, (x,), a) && call_ensures(A::negate, (x,), b) ==> a == b
    &&& forall|x: A::Real, a: A::Real, b: A::Real|
        #![trigger call_ensures(A::root, (x,), a), call_ensures(A::root, (x,), b)]
        call_ensures(A::root, (x,), a) && call_ensures(A::root, (x,), b) ==> a == b
    &&& forall|x: A::Real, a: A::Real, b: A::Real|
        #![trigger call_ensures(A::nearest, (x,), a), call_ensures(A::nearest, (x,), b)]
        call_ensures(A::nearest, (x,), a) && call_ensures(A::nearest, (x,), b) ==> a == b
    &&& forall|x: A::Real, y: A::Real, a: A::Real, b: A::Real|
        #![trigger call_ensures(A::larger, (x, y), a), call_ensures(A::larger, (x, y), b)]
        call_ensures(A::larger, (x, y), a) && call_ensures(A::larger, (x, y), b) ==> a == b
    &&& forall|x: A::Real, y: A::Real, a: bool, b: bool|
        #![trigger call_ensures(A::below, (x, y), a), call_ensures(A::below, (x, y), b)]
        call_ensures(A::below, (x, y), a) && call_ensures(A::below, (x, y), b) ==> a == b
    &&& forall|x: A::Real, y: A::Real, a: bool, b: bool|
        #![trigger call_ensures(A::same, (x, y), a), call_ensures(A::same, (x, y), b)]
        call_ensures(A::same, (x, y), a) && call_ensures(A::same, (x, y), b) ==> a == b
    &&& forall|x: A::Real, a: u64, b: u64|
        #![trigger call_ensures(A::ceiling, (x,), a), call_ensures(A::ceiling, (x,), b)]
        call_ensures(A::ceiling, (x,), a) && call_ensures(A::ceiling, (x,), b) ==> a == b
}

/// A formula has one result in a deterministic number system.
pub proof fn lemma_gives_once<A: Arithmetic>(
    f: Formula<A::Real, A::Sample>,
    x: A::Real,
    y: A::Real,
)
    requires
        deterministic::<A>(),
        gives::<A>(f, x),
        gives::<A>(f, y),
    ensures
        x == y,
    decreases f,
{
    match f {
        Formula::Apply(op, a) => {
            let p = choose|p: A::Real| gives::<A>(*a, p) && #[trigger] applied::<A>(op, p, x);
            let q = choose|p: A::Real| gives::<A>(*a, p) && #[trigger] applied::<A>(op, p, y);
            lemma_gives_once::<A>(*a, p, q);
        },
        Formula::Combine(op, a, b) => {
            let (p, q) = choose|p: A::Real, q: A::Real|
                gives::<A>(*a, p) && gives::<A>(*b, q) && #[trigger] combined::<A>(op, p, q, x);
            let (s, t) = choose|p: A::Real, q: A::Real|
                gives::<A>(*a, p) && gives::<A>(*b, q) && #[trigger] combined::<A>(op, p, q, y);
            lemma_gives_once::<A>(*a, p, s);
            lemma_gives_once::<A>(*b, q, t);
        },
        _ => {},
    }
}

/// The operands that an operation of a formula met.
pub proof fn lemma_operands<A: Arithmetic>(
    op: Binary,
    f: Formula<A::Real, A::Sample>,
    g: Formula<A::Real, A::Sample>,
    x: A::Real,
) -> (r: (A::Real, A::Real))
    requires
        gives::<A>(Formula::Combine(op, Box::new(f), Box::new(g)), x),
    ensures
        gives::<A>(f, r.0),
        gives::<A>(g, r.1),
        combined::<A>(op, r.0, r.1, x),
{
    choose|p: A::Real, q: A::Real|
        gives::<A>(f, p) && gives::<A>(g, q) && #[trigger] combined::<A>(op, p, q, x)
}

/// The operand that an operation of a formula met.
pub proof fn lemma_operand<A: Arithmetic>(
    op: Unary,
    f: Formula<A::Real, A::Sample>,
    x: A::Real,
) -> (p: A::Real)
    requires
        gives::<A>(Formula::Apply(op, Box::new(f)), x),
    ensures
        gives::<A>(f, p),
        applied::<A>(op, p, x),
{
    choose|p: A::Real| gives::<A>(f, p) && #[trigger] applied::<A>(op, p, x)
}

/// `x` and `y` compare equal. A positive and a negative zero do.
pub open spec fn alike<A: Arithmetic>(x: A::Real, y: A::Real) -> bool {
    call_ensures(A::same, (x, y), true)
}

/// `x` is a number: it compares equal to itself.
pub open spec fn is_number<A: Arithmetic>(x: A::Real) -> bool {
    alike::<A>(x, x)
}

/// `y` compares equal to `-x`.
pub open spec fn opposite<A: Arithmetic>(x: A::Real, y: A::Real) -> bool {
    exists|z: A::Real| #[trigger] applied::<A>(Unary::Negate, x, z) && alike::<A>(y, z)
}

/// What is not a number stays none: a result is a number only if every operand
/// is.
pub open spec fn numbers_come_from_numbers<A: Arithmetic>() -> bool {
    &&& forall|op: Unary, p: A::Real, x: A::Real|
        op != Unary::Root && #[trigger] applied::<A>(op, p, x) && is_number::<A>(x)
            ==> is_number::<A>(p)
    &&& forall|op: Binary, p: A::Real, q: A::Real, x: A::Real|
        op != Binary::Larger && #[trigger] combined::<A>(op, p, q, x) && is_number::<A>(x)
            ==> is_number::<A>(p) && is_number::<A>(q)
}

/// The operations treat a number and its opposite alike: signs go through
/// products, quotients, differences and rounding, cancel in squares and in
/// quotients of opposites, and turn comparisons round; and numbers that compare
/// equal have products that do. So it is in floating point.
pub open spec fn sign_symmetric<A: Arithmetic>() -> bool {
    &&& forall|p: A::Real, q: A::Real| #[trigger] opposite::<A>(p, q) ==> opposite::<A>(q, p)
    &&& forall|p: A::Real, q: A::Real|
        #[trigger] applied::<A>(Unary::Negate, p, q) && is_number::<A>(p) ==> opposite::<A>(p, q)
    &&& forall|p: A::Real, q: A::Real, x: A::Real, y: A::Real|
        #[trigger] opposite::<A>(p, q) && #[trigger] applied::<A>(Unary::Nearest, p, x)
            && #[trigger] applied::<A>(Unary::Nearest, q, y) ==> opposite::<A>(x, y)
    &&& forall|p: A::Real, q: A::Real, u: A::Real, v: A::Real, x: A::Real, y: A::Real|
        #[trigger] opposite::<A>(p, q) && #[trigger] opposite::<A>(u, v) && #[trigger] combined::<
            A,
        >(Binary::Minus, p, u, x) && #[trigger] combined::<A>(Binary::Minus, q, v, y)
            && is_number::<A>(x) ==> opposite::<A>(x, y)
    &&& forall|p: A::Real, q: A::Real, c: A::Real, x: A::Real, y: A::Real|
        #[trigger] opposite::<A>(p, q) && #[trigger] combined::<A>(Binary::Times, p, c, x)
            && #[trigger] combined::<A>(Binary::Times, q, c, y) && is_number::<A>(x)
            ==> opposite::<A>(x, y)
    &&& forall|p: A::Real, q: A::Real, c: A::Real, x: A::Real, y: A::Real|
        #[trigger] opposite::<A>(p, q) && #[trigger] combined::<A>(Binary::Times, c, p, x)
            && #[trigger] combined::<A>(Binary::Times, c, q, y) && is_number::<A>(x)
            ==> opposite::<A>(x, y)
    &&& forall|p: A::Real, q: A::Real, x: A::Real, y: A::Real|
        #[trigger] opposite::<A>(p, q) && #[trigger] combined::<A>(Binary::Times, p, p, x)
            && #[trigger] combined::<A>(Binary::Times, q, q, y) ==> x == y
    &&& forall|p: A::Real, q: A::Real, c: A::Real, x: A::Real, y: A::Real|
        #[trigger] opposite::<A>(p, q) && #[trigger] combined::<A>(Binary::Over, p, c, x)
            && #[trigger] combined::<A>(Binary::Over, q, c, y) && is_number::<A>(x)
            ==> opposite::<A>(x, y)
    &&& forall|
        p: A::Real,
        q: A::Real,
        d: A::Real,
        e: A::Real,
        x: A::Real,
        y: A::Real,
    |
        #[trigger] opposite::<A>(p, q) && #[trigger] opposite::<A>(d, e) && is_nonzero::<A>(d)
            && #[trigger] combined::<A>(Binary::Over, p, d, x) && #[trigger] combined::<A>(
            Binary::Over,
            q,
            e,
            y,
        ) && is_number::<A>(x) ==> alike::<A>(x, y)
    &&& forall|p: A::Real, q: A::Real, u: A::Real, v: A::Real, a: bool, b: bool|
        #[trigger] opposite::<A>(p, q) && #[trigger] opposite::<A>(u, v)
            && #[trigger] call_ensures(A::below, (p, u), a) && #[trigger] call_ensures(
            A::below,
            (v, q),
            b,
        ) ==> a == b
    &&& forall|p: A::Real, q: A::Real, c: A::Real, x: A::Real, y: A::Real|
        #[trigger] alike::<A>(p, q) && #[trigger] combined::<A>(Binary::Times, p, c, x)
            && #[trigger] combined::<A>(Binary::Times, q, c, y) && is_number::<A>(x)
            ==> alike::<A>(x, y)
}

/// `s` is a number in working precision.
pub open spec fn is_number_sample<A: Arithmetic>(s: A::Sample) -> bool {
    exists|u: A::Real| #[trigger] gives::<A>(Formula::Widened(s), u) && is_number::<A>(u)
}

/// Rounding to samples keeps what compares equal and makes no number of what is
/// none, and a sum from zero does not tell numbers apart that compare equal. So
/// it is in floating point, where zero plus a negative zero is zero.
pub open spec fn rounding_respects_equality<A: Arithmetic>() -> bool {
    &&& forall|p: A::Real, s: A::Sample, u: A::Real|
        #[trigger] call_ensures(A::narrow, (p,), s) && #[trigger] gives::<A>(
            Formula::Widened(s),
            u,
        ) && is_number::<A>(u) ==> is_number::<A>(p)
    &&& forall|
        p: A::Real,
        q: A::Real,
        s: A::Sample,
        t: A::Sample,
        u: A::Real,
        v: A::Real,
    |
        #[trigger] alike::<A>(p, q) && call_ensures(A::narrow, (p,), s) && call_ensures(
            A::narrow,
            (q,),
            t,
        ) && #[trigger] gives::<A>(Formula::Widened(s), u) && #[trigger] gives::<A>(
            Formula::Widened(t),
            v,
        ) ==> alike::<A>(u, v)
    &&& forall|z: A::Real, u: A::Real, v: A::Real, a: A::Real, b: A::Real|
        #[trigger] alike::<A>(u, v) && gives::<A>(Formula::Count(0), z) && #[trigger] combined::<A>(
            Binary::Plus,
            z,
            u,
            a,
        ) && #[trigger] combined::<A>(Binary::Plus, z, v, b) ==> a == b
}

/// `x` does not compare equal to zero.
pub open spec fn is_nonzero<A: Arithmetic>(x: A::Real) -> bool {
    exists|z: A::Real| #[trigger] gives::<A>(Formula::Count(0), z) && call_ensures(
        A::same,
        (x, z),
        false,
    )
}

/// A real together with the formula that gave it.
///
/// Terms are how the library calculates: each method performs one operation of
/// the number system and extends the formula by it.
pub struct Term<A: Arithmetic> {
    value: A::Real,
    formula: Ghost<Formula<A::Real, A::Sample>>,
}

impl<A: Arithmetic> Term<A> {
    #[verifier::type_invariant]
    spec fn inv(self) -> bool {
        gives::<A>(self.formula@, self.value)
    }

    /// The calculation so far.
    pub closed spec fn formula(self) -> Formula<A::Real, A::Sample> {
        self.formula@
    }

    /// A number already computed.
    pub fn of(value: A::Real) -> (r: Self)
        ensures
            r.formula() == Formula::<A::Real, A::Sample>::Value(value),
    {
        Term { value, formula: Ghost(Formula::Value(value)) }
    }

    /// Pi.
    pub fn pi() -> (r: Self)
        ensures
            r.formula() == Formula::<A::Real, A::Sample>::Pi,
    {
        Term { value: A::pi(), formula: Ghost(Formula::Pi) }
    }

    /// An integer.
    pub fn count(n: u64) -> (r: Self)
        ensures
            r.formula() == Formula::<A::Real, A::Sample>::Count(n),
    {
        Term { value: A::count(n), formula: Ghost(Formula::Count(n)) }
    }

    /// The constant `numerator / denominator`.
    pub fn fraction(numerator: u64, denominator: u64) -> (r: Self)
        ensures
            r.formula() == fraction::<A::Real, A::Sample>(numerator, denominator),
    {
        Self::count(numerator).over(Self::count(denominator))
    }

    /// A sample in working precision.
    pub fn widen(s: A::Sample) -> (r: Self)
        ensures
            r.formula() == Formula::<A::Real, A::Sample>::Widened(s),
    {
        Term { value: A::widen(s), formula: Ghost(Formula::Widened(s)) }
    }

    pub fn plus(self, other: Self) -> (r: Self)
        ensures
            r.formula() == self.formula().plus(other.formula()),
    {
        let value = A::plus(self.value, other.value);
        proof {
            use_type_invariant(&self);
            use_type_invariant(&other);
            assert(combined::<A>(Binary::Plus, self.value, other.value, value));
        }
        Term { value, formula: Ghost(self.formula@.plus(other.formula@)) }
    }

    pub fn minus(self, other: Self) -> (r: Self)
        ensures
            r.formula() == self.formula().minus(other.formula()),
    {
        let value = A::minus(self.value, other.value);
        proof {
            use_type_invariant(&self);
            use_type_invariant(&other);
            assert(combined::<A>(Binary::Minus, self.value, other.value, value));
        }
        Term { value, formula: Ghost(self.formula@.minus(other.formula@)) }
    }

    pub fn times(self, other: Self) -> (r: Self)
        ensures
            r.formula() == self.formula().times(other.formula()),
    {
        let value = A::times(self.value, other.value);
        proof {
            use_type_invariant(&self);
            use_type_invariant(&other);
            assert(combined::<A>(Binary::Times, self.value, other.value, value));
        }
        Term { value, formula: Ghost(self.formula@.times(other.formula@)) }
    }

    pub fn over(self, other: Self) -> (r: Self)
        ensures
            r.formula() == self.formula().over(other.formula()),
    {
        let value = A::over(self.value, other.value);
        proof {
            use_type_invariant(&self);
            use_type_invariant(&other);
            assert(combined::<A>(Binary::Over, self.value, other.value, value));
        }
        Term { value, formula: Ghost(self.formula@.over(other.formula@)) }
    }

    pub fn larger(self, other: Self) -> (r: Self)
        ensures
            r.formula() == self.formula().larger(other.formula()),
    {
        let value = A::larger(self.value, other.value);
        proof {
            use_type_invariant(&self);
            use_type_invariant(&other);
            assert(combined::<A>(Binary::Larger, self.value, other.value, value));
        }
        Term { value, formula: Ghost(self.formula@.larger(other.formula@)) }
    }

    pub fn negate(self) -> (r: Self)
        ensures
            r.formula() == self.formula().negate(),
    {
        let value = A::negate(self.value);
        proof {
            use_type_invariant(&self);
            assert(applied::<A>(Unary::Negate, self.value, value));
        }
        Term { value, formula: Ghost(self.formula@.negate()) }
    }

    pub fn root(self) -> (r: Self)
        ensures
            r.formula() == self.formula().root(),
    {
        let value = A::root(self.value);
        proof {
            use_type_invariant(&self);
            assert(applied::<A>(Unary::Root, self.value, value));
        }
        Term { value, formula: Ghost(self.formula@.root()) }
    }

    pub fn nearest(self) -> (r: Self)
        ensures
            r.formula() == self.formula().nearest(),
    {
        let value = A::nearest(self.value);
        proof {
            use_type_invariant(&self);
            assert(applied::<A>(Unary::Nearest, self.value, value));
        }
        Term { value, formula: Ghost(self.formula@.nearest()) }
    }

    /// The number the calculation gave.
    pub fn value(self) -> (x: A::Real)
        ensures
            gives::<A>(self.formula(), x),
    {
        proof {
            use_type_invariant(&self);
        }
        self.value
    }
}

}
