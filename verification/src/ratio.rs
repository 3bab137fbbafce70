//! Reduction of a rate pair to lowest terms.

use vstd::arithmetic::div_mod::*;
use vstd::arithmetic::mul::*;
use vstd::prelude::*;

verus! {

/// `d` divides `n`. Zero divides only itself.
pub open spec fn divides(d: nat, n: nat) -> bool {
    if d == 0 {
        n == 0
    } else {
        n % d == 0
    }
}

/// `g` is the greatest common divisor of `a` and `b`: a common divisor that
/// every common divisor divides.
pub open spec fn is_gcd(a: nat, b: nat, g: nat) -> bool {
    &&& divides(g, a)
    &&& divides(g, b)
    &&& forall|d: nat| divides(d, a) && #[trigger] divides(d, b) ==> divides(d, g)
}

/// `l / m` is `out_rate / in_rate` in lowest terms: both rates divided by
/// their greatest common divisor.
pub open spec fn is_reduced(in_rate: nat, out_rate: nat, l: nat, m: nat) -> bool {
    exists|g: nat| #[trigger]
        is_gcd(out_rate, in_rate, g) && out_rate == g * l && in_rate == g * m
}

/// `b` and `a % b` have the common divisors of `a` and `b`.
proof fn lemma_euclid_step(a: nat, b: nat, d: nat)
    requires
        b > 0,
    ensures
        divides(d, a) && divides(d, b) <==> divides(d, b) && divides(d, a % b),
{
    let q = a / b;
    let r = a % b;
    lemma_fundamental_div_mod(a as int, b as int);
    if d > 0 && b % d == 0 {
        let k = b / d;
        lemma_fundamental_div_mod(b as int, d as int);
        assert(b * q == d * (k * q)) by (nonlinear_arith)
            requires
                b == d * k,
        ;
        lemma_mod_multiples_vanish((k * q) as int, r as int, d as int);
    }
}

/// Greatest common divisor (Euclid). `gcd(0, 0)` is `0`.
pub fn gcd(a: u32, b: u32) -> (g: u32)
    ensures
        is_gcd(a as nat, b as nat, g as nat),
        a > 0 || b > 0 ==> g > 0,
{
    let ghost a0 = a as nat;
    let ghost b0 = b as nat;
    let mut a = a;
    let mut b = b;
    while b != 0
        invariant
            forall|d: nat|
                divides(d, a0) && divides(d, b0) <==> #[trigger] divides(d, a as nat) && divides(
                    d,
                    b as nat,
                ),
            a0 > 0 || b0 > 0 ==> a > 0 || b > 0,
        decreases b,
    {
        proof {
            assert forall|d: nat|
                divides(d, a0) && divides(d, b0) <==> #[trigger] divides(d, b as nat) && divides(
                    d,
                    (a % b) as nat,
                ) by {
                assert(divides(d, a0) && divides(d, b0) <==> divides(d, a as nat) && divides(
                    d,
                    b as nat,
                ));
                lemma_euclid_step(a as nat, b as nat, d);
            }
        }
        let t: u32 = b;
        b = a % b;
        a = t;
    }
    proof {
        assert(divides(a as nat, 0)) by {
            if a > 0 {
                lemma_small_mod(0, a as nat);
            }
        }
        assert(divides(a as nat, a as nat)) by {
            if a > 0 {
                lemma_mod_self_0(a as int);
            }
        }
        assert forall|d: nat| divides(d, a0) && #[trigger] divides(d, b0) implies divides(
            d,
            a as nat,
        ) by {
            assert(divides(d, a as nat) && divides(d, 0));
        }
    }
    a
}

/// The greatest common divisor is unique.
pub proof fn law_gcd_is_unique(a: nat, b: nat, g: nat, h: nat)
    requires
        is_gcd(a, b, g),
        is_gcd(a, b, h),
    ensures
        g == h,
{
    assert(divides(g, b) && divides(h, b));
    assert(divides(g, h) && divides(h, g));
    if g > 0 && h > 0 {
        lemma_fundamental_div_mod(g as int, h as int);
        lemma_fundamental_div_mod(h as int, g as int);
        let x = g / h;
        let y = h / g;
        assert(g == h) by (nonlinear_arith)
            requires
                g > 0,
                h > 0,
                g == h * x,
                h == g * y,
        ;
    }
}

/// Dividing both numbers by their greatest common divisor leaves coprime ones.
proof fn lemma_cofactors_coprime(a: nat, b: nat, g: nat)
    requires
        g > 0,
        is_gcd(a, b, g),
    ensures
        is_gcd(a / g, b / g, 1),
        a == g * (a / g),
        b == g * (b / g),
{
    let x = a / g;
    let y = b / g;
    lemma_fundamental_div_mod(a as int, g as int);
    lemma_fundamental_div_mod(b as int, g as int);
    assert forall|d: nat| divides(d, x) && #[trigger] divides(d, y) implies divides(d, 1) by {
        if d == 0 {
            assert(a == 0 && b == 0) by (nonlinear_arith)
                requires
                    a == g * x,
                    b == g * y,
                    x == 0,
                    y == 0,
            ;
            assert(divides(0, a) && divides(0, b));
            assert(divides(0, g));
        } else {
            lemma_fundamental_div_mod(x as int, d as int);
            lemma_fundamental_div_mod(y as int, d as int);
            let dg = d * g;
            assert(dg > 0) by (nonlinear_arith)
                requires
                    d > 0,
                    g > 0,
                    dg == d * g,
            ;
            assert(a == dg * (x / d) && b == dg * (y / d)) by (nonlinear_arith)
                requires
                    a == g * x,
                    b == g * y,
                    x == d * (x / d),
                    y == d * (y / d),
                    dg == d * g,
            ;
            lemma_mod_multiples_vanish((x / d) as int, 0, dg as int);
            lemma_mod_multiples_vanish((y / d) as int, 0, dg as int);
            lemma_small_mod(0, dg);
            assert(divides(dg, a) && divides(dg, b));
            assert(divides(dg, g));
            let z = g / dg;
            lemma_fundamental_div_mod(g as int, dg as int);
            assert(d == 1) by (nonlinear_arith)
                requires
                    d > 0,
                    g > 0,
                    g == (d * g) * z,
            ;
        }
    }
}

/// Lowest terms are positive and coprime, give the ratio of the rates, and do
/// not exceed the rates.
pub proof fn law_reduced_is_lowest_terms(in_rate: nat, out_rate: nat, l: nat, m: nat)
    requires
        in_rate > 0,
        out_rate > 0,
        is_reduced(in_rate, out_rate, l, m),
    ensures
        0 < l <= out_rate,
        0 < m <= in_rate,
        out_rate * m == in_rate * l,
        is_gcd(l, m, 1),
{
    let g = choose|g: nat| #[trigger]
        is_gcd(out_rate, in_rate, g) && out_rate == g * l && in_rate == g * m;
    assert(g > 0 && 0 < l <= out_rate && 0 < m <= in_rate && out_rate * m == in_rate * l)
        by (nonlinear_arith)
        requires
            out_rate == g * l,
            in_rate == g * m,
            out_rate > 0,
            in_rate > 0,
    ;
    lemma_cofactors_coprime(out_rate, in_rate, g);
    lemma_div_multiples_vanish(l as int, g as int);
    lemma_div_multiples_vanish(m as int, g as int);
}

/// Coprime numbers share no divisor but one.
pub proof fn law_coprime(l: nat, m: nat, d: nat)
    requires
        is_gcd(l, m, 1),
        d >= 2,
    ensures
        !(l % d == 0 && m % d == 0),
{
    if l % d == 0 && m % d == 0 {
        assert(divides(d, l) && divides(d, m));
        assert(divides(d, 1));
        lemma_small_mod(1, d);
    }
}

/// A rate pair has one reduction.
pub proof fn law_reduction_is_unique(
    in_rate: nat,
    out_rate: nat,
    l: nat,
    m: nat,
    l2: nat,
    m2: nat,
)
    requires
        in_rate > 0,
        out_rate > 0,
        is_reduced(in_rate, out_rate, l, m),
        is_reduced(in_rate, out_rate, l2, m2),
    ensures
        l == l2,
        m == m2,
{
    let g = choose|g: nat| #[trigger]
        is_gcd(out_rate, in_rate, g) && out_rate == g * l && in_rate == g * m;
    let h = choose|g: nat| #[trigger]
        is_gcd(out_rate, in_rate, g) && out_rate == g * l2 && in_rate == g * m2;
    law_gcd_is_unique(out_rate, in_rate, g, h);
    assert(l == l2 && m == m2) by (nonlinear_arith)
        requires
            g * l == g * l2,
            g * m == g * m2,
            g * l > 0,
    ;
}

/// Reduces `out_rate / in_rate` to lowest terms `l / m`.
pub fn reduce(in_rate: u32, out_rate: u32) -> (r: (u32, u32))
    requires
        in_rate > 0,
        out_rate > 0,
    ensures
        is_reduced(in_rate as nat, out_rate as nat, r.0 as nat, r.1 as nat),
{
    let g = gcd(out_rate, in_rate);
    let l: u32 = out_rate / g;
    let m: u32 = in_rate / g;
    proof {
        lemma_cofactors_coprime(out_rate as nat, in_rate as nat, g as nat);
    }
    (l, m)
}

}
