//! Exact-rational output scheduling.
//!
//! A conversion advances `num / den` input samples per output sample. Output
//! `n` therefore sits at input position `n * num / den`: its integer part is
//! the newest input sample the output reads, and its remainder over `den` is
//! the sub-sample position that selects a filter phase. Everything the
//! streaming engines keep incrementally is one of the closed forms below.

use vstd::arithmetic::div_mod::*;
use vstd::arithmetic::mul::*;
use vstd::prelude::*;

verus! {

/// Index of the newest input sample that output `n` reads.
pub open spec fn newest_input(num: nat, den: nat, n: nat) -> nat {
    (n * num) / den
}

/// Sub-sample position of output `n`, as a numerator over `den`.
pub open spec fn sub_position(num: nat, den: nat, n: nat) -> nat {
    (n * num) % den
}

/// How many outputs have all their input once `taken` input samples have
/// arrived: `taken * den / num`, rounded up.
pub open spec fn outputs_due(num: nat, den: nat, taken: nat) -> nat {
    ((taken * den + num - 1) / (num as int)) as nat
}

/// Output `n` is due after `taken` input samples exactly when the newest
/// sample it reads is among them.
pub proof fn law_due_when_newest_arrived(num: nat, den: nat, n: nat, taken: nat)
    requires
        num > 0,
        den > 0,
    ensures
        n < outputs_due(num, den, taken) <==> newest_input(num, den, n) < taken,
{
    let due = outputs_due(num, den, taken) as int;
    let x = taken * den + num - 1;
    lemma_mul_nonnegative(taken as int, den as int);
    lemma_div_pos_is_pos(x, num as int);
    lemma_fundamental_div_mod(x, num as int);
    lemma_mod_bound(x, num as int);
    let q = newest_input(num, den, n) as int;
    let r = sub_position(num, den, n) as int;
    lemma_mul_nonnegative(n as int, num as int);
    lemma_fundamental_div_mod((n * num) as int, den as int);
    lemma_mod_bound((n * num) as int, den as int);
    assert(n < due <==> n * num < taken * den) by (nonlinear_arith)
        requires
            num > 0,
            x == taken * den + num - 1,
            x == num * due + x % (num as int),
            0 <= x % (num as int) < num,
    ;
    assert(n * num < taken * den <==> q < taken) by (nonlinear_arith)
        requires
            den > 0,
            n * num == den * q + r,
            0 <= r < den,
    ;
}

/// One step of the accumulator: adding `num` to the sub-sample position and
/// carrying whole input samples gives the next output's closed form.
pub proof fn law_accumulator_is_closed_form(num: nat, den: nat, n: nat)
    requires
        den > 0,
    ensures
        newest_input(num, den, n + 1) == newest_input(num, den, n) + (sub_position(num, den, n)
            + num) / den,
        sub_position(num, den, n + 1) == (sub_position(num, den, n) + num) % den,
{
    let x = (n * num) as int;
    let q = newest_input(num, den, n) as int;
    let s = (sub_position(num, den, n) + num) as int;
    assert((n + 1) * num == x + num) by (nonlinear_arith)
        requires
            x == n * num,
    ;
    lemma_fundamental_div_mod(x, den as int);
    lemma_fundamental_div_mod(s, den as int);
    lemma_mod_bound(s, den as int);
    assert(x + num == (q + s / (den as int)) * den + s % (den as int)) by (nonlinear_arith)
        requires
            x == den * q + x % (den as int),
            s == x % (den as int) + num,
            s == den * (s / (den as int)) + s % (den as int),
    ;
    lemma_fundamental_div_mod_converse(
        x + num,
        den as int,
        q + s / (den as int),
        s % (den as int),
    );
}

/// The newest input index never moves backwards from one output to a later one.
pub proof fn lemma_newest_monotone(num: nat, den: nat, a: nat, b: nat)
    requires
        den > 0,
        a <= b,
    ensures
        newest_input(num, den, a) <= newest_input(num, den, b),
{
    lemma_mul_inequality(a as int, b as int, num as int);
    lemma_div_is_ordered((a * num) as int, (b * num) as int, den as int);
}

/// More input never makes fewer outputs due.
pub proof fn lemma_due_monotone(num: nat, den: nat, a: nat, b: nat)
    requires
        num > 0,
        a <= b,
    ensures
        outputs_due(num, den, a) <= outputs_due(num, den, b),
{
    lemma_mul_inequality(a as int, b as int, den as int);
    lemma_mul_nonnegative(a as int, den as int);
    lemma_div_pos_is_pos(a * den + num - 1, num as int);
    lemma_div_is_ordered(a * den + num - 1, b * den + num - 1, num as int);
}

/// Nothing is due before the first input sample.
pub proof fn lemma_due_at_start(num: nat, den: nat)
    requires
        num > 0,
        den > 0,
    ensures
        outputs_due(num, den, 0) == 0,
        newest_input(num, den, 0) == 0,
        sub_position(num, den, 0) == 0,
{
    assert(0 * den == 0 && 0 * num == 0) by (nonlinear_arith);
    lemma_basic_div(num - 1, num as int);
    lemma_small_mod(0, den);
    lemma_basic_div(0, den as int);
}

/// A ratio and its reduction step alike: the same input is newest, as many
/// outputs are due, and sub-sample positions differ by the common factor.
pub proof fn law_reduction_keeps_schedule(num: nat, den: nat, g: nat, n: nat, taken: nat)
    requires
        num > 0,
        den > 0,
        g > 0,
    ensures
        newest_input(g * num, g * den, n) == newest_input(num, den, n),
        sub_position(g * num, g * den, n) == g * sub_position(num, den, n),
        outputs_due(g * num, g * den, taken) == outputs_due(num, den, taken),
{
    let x = (n * num) as int;
    let q = newest_input(num, den, n) as int;
    let r = sub_position(num, den, n) as int;
    lemma_fundamental_div_mod(x, den as int);
    lemma_mod_bound(x, den as int);
    assert(n * (g * num) == q * (g * den) + g * r && 0 <= g * r < g * den && g * num > 0 && g * den
        > 0) by (nonlinear_arith)
        requires
            x == n * num,
            x == den * q + r,
            0 <= r < den,
            num > 0,
            g > 0,
    ;
    lemma_fundamental_div_mod_converse((n * (g * num)) as int, (g * den) as int, q, g * r);
    let due = outputs_due(num, den, taken);
    let wide = outputs_due(g * num, g * den, taken);
    lemma_same_newest(num, den, g, due);
    lemma_same_newest(num, den, g, wide);
    law_due_when_newest_arrived(num, den, due, taken);
    law_due_when_newest_arrived(num, den, wide, taken);
    law_due_when_newest_arrived(g * num, g * den, due, taken);
    law_due_when_newest_arrived(g * num, g * den, wide, taken);
}

proof fn lemma_same_newest(num: nat, den: nat, g: nat, n: nat)
    requires
        den > 0,
        g > 0,
    ensures
        newest_input(g * num, g * den, n) == newest_input(num, den, n),
{
    let x = (n * num) as int;
    let q = newest_input(num, den, n) as int;
    let r = sub_position(num, den, n) as int;
    lemma_fundamental_div_mod(x, den as int);
    lemma_mod_bound(x, den as int);
    assert(n * (g * num) == q * (g * den) + g * r && 0 <= g * r < g * den) by (nonlinear_arith)
        requires
            x == n * num,
            x == den * q + r,
            0 <= r < den,
            g > 0,
    ;
    lemma_fundamental_div_mod_converse((n * (g * num)) as int, (g * den) as int, q, g * r);
}

/// The schedule repeats: where `l / m` is the ratio `den / num`, the output `l`
/// further on sits exactly `m` input samples further on.
pub proof fn law_schedule_repeats(num: nat, den: nat, l: nat, m: nat, n: nat, taken: nat)
    requires
        num > 0,
        den > 0,
        num * l == den * m,
    ensures
        newest_input(num, den, n + l) == newest_input(num, den, n) + m,
        sub_position(num, den, n + l) == sub_position(num, den, n),
        outputs_due(num, den, taken + m) == outputs_due(num, den, taken) + l,
{
    let x = (n * num) as int;
    let q = x / (den as int);
    lemma_fundamental_div_mod(x, den as int);
    lemma_mod_bound(x, den as int);
    assert((n + l) * num == (q + m) * den + x % (den as int)) by (nonlinear_arith)
        requires
            x == n * num,
            x == den * q + x % (den as int),
            num * l == den * m,
    ;
    lemma_fundamental_div_mod_converse(
        ((n + l) * num) as int,
        den as int,
        q + m,
        x % (den as int),
    );
    let y = taken * den + num - 1;
    let d = y / (num as int);
    lemma_mul_nonnegative(taken as int, den as int);
    lemma_div_pos_is_pos(y, num as int);
    lemma_fundamental_div_mod(y, num as int);
    lemma_mod_bound(y, num as int);
    assert((taken + m) * den + num - 1 == (d + l) * num + y % (num as int)) by (nonlinear_arith)
        requires
            y == taken * den + num - 1,
            y == num * d + y % (num as int),
            num * l == den * m,
    ;
    lemma_fundamental_div_mod_converse(
        (taken + m) * den + num - 1,
        num as int,
        d + l,
        y % (num as int),
    );
}

/// At least the bare resampled count `taken * den / num`, rounded down, is due,
/// and less than one output more.
pub proof fn law_due_is_bare_count_rounded_up(num: nat, den: nat, taken: nat)
    requires
        num > 0,
    ensures
        (taken * den) / num <= outputs_due(num, den, taken) <= (taken * den) / num + 1,
        (taken * den) % num == 0 ==> outputs_due(num, den, taken) == (taken * den) / num,
{
    let x = (taken * den) as int;
    let q = x / (num as int);
    let r = x % (num as int);
    lemma_mul_nonnegative(taken as int, den as int);
    lemma_fundamental_div_mod(x, num as int);
    lemma_mod_bound(x, num as int);
    lemma_div_pos_is_pos(x, num as int);
    if r == 0 {
        assert(x + num - 1 == q * num + (num - 1)) by (nonlinear_arith)
            requires
                x == num * q,
        ;
        lemma_fundamental_div_mod_converse(x + num - 1, num as int, q, num - 1);
    } else {
        assert(x + num - 1 == (q + 1) * num + (r - 1)) by (nonlinear_arith)
            requires
                x == num * q + r,
        ;
        lemma_fundamental_div_mod_converse(x + num - 1, num as int, q + 1, r - 1);
    }
}

/// Whether the input index that the next output waits for, after `extra` more
/// samples, still fits a 64-bit counter.
pub fn position_fits(num: u64, den: u64, taken: u64, extra: u64) -> (fits: bool)
    requires
        0 < num <= u32::MAX,
        0 < den <= u32::MAX,
    ensures
        fits == (newest_input(
            num as nat,
            den as nat,
            outputs_due(num as nat, den as nat, (taken + extra) as nat),
        ) <= u64::MAX),
{
    let t: u128 = taken as u128 + extra as u128;
    proof {
        assert(0 <= t * den <= 0x1_ffff_ffff_ffff_fffe * 0xffff_ffff) by (nonlinear_arith)
            requires
                0 <= t <= 0x1_ffff_ffff_ffff_fffe,
                0 < den <= 0xffff_ffff,
        ;
    }
    let x: u128 = t * den as u128 + (num as u128 - 1);
    let due: u128 = x / num as u128;
    proof {
        lemma_fundamental_div_mod(x as int, num as int);
        lemma_mod_bound(x as int, num as int);
        lemma_mul_is_commutative(due as int, num as int);
        lemma_mul_nonnegative(due as int, num as int);
    }
    let newest: u128 = due * num as u128 / den as u128;
    newest <= u64::MAX as u128
}

}
