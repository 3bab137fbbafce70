//! What a resampler is for, held against exact arithmetic.
//!
//! Where the number system is exact, a run is the convolution of the input with
//! the prototype: every input sample meets the prototype at the distance in time
//! between it and the output.

use crate::arithmetic::{fraction, gives, Arithmetic, Formula};
use crate::kernel::{exact_band, general_band, is_prototype, DESIGN_STOPBAND_DB};
use crate::polyphase::{
    is_exact_filter, is_filter, is_general_filter, is_route, joined, law_chunking_is_invisible,
    law_length_is_positive, law_run_length, lemma_run_is_production, needs, plays,
    produces_in_chunks, Filter, Playback, PolyphaseResampler, Route,
};
use crate::ratio::{is_reduced, law_reduced_is_lowest_terms};
use crate::reading::{
    exact, is_rational, lemma_nothing, lemma_reorder, lemma_sum_added, lemma_sum_agrees,
    lemma_sum_backwards, lemma_sum_parts, lemma_sum_scaled, lemma_sum_shifted, lemma_sum_support,
    lemma_sum_zero, lemma_worth, reads, sum, Reading,
};
use crate::resampler::Resampler;
use crate::schedule::{law_due_when_newest_arrived, lemma_due_at_start};
use crate::stream::{
    is_blend, law_position_is_exact, lemma_phase_in_bank, sounds, sounds_by, weight, weighted_sum,
    Bank,
};
use crate::table::{
    decomposes, decomposes_by, is_entry, law_next_tap_is_next_coefficient, law_taps_per_phase,
    scaled_by, table_by,
};
use vstd::arithmetic::div_mod::*;
use vstd::arithmetic::mul::*;
use vstd::prelude::*;

verus! {

/// Coefficient `k`, and zero where there is none.
pub open spec fn at<R>(worth: spec_fn(R) -> real, coeffs: Seq<R>, k: int) -> real {
    if 0 <= k < coeffs.len() {
        worth(coeffs[k])
    } else {
        0 as real
    }
}

/// The coefficients joined by straight lines, at the position `t / den`. Nothing
/// is heard before its time.
pub open spec fn between<R>(
    worth: spec_fn(R) -> real,
    coeffs: Seq<R>,
    t: int,
    den: int,
) -> real {
    let k = t / den;
    let eta = (t % den) as real / den as real;
    if t < 0 {
        0 as real
    } else {
        (1 as real - eta) * at(worth, coeffs, k) + eta * at(worth, coeffs, k + 1)
    }
}

/// The level of input sample `i`, and zero where there is none.
pub open spec fn heard<S>(level: spec_fn(S) -> real, input: Seq<S>, i: int) -> real {
    if 0 <= i < input.len() {
        level(input[i])
    } else {
        0 as real
    }
}

/// In every bank, whatever its ratio, a blended weight is the linear
/// interpolation between the tap and the one after it: the tap itself at the
/// factor 0, the next one at the factor 1, and between equal taps no blend shows.
pub proof fn law_weight_interpolates<A: Arithmetic>(
    e: Reading<A::Real, A::Sample>,
    bank: Bank<A::Sample>,
    p: nat,
    eta: A::Real,
    j: nat,
    w: A::Real,
)
    requires
        exact::<A>(e),
        gives::<A>(weight(bank, p, Some(eta), j), w),
        p < bank.phases,
        j < bank.tpp,
    ensures
        ({
            let i = (p * bank.tpp + j) as int;
            let after = if p + 1 < bank.phases {
                (e.level)(bank.table[i + bank.tpp])
            } else if j + 1 < bank.tpp {
                (e.level)(bank.table[(j + 1) as int])
            } else {
                0 as real
            };
            let here = (e.level)(bank.table[i]);
            let f = (e.worth)(eta);
            &&& (e.worth)(w) == (1 as real - f) * here + f * after
            &&& f == 0 as real ==> (e.worth)(w) == here
            &&& f == 1 as real ==> (e.worth)(w) == after
            &&& here == after ==> (e.worth)(w) == here
        }),
{
    lemma_weight_reads::<A>(e, bank, p, Some(eta), j);
    lemma_worth::<A>(e, weight(bank, p, Some(eta), j), w);
    assert((p + 1) * bank.tpp == p * bank.tpp + bank.tpp) by (nonlinear_arith);
    assert(0 * bank.tpp == 0) by (nonlinear_arith);
    let i = (p * bank.tpp + j) as int;
    let here = (e.level)(bank.table[i]);
    let after = if p + 1 < bank.phases {
        (e.level)(bank.table[i + bank.tpp])
    } else if j + 1 < bank.tpp {
        (e.level)(bank.table[(j + 1) as int])
    } else {
        0 as real
    };
    let f = (e.worth)(eta);
    lemma_interpolation(f, here, after);
}

/// Two ways to write an interpolation, and its ends.
proof fn lemma_interpolation(f: real, a: real, b: real)
    ensures
        a + f * (b - a) == (1 as real - f) * a + f * b,
        f == 0 as real ==> a + f * (b - a) == a,
        f == 1 as real ==> a + f * (b - a) == b,
        a == b ==> a + f * (b - a) == a,
{
    assert(a + f * (b - a) == (1 as real - f) * a + f * b) by (nonlinear_arith);
    if f == 0 as real {
        assert(f * (b - a) == 0 as real) by (nonlinear_arith)
            requires
                f == 0 as real,
        ;
    }
    if f == 1 as real {
        assert(f * (b - a) == b - a) by (nonlinear_arith)
            requires
                f == 1 as real,
        ;
    }
    if a == b {
        assert(f * (b - a) == 0 as real) by (nonlinear_arith)
            requires
                a == b,
        ;
    }
}

/// An interpolation, scaled.
proof fn lemma_interpolation_scaled(big: real, f: real, a: real, b: real)
    ensures
        big * a + f * (big * b - big * a) == big * (a + f * (b - a)),
{
    assert(big * a + f * (big * b - big * a) == big * (a + f * (b - a))) by (nonlinear_arith);
}

/// The weight in reals.
proof fn lemma_weight_reads<A: Arithmetic>(
    e: Reading<A::Real, A::Sample>,
    bank: Bank<A::Sample>,
    p: nat,
    eta: Option<A::Real>,
    j: nat,
)
    ensures
        is_rational(e, weight(bank, p, eta, j)),
        reads(e, weight(bank, p, eta, j)) == match eta {
            None => (e.level)(bank.tap(p, j)),
            Some(f) => {
                let after = match bank.next_tap(p, j) {
                    Some(s) => (e.level)(s),
                    None => 0 as real,
                };
                let here = (e.level)(bank.tap(p, j));
                here + (e.worth)(f) * (after - here)
            },
        },
{
    reveal_with_fuel(reads, 6);
    reveal_with_fuel(is_rational, 6);
}

/// The level of a table entry is its coefficient times the phase count, for
/// unity passband gain.
proof fn lemma_entry_level<A: Arithmetic>(
    e: Reading<A::Real, A::Sample>,
    coeffs: Seq<A::Real>,
    phases: nat,
    scale: A::Real,
    quiet: A::Sample,
    i: nat,
    entry: A::Sample,
)
    requires
        exact::<A>(e),
        phases <= u64::MAX,
        gives::<A>(Formula::Count(phases as u64), scale),
        (e.level)(quiet) == 0 as real,
        is_entry::<A>(coeffs, scale, quiet, i, entry),
    ensures
        (e.level)(entry) == phases as real * at(e.worth, coeffs, i as int),
{
    lemma_worth::<A>(e, Formula::Count(phases as u64), scale);
    assert((e.worth)(scale) == phases as real);
    if i < coeffs.len() {
        let c = coeffs[i as int];
        let x = choose|x: A::Real| #[trigger] scaled_by::<A>(c, scale, x, entry);
        let f = Formula::Value(c).times(Formula::Value(scale));
        reveal_with_fuel(reads, 3);
        reveal_with_fuel(is_rational, 3);
        lemma_worth::<A>(e, f, x);
        lemma_reorder((e.worth)(c), (e.worth)(scale), 0 as real);
    } else {
        lemma_nothing(phases as real, 1 as real);
    }
}

/// The weight of tap `j` in output `n` is the prototype, joined by straight lines,
/// at the oversampled position where the tap stands, times the phase count.
proof fn lemma_weight_is_prototype<A: Arithmetic>(
    e: Reading<A::Real, A::Sample>,
    bank: Bank<A::Sample>,
    coeffs: Seq<A::Real>,
    quiet: A::Sample,
    scale: A::Real,
    n: nat,
    eta: Option<A::Real>,
    j: nat,
)
    requires
        exact::<A>(e),
        bank.wf(),
        bank.phases <= u64::MAX,
        decomposes_by::<A>(coeffs, bank.phases, bank.tpp, quiet, scale, bank.table),
        (e.level)(quiet) == 0 as real,
        coeffs.len() <= bank.phases * bank.tpp,
        is_blend::<A>(bank, n, eta),
        j < bank.tpp,
    ensures
        ({
            let t = (bank.phase(n) + bank.phases * j) * bank.den + bank.overhang(n);
            reads(e, weight(bank, bank.phase(n), eta, j)) == bank.phases as real * between(
                e.worth,
                coeffs,
                t as int,
                bank.den as int,
            )
        }),
{
    let p = bank.phase(n);
    let k = p + bank.phases * j;
    let t = k * bank.den + bank.overhang(n);
    law_position_is_exact(bank, n);
    lemma_weight_reads::<A>(e, bank, p, eta, j);
    law_next_tap_is_next_coefficient::<A>(bank, coeffs, quiet, scale, p, j);
    lemma_mul_nonnegative(k as int, bank.den as int);
    lemma_fundamental_div_mod_converse(
        t as int,
        bank.den as int,
        k as int,
        bank.overhang(n) as int,
    );
    let here = (e.level)(bank.tap(p, j));
    lemma_entry_level::<A>(e, coeffs, bank.phases, scale, quiet, k, bank.tap(p, j));
    let after = match bank.next_tap(p, j) {
        Some(s) => (e.level)(s),
        None => 0 as real,
    };
    let big = bank.phases as real;
    let a = at(e.worth, coeffs, k as int);
    let b = at(e.worth, coeffs, (k + 1) as int);
    if let Some(s) = bank.next_tap(p, j) {
        lemma_entry_level::<A>(e, coeffs, bank.phases, scale, quiet, k + 1, s);
    } else {
        lemma_nothing(big, 1 as real);
    }
    assert(here == big * a && after == big * b);
    let q = bank.overhang(n) as real / bank.den as real;
    match eta {
        None => {
            lemma_nothing(q, bank.den as real);
            lemma_interpolation(q, a, b);
        },
        Some(f) => {
            let ratio = fraction::<A::Real, A::Sample>(bank.overhang(n) as u64, bank.den as u64);
            reveal_with_fuel(reads, 3);
            reveal_with_fuel(is_rational, 3);
            lemma_worth::<A>(e, ratio, f);
            assert((e.worth)(f) == q);
            lemma_interpolation(q, a, b);
            lemma_interpolation_scaled(big, q, a, b);
        },
    }
}

/// The weighted sum in reals.
proof fn lemma_sum_reads<A: Arithmetic>(
    e: Reading<A::Real, A::Sample>,
    bank: Bank<A::Sample>,
    p: nat,
    eta: Option<A::Real>,
    window: Seq<A::Sample>,
    k: nat,
)
    ensures
        is_rational(e, weighted_sum(bank, p, eta, window, k)),
        reads(e, weighted_sum(bank, p, eta, window, k)) == sum(
            |j: int| reads(e, weight(bank, p, eta, j as nat)) * (e.level)(window[j]),
            0,
            k as int,
        ),
    decreases k,
{
    let f = |j: int| reads(e, weight(bank, p, eta, j as nat)) * (e.level)(window[j]);
    if k > 0 {
        let j = (k - 1) as nat;
        lemma_sum_reads::<A>(e, bank, p, eta, window, j);
        lemma_weight_reads::<A>(e, bank, p, eta, j);
        let x = Formula::<A::Real, A::Sample>::Widened(window[j as int]);
        let product = weight(bank, p, eta, j).times(x);
        let prefix = weighted_sum(bank, p, eta, window, j);
        assert(weighted_sum(bank, p, eta, window, k) == prefix.plus(product));
        assert(reads(e, x) == (e.level)(window[j as int]));
        assert(reads(e, product) == reads(e, weight(bank, p, eta, j)) * reads(e, x));
        assert(is_rational(e, x));
        assert(is_rational(e, product));
        assert(f(j as int) == reads(e, product));
    }
}

/// A run of a bank is the convolution of its input with its prototype: output
/// `n` is the sum over the input samples of each sample times the prototype at
/// the time between sample and output, where the prototype has `phases`
/// coefficients to the input sample, is joined by straight lines between them
/// and is scaled by their number.
pub proof fn law_run_is_convolution<A: Arithmetic>(
    e: Reading<A::Real, A::Sample>,
    f: Filter<A::Sample>,
    coeffs: Seq<A::Real>,
    scale: A::Real,
    chunks: Seq<Seq<A::Sample>>,
    out: Seq<A::Sample>,
    n: nat,
)
    requires
        exact::<A>(e),
        f.bank.wf(),
        f.bank.phases <= u64::MAX,
        decomposes_by::<A>(coeffs, f.bank.phases, f.bank.tpp, f.quiet, scale, f.bank.table),
        (e.level)(f.quiet) == 0 as real,
        coeffs.len() <= f.bank.phases * f.bank.tpp,
        plays::<A>(Playback::fresh(f), chunks, out),
        n < out.len(),
    ensures
        (e.level)(out[n as int]) == sum(
            |i: int|
                f.bank.phases as real * between(
                    e.worth,
                    coeffs,
                    (n * f.bank.num - i * f.bank.den) * f.bank.phases,
                    f.bank.den as int,
                ) * heard(e.level, joined(chunks), i),
            0,
            joined(chunks).len() as int,
        ),
{
    let bank = f.bank;
    let state = Playback::fresh(f);
    let input = joined(chunks);
    let all = input + state.tail();
    lemma_run_is_production::<A>(state, chunks, out);
    lemma_due_at_start(bank.num, bank.den);
    let newest = bank.newest(n);
    law_due_when_newest_arrived(bank.num, bank.den, n, all.len());
    let window = state.stream.window(all, newest);
    let y = out[n as int];
    assert(sounds::<A>(bank, n, window, y));
    let (eta, acc) = choose|eta: Option<A::Real>, acc: A::Real| #[trigger]
        sounds_by::<A>(bank, n, window, eta, acc, y);
    let p = bank.phase(n);
    lemma_sum_reads::<A>(e, bank, p, eta, window, bank.tpp);
    lemma_worth::<A>(e, weighted_sum(bank, p, eta, window, bank.tpp), acc);
    let g = |j: int| reads(e, weight(bank, p, eta, j as nat)) * (e.level)(window[j]);
    let big = bank.phases as real;
    let term = |i: int|
        big * between(
            e.worth,
            coeffs,
            (n * bank.num - i * bank.den) * bank.phases,
            bank.den as int,
        ) * heard(e.level, input, i);
    lemma_phase_in_bank(bank, n);
    lemma_fundamental_div_mod((n * bank.num) as int, bank.den as int);
    assert forall|j: int| 0 <= j < bank.tpp implies #[trigger] g(j) == term(newest - j) by {
        lemma_weight_is_prototype::<A>(e, bank, coeffs, f.quiet, scale, n, eta, j as nat);
        let i = newest - j;
        let x = bank.position(n);
        let q = bank.overhang(n);
        assert(i * bank.den == bank.den * newest - j * bank.den) by (nonlinear_arith)
            requires
                i == newest - j,
        ;
        assert((x + j * bank.den) * bank.phases == x * bank.phases + bank.phases * j * bank.den)
            by (nonlinear_arith);
        assert((p + bank.phases * j) * bank.den == p * bank.den + bank.phases * j * bank.den)
            by (nonlinear_arith);
        assert(window[j] == (state.stream.recent + all)[bank.tpp + newest - j]);
        assert((e.level)(window[j]) == heard(e.level, input, i));
    }
    lemma_sum_backwards(term, g, newest as int, bank.tpp as int);
    let lowest = newest - bank.tpp + 1;
    assert forall|i: int|
        !(lowest <= i < newest + 1) || !(0 <= i < input.len()) implies #[trigger] term(i)
        == 0 as real by {
        let t = (n * bank.num - i * bank.den) * bank.phases;
        let b = between(e.worth, coeffs, t, bank.den as int);
        let h = heard(e.level, input, i);
        if 0 <= i < input.len() {
            lemma_out_of_reach::<A>(e, bank, coeffs, n, i);
            lemma_nothing(big, 1 as real);
            lemma_nothing(h, 1 as real);
        } else {
            lemma_nothing(big * b, 1 as real);
        }
    }
    lemma_sum_support(term, lowest, (newest + 1) as int, 0, input.len() as int);
    let stated = |i: int|
        f.bank.phases as real * between(
            e.worth,
            coeffs,
            (n * f.bank.num - i * f.bank.den) * f.bank.phases,
            f.bank.den as int,
        ) * heard(e.level, joined(chunks), i);
    lemma_sum_agrees(stated, term, 0, input.len() as int);
}

/// An input sample outside the window of an output meets no coefficient.
proof fn lemma_out_of_reach<A: Arithmetic>(
    e: Reading<A::Real, A::Sample>,
    bank: Bank<A::Sample>,
    coeffs: Seq<A::Real>,
    n: nat,
    i: int,
)
    requires
        bank.wf(),
        coeffs.len() <= bank.phases * bank.tpp,
        i > bank.newest(n) || i <= bank.newest(n) - bank.tpp,
    ensures
        between(
            e.worth,
            coeffs,
            (n * bank.num - i * bank.den) * bank.phases,
            bank.den as int,
        ) == 0 as real,
{
    let newest = bank.newest(n) as int;
    let x = bank.position(n) as int;
    let d = n * bank.num - i * bank.den;
    let t = d * bank.phases;
    lemma_fundamental_div_mod((n * bank.num) as int, bank.den as int);
    lemma_mod_bound((n * bank.num) as int, bank.den as int);
    let past = (newest - i) * bank.den;
    assert(past == bank.den * newest - i * bank.den) by (nonlinear_arith)
        requires
            past == (newest - i) * bank.den,
    ;
    if i > newest {
        assert(past <= -bank.den) by (nonlinear_arith)
            requires
                past == (newest - i) * bank.den,
                newest - i <= -1,
                bank.den > 0,
        ;
        assert(t < 0) by (nonlinear_arith)
            requires
                t == d * bank.phases,
                d < 0,
                bank.phases > 0,
        ;
    } else {
        let least = bank.phases * bank.tpp;
        let reach = bank.tpp * bank.den;
        assert(past >= reach) by (nonlinear_arith)
            requires
                past == (newest - i) * bank.den,
                reach == bank.tpp * bank.den,
                newest - i >= bank.tpp,
                bank.den > 0,
        ;
        assert(t >= reach * bank.phases) by (nonlinear_arith)
            requires
                t == d * bank.phases,
                d >= reach,
                bank.phases > 0,
        ;
        assert((bank.tpp * bank.den) * bank.phases == (bank.phases * bank.tpp) * bank.den)
            by (nonlinear_arith);
        lemma_div_is_ordered((least * bank.den) as int, t, bank.den as int);
        lemma_div_multiples_vanish(least as int, bank.den as int);
        lemma_mul_is_commutative(least as int, bank.den as int);
        lemma_mul_nonnegative(least as int, bank.den as int);
        let eta = (t % (bank.den as int)) as real / bank.den as real;
        lemma_nothing(1 as real - eta, 1 as real);
        lemma_nothing(eta, 1 as real);
    }
}

/// The exact engine upsamples by `l`, filters and keeps every `m`-th sample:
/// output `n` is `l` times the sum of the input samples, each times prototype
/// coefficient `n * m - i * l`. The prototype is the one for the rate pair, of
/// `taps` coefficients.
pub proof fn law_exact_run<A: Arithmetic>(
    e: Reading<A::Real, A::Sample>,
    in_rate: u32,
    out_rate: u32,
    l: u32,
    m: u32,
    taps: nat,
    f: Filter<A::Sample>,
    chunks: Seq<Seq<A::Sample>>,
    out: Seq<A::Sample>,
)
    requires
        exact::<A>(e),
        f.bank.wf(),
        taps >= 1,
        is_exact_filter::<A>(in_rate, out_rate, l, m, taps, f),
        plays::<A>(Playback::fresh(f), chunks, out),
    ensures
        exists|coeffs: Seq<A::Real>| #[trigger]
            is_prototype::<A>(exact_band(in_rate, out_rate, m, 84), coeffs) && coeffs.len() == taps
                && forall|n: nat|
                n < out.len() ==> (e.level)(#[trigger] out[n as int]) == sum(
                    |i: int|
                        l as real * at(e.worth, coeffs, n * m - i * l) * heard(
                            e.level,
                            joined(chunks),
                            i,
                        ),
                    0,
                    joined(chunks).len() as int,
                ),
{
    let band = exact_band(in_rate, out_rate, m, DESIGN_STOPBAND_DB);
    let input = joined(chunks);
    law_taps_per_phase(taps, l as nat);
    let coeffs = choose|c: Seq<A::Real>| #[trigger]
        table_by::<A>(band, taps, l as nat, f.quiet, c, f.bank.table);
    let scale = choose|s: A::Real| #[trigger]
        decomposes_by::<A>(coeffs, l as nat, f.bank.tpp, f.quiet, s, f.bank.table);
    assert forall|n: nat| n < out.len() implies (e.level)(#[trigger] out[n as int]) == sum(
        |i: int|
            l as real * at(e.worth, coeffs, n * m - i * l) * heard(e.level, joined(chunks), i),
        0,
        joined(chunks).len() as int,
    ) by {
        law_run_is_convolution::<A>(e, f, coeffs, scale, chunks, out, n);
        let shown = |i: int|
            f.bank.phases as real * between(
                e.worth,
                coeffs,
                (n * f.bank.num - i * f.bank.den) * f.bank.phases,
                f.bank.den as int,
            ) * heard(e.level, joined(chunks), i);
        let stated = |i: int|
            l as real * at(e.worth, coeffs, n * m - i * l) * heard(e.level, joined(chunks), i);
        assert forall|i: int| 0 <= i < input.len() implies #[trigger] shown(i) == stated(i) by {
            let k = n * m - i * l;
            let t = k * l;
            lemma_mod_multiples_basic(k, l as int);
            lemma_div_multiples_vanish(k, l as int);
            lemma_mul_is_commutative(k, l as int);
            assert(t < 0 <==> k < 0) by (nonlinear_arith)
                requires
                    t == k * l,
                    l > 0,
            ;
            let eta = (t % (l as int)) as real / l as real;
            lemma_nothing(eta, l as real);
            let a = at(e.worth, coeffs, k);
            let b = at(e.worth, coeffs, k + 1);
            lemma_interpolation(eta, a, b);
            assert(between(e.worth, coeffs, t, l as int) == a);
        }
        lemma_sum_agrees(shown, stated, 0, input.len() as int);
    }
    assert(is_prototype::<A>(exact_band(in_rate, out_rate, m, 84), coeffs));
}

/// The general engine, at any ratio: output `n` is `512` times the sum of the
/// input samples, each times the prototype, `512` coefficients to the input
/// sample and joined by straight lines, at the time `n / out_rate - i / in_rate`
/// between sample and output. The prototype is the one for the rate pair, of
/// `taps` coefficients.
pub proof fn law_general_run<A: Arithmetic>(
    e: Reading<A::Real, A::Sample>,
    in_rate: u32,
    out_rate: u32,
    taps: nat,
    f: Filter<A::Sample>,
    chunks: Seq<Seq<A::Sample>>,
    out: Seq<A::Sample>,
)
    requires
        exact::<A>(e),
        f.bank.wf(),
        taps >= 1,
        is_general_filter::<A>(in_rate, out_rate, taps, f),
        plays::<A>(Playback::fresh(f), chunks, out),
    ensures
        exists|coeffs: Seq<A::Real>| #[trigger]
            is_prototype::<A>(general_band(in_rate, out_rate, 512, 84), coeffs) && coeffs.len()
                == taps && forall|n: nat|
                n < out.len() ==> (e.level)(#[trigger] out[n as int]) == sum(
                    |i: int|
                        512 as real * between(
                            e.worth,
                            coeffs,
                            (n * in_rate - i * out_rate) * 512,
                            out_rate as int,
                        ) * heard(e.level, joined(chunks), i),
                    0,
                    joined(chunks).len() as int,
                ),
{
    let band = general_band(in_rate, out_rate, 512, DESIGN_STOPBAND_DB);
    let input = joined(chunks);
    law_taps_per_phase(taps, 512);
    let coeffs = choose|c: Seq<A::Real>| #[trigger]
        table_by::<A>(band, taps, 512, f.quiet, c, f.bank.table);
    let scale = choose|s: A::Real| #[trigger]
        decomposes_by::<A>(coeffs, 512, f.bank.tpp, f.quiet, s, f.bank.table);
    assert forall|n: nat| n < out.len() implies (e.level)(#[trigger] out[n as int]) == sum(
        |i: int|
            512 as real * between(
                e.worth,
                coeffs,
                (n * in_rate - i * out_rate) * 512,
                out_rate as int,
            ) * heard(e.level, joined(chunks), i),
        0,
        joined(chunks).len() as int,
    ) by {
        law_run_is_convolution::<A>(e, f, coeffs, scale, chunks, out, n);
        let shown = |i: int|
            f.bank.phases as real * between(
                e.worth,
                coeffs,
                (n * f.bank.num - i * f.bank.den) * f.bank.phases,
                f.bank.den as int,
            ) * heard(e.level, joined(chunks), i);
        let stated = |i: int|
            512 as real * between(
                e.worth,
                coeffs,
                (n * in_rate - i * out_rate) * 512,
                out_rate as int,
            ) * heard(e.level, joined(chunks), i);
        lemma_sum_agrees(shown, stated, 0, input.len() as int);
    }
    assert(is_prototype::<A>(general_band(in_rate, out_rate, 512, 84), coeffs));
}

/// How long a run is, in the rates alone: with `span` input samples to the
/// prototype, output `n` is there exactly when it still falls within the input
/// and the tail of the last sample.
pub proof fn law_run_covers_the_tail<A: Arithmetic>(
    in_rate: u32,
    out_rate: u32,
    route: Route,
    taps: nat,
    f: Filter<A::Sample>,
    chunks: Seq<Seq<A::Sample>>,
    out: Seq<A::Sample>,
    phases: nat,
    span: nat,
    n: nat,
)
    requires
        in_rate > 0,
        out_rate > 0,
        taps >= 1,
        f.bank.wf(),
        match route {
            Route::Identity => false,
            Route::Exact { l, m } => phases == l && is_reduced(
                in_rate as nat,
                out_rate as nat,
                l as nat,
                m as nat,
            ),
            Route::General { .. } => phases == 512,
        },
        is_filter::<A>(in_rate, out_rate, route, taps, f),
        (span - 1) * phases < taps <= span * phases,
        plays::<A>(Playback::fresh(f), chunks, out),
    ensures
        n < out.len() <==> n * in_rate < (joined(chunks).len() + span - 1) * out_rate,
{
    let bank = f.bank;
    law_run_length::<A>(f, chunks, out);
    law_taps_per_phase(taps, phases);
    assert(span == bank.tpp) by (nonlinear_arith)
        requires
            (span - 1) * phases < taps <= span * phases,
            taps <= phases * bank.tpp < taps + phases,
    ;
    let all = (joined(chunks).len() + span - 1) as nat;
    law_due_when_newest_arrived(bank.num, bank.den, n, all);
    lemma_fundamental_div_mod((n * bank.num) as int, bank.den as int);
    lemma_mod_bound((n * bank.num) as int, bank.den as int);
    let newest = bank.newest(n);
    assert(newest < all <==> n * bank.num < all * bank.den) by (nonlinear_arith)
        requires
            n * bank.num == bank.den * newest + bank.position(n),
            0 <= bank.position(n) < bank.den,
    ;
    if let Route::Exact { l, m } = route {
        law_reduced_is_lowest_terms(in_rate as nat, out_rate as nat, l as nat, m as nat);
        let a = n * m;
        let b = all * l;
        let c = n * in_rate;
        let d = all * out_rate;
        assert(a * out_rate == n * (out_rate * m)) by (nonlinear_arith)
            requires
                a == n * m,
        ;
        assert(c * l == n * (in_rate * l)) by (nonlinear_arith)
            requires
                c == n * in_rate,
        ;
        assert(b * out_rate == d * l) by (nonlinear_arith)
            requires
                b == all * l,
                d == all * out_rate,
        ;
        assert(a < b <==> a * out_rate < b * out_rate) by (nonlinear_arith)
            requires
                out_rate > 0,
        ;
        assert(c < d <==> c * l < d * l) by (nonlinear_arith)
            requires
                l > 0,
        ;
    }
}

/// Unity passband gain of the table: the taps of all phases sum to the phase
/// count times the sum of the prototype, so with a prototype of sum one the taps
/// of a phase sum to one on average, whatever the number of phases.
pub proof fn law_table_has_unity_gain<A: Arithmetic>(
    e: Reading<A::Real, A::Sample>,
    coeffs: Seq<A::Real>,
    phases: nat,
    tpp: nat,
    quiet: A::Sample,
    table: Seq<A::Sample>,
)
    requires
        exact::<A>(e),
        1 <= phases <= u64::MAX,
        coeffs.len() <= phases * tpp,
        (e.level)(quiet) == 0 as real,
        decomposes::<A>(coeffs, phases, tpp, quiet, table),
    ensures
        table.len() == phases * tpp,
        sum(|i: int| (e.level)(table[i]), 0, table.len() as int) == phases as real * sum(
            |k: int| (e.worth)(coeffs[k]),
            0,
            coeffs.len() as int,
        ),
{
    let scale = choose|s: A::Real| #[trigger]
        decomposes_by::<A>(coeffs, phases, tpp, quiet, s, table);
    let value = |k: int| phases as real * at(e.worth, coeffs, k);
    let plain = |k: int| (e.worth)(coeffs[k]);
    let padded = |k: int| at(e.worth, coeffs, k);
    let row = |p: int| sum(|j: int| value(p + phases * j), 0, tpp as int);
    let listed = |q: int|
        sum(|j: int| phases as real * at(e.worth, coeffs, q + phases * j), 0, tpp as int);
    lemma_rows::<A>(e, coeffs, phases, tpp, quiet, scale, table, phases);
    assert forall|q: int| 0 <= q < phases implies #[trigger] listed(q) == row(q) by {
        lemma_sum_agrees(
            |j: int| phases as real * at(e.worth, coeffs, q + phases * j),
            |j: int| value(q + phases * j),
            0,
            tpp as int,
        );
    }
    lemma_sum_agrees(listed, row, 0, phases as int);
    lemma_columns(value, phases, tpp);
    lemma_sum_scaled(value, padded, phases as real, 0, (phases * tpp) as int);
    lemma_sum_support(padded, 0, (phases * tpp) as int, 0, coeffs.len() as int);
    lemma_sum_agrees(padded, plain, 0, coeffs.len() as int);
}

/// The table is its rows, one after another.
proof fn lemma_rows<A: Arithmetic>(
    e: Reading<A::Real, A::Sample>,
    coeffs: Seq<A::Real>,
    phases: nat,
    tpp: nat,
    quiet: A::Sample,
    scale: A::Real,
    table: Seq<A::Sample>,
    p: nat,
)
    requires
        exact::<A>(e),
        phases <= u64::MAX,
        p <= phases,
        (e.level)(quiet) == 0 as real,
        decomposes_by::<A>(coeffs, phases, tpp, quiet, scale, table),
    ensures
        sum(|i: int| (e.level)(table[i]), 0, (p * tpp) as int) == sum(
            |q: int|
                sum(
                    |j: int| phases as real * at(e.worth, coeffs, q + phases * j),
                    0,
                    tpp as int,
                ),
            0,
            p as int,
        ),
    decreases p,
{
    let tap = |i: int| (e.level)(table[i]);
    let row = |q: int|
        sum(|j: int| phases as real * at(e.worth, coeffs, q + phases * j), 0, tpp as int);
    if p > 0 {
        let q = (p - 1) as nat;
        lemma_rows::<A>(e, coeffs, phases, tpp, quiet, scale, table, q);
        assert(p * tpp == q * tpp + tpp) by (nonlinear_arith)
            requires
                p == q + 1,
        ;
        let base = (q * tpp) as int;
        lemma_sum_parts(tap, 0, base, base + tpp);
        let entry = |j: int| phases as real * at(e.worth, coeffs, q + phases * j);
        assert forall|j: int| 0 <= j < tpp implies #[trigger] entry(j) == tap(base + j) by {
            let k = j as nat;
            assert(is_entry::<A>(
                coeffs,
                scale,
                quiet,
                q + phases * k,
                table[(q * tpp + k) as int],
            ));
            lemma_entry_level::<A>(
                e,
                coeffs,
                phases,
                scale,
                quiet,
                q + phases * k,
                table[(q * tpp + k) as int],
            );
        }
        lemma_sum_shifted(entry, tap, base, tpp as int);
        assert(row(q as int) == sum(entry, 0, tpp as int)) by {
            lemma_sum_agrees(
                |j: int| phases as real * at(e.worth, coeffs, q as int + phases * j),
                entry,
                0,
                tpp as int,
            );
        }
    } else {
        assert(0 * tpp == 0) by (nonlinear_arith);
    }
}

/// Summing rows of every `phases`-th term sums all terms.
proof fn lemma_columns(value: spec_fn(int) -> real, phases: nat, tpp: nat)
    ensures
        sum(|p: int| sum(|j: int| value(p + phases * j), 0, tpp as int), 0, phases as int) == sum(
            value,
            0,
            (phases * tpp) as int,
        ),
    decreases tpp,
{
    let row = |p: int| sum(|j: int| value(p + phases * j), 0, tpp as int);
    if tpp == 0 {
        assert(phases * 0 == 0) by (nonlinear_arith);
        lemma_sum_zero(row, 0, phases as int);
    } else {
        let less = (tpp - 1) as nat;
        lemma_columns(value, phases, less);
        let shorter = |p: int| sum(|j: int| value(p + phases * j), 0, less as int);
        let base = (phases * less) as int;
        let last = |p: int| value(p + base);
        assert(phases * tpp == base + phases) by (nonlinear_arith)
            requires
                tpp == less + 1,
                base == phases * less,
        ;
        lemma_sum_parts(value, 0, base, base + phases);
        assert forall|p: int| 0 <= p < phases implies #[trigger] last(p) == value(base + p) by {}
        lemma_sum_shifted(last, value, base, phases as int);
        assert forall|p: int| 0 <= p < phases implies #[trigger] row(p) == shorter(p) + last(p) by {
            let f = |j: int| value(p + phases * j);
            assert(row(p) == sum(f, 0, tpp as int));
            assert(shorter(p) == sum(f, 0, less as int));
            assert(f(less as int) == last(p));
        }
        lemma_sum_added(row, shorter, last, 0, phases as int);
    }
}

/// The object-level statement: constructed, fed once and flushed, a resampler on
/// a filter has played the run of that filter.
pub proof fn law_process_then_flush_plays<A: Arithmetic>(
    start: PolyphaseResampler<A>,
    fed: PolyphaseResampler<A>,
    drained: PolyphaseResampler<A>,
    input: Seq<A::Sample>,
    a: Seq<A::Sample>,
    b: Seq<A::Sample>,
)
    requires
        start.wf(),
        start.processes(input, a, fed),
        fed.flushes(b, drained),
    ensures
        plays::<A>(start@, seq![input], a + b),
        joined(seq![input]) == input,
{
    let one = seq![input];
    let out = a + b;
    assert(one.drop_last() =~= Seq::empty());
    assert(joined(one.drop_last()) =~= Seq::<A::Sample>::empty());
    assert(joined(one) =~= input);
    assert(out.take(a.len() as int) =~= a);
    assert(out.skip(a.len() as int) =~= b);
    law_chunking_is_invisible::<A>(start@, one, a);
    assert(produces_in_chunks::<A>(start@, one, out.take(a.len() as int)));
    assert(start@.fed(input).tail() == start@.tail());
    assert(fed@.tail() == start@.tail());
}

/// From construction to the last sample: a resampler that was just constructed,
/// fed `input` and flushed has put out the convolution of the input with the
/// prototype of its rate pair, on either engine.
pub proof fn law_constructed_resampler_convolves<A: Arithmetic>(
    e: Reading<A::Real, A::Sample>,
    in_rate: u32,
    out_rate: u32,
    route: Route,
    taps: nat,
    start: PolyphaseResampler<A>,
    fed: PolyphaseResampler<A>,
    drained: PolyphaseResampler<A>,
    input: Seq<A::Sample>,
    a: Seq<A::Sample>,
    b: Seq<A::Sample>,
)
    requires
        exact::<A>(e),
        in_rate > 0,
        out_rate > 0,
        is_route(in_rate, out_rate, route),
        needs::<A>(in_rate, out_rate, route, taps),
        PolyphaseResampler::<A>::outcome(in_rate, out_rate, route, taps, Ok(start)),
        start.wf(),
        start.processes(input, a, fed),
        fed.flushes(b, drained),
    ensures
        route matches Route::Exact { l, m } ==> exists|coeffs: Seq<A::Real>| #[trigger]
            is_prototype::<A>(exact_band(in_rate, out_rate, m, 84), coeffs) && coeffs.len() == taps
                && forall|n: nat|
                n < (a + b).len() ==> (e.level)(#[trigger] (a + b)[n as int]) == sum(
                    |i: int|
                        l as real * at(e.worth, coeffs, n * m - i * l) * heard(e.level, input, i),
                    0,
                    input.len() as int,
                ),
        route is General ==> exists|coeffs: Seq<A::Real>| #[trigger]
            is_prototype::<A>(general_band(in_rate, out_rate, 512, 84), coeffs) && coeffs.len()
                == taps && forall|n: nat|
                n < (a + b).len() ==> (e.level)(#[trigger] (a + b)[n as int]) == sum(
                    |i: int|
                        512 as real * between(
                            e.worth,
                            coeffs,
                            (n * in_rate - i * out_rate) * 512,
                            out_rate as int,
                        ) * heard(e.level, input, i),
                    0,
                    input.len() as int,
                ),
{
    law_process_then_flush_plays::<A>(start, fed, drained, input, a, b);
    let f = start@.filter->0;
    law_length_is_positive::<A>(in_rate, out_rate, route, taps);
    match route {
        Route::Exact { l, m } => {
            law_exact_run::<A>(e, in_rate, out_rate, l, m, taps, f, seq![input], a + b);
        },
        Route::General { .. } => {
            law_general_run::<A>(e, in_rate, out_rate, taps, f, seq![input], a + b);
        },
        Route::Identity => {},
    }
}

}
