//! Decomposition of a prototype into polyphase taps.

use crate::arithmetic::{
    deterministic, gives, lemma_gives_once, lemma_operands, Arithmetic, Binary, Formula, Term,
};
use crate::kernel::{is_prototype, law_prototype_is_determined, Band};
use crate::stream::Bank;
use vstd::arithmetic::div_mod::*;
use vstd::arithmetic::mul::*;
use vstd::prelude::*;

verus! {

/// Taps per phase: the length over the phase count, rounded up.
pub open spec fn taps_per_phase(n: nat, phases: nat) -> nat {
    ((n + phases - 1) / (phases as int)) as nat
}

/// The phases hold the whole prototype, with less than a tap per phase to spare.
pub proof fn law_taps_per_phase(n: nat, phases: nat)
    requires
        n >= 1,
        phases >= 1,
    ensures
        taps_per_phase(n, phases) == (n - 1) / (phases as int) + 1,
        taps_per_phase(n, phases) >= 1,
        n <= phases * taps_per_phase(n, phases) < n + phases,
{
    let q = (n - 1) / (phases as int);
    lemma_fundamental_div_mod(n - 1, phases as int);
    lemma_mod_bound(n - 1, phases as int);
    lemma_div_pos_is_pos(n - 1, phases as int);
    assert(n + phases - 1 == (q + 1) * phases + (n - 1) % (phases as int)) by (nonlinear_arith)
        requires
            n - 1 == phases * q + (n - 1) % (phases as int),
    ;
    lemma_fundamental_div_mod_converse(
        n + phases - 1,
        phases as int,
        q + 1,
        (n - 1) % (phases as int),
    );
    assert(phases * (q + 1) == (q + 1) * phases) by (nonlinear_arith);
}

/// The nearest integer to `a / b`; a half rounds up.
pub open spec fn nearest_ratio(a: nat, b: nat) -> nat {
    (2 * a + b) / (2 * b)
}

/// The nearest integer is off by at most a half.
pub proof fn law_nearest_ratio_is_nearest(a: nat, b: nat)
    requires
        b > 0,
    ensures
        -b < 2 * (nearest_ratio(a, b) * b - a) <= b,
{
    let q = nearest_ratio(a, b) as int;
    let x = (2 * a + b) as int;
    let d = (2 * b) as int;
    lemma_fundamental_div_mod(x, d);
    lemma_mod_bound(x, d);
    assert(d * q == 2 * (q * b)) by (nonlinear_arith)
        requires
            d == 2 * b,
    ;
}

/// Rounding by adding half of an even divisor.
pub proof fn lemma_nearest_ratio(a: nat, b: nat)
    requires
        b > 0,
        b % 2 == 0,
    ensures
        (a + b / 2) / b == nearest_ratio(a, b),
{
    let x = (a + b / 2) as int;
    assert(2 * a + b == 2 * x);
    lemma_fundamental_div_mod(x, b as int);
    lemma_mod_bound(x, b as int);
    let q = x / (b as int);
    assert(2 * x == q * (2 * b) + 2 * (x % (b as int))) by (nonlinear_arith)
        requires
            x == b * q + x % (b as int),
    ;
    lemma_fundamental_div_mod_converse(2 * x, 2 * b as int, q, 2 * (x % (b as int)));
}

/// `table` holds the phases of `coeffs`, a prototype of `n` taps for `band`.
pub open spec fn table_by<A: Arithmetic>(
    band: Band,
    n: nat,
    phases: nat,
    silence: A::Sample,
    coeffs: Seq<A::Real>,
    table: Seq<A::Sample>,
) -> bool {
    &&& is_prototype::<A>(band, coeffs)
    &&& coeffs.len() == n
    &&& decomposes::<A>(coeffs, phases, taps_per_phase(n, phases), silence, table)
}

/// `table` holds the phases of a prototype of `n` taps for `band`.
pub open spec fn is_table<A: Arithmetic>(
    band: Band,
    n: nat,
    phases: nat,
    silence: A::Sample,
    table: Seq<A::Sample>,
) -> bool {
    exists|coeffs: Seq<A::Real>| #[trigger]
        table_by::<A>(band, n, phases, silence, coeffs, table)
}

/// `entry` is `c` times `scale` as a sample, by way of the product `x`.
pub open spec fn scaled_by<A: Arithmetic>(
    c: A::Real,
    scale: A::Real,
    x: A::Real,
    entry: A::Sample,
) -> bool {
    &&& gives::<A>(Formula::Value(c).times(Formula::Value(scale)), x)
    &&& call_ensures(A::narrow, (x,), entry)
}

/// `entry` is coefficient `i` of the prototype times `scale`; past the end of
/// the prototype it is silence.
pub open spec fn is_entry<A: Arithmetic>(
    coeffs: Seq<A::Real>,
    scale: A::Real,
    silence: A::Sample,
    i: nat,
    entry: A::Sample,
) -> bool {
    if i < coeffs.len() {
        exists|x: A::Real| #[trigger] scaled_by::<A>(coeffs[i as int], scale, x, entry)
    } else {
        entry == silence
    }
}

/// `table` is the decomposition of `coeffs` into `phases` phases of `tpp` taps:
/// phase `p`, tap `j` is coefficient `p + phases * j`, times `scale`.
pub open spec fn decomposes_by<A: Arithmetic>(
    coeffs: Seq<A::Real>,
    phases: nat,
    tpp: nat,
    silence: A::Sample,
    scale: A::Real,
    table: Seq<A::Sample>,
) -> bool {
    &&& gives::<A>(Formula::Count(phases as u64), scale)
    &&& table.len() == phases * tpp
    &&& forall|p: nat, j: nat|
        p < phases && j < tpp ==> is_entry::<A>(
            coeffs,
            scale,
            silence,
            p + phases * j,
            #[trigger] table[(p * tpp + j) as int],
        )
}

/// `table` is the decomposition of `coeffs` into phases, scaled by their number
/// for unity passband gain.
pub open spec fn decomposes<A: Arithmetic>(
    coeffs: Seq<A::Real>,
    phases: nat,
    tpp: nat,
    silence: A::Sample,
    table: Seq<A::Sample>,
) -> bool {
    exists|scale: A::Real| #[trigger]
        decomposes_by::<A>(coeffs, phases, tpp, silence, scale, table)
}

/// Decomposes a prototype into `phases` phases of `tpp` taps.
pub fn phase_table<A: Arithmetic>(
    coeffs: &Vec<A::Real>,
    phases: usize,
    tpp: usize,
    silence: A::Sample,
) -> (table: Vec<A::Sample>)
    requires
        phases * tpp <= usize::MAX,
    ensures
        decomposes::<A>(coeffs@, phases as nat, tpp as nat, silence, table@),
{
    let scale = Term::<A>::count(phases as u64).value();
    let mut table: Vec<A::Sample> = Vec::with_capacity(phases * tpp);
    let mut p: usize = 0;
    while p < phases
        invariant
            p <= phases,
            phases * tpp <= usize::MAX,
            table@.len() == p * tpp,
            forall|q: nat, k: nat|
                q < p && k < tpp ==> is_entry::<A>(
                    coeffs@,
                    scale,
                    silence,
                    q + phases as nat * k,
                    #[trigger] table@[(q * tpp as nat + k) as int],
                ),
        decreases phases - p,
    {
        let ghost whole = table@;
        let mut j: usize = 0;
        while j < tpp
            invariant
                j <= tpp,
                p < phases,
                phases * tpp <= usize::MAX,
                whole.len() == p * tpp,
                table@.len() == p * tpp + j,
                table@.take(whole.len() as int) == whole,
                forall|k: nat|
                    k < j ==> is_entry::<A>(
                        coeffs@,
                        scale,
                        silence,
                        p as nat + phases as nat * k,
                        #[trigger] table@[(whole.len() + k) as int],
                    ),
            decreases tpp - j,
        {
            proof {
                assert(0 <= phases * j && p + phases * j <= phases * tpp) by (nonlinear_arith)
                    requires
                        p < phases,
                        j < tpp,
                ;
            }
            let idx: usize = p + phases * j;
            let ghost before = table@;
            let entry = if idx < coeffs.len() {
                let x = Term::<A>::of(coeffs[idx]).times(Term::<A>::of(scale)).value();
                let y = A::narrow(x);
                assert(scaled_by::<A>(coeffs@[idx as int], scale, x, y));
                y
            } else {
                silence
            };
            table.push(entry);
            proof {
                assert(table@.take(whole.len() as int) =~= before.take(whole.len() as int));
                assert forall|k: nat| k < j + 1 implies is_entry::<A>(
                    coeffs@,
                    scale,
                    silence,
                    p as nat + phases as nat * k,
                    #[trigger] table@[(whole.len() + k) as int],
                ) by {
                    if k < j {
                        let at = (whole.len() + k) as int;
                        assert(table@[at] == before[at]);
                    }
                }
            }
            j += 1;
        }
        proof {
            assert((p + 1) * tpp == p * tpp + tpp) by (nonlinear_arith);
            assert forall|q: nat, k: nat| q < p + 1 && k < tpp implies is_entry::<A>(
                coeffs@,
                scale,
                silence,
                q + phases as nat * k,
                #[trigger] table@[(q * tpp as nat + k) as int],
            ) by {
                let at = (q * tpp as nat + k) as int;
                if q < p {
                    assert(0 <= at < whole.len()) by (nonlinear_arith)
                        requires
                            q < p,
                            k < tpp,
                            at == q * tpp + k,
                            whole.len() == p * tpp,
                    ;
                    assert(table@[at] == table@.take(whole.len() as int)[at]);
                    assert(whole[at] == table@[at]);
                } else {
                    assert(at == whole.len() + k);
                }
            }
        }
        p += 1;
    }
    assert(decomposes_by::<A>(coeffs@, phases as nat, tpp as nat, silence, scale, table@));
    table
}

/// Every coefficient of the prototype is in the table, once: coefficient `i` is
/// tap `i / phases` of phase `i % phases`.
pub proof fn law_every_coefficient_has_its_tap(n: nat, phases: nat, i: nat)
    requires
        phases >= 1,
        i < n,
    ensures
        i % phases < phases,
        i / phases < taps_per_phase(n, phases),
        i % phases + phases * (i / phases) == i,
        forall|p: nat, j: nat|
            p < phases && #[trigger] (p + phases * j) == i ==> p == i % phases && j == i / phases,
{
    law_taps_per_phase(n, phases);
    lemma_fundamental_div_mod(i as int, phases as int);
    lemma_mod_bound(i as int, phases as int);
    lemma_div_is_ordered(i as int, n - 1, phases as int);
    assert forall|p: nat, j: nat| p < phases && #[trigger] (p + phases * j) == i implies p == i
        % phases && j == i / phases by {
        lemma_mul_is_commutative(phases as int, j as int);
        lemma_fundamental_div_mod_converse(i as int, phases as int, j as int, p as int);
    }
}

/// How a tap is computed, operation by operation: the coefficient times the phase
/// count in working precision, rounded once; and silence past the prototype.
pub proof fn law_tap_is_rounded_once<A: Arithmetic>(
    coeffs: Seq<A::Real>,
    phases: nat,
    tpp: nat,
    silence: A::Sample,
    table: Seq<A::Sample>,
    p: nat,
    j: nat,
) -> (steps: (A::Real, A::Real))
    requires
        phases <= u64::MAX,
        p < phases,
        j < tpp,
        decomposes::<A>(coeffs, phases, tpp, silence, table),
    ensures
        ({
            let (count, product) = steps;
            let i = p + phases * j;
            let tap = table[(p * tpp + j) as int];
            &&& call_ensures(A::count, (phases as u64,), count)
            &&& i < coeffs.len() ==> call_ensures(A::times, (coeffs[i as int], count), product)
                && call_ensures(A::narrow, (product,), tap)
            &&& i >= coeffs.len() ==> tap == silence
        }),
{
    let scale = choose|s: A::Real| #[trigger]
        decomposes_by::<A>(coeffs, phases, tpp, silence, s, table);
    let i = p + phases * j;
    let tap = table[(p * tpp + j) as int];
    assert(is_entry::<A>(coeffs, scale, silence, i, tap));
    if i < coeffs.len() {
        let c = coeffs[i as int];
        let x = choose|x: A::Real| #[trigger] scaled_by::<A>(c, scale, x, tap);
        let (a, b) = lemma_operands::<A>(
            Binary::Times,
            Formula::Value(c),
            Formula::Value(scale),
            x,
        );
        (scale, x)
    } else {
        (scale, scale)
    }
}

/// The tap an interpolating output blends towards is the next coefficient of the
/// oversampled prototype: after the one at `p + phases * j` the one at
/// `p + phases * j + 1`, and nothing only past the end of the table.
pub proof fn law_next_tap_is_next_coefficient<A: Arithmetic>(
    bank: Bank<A::Sample>,
    coeffs: Seq<A::Real>,
    silence: A::Sample,
    scale: A::Real,
    p: nat,
    j: nat,
)
    requires
        bank.wf(),
        decomposes_by::<A>(coeffs, bank.phases, bank.tpp, silence, scale, bank.table),
        p < bank.phases,
        j < bank.tpp,
    ensures
        is_entry::<A>(coeffs, scale, silence, p + bank.phases * j, bank.tap(p, j)),
        match bank.next_tap(p, j) {
            Some(s) => is_entry::<A>(coeffs, scale, silence, p + bank.phases * j + 1, s),
            None => p + bank.phases * j + 1 == bank.phases * bank.tpp,
        },
{
    assert(is_entry::<A>(
        coeffs,
        scale,
        silence,
        p + bank.phases * j,
        bank.table[(p * bank.tpp + j) as int],
    ));
    if p + 1 < bank.phases {
        let q = p + 1;
        assert(is_entry::<A>(
            coeffs,
            scale,
            silence,
            q + bank.phases * j,
            bank.table[(q * bank.tpp + j) as int],
        ));
    } else {
        assert(bank.phases * (j + 1) == bank.phases * j + bank.phases) by (nonlinear_arith);
        if j + 1 < bank.tpp {
            let k = j + 1;
            assert(is_entry::<A>(
                coeffs,
                scale,
                silence,
                0 + bank.phases * k,
                bank.table[(0 * bank.tpp + k) as int],
            ));
        }
    }
}

/// In a deterministic number system the table of a band, a length and a phase
/// count is determined.
pub proof fn law_table_is_determined<A: Arithmetic>(
    band: Band,
    n: nat,
    phases: nat,
    silence: A::Sample,
    x: Seq<A::Sample>,
    y: Seq<A::Sample>,
)
    requires
        deterministic::<A>(),
        n >= 1,
        phases >= 1,
        is_table::<A>(band, n, phases, silence, x),
        is_table::<A>(band, n, phases, silence, y),
    ensures
        x == y,
{
    let tpp = taps_per_phase(n, phases);
    law_taps_per_phase(n, phases);
    let a = choose|c: Seq<A::Real>| #[trigger] table_by::<A>(band, n, phases, silence, c, x);
    let b = choose|c: Seq<A::Real>| #[trigger] table_by::<A>(band, n, phases, silence, c, y);
    law_prototype_is_determined::<A>(band, a, b);
    let u = choose|s: A::Real| #[trigger] decomposes_by::<A>(a, phases, tpp, silence, s, x);
    let v = choose|s: A::Real| #[trigger] decomposes_by::<A>(b, phases, tpp, silence, s, y);
    lemma_gives_once::<A>(Formula::Count(phases as u64), u, v);
    assert forall|i: int| 0 <= i < x.len() implies x[i] == y[i] by {
        let p = (i / (tpp as int)) as nat;
        let j = (i % (tpp as int)) as nat;
        lemma_fundamental_div_mod(i, tpp as int);
        lemma_mod_bound(i, tpp as int);
        lemma_div_pos_is_pos(i, tpp as int);
        assert(p < phases) by (nonlinear_arith)
            requires
                i == tpp * p + j,
                i < phases * tpp,
                0 <= j < tpp,
        ;
        lemma_mul_is_commutative(p as int, tpp as int);
        let k = p + phases * j;
        assert(is_entry::<A>(a, u, silence, k, x[(p * tpp + j) as int]));
        assert(is_entry::<A>(b, v, silence, k, y[(p * tpp + j) as int]));
        if k < a.len() {
            let c = choose|z: A::Real| #[trigger] scaled_by::<A>(a[k as int], u, z, x[i]);
            let d = choose|z: A::Real| #[trigger] scaled_by::<A>(b[k as int], v, z, y[i]);
            lemma_gives_once::<A>(Formula::Value(a[k as int]).times(Formula::Value(u)), c, d);
        }
    }
    assert(x =~= y);
}

}
