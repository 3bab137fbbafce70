//! What a streaming conversion computes.
//!
//! A conversion is a [`Bank`] of filter phases stepped at an exact rational
//! ratio over a [`Stream`] of input samples. [`emits`] says which output
//! samples a stretch of input produces; it speaks of absolute positions only,
//! so how the input was cut into chunks cannot show in it.

use crate::arithmetic::{
    combined, deterministic, fraction, gives, lemma_gives_once, lemma_operands, Arithmetic, Binary,
    Formula,
};
use crate::schedule::{
    law_due_when_newest_arrived, law_schedule_repeats, lemma_due_at_start, lemma_due_monotone,
    lemma_newest_monotone, newest_input, outputs_due, sub_position,
};
use vstd::arithmetic::div_mod::*;
use vstd::arithmetic::mul::*;
use vstd::prelude::*;

verus! {

/// A polyphase filter bank and the ratio it is stepped at.
#[verifier::ext_equal]
pub struct Bank<S> {
    /// Input samples per output sample, as `num / den`.
    pub num: nat,
    pub den: nat,
    /// Number of phases.
    pub phases: nat,
    /// Taps per phase.
    pub tpp: nat,
    /// Phase `p`, tap `j` at index `p * tpp + j`.
    pub table: Seq<S>,
    /// Whether an output blends two adjacent phases. If not, there is a phase
    /// for every sub-sample position.
    pub interpolates: bool,
}

impl<S> Bank<S> {
    pub open spec fn wf(self) -> bool {
        &&& self.num > 0
        &&& 0 < self.den <= u64::MAX
        &&& self.phases > 0
        &&& self.tpp > 0
        &&& self.table.len() == self.phases * self.tpp
        &&& !self.interpolates ==> self.phases == self.den
    }

    /// Tap `j` of phase `p`. Tap 0 weighs the newest sample.
    pub open spec fn tap(self, p: nat, j: nat) -> S {
        self.table[(p * self.tpp + j) as int]
    }

    /// The tap that follows tap `j` of phase `p` in the oversampled impulse
    /// response. Past the top phase that is phase 0 of the next input sample.
    pub open spec fn next_tap(self, p: nat, j: nat) -> Option<S> {
        if p + 1 < self.phases {
            Some(self.tap(p + 1, j))
        } else if j + 1 < self.tpp {
            Some(self.tap(0, j + 1))
        } else {
            None
        }
    }

    /// Sub-sample position of output `n`, over `den`.
    pub open spec fn position(self, n: nat) -> nat {
        sub_position(self.num, self.den, n)
    }

    /// Phase that output `n` uses.
    pub open spec fn phase(self, n: nat) -> nat {
        if self.interpolates {
            (self.position(n) * self.phases) / self.den
        } else {
            self.position(n)
        }
    }

    /// How far output `n` sits past its phase towards the next one, over `den`.
    pub open spec fn overhang(self, n: nat) -> nat {
        (self.position(n) * self.phases) % self.den
    }

    /// Outputs due after `taken` input samples.
    pub open spec fn due(self, taken: nat) -> nat {
        outputs_due(self.num, self.den, taken)
    }

    /// Newest input sample of output `n`.
    pub open spec fn newest(self, n: nat) -> nat {
        newest_input(self.num, self.den, n)
    }

    /// After `taken` input samples: the input sample that the next output
    /// waits for.
    pub open spec fn awaited(self, taken: nat) -> nat {
        self.newest(self.due(taken))
    }
}

/// The weight of tap `j` in an output at phase `p`: the tap itself, or, with a
/// blend factor, `a + eta * (b - a)` from the tap `a` towards the next tap `b`.
pub open spec fn weight<R, S>(bank: Bank<S>, p: nat, eta: Option<R>, j: nat) -> Formula<R, S> {
    let a = Formula::Widened(bank.tap(p, j));
    match eta {
        None => a,
        Some(e) => {
            let b = match bank.next_tap(p, j) {
                Some(s) => Formula::Widened(s),
                None => Formula::Count(0),
            };
            a.plus(Formula::Value(e).times(b.minus(a)))
        },
    }
}

/// The first `k` products of weight and sample, newest sample first, summed
/// from zero in that order.
pub open spec fn weighted_sum<R, S>(
    bank: Bank<S>,
    p: nat,
    eta: Option<R>,
    window: Seq<S>,
    k: nat,
) -> Formula<R, S>
    decreases k,
{
    if k == 0 {
        Formula::Count(0)
    } else {
        let j = (k - 1) as nat;
        weighted_sum(bank, p, eta, window, j).plus(
            weight(bank, p, eta, j).times(Formula::Widened(window[j as int])),
        )
    }
}

/// `eta` is the blend factor of output `n`: present exactly in an
/// interpolating bank, and there the overhang as a fraction of `den`.
pub open spec fn is_blend<A: Arithmetic>(
    bank: Bank<A::Sample>,
    n: nat,
    eta: Option<A::Real>,
) -> bool {
    match eta {
        None => !bank.interpolates,
        Some(e) => bank.interpolates && gives::<A>(
            fraction(bank.overhang(n) as u64, bank.den as u64),
            e,
        ),
    }
}

/// `y` is output `n` of the bank over `window`, by way of the blend factor
/// `eta` and the sum `acc`.
pub open spec fn sounds_by<A: Arithmetic>(
    bank: Bank<A::Sample>,
    n: nat,
    window: Seq<A::Sample>,
    eta: Option<A::Real>,
    acc: A::Real,
    y: A::Sample,
) -> bool {
    &&& is_blend::<A>(bank, n, eta)
    &&& gives::<A>(weighted_sum(bank, bank.phase(n), eta, window, bank.tpp), acc)
    &&& call_ensures(A::narrow, (acc,), y)
}

/// `y` is output `n` of the bank over `window`, newest sample first.
pub open spec fn sounds<A: Arithmetic>(
    bank: Bank<A::Sample>,
    n: nat,
    window: Seq<A::Sample>,
    y: A::Sample,
) -> bool {
    exists|eta: Option<A::Real>, acc: A::Real| #[trigger]
        sounds_by::<A>(bank, n, window, eta, acc, y)
}

/// The state a stream carries from one chunk to the next: how many samples it
/// has taken, and the most recent ones, oldest first.
#[verifier::ext_equal]
pub struct Stream<S> {
    pub taken: nat,
    pub recent: Seq<S>,
}

impl<S> Stream<S> {
    /// A stream that has taken nothing: its past is silent.
    pub open spec fn start(tpp: nat, silence: S) -> Self {
        Stream { taken: 0, recent: Seq::new(tpp, |i: int| silence) }
    }

    /// The stream after `input`.
    pub open spec fn fed(self, input: Seq<S>) -> Self {
        Stream {
            taken: self.taken + input.len(),
            recent: (self.recent + input).skip(input.len() as int),
        }
    }

    /// The `tpp` samples up to absolute index `newest`, newest first, from the
    /// recent samples continued by `input`.
    pub open spec fn window(self, input: Seq<S>, newest: nat) -> Seq<S> {
        Seq::new(
            self.recent.len(),
            |j: int| (self.recent + input)[self.recent.len() + newest - self.taken - j],
        )
    }
}

/// `out` is what the bank produces from `input`, continuing `stream`: one
/// sample for every output that `input` completes, in order, each over the
/// window that ends at its newest input.
pub open spec fn emits<A: Arithmetic>(
    bank: Bank<A::Sample>,
    stream: Stream<A::Sample>,
    input: Seq<A::Sample>,
    out: Seq<A::Sample>,
) -> bool {
    let first = bank.due(stream.taken);
    &&& out.len() == bank.due(stream.taken + input.len()) - first
    &&& forall|i: int|
        0 <= i < out.len() ==> sounds::<A>(
            bank,
            (first + i) as nat,
            stream.window(input, bank.newest((first + i) as nat)),
            #[trigger] out[i],
        )
}

/// The phase of an output exists, and with the overhang it divides the
/// sub-sample position exactly: `phase / phases + overhang / (phases * den)` is
/// `position / den`.
pub proof fn lemma_phase_in_bank<S>(bank: Bank<S>, n: nat)
    requires
        bank.wf(),
    ensures
        bank.position(n) < bank.den,
        bank.phase(n) < bank.phases,
        bank.overhang(n) < bank.den,
        bank.phase(n) * bank.den + bank.overhang(n) == bank.position(n) * bank.phases,
{
    let x = bank.position(n);
    lemma_mod_bound((n * bank.num) as int, bank.den as int);
    lemma_fundamental_div_mod((x * bank.phases) as int, bank.den as int);
    lemma_mod_bound((x * bank.phases) as int, bank.den as int);
    if bank.interpolates {
        let q = bank.phase(n);
        assert(q < bank.phases) by (nonlinear_arith)
            requires
                x < bank.den,
                x * bank.phases == bank.den * q + bank.overhang(n),
                bank.phases > 0,
        ;
        lemma_mul_is_commutative(q as int, bank.den as int);
    } else {
        lemma_mod_multiples_basic(x as int, bank.den as int);
    }
}

/// The awaited input sample is still to come, and more input never brings it
/// nearer to the start.
pub proof fn lemma_awaited<S>(bank: Bank<S>, a: nat, b: nat)
    requires
        bank.wf(),
        a <= b,
    ensures
        a <= bank.awaited(a) <= bank.awaited(b),
        bank.due(a) <= bank.due(b),
{
    law_due_when_newest_arrived(bank.num, bank.den, bank.due(a), a);
    lemma_due_monotone(bank.num, bank.den, a, b);
    lemma_newest_monotone(bank.num, bank.den, bank.due(a), bank.due(b));
}

/// The next output never waits further ahead than one step of the ratio: stream
/// positions stay within `num / den` of the samples taken.
pub proof fn law_awaited_is_near<S>(bank: Bank<S>, taken: nat)
    requires
        bank.wf(),
    ensures
        taken <= bank.awaited(taken) <= taken + (bank.num - 1) / (bank.den as int),
{
    lemma_awaited(bank, taken, taken);
    let x = taken * bank.den + bank.num - 1;
    let due = bank.due(taken) as int;
    lemma_mul_nonnegative(taken as int, bank.den as int);
    lemma_div_pos_is_pos(x, bank.num as int);
    lemma_fundamental_div_mod(x, bank.num as int);
    lemma_mod_bound(x, bank.num as int);
    lemma_mul_is_commutative(due, bank.num as int);
    lemma_div_is_ordered(due * bank.num, x, bank.den as int);
    lemma_mul_is_commutative(taken as int, bank.den as int);
    lemma_hoist_over_denominator(bank.num - 1, taken as int, bank.den);
}

/// Feeding two chunks leaves the stream as feeding both at once.
pub proof fn lemma_fed_twice<S>(stream: Stream<S>, a: Seq<S>, b: Seq<S>)
    ensures
        stream.fed(a).fed(b) == stream.fed(a + b),
        stream.fed(a).recent.len() == stream.recent.len(),
{
    assert(stream.fed(a).fed(b).recent =~= stream.fed(a + b).recent);
}

/// Which outputs the two chunks of `a + b` complete, and that each of them
/// reads the same window whichever way it is reached.
proof fn lemma_windows_agree<S>(bank: Bank<S>, stream: Stream<S>, a: Seq<S>, b: Seq<S>)
    requires
        bank.wf(),
        stream.recent.len() == bank.tpp,
    ensures
        bank.due(stream.taken) <= bank.due(stream.taken + a.len()) <= bank.due(
            stream.taken + (a + b).len(),
        ),
        forall|n: nat|
            bank.due(stream.taken) <= n < bank.due(stream.taken + a.len())
                ==> #[trigger] stream.window(a, bank.newest(n)) == stream.window(
                a + b,
                bank.newest(n),
            ),
        forall|n: nat|
            bank.due(stream.taken + a.len()) <= n < bank.due(stream.taken + (a + b).len())
                ==> #[trigger] stream.fed(a).window(b, bank.newest(n)) == stream.window(
                a + b,
                bank.newest(n),
            ),
{
    let t = stream.taken;
    let u = t + a.len();
    let v = t + (a + b).len();
    lemma_due_monotone(bank.num, bank.den, t, u);
    lemma_due_monotone(bank.num, bank.den, u, v);
    assert forall|n: nat| bank.due(t) <= n < bank.due(u) implies #[trigger] stream.window(
        a,
        bank.newest(n),
    ) == stream.window(a + b, bank.newest(n)) by {
        law_due_when_newest_arrived(bank.num, bank.den, n, t);
        law_due_when_newest_arrived(bank.num, bank.den, n, u);
        assert(stream.window(a, bank.newest(n)) =~= stream.window(a + b, bank.newest(n)));
    }
    assert forall|n: nat| bank.due(u) <= n < bank.due(v) implies #[trigger] stream.fed(a).window(
        b,
        bank.newest(n),
    ) == stream.window(a + b, bank.newest(n)) by {
        law_due_when_newest_arrived(bank.num, bank.den, n, u);
        law_due_when_newest_arrived(bank.num, bank.den, n, v);
        assert(stream.fed(a).window(b, bank.newest(n)) =~= stream.window(
            a + b,
            bank.newest(n),
        ));
    }
}

/// The streaming carry: producing the outputs of `a` and then, from the state
/// that leaves, those of `b`, is producing the outputs of `a + b`, and ends in
/// the same state.
pub proof fn law_chunks_join<A: Arithmetic>(
    bank: Bank<A::Sample>,
    stream: Stream<A::Sample>,
    a: Seq<A::Sample>,
    b: Seq<A::Sample>,
    out_a: Seq<A::Sample>,
    out_b: Seq<A::Sample>,
)
    requires
        bank.wf(),
        stream.recent.len() == bank.tpp,
        emits::<A>(bank, stream, a, out_a),
        emits::<A>(bank, stream.fed(a), b, out_b),
    ensures
        emits::<A>(bank, stream, a + b, out_a + out_b),
        stream.fed(a).fed(b) == stream.fed(a + b),
{
    lemma_fed_twice(stream, a, b);
    lemma_windows_agree(bank, stream, a, b);
    let out = out_a + out_b;
    let first = bank.due(stream.taken);
    let second = bank.due(stream.taken + a.len());
    assert forall|i: int| 0 <= i < out.len() implies sounds::<A>(
        bank,
        (first + i) as nat,
        stream.window(a + b, bank.newest((first + i) as nat)),
        #[trigger] out[i],
    ) by {
        let n = (first + i) as nat;
        if i < out_a.len() {
            assert(out[i] == out_a[i]);
            assert(stream.window(a, bank.newest(n)) == stream.window(a + b, bank.newest(n)));
        } else {
            let k = i - out_a.len();
            assert(out[i] == out_b[k]);
            assert((second + k) as nat == n);
            assert(stream.fed(a).window(b, bank.newest(n)) == stream.window(
                a + b,
                bank.newest(n),
            ));
        }
    }
}

/// One more sample: if `before` ends in the outputs of `input` from `start` on
/// and `after` appends those of `sample`, then `after` ends in the outputs of both.
pub proof fn lemma_extend<A: Arithmetic>(
    bank: Bank<A::Sample>,
    stream: Stream<A::Sample>,
    input: Seq<A::Sample>,
    sample: A::Sample,
    before: Seq<A::Sample>,
    after: Seq<A::Sample>,
    start: int,
)
    requires
        bank.wf(),
        stream.recent.len() == bank.tpp,
        0 <= start <= before.len() <= after.len(),
        after.take(before.len() as int) == before,
        emits::<A>(bank, stream, input, before.skip(start)),
        emits::<A>(bank, stream.fed(input), seq![sample], after.skip(before.len() as int)),
    ensures
        emits::<A>(bank, stream, input.push(sample), after.skip(start)),
        stream.fed(input).fed(seq![sample]) == stream.fed(input.push(sample)),
        after.take(start) == before.take(start),
{
    law_chunks_join::<A>(
        bank,
        stream,
        input,
        seq![sample],
        before.skip(start),
        after.skip(before.len() as int),
    );
    assert(input + seq![sample] =~= input.push(sample));
    assert(after.skip(start) =~= before.skip(start) + after.skip(before.len() as int));
    assert(after.take(start) =~= before.take(start));
}

/// The streaming carry, read the other way: whatever a single call on `a + b`
/// may produce, a call on `a` followed by a call on `b` may produce, cut at the
/// output where `a` is used up.
pub proof fn law_chunks_split<A: Arithmetic>(
    bank: Bank<A::Sample>,
    stream: Stream<A::Sample>,
    a: Seq<A::Sample>,
    b: Seq<A::Sample>,
    out: Seq<A::Sample>,
)
    requires
        bank.wf(),
        stream.recent.len() == bank.tpp,
        emits::<A>(bank, stream, a + b, out),
    ensures
        ({
            let cut = bank.due(stream.taken + a.len()) - bank.due(stream.taken);
            &&& 0 <= cut <= out.len()
            &&& emits::<A>(bank, stream, a, out.take(cut))
            &&& emits::<A>(bank, stream.fed(a), b, out.skip(cut))
        }),
{
    lemma_windows_agree(bank, stream, a, b);
    let first = bank.due(stream.taken);
    let second = bank.due(stream.taken + a.len());
    let cut = second - first;
    assert forall|i: int| 0 <= i < cut implies sounds::<A>(
        bank,
        (first + i) as nat,
        stream.window(a, bank.newest((first + i) as nat)),
        #[trigger] out.take(cut)[i],
    ) by {
        let n = (first + i) as nat;
        assert(out.take(cut)[i] == out[i]);
        assert(stream.window(a, bank.newest(n)) == stream.window(a + b, bank.newest(n)));
    }
    assert forall|i: int| 0 <= i < out.skip(cut).len() implies sounds::<A>(
        bank,
        (second + i) as nat,
        stream.fed(a).window(b, bank.newest((second + i) as nat)),
        #[trigger] out.skip(cut)[i],
    ) by {
        let n = (second + i) as nat;
        assert(out.skip(cut)[i] == out[cut + i]);
        assert((first + (cut + i)) as nat == n);
        assert(stream.fed(a).window(b, bank.newest(n)) == stream.window(a + b, bank.newest(n)));
    }
}

/// An empty chunk produces nothing and changes nothing.
pub proof fn law_empty_chunk<A: Arithmetic>(
    bank: Bank<A::Sample>,
    stream: Stream<A::Sample>,
    out: Seq<A::Sample>,
)
    ensures
        emits::<A>(bank, stream, Seq::empty(), out) <==> out == Seq::<A::Sample>::empty(),
        stream.fed(Seq::empty()) == stream,
{
    assert(stream.fed(Seq::empty()).recent =~= stream.recent);
    if emits::<A>(bank, stream, Seq::empty(), out) {
        assert(out =~= Seq::<A::Sample>::empty());
    }
}

/// In a deterministic number system the output is a function of the filter,
/// the carried state and the input.
pub proof fn law_output_is_determined<A: Arithmetic>(
    bank: Bank<A::Sample>,
    stream: Stream<A::Sample>,
    input: Seq<A::Sample>,
    x: Seq<A::Sample>,
    y: Seq<A::Sample>,
)
    requires
        deterministic::<A>(),
        emits::<A>(bank, stream, input, x),
        emits::<A>(bank, stream, input, y),
    ensures
        x == y,
{
    let first = bank.due(stream.taken);
    assert forall|i: int| 0 <= i < x.len() implies x[i] == y[i] by {
        let n = (first + i) as nat;
        let window = stream.window(input, bank.newest(n));
        assert(sounds::<A>(bank, n, window, x[i]));
        assert(sounds::<A>(bank, n, window, y[i]));
        let (e, v) = choose|e: Option<A::Real>, v: A::Real| #[trigger]
            sounds_by::<A>(bank, n, window, e, v, x[i]);
        let (f, w) = choose|e: Option<A::Real>, v: A::Real| #[trigger]
            sounds_by::<A>(bank, n, window, e, v, y[i]);
        if bank.interpolates {
            lemma_gives_once::<A>(
                fraction(bank.overhang(n) as u64, bank.den as u64),
                e->Some_0,
                f->Some_0,
            );
        }
        lemma_gives_once::<A>(weighted_sum(bank, bank.phase(n), e, window, bank.tpp), v, w);
    }
    assert(x =~= y);
}

/// The oversampled position of an output: with `phases` steps per input sample,
/// output `n` sits `newest * phases + phase` whole steps and `overhang / den` of
/// a step in, and that is `n * num * phases / den` exactly.
pub proof fn law_position_is_exact<S>(bank: Bank<S>, n: nat)
    requires
        bank.wf(),
    ensures
        (bank.newest(n) * bank.phases + bank.phase(n)) * bank.den + bank.overhang(n) == n
            * bank.num * bank.phases,
        bank.phase(n) < bank.phases,
        bank.overhang(n) < bank.den,
        !bank.interpolates ==> bank.overhang(n) == 0,
{
    lemma_phase_in_bank(bank, n);
    lemma_fundamental_div_mod((n * bank.num) as int, bank.den as int);
    let w = bank.newest(n);
    let x = bank.position(n);
    assert((w * bank.phases + bank.phase(n)) * bank.den + bank.overhang(n) == n * bank.num
        * bank.phases) by (nonlinear_arith)
        requires
            n * bank.num == bank.den * w + x,
            bank.phase(n) * bank.den + bank.overhang(n) == x * bank.phases,
    ;
    if !bank.interpolates {
        lemma_mod_multiples_basic(x as int, bank.den as int);
    }
}

/// In an exact bank output `n` meets the first input sample with prototype
/// coefficient `n * num`: the impulse response is the prototype, decimated.
pub proof fn law_impulse_response_index<S>(bank: Bank<S>, n: nat)
    requires
        bank.wf(),
        !bank.interpolates,
    ensures
        bank.phase(n) + bank.phases * bank.newest(n) == n * bank.num,
{
    lemma_fundamental_div_mod((n * bank.num) as int, bank.den as int);
}

/// After `tpp - 1` samples past the last one of a stream, the outputs still to
/// come reach back to none of its samples: a flush of that length drops nothing.
pub proof fn law_flush_reaches_past_input<S>(bank: Bank<S>, taken: nat, n: nat)
    requires
        bank.wf(),
        n >= bank.due((taken + bank.tpp - 1) as nat),
    ensures
        bank.newest(n) - (bank.tpp - 1) >= taken,
{
    law_due_when_newest_arrived(bank.num, bank.den, n, (taken + bank.tpp - 1) as nat);
}

/// Every output that such a flush adds reads past the last sample of the
/// stream, and still reads that sample.
pub proof fn law_flush_adds_only_the_tail<S>(bank: Bank<S>, taken: nat, n: nat)
    requires
        bank.wf(),
        taken >= 1,
        bank.due(taken) <= n < bank.due((taken + bank.tpp - 1) as nat),
    ensures
        bank.newest(n) - (bank.tpp - 1) <= taken - 1 < bank.newest(n),
{
    law_due_when_newest_arrived(bank.num, bank.den, n, taken);
    law_due_when_newest_arrived(bank.num, bank.den, n, (taken + bank.tpp - 1) as nat);
}

/// The bank repeats: where `l / m` is its ratio `den / num`, output `n + l` uses
/// the phase and blend of output `n`, `m` input samples further on.
pub proof fn law_bank_repeats<S>(bank: Bank<S>, l: nat, m: nat, n: nat, taken: nat)
    requires
        bank.wf(),
        bank.num * l == bank.den * m,
    ensures
        bank.newest(n + l) == bank.newest(n) + m,
        bank.phase(n + l) == bank.phase(n),
        bank.overhang(n + l) == bank.overhang(n),
        bank.due(taken + m) == bank.due(taken) + l,
{
    law_schedule_repeats(bank.num, bank.den, l, m, n, taken);
}

/// Where a stream stands in the repetition of its schedule does not show: `m`
/// samples later in the count, with the same recent samples, the same input
/// produces the same outputs.
pub proof fn law_emission_is_shift_invariant<A: Arithmetic>(
    bank: Bank<A::Sample>,
    l: nat,
    m: nat,
    stream: Stream<A::Sample>,
    input: Seq<A::Sample>,
    out: Seq<A::Sample>,
)
    requires
        bank.wf(),
        bank.num * l == bank.den * m,
    ensures
        ({
            let later = Stream { taken: stream.taken + m, recent: stream.recent };
            emits::<A>(bank, later, input, out) <==> emits::<A>(bank, stream, input, out)
        }),
{
    let later = Stream { taken: stream.taken + m, recent: stream.recent };
    let first = bank.due(stream.taken);
    law_bank_repeats(bank, l, m, 0, stream.taken);
    law_bank_repeats(bank, l, m, 0, stream.taken + input.len());
    assert(later.taken + input.len() == stream.taken + input.len() + m);
    assert forall|i: int| 0 <= i < out.len() implies sounds::<A>(
        bank,
        (first + l + i) as nat,
        later.window(input, bank.newest((first + l + i) as nat)),
        #[trigger] out[i],
    ) == sounds::<A>(
        bank,
        (first + i) as nat,
        stream.window(input, bank.newest((first + i) as nat)),
        out[i],
    ) by {
        let n = (first + i) as nat;
        law_bank_repeats(bank, l, m, n, 0);
        assert((first + l + i) as nat == n + l);
        assert(later.window(input, bank.newest(n + l)) =~= stream.window(input, bank.newest(n)));
        lemma_sounds_alike::<A>(bank, n, n + l, stream.window(input, bank.newest(n)), out[i]);
    }
    if emits::<A>(bank, later, input, out) {
        assert forall|i: int| 0 <= i < out.len() implies sounds::<A>(
            bank,
            (first + i) as nat,
            stream.window(input, bank.newest((first + i) as nat)),
            #[trigger] out[i],
        ) by {
            assert((bank.due(later.taken) + i) as nat == (first + l + i) as nat);
        }
    }
    if emits::<A>(bank, stream, input, out) {
        assert forall|i: int| 0 <= i < out.len() implies sounds::<A>(
            bank,
            (bank.due(later.taken) + i) as nat,
            later.window(input, bank.newest((bank.due(later.taken) + i) as nat)),
            #[trigger] out[i],
        ) by {
            assert((bank.due(later.taken) + i) as nat == (first + l + i) as nat);
        }
    }
}

/// Outputs of one phase and overhang sound alike over a window.
proof fn lemma_sounds_alike<A: Arithmetic>(
    bank: Bank<A::Sample>,
    n: nat,
    k: nat,
    window: Seq<A::Sample>,
    y: A::Sample,
)
    requires
        bank.phase(n) == bank.phase(k),
        bank.overhang(n) == bank.overhang(k),
    ensures
        sounds::<A>(bank, n, window, y) == sounds::<A>(bank, k, window, y),
{
    if sounds::<A>(bank, n, window, y) {
        let (e, v) = choose|e: Option<A::Real>, v: A::Real| #[trigger]
            sounds_by::<A>(bank, n, window, e, v, y);
        assert(sounds_by::<A>(bank, k, window, e, v, y));
    }
    if sounds::<A>(bank, k, window, y) {
        let (e, v) = choose|e: Option<A::Real>, v: A::Real| #[trigger]
            sounds_by::<A>(bank, k, window, e, v, y);
        assert(sounds_by::<A>(bank, n, window, e, v, y));
    }
}

/// The sum `a` has at most one product in it: it is zero, or zero plus the
/// product of `x` and the weight of tap `i`.
pub open spec fn is_lone_sum<A: Arithmetic>(
    bank: Bank<A::Sample>,
    p: nat,
    eta: Option<A::Real>,
    x: A::Sample,
    i: nat,
    a: A::Real,
) -> bool {
    ||| gives::<A>(Formula::Count(0), a)
    ||| i < bank.tpp && gives::<A>(
        Formula::Count(0).plus(weight(bank, p, eta, i).times(Formula::Widened(x))),
        a,
    )
}

/// Silence is silent in the bank, beside a sample `x`: adding the product of a
/// weight and silence changes neither zero nor zero plus a product with `x`, and
/// zero is rounded to silence. So it is in floating point with finite taps and a
/// finite `x`.
pub open spec fn silence_adds_nothing<A: Arithmetic>(
    bank: Bank<A::Sample>,
    quiet: A::Sample,
    x: A::Sample,
) -> bool {
    &&& forall|n: nat, eta: Option<A::Real>, i: nat, j: nat, a: A::Real, s: A::Real|
        is_blend::<A>(bank, n, eta) && j < bank.tpp && #[trigger] is_lone_sum::<A>(
            bank,
            bank.phase(n),
            eta,
            x,
            i,
            a,
        ) && #[trigger] gives::<A>(
            Formula::Value(a).plus(
                weight(bank, bank.phase(n), eta, j).times(Formula::Widened(quiet)),
            ),
            s,
        ) ==> s == a
    &&& forall|z: A::Real, y: A::Sample|
        gives::<A>(Formula::Count(0), z) && #[trigger] call_ensures(A::narrow, (z,), y) ==> y
            == quiet
}

/// A sum over a window that is silent but for the sample `x` at `at` is the one
/// product with `x`, once `at` is reached.
proof fn lemma_lone_sum<A: Arithmetic>(
    bank: Bank<A::Sample>,
    n: nat,
    eta: Option<A::Real>,
    quiet: A::Sample,
    x: A::Sample,
    window: Seq<A::Sample>,
    at: nat,
    k: nat,
    acc: A::Real,
)
    requires
        silence_adds_nothing::<A>(bank, quiet, x),
        is_blend::<A>(bank, n, eta),
        k <= bank.tpp,
        window.len() == bank.tpp,
        forall|j: int| 0 <= j < window.len() ==> window[j] == if j == at {
            x
        } else {
            quiet
        },
        gives::<A>(weighted_sum(bank, bank.phase(n), eta, window, k), acc),
    ensures
        k <= at ==> gives::<A>(Formula::Count(0), acc),
        k > at ==> gives::<A>(
            Formula::Count(0).plus(
                weight(bank, bank.phase(n), eta, at).times(Formula::Widened(x)),
            ),
            acc,
        ),
    decreases k,
{
    let p = bank.phase(n);
    if k > 0 {
        let j = (k - 1) as nat;
        let prefix = weighted_sum(bank, p, eta, window, j);
        let product = weight(bank, p, eta, j).times(Formula::Widened(window[j as int]));
        assert(weighted_sum(bank, p, eta, window, k) == prefix.plus(product));
        let (a, q) = choose|a: A::Real, q: A::Real|
            gives::<A>(prefix, a) && gives::<A>(product, q) && #[trigger] combined::<A>(
                Binary::Plus,
                a,
                q,
                acc,
            );
        lemma_lone_sum::<A>(bank, n, eta, quiet, x, window, at, j, a);
        if j == at {
            assert(combined::<A>(Binary::Plus, a, q, acc));
            assert(gives::<A>(Formula::Count(0).plus(product), acc));
        } else {
            assert(gives::<A>(Formula::Value(a), a));
            assert(combined::<A>(Binary::Plus, a, q, acc));
            assert(gives::<A>(Formula::Value(a).plus(product), acc));
            assert(is_lone_sum::<A>(bank, p, eta, x, at, a));
            assert(acc == a);
        }
    }
}

/// A silent window sounds silent.
pub proof fn law_silent_window_is_silent<A: Arithmetic>(
    bank: Bank<A::Sample>,
    quiet: A::Sample,
    n: nat,
    window: Seq<A::Sample>,
    y: A::Sample,
)
    requires
        silence_adds_nothing::<A>(bank, quiet, quiet),
        window == Seq::new(bank.tpp, |j: int| quiet),
        sounds::<A>(bank, n, window, y),
    ensures
        y == quiet,
{
    let (e, v) = choose|e: Option<A::Real>, v: A::Real| #[trigger]
        sounds_by::<A>(bank, n, window, e, v, y);
    lemma_lone_sum::<A>(bank, n, e, quiet, quiet, window, bank.tpp, bank.tpp, v);
}

/// Silence after silence produces silence.
pub proof fn law_silence_in_silence_out<A: Arithmetic>(
    bank: Bank<A::Sample>,
    quiet: A::Sample,
    stream: Stream<A::Sample>,
    input: Seq<A::Sample>,
    out: Seq<A::Sample>,
)
    requires
        bank.wf(),
        silence_adds_nothing::<A>(bank, quiet, quiet),
        stream.recent.len() == bank.tpp,
        forall|i: int| 1 <= i < stream.recent.len() ==> stream.recent[i] == quiet,
        forall|i: int| 0 <= i < input.len() ==> input[i] == quiet,
        emits::<A>(bank, stream, input, out),
    ensures
        forall|i: int| 0 <= i < out.len() ==> out[i] == quiet,
{
    let first = bank.due(stream.taken);
    assert forall|i: int| 0 <= i < out.len() implies out[i] == quiet by {
        let n = (first + i) as nat;
        law_due_when_newest_arrived(bank.num, bank.den, n, stream.taken);
        law_due_when_newest_arrived(bank.num, bank.den, n, stream.taken + input.len());
        let window = stream.window(input, bank.newest(n));
        assert(window =~= Seq::new(bank.tpp, |j: int| quiet));
        law_silent_window_is_silent::<A>(bank, quiet, n, window, out[i]);
    }
}

/// The response to a single sample at the start of a stream: output `n` is the
/// one product of `x` and the weight it meets, tap `newest(n)`; past the last tap
/// it is silent.
pub proof fn law_impulse_response<A: Arithmetic>(
    bank: Bank<A::Sample>,
    quiet: A::Sample,
    x: A::Sample,
    input: Seq<A::Sample>,
    out: Seq<A::Sample>,
    n: nat,
)
    requires
        bank.wf(),
        silence_adds_nothing::<A>(bank, quiet, x),
        input.len() >= 1,
        input[0] == x,
        forall|i: int| 1 <= i < input.len() ==> input[i] == quiet,
        emits::<A>(bank, Stream::start(bank.tpp, quiet), input, out),
        n < out.len(),
    ensures
        bank.newest(n) < bank.tpp ==> exists|eta: Option<A::Real>, acc: A::Real|
            is_blend::<A>(bank, n, eta) && #[trigger] gives::<A>(
                Formula::Count(0).plus(
                    weight(bank, bank.phase(n), eta, bank.newest(n)).times(Formula::Widened(x)),
                ),
                acc,
            ) && call_ensures(A::narrow, (acc,), out[n as int]),
        bank.newest(n) >= bank.tpp ==> out[n as int] == quiet,
{
    let stream = Stream::start(bank.tpp, quiet);
    let y = out[n as int];
    lemma_due_at_start(bank.num, bank.den);
    law_due_when_newest_arrived(bank.num, bank.den, n, input.len());
    let window = stream.window(input, bank.newest(n));
    assert(sounds::<A>(bank, n, window, y));
    let (e, v) = choose|e: Option<A::Real>, v: A::Real| #[trigger]
        sounds_by::<A>(bank, n, window, e, v, y);
    let at = bank.newest(n);
    assert forall|j: int| 0 <= j < window.len() implies window[j] == if j == at {
        x
    } else {
        quiet
    } by {
        let i = bank.tpp + bank.newest(n) - j;
        assert(window[j] == (stream.recent + input)[i]);
    }
    lemma_lone_sum::<A>(bank, n, e, quiet, x, window, at, bank.tpp, v);
}

/// How a sum is accumulated, operation by operation: from zero, the product with
/// the newest sample is added first, then the one with the sample before it, and
/// so on. `partial` lists the sums on the way.
pub proof fn law_sum_is_accumulated_newest_first<A: Arithmetic>(
    bank: Bank<A::Sample>,
    p: nat,
    eta: Option<A::Real>,
    window: Seq<A::Sample>,
    k: nat,
    acc: A::Real,
)
    requires
        gives::<A>(weighted_sum(bank, p, eta, window, k), acc),
    ensures
        exists|partial: Seq<A::Real>|
            #![trigger partial.len()]
            partial.len() == k + 1 && call_ensures(A::count, (0u64,), partial[0])
                && partial[k as int] == acc && forall|j: int|
                0 <= j < k ==> is_next_sum::<A>(
                    bank,
                    p,
                    eta,
                    window[j],
                    j as nat,
                    #[trigger] partial[j],
                    partial[j + 1],
                ),
    decreases k,
{
    if k == 0 {
        let partial = seq![acc];
        assert(partial.len() == 1 && partial[0] == acc);
    } else {
        let j = (k - 1) as nat;
        let prefix = weighted_sum(bank, p, eta, window, j);
        let product = weight(bank, p, eta, j).times(Formula::Widened(window[j as int]));
        assert(weighted_sum(bank, p, eta, window, k) == prefix.plus(product));
        let (a, q) = lemma_operands::<A>(Binary::Plus, prefix, product, acc);
        let (w, x) = lemma_operands::<A>(
            Binary::Times,
            weight(bank, p, eta, j),
            Formula::Widened(window[j as int]),
            q,
        );
        law_sum_is_accumulated_newest_first::<A>(bank, p, eta, window, j, a);
        let before = choose|partial: Seq<A::Real>|
            #![trigger partial.len()]
            partial.len() == j + 1 && call_ensures(A::count, (0u64,), partial[0])
                && partial[j as int] == a && forall|i: int|
                0 <= i < j ==> is_next_sum::<A>(
                    bank,
                    p,
                    eta,
                    window[i],
                    i as nat,
                    #[trigger] partial[i],
                    partial[i + 1],
                );
        let partial = before.push(acc);
        assert(next_sum_by::<A>(bank, p, eta, window[j as int], j, a, acc, w, x, q));
        assert forall|i: int| 0 <= i < k implies is_next_sum::<A>(
            bank,
            p,
            eta,
            window[i],
            i as nat,
            #[trigger] partial[i],
            partial[i + 1],
        ) by {
            if i < j {
                assert(partial[i] == before[i] && partial[i + 1] == before[i + 1]);
            }
        }
        assert(partial.len() == k + 1);
    }
}

/// An output is its sum, accumulated in working precision and rounded once.
pub proof fn law_output_is_rounded_once<A: Arithmetic>(
    bank: Bank<A::Sample>,
    stream: Stream<A::Sample>,
    input: Seq<A::Sample>,
    out: Seq<A::Sample>,
    i: int,
) -> (steps: (Option<A::Real>, A::Real))
    requires
        emits::<A>(bank, stream, input, out),
        0 <= i < out.len(),
    ensures
        ({
            let (eta, acc) = steps;
            let n = (bank.due(stream.taken) + i) as nat;
            &&& eta is Some <==> bank.interpolates
            &&& gives::<A>(
                weighted_sum(
                    bank,
                    bank.phase(n),
                    eta,
                    stream.window(input, bank.newest(n)),
                    bank.tpp,
                ),
                acc,
            )
            &&& call_ensures(A::narrow, (acc,), out[i])
        }),
{
    let n = (bank.due(stream.taken) + i) as nat;
    let window = stream.window(input, bank.newest(n));
    assert(sounds::<A>(bank, n, window, out[i]));
    choose|eta: Option<A::Real>, acc: A::Real| #[trigger]
        sounds_by::<A>(bank, n, window, eta, acc, out[i])
}

/// `after` is `before` plus the product `q` of the weight `w` and the sample `s`,
/// `x` in working precision.
pub open spec fn next_sum_by<A: Arithmetic>(
    bank: Bank<A::Sample>,
    p: nat,
    eta: Option<A::Real>,
    s: A::Sample,
    j: nat,
    before: A::Real,
    after: A::Real,
    w: A::Real,
    x: A::Real,
    q: A::Real,
) -> bool {
    &&& gives::<A>(weight(bank, p, eta, j), w)
    &&& call_ensures(A::widen, (s,), x)
    &&& call_ensures(A::times, (w, x), q)
    &&& call_ensures(A::plus, (before, q), after)
}

/// `after` is `before` plus the product of the weight of tap `j` and the sample
/// `s`.
pub open spec fn is_next_sum<A: Arithmetic>(
    bank: Bank<A::Sample>,
    p: nat,
    eta: Option<A::Real>,
    s: A::Sample,
    j: nat,
    before: A::Real,
    after: A::Real,
) -> bool {
    exists|w: A::Real, x: A::Real, q: A::Real| #[trigger]
        next_sum_by::<A>(bank, p, eta, s, j, before, after, w, x, q)
}

/// How a blended weight is computed, operation by operation: the difference to the
/// next tap, times the factor, added to the tap.
pub proof fn law_weight_steps<A: Arithmetic>(
    bank: Bank<A::Sample>,
    p: nat,
    eta: A::Real,
    j: nat,
    w: A::Real,
) -> (steps: (A::Real, A::Real, A::Real, A::Real, A::Real))
    requires
        gives::<A>(weight(bank, p, Some(eta), j), w),
        p < bank.phases,
        j < bank.tpp,
    ensures
        ({
            let (here, after, same, difference, step) = steps;
            let i = (p * bank.tpp + j) as int;
            &&& call_ensures(A::widen, (bank.table[i],), here)
            &&& call_ensures(A::widen, (bank.table[i],), same)
            &&& p + 1 < bank.phases ==> call_ensures(A::widen, (bank.table[i + bank.tpp],), after)
            &&& p + 1 == bank.phases && j + 1 < bank.tpp ==> call_ensures(
                A::widen,
                (bank.table[(j + 1) as int],),
                after,
            )
            &&& p + 1 == bank.phases && j + 1 == bank.tpp ==> call_ensures(
                A::count,
                (0u64,),
                after,
            )
            &&& call_ensures(A::minus, (after, same), difference)
            &&& call_ensures(A::times, (eta, difference), step)
            &&& call_ensures(A::plus, (here, step), w)
        }),
{
    let a = Formula::Widened(bank.tap(p, j));
    let b = match bank.next_tap(p, j) {
        Some(s) => Formula::Widened(s),
        None => Formula::Count(0),
    };
    assert((p + 1) * bank.tpp == p * bank.tpp + bank.tpp) by (nonlinear_arith);
    assert(0 * bank.tpp == 0) by (nonlinear_arith);
    let (here, step) = lemma_operands::<A>(
        Binary::Plus,
        a,
        Formula::Value(eta).times(b.minus(a)),
        w,
    );
    let (factor, difference) = lemma_operands::<A>(
        Binary::Times,
        Formula::Value(eta),
        b.minus(a),
        step,
    );
    let (after, same) = lemma_operands::<A>(Binary::Minus, b, a, difference);
    (here, after, same, difference, step)
}

}
