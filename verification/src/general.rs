//! Arbitrary-ratio engine.

use crate::arithmetic::{gives, Arithmetic, Term};
use crate::history::History;
use crate::kernel::{build_oversampled_prototype, general_band, DESIGN_STOPBAND_DB};
use crate::schedule::{
    law_accumulator_is_closed_form, law_due_when_newest_arrived, lemma_due_at_start,
    lemma_newest_monotone, position_fits,
};
use crate::stream::{
    emits, is_blend, law_empty_chunk, lemma_awaited, lemma_extend, lemma_phase_in_bank, sounds,
    sounds_by, weight, weighted_sum, Bank, Stream,
};
use crate::table::{
    is_table, law_nearest_ratio_is_nearest, law_taps_per_phase, lemma_nearest_ratio, nearest_ratio,
    phase_table, table_by, taps_per_phase,
};
use vstd::prelude::*;

verus! {

/// Phases the engine oversamples its prototype to.
pub const GENERAL_PHASES: u32 = 512;

/// The group delay of a prototype of `n` taps in output samples: half its
/// length in input samples, `(n - 1) / (2 * phases)`, at the output rate,
/// rounded to the nearest integer.
pub open spec fn general_delay(n: nat, in_rate: nat, out_rate: nat) -> nat {
    nearest_ratio(((n - 1) * out_rate) as nat, 2 * GENERAL_PHASES as nat * in_rate)
}

/// The delay is the output nearest to the center of the prototype: it is off by at
/// most half an output step, `in_rate / out_rate` input samples of `512`
/// coefficients each.
pub proof fn law_general_delay_is_nearest(n: nat, in_rate: nat, out_rate: nat)
    requires
        n >= 1,
        in_rate > 0,
    ensures
        -(512 * in_rate) <= general_delay(n, in_rate, out_rate) * (1024 * in_rate) - (n - 1)
            * out_rate <= 512 * in_rate,
        (n - 1) * out_rate < (1024 * in_rate) * usize::MAX ==> general_delay(n, in_rate, out_rate)
            <= usize::MAX,
{
    let a = ((n - 1) * out_rate) as nat;
    let b = 2 * GENERAL_PHASES as nat * in_rate;
    assert((n - 1) * out_rate >= 0) by (nonlinear_arith)
        requires
            n >= 1,
    ;
    assert(b == 1024 * in_rate) by (nonlinear_arith)
        requires
            b == 2 * GENERAL_PHASES as nat * in_rate,
            GENERAL_PHASES == 512,
    ;
    let d = general_delay(n, in_rate, out_rate);
    law_nearest_ratio_is_nearest(a, b);
    if a < b * usize::MAX {
        assert(d <= usize::MAX) by (nonlinear_arith)
            requires
                2 * (d * b - a) <= b,
                a < b * usize::MAX,
                b > 0,
        ;
    }
}

/// Arbitrary-ratio engine: an oversampled prototype in a fixed number of
/// phases, an exact-rational fixed-point phase accumulator, and linear
/// interpolation between adjacent phases.
pub struct GeneralEngine<A: Arithmetic> {
    in_rate: u64,
    out_rate: u64,
    phases: usize,
    tpp: usize,
    table: Vec<A::Sample>,
    history: History<A::Sample>,
    silence: A::Sample,
    /// Absolute input index of the newest tap the next output needs.
    input_base: u64,
    /// Sub-sample position numerator over `out_rate`, in `0..out_rate`.
    rem: u64,
    next_in: u64,
    latency: usize,
}

impl<A: Arithmetic> GeneralEngine<A> {
    /// The filter bank and its ratio, fixed for the life of the engine.
    pub closed spec fn bank(self) -> Bank<A::Sample> {
        Bank {
            num: self.in_rate as nat,
            den: self.out_rate as nat,
            phases: self.phases as nat,
            tpp: self.tpp as nat,
            table: self.table@,
            interpolates: true,
        }
    }

    /// The streaming state.
    pub closed spec fn stream(self) -> Stream<A::Sample> {
        Stream { taken: self.next_in as nat, recent: self.history@ }
    }

    /// The sample that stands for silence.
    pub closed spec fn quiet(self) -> A::Sample {
        self.silence
    }

    /// The reported latency.
    pub closed spec fn delay(self) -> usize {
        self.latency
    }

    /// Everything the engine keeps from construction on.
    pub open spec fn same_filter(self, other: Self) -> bool {
        &&& self.bank() == other.bank()
        &&& self.quiet() == other.quiet()
        &&& self.delay() == other.delay()
    }

    /// The parts of the engine fit together.
    spec fn shaped(self) -> bool {
        &&& self.bank().wf()
        &&& self.in_rate <= u32::MAX
        &&& self.out_rate <= u32::MAX
        &&& self.phases <= u32::MAX
        &&& self.history.wf()
        &&& self.history@.len() == self.tpp
    }

    /// The phase accumulator stands at output `n`.
    spec fn at(self, n: nat) -> bool {
        &&& self.input_base == self.bank().newest(n)
        &&& self.rem == self.bank().position(n)
    }

    pub closed spec fn wf(self) -> bool {
        &&& self.shaped()
        &&& self.at(self.bank().due(self.stream().taken))
    }

    /// Whether the input positions of the stream still fit their counters after
    /// `extra` more samples.
    pub open spec fn has_room(self, extra: nat) -> bool {
        self.bank().awaited(self.stream().taken + extra) <= u64::MAX
    }

    /// Builds the engine for a rate pair, with a prototype of `n` taps.
    pub fn new(in_rate: u32, out_rate: u32, n: usize) -> (r: Self)
        requires
            in_rate >= 1,
            out_rate >= 1,
            n >= 1,
            n + GENERAL_PHASES <= usize::MAX,
        ensures
            r.wf(),
            r.bank().wf(),
            r.bank().num == in_rate,
            r.bank().den == out_rate,
            r.bank().phases == GENERAL_PHASES,
            r.bank().tpp == taps_per_phase(n as nat, GENERAL_PHASES as nat),
            r.bank().interpolates,
            call_ensures(A::silence, (), r.quiet()),
            is_table::<A>(
                general_band(in_rate, out_rate, GENERAL_PHASES, DESIGN_STOPBAND_DB),
                n as nat,
                GENERAL_PHASES as nat,
                r.quiet(),
                r.bank().table,
            ),
            r.stream() == Stream::start(r.bank().tpp, r.quiet()),
            r.delay() == general_delay(n as nat, in_rate as nat, out_rate as nat) as usize,
            (n - 1) * out_rate < (1024 * in_rate) * usize::MAX ==> -(512 * in_rate) <= r.delay() * (
            1024 * in_rate) - (n - 1) * out_rate <= 512 * in_rate,
    {
        let coeffs = build_oversampled_prototype::<A>(
            in_rate,
            out_rate,
            GENERAL_PHASES,
            n,
            DESIGN_STOPBAND_DB,
        );
        let phases: usize = GENERAL_PHASES as usize;
        let tpp: usize = (n - 1) / phases + 1;
        proof {
            law_taps_per_phase(n as nat, phases as nat);
        }
        let silence = A::silence();
        let table = phase_table::<A>(&coeffs, phases, tpp, silence);
        assert(table_by::<A>(
            general_band(in_rate, out_rate, GENERAL_PHASES, DESIGN_STOPBAND_DB),
            n as nat,
            phases as nat,
            silence,
            coeffs@,
            table@,
        ));
        // Impulse response peak (group delay) at output index
        // round((N-1) * out / (2 * phases * in)), since the response peaks at its
        // center, (N-1)/(2*phases) input samples.
        let span: u128 = 2 * GENERAL_PHASES as u128;
        proof {
            assert(0 <= (n - 1) * out_rate <= 0xffff_ffff_ffff_ffff * 0xffff_ffff)
                by (nonlinear_arith)
                requires
                    1 <= n <= 0xffff_ffff_ffff_ffff,
                    0 <= out_rate <= 0xffff_ffff,
            ;
            assert(span * in_rate == 1024 * in_rate) by (nonlinear_arith)
                requires
                    span == 1024,
            ;
        }
        let num: u128 = (n as u128 - 1) * out_rate as u128;
        let den: u128 = span * in_rate as u128;
        let delay: u128 = (num + den / 2) / den;
        proof {
            lemma_nearest_ratio(num as nat, den as nat);
            law_general_delay_is_nearest(n as nat, in_rate as nat, out_rate as nat);
            lemma_due_at_start(in_rate as nat, out_rate as nat);
        }
        GeneralEngine {
            in_rate: in_rate as u64,
            out_rate: out_rate as u64,
            phases,
            tpp,
            table,
            history: History::new(tpp, silence),
            silence,
            input_base: 0,
            rem: 0,
            next_in: 0,
            latency: delay as usize,
        }
    }

    /// The weight of tap `j`: from the tap of the phase towards the tap of the
    /// next phase. The top phase wraps to phase 0 of the next input sample, and
    /// past the last tap there is zero.
    fn coefficient(&self, phase: usize, eta: A::Real, j: usize) -> (w: Term<A>)
        requires
            self.shaped(),
            phase < self.phases,
            j < self.tpp,
        ensures
            w.formula() == weight::<A::Real, A::Sample>(
                self.bank(),
                phase as nat,
                Some(eta),
                j as nat,
            ),
    {
        proof {
            let p = phase as int;
            let t = self.tpp as int;
            assert(0 <= p * t && p * t + t <= self.table@.len()) by (nonlinear_arith)
                requires
                    0 <= p < self.phases,
                    t == self.tpp,
                    self.table@.len() == self.phases * self.tpp,
            ;
            assert((p + 1) * t == p * t + t) by (nonlinear_arith);
            assert(p + 1 < self.phases ==> (p + 1) * t + t <= self.table@.len())
                by (nonlinear_arith)
                requires
                    0 <= p < self.phases,
                    t == self.tpp,
                    self.table@.len() == self.phases * self.tpp,
            ;
            assert(self.table@.len() == self.table.len());
            assert(0 * t == 0);
        }
        let at: usize = phase * self.tpp + j;
        let s = self.table[at];
        let b = if phase + 1 < self.phases {
            Term::<A>::widen(self.table[at + self.tpp])
        } else if j + 1 < self.tpp {
            Term::<A>::widen(self.table[j + 1])
        } else {
            Term::<A>::count(0)
        };
        Term::<A>::widen(s).plus(Term::<A>::of(eta).times(b.minus(Term::<A>::widen(s))))
    }

    /// The output at `phase`, blended by `eta`, over the current history: the
    /// weights against the samples from the newest back, accumulated in that
    /// order.
    fn compute_output(&self, phase: usize, eta: A::Real) -> (y: A::Sample)
        requires
            self.shaped(),
            phase < self.phases,
        ensures
            exists|acc: A::Real|
                gives::<A>(
                    weighted_sum(
                        self.bank(),
                        phase as nat,
                        Some(eta),
                        self.history@.reverse(),
                        self.tpp as nat,
                    ),
                    acc,
                ) && #[trigger] call_ensures(A::narrow, (acc,), y),
            forall|n: nat|
                self.bank().phase(n) == phase && is_blend::<A>(self.bank(), n, Some(eta))
                    ==> #[trigger] sounds::<A>(self.bank(), n, self.history@.reverse(), y),
    {
        let ghost bank = self.bank();
        let ghost p = phase as nat;
        let ghost window = self.history@.reverse();
        let mut acc = Term::<A>::count(0);
        let mut j: usize = 0;
        while j < self.tpp
            invariant
                j <= self.tpp,
                self.shaped(),
                phase < self.phases,
                p == phase,
                bank == self.bank(),
                window == self.history@.reverse(),
                acc.formula() == weighted_sum::<A::Real, A::Sample>(
                    bank,
                    p,
                    Some(eta),
                    window,
                    j as nat,
                ),
            decreases self.tpp - j,
        {
            let w = self.coefficient(phase, eta, j);
            let x = Term::<A>::widen(self.history.back(j));
            acc = acc.plus(w.times(x));
            j += 1;
        }
        let sum = acc.value();
        let y = A::narrow(sum);
        proof {
            assert forall|n: nat|
                bank.phase(n) == p && is_blend::<A>(bank, n, Some(eta)) implies #[trigger] sounds::<
                A,
            >(bank, n, window, y) by {
                assert(sounds_by::<A>(bank, n, window, Some(eta), sum, y));
            }
        }
        y
    }

    /// Takes one sample and appends every output it completes.
    fn push_and_drain(&mut self, sample: A::Sample, output: &mut Vec<A::Sample>)
        requires
            old(self).wf(),
            old(self).has_room(1),
        ensures
            final(self).wf(),
            final(self).same_filter(*old(self)),
            final(self).stream() == old(self).stream().fed(seq![sample]),
            final(output)@.len() >= old(output)@.len(),
            final(output)@.take(old(output)@.len() as int) == old(output)@,
            emits::<A>(
                old(self).bank(),
                old(self).stream(),
                seq![sample],
                final(output)@.skip(old(output)@.len() as int),
            ),
    {
        let ghost bank = self.bank();
        let ghost stream = self.stream();
        let ghost t = self.next_in as nat;
        let ghost first = bank.due(t);
        let ghost last = bank.due(t + 1);
        let ghost old_len = output@.len() as int;
        let ghost mut n = first;
        let ghost window = stream.window(seq![sample], t);
        proof {
            lemma_awaited(bank, t, t + 1);
            lemma_awaited(bank, t + 1, t + 1);
        }
        self.history.push(sample);
        let idx = self.next_in;
        self.next_in = self.next_in + 1;
        proof {
            assert(self.history@ =~= stream.fed(seq![sample]).recent);
            assert(self.history@.reverse() =~= window);
        }
        while self.input_base == idx
            invariant
                idx == t,
                self.next_in == t + 1,
                self.shaped(),
                self.bank() == bank,
                self.quiet() == old(self).quiet(),
                self.delay() == old(self).delay(),
                self.history@ == stream.fed(seq![sample]).recent,
                self.history@.reverse() == window,
                window == stream.window(seq![sample], t),
                bank.wf(),
                first == bank.due(t),
                last == bank.due(t + 1),
                first <= n <= last,
                bank.newest(last) <= u64::MAX,
                self.at(n),
                old_len == old(output)@.len(),
                output@.len() == old_len + n - first,
                output@.take(old_len) == old(output)@,
                forall|i: int|
                    0 <= i < n - first ==> #[trigger] sounds::<A>(
                        bank,
                        (first + i) as nat,
                        window,
                        output@[old_len + i],
                    ) && bank.newest((first + i) as nat) == t,
            decreases last - n,
        {
            proof {
                law_due_when_newest_arrived(bank.num, bank.den, n, t + 1);
                lemma_newest_monotone(bank.num, bank.den, n + 1, last);
                law_accumulator_is_closed_form(bank.num, bank.den, n);
                lemma_phase_in_bank(bank, n);
                assert(0 <= self.rem * self.phases <= u32::MAX * u32::MAX) by (nonlinear_arith)
                    requires
                        0 <= self.rem <= u32::MAX,
                        0 <= self.phases <= u32::MAX,
                ;
            }
            // Sub-sample position from the current remainder, by exact integer
            // math: phase = floor(rem*P / out), eta = (rem*P mod out) / out.
            let rp: u64 = self.rem * self.phases as u64;
            let phase: usize = (rp / self.out_rate) as usize;
            let eta = Term::<A>::fraction(rp % self.out_rate, self.out_rate).value();
            assert(is_blend::<A>(bank, n, Some(eta)));
            let y = self.compute_output(phase, eta);
            let ghost before = output@;
            output.push(y);
            // Advance the input position by exactly in/out.
            let r: u64 = self.rem + self.in_rate;
            self.input_base = self.input_base + r / self.out_rate;
            self.rem = r % self.out_rate;
            proof {
                assert(output@.take(old_len) =~= before.take(old_len));
                assert forall|i: int| 0 <= i < n + 1 - first implies #[trigger] sounds::<A>(
                    bank,
                    (first + i) as nat,
                    window,
                    output@[old_len + i],
                ) && bank.newest((first + i) as nat) == t by {
                    if i < n - first {
                        assert(output@[old_len + i] == before[old_len + i]);
                        assert(sounds::<A>(
                            bank,
                            (first + i) as nat,
                            window,
                            before[old_len + i],
                        ));
                    }
                }
                n = n + 1;
            }
        }
        proof {
            law_due_when_newest_arrived(bank.num, bank.den, n, t);
            law_due_when_newest_arrived(bank.num, bank.den, n, t + 1);
            assert(n == last);
            let out = output@.skip(old_len);
            assert forall|i: int| 0 <= i < out.len() implies sounds::<A>(
                bank,
                (first + i) as nat,
                stream.window(seq![sample], bank.newest((first + i) as nat)),
                #[trigger] out[i],
            ) by {
                assert(out[i] == output@[old_len + i]);
                assert(sounds::<A>(bank, (first + i) as nat, window, output@[old_len + i]));
            }
        }
    }

    /// Whether the stream has room for `extra` more samples.
    pub fn room_for(&self, extra: usize) -> (fits: bool)
        requires
            self.wf(),
        ensures
            fits == self.has_room(extra as nat),
    {
        position_fits(self.in_rate, self.out_rate, self.next_in, extra as u64)
    }

    /// Taps per phase.
    pub fn tpp(&self) -> (n: usize)
        requires
            self.wf(),
        ensures
            n == self.bank().tpp,
            n >= 1,
    {
        self.tpp
    }

    /// The phase table: phase `p`, tap `j` at index `p * tpp + j`.
    pub fn table(&self) -> (t: &Vec<A::Sample>)
        requires
            self.wf(),
        ensures
            t@ == self.bank().table,
    {
        &self.table
    }

    /// The ring of recent samples, starting at some slot and wrapping around.
    pub fn ring(&self) -> (r: &Vec<A::Sample>)
        requires
            self.wf(),
        ensures
            exists|c: int|
                0 <= c <= r@.len() && self.stream().recent == #[trigger] r@.skip(c) + r@.take(c),
    {
        self.history.ring()
    }

    /// The latency in output samples.
    pub fn latency(&self) -> (n: usize)
        ensures
            n == self.delay(),
    {
        self.latency
    }

    /// Resamples `input` and appends the produced samples to `output`.
    pub fn process(&mut self, input: &[A::Sample], output: &mut Vec<A::Sample>)
        requires
            old(self).wf(),
            old(self).has_room(input@.len()),
        ensures
            final(self).wf(),
            final(self).same_filter(*old(self)),
            final(self).stream() == old(self).stream().fed(input@),
            final(output)@.len() >= old(output)@.len(),
            final(output)@.take(old(output)@.len() as int) == old(output)@,
            emits::<A>(
                old(self).bank(),
                old(self).stream(),
                input@,
                final(output)@.skip(old(output)@.len() as int),
            ),
    {
        let ghost bank = self.bank();
        let ghost stream = self.stream();
        let ghost start = output@.len() as int;
        let mut i: usize = 0;
        proof {
            law_empty_chunk::<A>(bank, stream, output@.skip(start));
            assert(output@.skip(start) =~= Seq::empty());
            assert(input@.take(0) =~= Seq::empty());
            assert(output@.take(start) =~= output@);
        }
        while i < input.len()
            invariant
                i <= input@.len(),
                self.wf(),
                self.same_filter(*old(self)),
                bank == old(self).bank(),
                stream == old(self).stream(),
                bank.wf(),
                stream.recent.len() == bank.tpp,
                self.stream() == stream.fed(input@.take(i as int)),
                bank.awaited(stream.taken + input@.len()) <= u64::MAX,
                start == old(output)@.len(),
                start <= output@.len(),
                output@.take(start) == old(output)@,
                emits::<A>(bank, stream, input@.take(i as int), output@.skip(start)),
            decreases input@.len() - i,
        {
            let ghost before = output@;
            proof {
                lemma_awaited(bank, (stream.taken + i + 1) as nat, stream.taken + input@.len());
            }
            self.push_and_drain(input[i], output);
            proof {
                lemma_extend::<A>(
                    bank,
                    stream,
                    input@.take(i as int),
                    input@[i as int],
                    before,
                    output@,
                    start,
                );
                assert(input@.take(i as int).push(input@[i as int]) =~= input@.take(i + 1));
            }
            i += 1;
        }
        assert(input@.take(i as int) =~= input@);
    }

    /// The silence that [`flush`](GeneralEngine::flush) feeds: enough for the
    /// newest input to leave the window.
    pub open spec fn tail(self) -> Seq<A::Sample> {
        Seq::new((self.bank().tpp - 1) as nat, |i: int| self.quiet())
    }

    /// Drains the end-of-stream tail into `output`.
    pub fn flush(&mut self, output: &mut Vec<A::Sample>)
        requires
            old(self).wf(),
            old(self).has_room(old(self).tail().len()),
        ensures
            final(self).wf(),
            final(self).same_filter(*old(self)),
            final(self).stream() == old(self).stream().fed(old(self).tail()),
            final(output)@.len() >= old(output)@.len(),
            final(output)@.take(old(output)@.len() as int) == old(output)@,
            emits::<A>(
                old(self).bank(),
                old(self).stream(),
                old(self).tail(),
                final(output)@.skip(old(output)@.len() as int),
            ),
    {
        let ghost bank = self.bank();
        let ghost stream = self.stream();
        let ghost tail = self.tail();
        let ghost start = output@.len() as int;
        let mut i: usize = 0;
        proof {
            law_empty_chunk::<A>(bank, stream, output@.skip(start));
            assert(output@.skip(start) =~= Seq::empty());
            assert(tail.take(0) =~= Seq::empty());
            assert(output@.take(start) =~= output@);
        }
        while i < self.tpp - 1
            invariant
                i <= tail.len(),
                tail.len() == self.tpp - 1,
                tail == old(self).tail(),
                self.wf(),
                self.same_filter(*old(self)),
                bank == old(self).bank(),
                stream == old(self).stream(),
                bank.wf(),
                stream.recent.len() == bank.tpp,
                self.stream() == stream.fed(tail.take(i as int)),
                bank.awaited(stream.taken + tail.len()) <= u64::MAX,
                start == old(output)@.len(),
                start <= output@.len(),
                output@.take(start) == old(output)@,
                emits::<A>(bank, stream, tail.take(i as int), output@.skip(start)),
            decreases tail.len() - i,
        {
            let ghost before = output@;
            proof {
                lemma_awaited(bank, (stream.taken + i + 1) as nat, stream.taken + tail.len());
            }
            let silence = self.silence;
            self.push_and_drain(silence, output);
            proof {
                lemma_extend::<A>(
                    bank,
                    stream,
                    tail.take(i as int),
                    silence,
                    before,
                    output@,
                    start,
                );
                assert(tail.take(i as int).push(silence) =~= tail.take(i + 1));
            }
            i += 1;
        }
        assert(tail.take(i as int) =~= tail);
    }

    /// Clears the streaming state, in place.
    pub fn reset(&mut self)
        requires
            old(self).wf(),
        ensures
            final(self).wf(),
            final(self).same_filter(*old(self)),
            final(self).stream() == Stream::start(old(self).bank().tpp, old(self).quiet()),
    {
        let silence = self.silence;
        self.history.clear(silence);
        self.rem = 0;
        self.input_base = 0;
        self.next_in = 0;
        proof {
            lemma_due_at_start(self.bank().num, self.bank().den);
        }
    }
}

}
