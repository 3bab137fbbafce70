//! Exact rational engine.

use crate::arithmetic::{gives, Arithmetic, Term};
use crate::history::History;
use crate::kernel::{build_prototype, exact_band, DESIGN_STOPBAND_DB};
use crate::schedule::{
    law_accumulator_is_closed_form, law_due_when_newest_arrived, lemma_due_at_start,
    lemma_newest_monotone, position_fits,
};
use crate::stream::{
    emits, law_empty_chunk, lemma_awaited, lemma_extend, sounds, sounds_by, weighted_sum,
    Bank, Stream,
};
use crate::table::{is_table, law_taps_per_phase, phase_table, table_by, taps_per_phase};
use vstd::prelude::*;

verus! {

/// Exact rational `L/M` polyphase engine: `L` phases, `M` decimation, exact
/// integer phase stepping, no interpolation.
pub struct ExactEngine<A: Arithmetic> {
    l: usize,
    m: usize,
    tpp: usize,
    table: Vec<A::Sample>,
    history: History<A::Sample>,
    silence: A::Sample,
    phase: usize,
    input_base: u64,
    next_in: u64,
    latency: usize,
}

impl<A: Arithmetic> ExactEngine<A> {
    /// The filter bank and its ratio, fixed for the life of the engine.
    pub closed spec fn bank(self) -> Bank<A::Sample> {
        Bank {
            num: self.m as nat,
            den: self.l as nat,
            phases: self.l as nat,
            tpp: self.tpp as nat,
            table: self.table@,
            interpolates: false,
        }
    }

    /// The streaming state.
    pub closed spec fn stream(self) -> Stream<A::Sample> {
        Stream { taken: self.next_in as nat, recent: self.history@ }
    }

    /// The sample that stands for silence.
    pub closed spec fn quiet(self) -> A::Sample {
        self.silence
    }

    /// The reported latency.
    pub closed spec fn delay(self) -> usize {
        self.latency
    }

    /// Everything the engine keeps from construction on.
    pub open spec fn same_filter(self, other: Self) -> bool {
        &&& self.bank() == other.bank()
        &&& self.quiet() == other.quiet()
        &&& self.delay() == other.delay()
    }

    /// The parts of the engine fit together.
    spec fn shaped(self) -> bool {
        &&& self.bank().wf()
        &&& self.l <= u32::MAX
        &&& self.m <= u32::MAX
        &&& self.history.wf()
        &&& self.history@.len() == self.tpp
    }

    /// The phase accumulator stands at output `n`.
    spec fn at(self, n: nat) -> bool {
        &&& self.input_base == self.bank().newest(n)
        &&& self.phase == self.bank().position(n)
    }

    pub closed spec fn wf(self) -> bool {
        &&& self.shaped()
        &&& self.at(self.bank().due(self.stream().taken))
    }

    /// Whether the input positions of the stream still fit their counters after
    /// `extra` more samples.
    pub open spec fn has_room(self, extra: nat) -> bool {
        self.bank().awaited(self.stream().taken + extra) <= u64::MAX
    }

    /// Builds the engine for a rate pair whose ratio `out / in` is `l / m`, with a
    /// prototype of `n` taps.
    pub fn new(in_rate: u32, out_rate: u32, l: u32, m: u32, n: usize) -> (r: Self)
        requires
            l >= 1,
            m >= 1,
            n >= 1,
            (n - 1) % (2 * m as int) == 0,
            n + l <= usize::MAX,
        ensures
            r.wf(),
            r.bank().wf(),
            r.bank().num == m,
            r.bank().den == l,
            r.bank().phases == l,
            r.bank().tpp == taps_per_phase(n as nat, l as nat),
            !r.bank().interpolates,
            call_ensures(A::silence, (), r.quiet()),
            is_table::<A>(
                exact_band(in_rate, out_rate, m, DESIGN_STOPBAND_DB),
                n as nat,
                l as nat,
                r.quiet(),
                r.bank().table,
            ),
            r.stream() == Stream::start(r.bank().tpp, r.quiet()),
            r.delay() * (2 * m) == n - 1,
    {
        let proto = build_prototype::<A>(in_rate, out_rate, m, n, DESIGN_STOPBAND_DB);
        let phases: usize = l as usize;
        let tpp: usize = (n - 1) / phases + 1;
        proof {
            law_taps_per_phase(n as nat, l as nat);
        }
        let silence = A::silence();
        let table = phase_table::<A>(&proto.coeffs, phases, tpp, silence);
        assert(table_by::<A>(
            exact_band(in_rate, out_rate, m, DESIGN_STOPBAND_DB),
            n as nat,
            l as nat,
            silence,
            proto.coeffs@,
            table@,
        ));
        proof {
            lemma_due_at_start(m as nat, l as nat);
        }
        ExactEngine {
            l: phases,
            m: m as usize,
            tpp,
            table,
            history: History::new(tpp, silence),
            silence,
            phase: 0,
            input_base: 0,
            next_in: 0,
            latency: proto.group_delay_out,
        }
    }

    /// The output at the current phase over the current history: the taps of
    /// the phase against the samples from the newest back, accumulated in that
    /// order.
    fn compute_output(&self) -> (y: A::Sample)
        requires
            self.shaped(),
            self.phase < self.l,
        ensures
            exists|acc: A::Real|
                gives::<A>(
                    weighted_sum::<A::Real, A::Sample>(
                        self.bank(),
                        self.phase as nat,
                        None,
                        self.history@.reverse(),
                        self.tpp as nat,
                    ),
                    acc,
                ) && #[trigger] call_ensures(A::narrow, (acc,), y),
            forall|n: nat|
                self.bank().position(n) == self.phase ==> #[trigger] sounds::<A>(
                    self.bank(),
                    n,
                    self.history@.reverse(),
                    y,
                ),
    {
        let ghost bank = self.bank();
        let ghost p = self.phase as nat;
        let ghost window = self.history@.reverse();
        proof {
            assert(0 <= self.phase * self.tpp && self.phase * self.tpp + self.tpp
                <= self.table@.len()) by (nonlinear_arith)
                requires
                    self.phase < self.l,
                    self.table@.len() == self.l * self.tpp,
            ;
            assert(self.table@.len() == self.table.len());
        }
        let base: usize = self.phase * self.tpp;
        let mut acc = Term::<A>::count(0);
        let mut j: usize = 0;
        while j < self.tpp
            invariant
                j <= self.tpp,
                self.shaped(),
                bank == self.bank(),
                window == self.history@.reverse(),
                base == p * self.tpp,
                base + self.tpp <= self.table@.len() <= usize::MAX,
                acc.formula() == weighted_sum::<A::Real, A::Sample>(
                    bank,
                    p,
                    None,
                    window,
                    j as nat,
                ),
            decreases self.tpp - j,
        {
            let tap = Term::<A>::widen(self.table[base + j]);
            let x = Term::<A>::widen(self.history.back(j));
            acc = acc.plus(tap.times(x));
            j += 1;
        }
        let sum = acc.value();
        let y = A::narrow(sum);
        proof {
            assert forall|n: nat| bank.position(n) == p implies #[trigger] sounds::<A>(
                bank,
                n,
                window,
                y,
            ) by {
                assert(sounds_by::<A>(bank, n, window, None, sum, y));
            }
        }
        y
    }

    /// Takes one sample and appends every output it completes.
    fn push_and_drain(&mut self, sample: A::Sample, output: &mut Vec<A::Sample>)
        requires
            old(self).wf(),
            old(self).has_room(1),
        ensures
            final(self).wf(),
            final(self).same_filter(*old(self)),
            final(self).stream() == old(self).stream().fed(seq![sample]),
            final(output)@.len() >= old(output)@.len(),
            final(output)@.take(old(output)@.len() as int) == old(output)@,
            emits::<A>(
                old(self).bank(),
                old(self).stream(),
                seq![sample],
                final(output)@.skip(old(output)@.len() as int),
            ),
    {
        let ghost bank = self.bank();
        let ghost stream = self.stream();
        let ghost t = self.next_in as nat;
        let ghost first = bank.due(t);
        let ghost last = bank.due(t + 1);
        let ghost old_len = output@.len() as int;
        let ghost mut n = first;
        let ghost window = stream.window(seq![sample], t);
        proof {
            lemma_awaited(bank, t, t + 1);
            lemma_awaited(bank, t + 1, t + 1);
        }
        self.history.push(sample);
        let idx = self.next_in;
        self.next_in = self.next_in + 1;
        proof {
            assert(self.history@ =~= stream.fed(seq![sample]).recent);
            assert(self.history@.reverse() =~= window);
        }
        while self.input_base == idx
            invariant
                idx == t,
                self.next_in == t + 1,
                self.shaped(),
                self.bank() == bank,
                self.quiet() == old(self).quiet(),
                self.delay() == old(self).delay(),
                self.history@ == stream.fed(seq![sample]).recent,
                self.history@.reverse() == window,
                window == stream.window(seq![sample], t),
                bank.wf(),
                first == bank.due(t),
                last == bank.due(t + 1),
                first <= n <= last,
                bank.newest(last) <= u64::MAX,
                self.at(n),
                old_len == old(output)@.len(),
                output@.len() == old_len + n - first,
                output@.take(old_len) == old(output)@,
                forall|i: int|
                    0 <= i < n - first ==> #[trigger] sounds::<A>(
                        bank,
                        (first + i) as nat,
                        window,
                        output@[old_len + i],
                    ) && bank.newest((first + i) as nat) == t,
            decreases last - n,
        {
            proof {
                law_due_when_newest_arrived(bank.num, bank.den, n, t + 1);
                lemma_newest_monotone(bank.num, bank.den, n + 1, last);
                law_accumulator_is_closed_form(bank.num, bank.den, n);
            }
            let y = self.compute_output();
            let ghost before = output@;
            output.push(y);
            let p: u64 = self.phase as u64 + self.m as u64;
            self.input_base = self.input_base + p / self.l as u64;
            self.phase = (p % self.l as u64) as usize;
            proof {
                assert(output@.take(old_len) =~= before.take(old_len));
                assert forall|i: int| 0 <= i < n + 1 - first implies #[trigger] sounds::<A>(
                    bank,
                    (first + i) as nat,
                    window,
                    output@[old_len + i],
                ) && bank.newest((first + i) as nat) == t by {
                    if i < n - first {
                        assert(output@[old_len + i] == before[old_len + i]);
                        assert(sounds::<A>(
                            bank,
                            (first + i) as nat,
                            window,
                            before[old_len + i],
                        ));
                    }
                }
                n = n + 1;
            }
        }
        proof {
            law_due_when_newest_arrived(bank.num, bank.den, n, t);
            law_due_when_newest_arrived(bank.num, bank.den, n, t + 1);
            assert(n == last);
            let out = output@.skip(old_len);
            assert forall|i: int| 0 <= i < out.len() implies sounds::<A>(
                bank,
                (first + i) as nat,
                stream.window(seq![sample], bank.newest((first + i) as nat)),
                #[trigger] out[i],
            ) by {
                assert(out[i] == output@[old_len + i]);
                assert(sounds::<A>(bank, (first + i) as nat, window, output@[old_len + i]));
            }
        }
    }

    /// Whether the stream has room for `extra` more samples.
    pub fn room_for(&self, extra: usize) -> (fits: bool)
        requires
            self.wf(),
        ensures
            fits == self.has_room(extra as nat),
    {
        position_fits(self.m as u64, self.l as u64, self.next_in, extra as u64)
    }

    /// The phase count, `L` of the ratio `L / M`.
    pub fn l(&self) -> (n: usize)
        requires
            self.wf(),
        ensures
            n == self.bank().den,
    {
        self.l
    }

    /// The decimation, `M` of the ratio `L / M`.
    pub fn m(&self) -> (n: usize)
        requires
            self.wf(),
        ensures
            n == self.bank().num,
    {
        self.m
    }

    /// Taps per phase.
    pub fn tpp(&self) -> (n: usize)
        requires
            self.wf(),
        ensures
            n == self.bank().tpp,
            n >= 1,
    {
        self.tpp
    }

    /// The phase table: phase `p`, tap `j` at index `p * tpp + j`.
    pub fn table(&self) -> (t: &Vec<A::Sample>)
        requires
            self.wf(),
        ensures
            t@ == self.bank().table,
    {
        &self.table
    }

    /// The ring of recent samples, starting at some slot and wrapping around.
    pub fn ring(&self) -> (r: &Vec<A::Sample>)
        requires
            self.wf(),
        ensures
            exists|c: int|
                0 <= c <= r@.len() && self.stream().recent == #[trigger] r@.skip(c) + r@.take(c),
    {
        self.history.ring()
    }

    /// The latency in output samples.
    pub fn latency(&self) -> (n: usize)
        ensures
            n == self.delay(),
    {
        self.latency
    }

    /// Resamples `input` and appends the produced samples to `output`.
    pub fn process(&mut self, input: &[A::Sample], output: &mut Vec<A::Sample>)
        requires
            old(self).wf(),
            old(self).has_room(input@.len()),
        ensures
            final(self).wf(),
            final(self).same_filter(*old(self)),
            final(self).stream() == old(self).stream().fed(input@),
            final(output)@.len() >= old(output)@.len(),
            final(output)@.take(old(output)@.len() as int) == old(output)@,
            emits::<A>(
                old(self).bank(),
                old(self).stream(),
                input@,
                final(output)@.skip(old(output)@.len() as int),
            ),
    {
        let ghost bank = self.bank();
        let ghost stream = self.stream();
        let ghost start = output@.len() as int;
        let mut i: usize = 0;
        proof {
            law_empty_chunk::<A>(bank, stream, output@.skip(start));
            assert(output@.skip(start) =~= Seq::empty());
            assert(input@.take(0) =~= Seq::empty());
            assert(output@.take(start) =~= output@);
        }
        while i < input.len()
            invariant
                i <= input@.len(),
                self.wf(),
                self.same_filter(*old(self)),
                bank == old(self).bank(),
                stream == old(self).stream(),
                bank.wf(),
                stream.recent.len() == bank.tpp,
                self.stream() == stream.fed(input@.take(i as int)),
                bank.awaited(stream.taken + input@.len()) <= u64::MAX,
                start == old(output)@.len(),
                start <= output@.len(),
                output@.take(start) == old(output)@,
                emits::<A>(bank, stream, input@.take(i as int), output@.skip(start)),
            decreases input@.len() - i,
        {
            let ghost before = output@;
            proof {
                lemma_awaited(bank, (stream.taken + i + 1) as nat, stream.taken + input@.len());
            }
            self.push_and_drain(input[i], output);
            proof {
                lemma_extend::<A>(
                    bank,
                    stream,
                    input@.take(i as int),
                    input@[i as int],
                    before,
                    output@,
                    start,
                );
                assert(input@.take(i as int).push(input@[i as int]) =~= input@.take(i + 1));
            }
            i += 1;
        }
        assert(input@.take(i as int) =~= input@);
    }

    /// The silence that [`flush`](ExactEngine::flush) feeds: enough for the
    /// newest input to leave the window.
    pub open spec fn tail(self) -> Seq<A::Sample> {
        Seq::new((self.bank().tpp - 1) as nat, |i: int| self.quiet())
    }

    /// Drains the end-of-stream tail into `output`.
    pub fn flush(&mut self, output: &mut Vec<A::Sample>)
        requires
            old(self).wf(),
            old(self).has_room(old(self).tail().len()),
        ensures
            final(self).wf(),
            final(self).same_filter(*old(self)),
            final(self).stream() == old(self).stream().fed(old(self).tail()),
            final(output)@.len() >= old(output)@.len(),
            final(output)@.take(old(output)@.len() as int) == old(output)@,
            emits::<A>(
                old(self).bank(),
                old(self).stream(),
                old(self).tail(),
                final(output)@.skip(old(output)@.len() as int),
            ),
    {
        let ghost bank = self.bank();
        let ghost stream = self.stream();
        let ghost tail = self.tail();
        let ghost start = output@.len() as int;
        let mut i: usize = 0;
        proof {
            law_empty_chunk::<A>(bank, stream, output@.skip(start));
            assert(output@.skip(start) =~= Seq::empty());
            assert(tail.take(0) =~= Seq::empty());
            assert(output@.take(start) =~= output@);
        }
        while i < self.tpp - 1
            invariant
                i <= tail.len(),
                tail.len() == self.tpp - 1,
                tail == old(self).tail(),
                self.wf(),
                self.same_filter(*old(self)),
                bank == old(self).bank(),
                stream == old(self).stream(),
                bank.wf(),
                stream.recent.len() == bank.tpp,
                self.stream() == stream.fed(tail.take(i as int)),
                bank.awaited(stream.taken + tail.len()) <= u64::MAX,
                start == old(output)@.len(),
                start <= output@.len(),
                output@.take(start) == old(output)@,
                emits::<A>(bank, stream, tail.take(i as int), output@.skip(start)),
            decreases tail.len() - i,
        {
            let ghost before = output@;
            proof {
                lemma_awaited(bank, (stream.taken + i + 1) as nat, stream.taken + tail.len());
            }
            let silence = self.silence;
            self.push_and_drain(silence, output);
            proof {
                lemma_extend::<A>(
                    bank,
                    stream,
                    tail.take(i as int),
                    silence,
                    before,
                    output@,
                    start,
                );
                assert(tail.take(i as int).push(silence) =~= tail.take(i + 1));
            }
            i += 1;
        }
        assert(tail.take(i as int) =~= tail);
    }

    /// Clears the streaming state, in place.
    pub fn reset(&mut self)
        requires
            old(self).wf(),
        ensures
            final(self).wf(),
            final(self).same_filter(*old(self)),
            final(self).stream() == Stream::start(old(self).bank().tpp, old(self).quiet()),
    {
        let silence = self.silence;
        self.history.clear(silence);
        self.phase = 0;
        self.input_base = 0;
        self.next_in = 0;
        proof {
            lemma_due_at_start(self.bank().num, self.bank().den);
        }
    }
}

}
