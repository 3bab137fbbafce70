//! Polyphase resampler with constructor dispatch.
//!
//! [`PolyphaseResampler`] converts between any pair of integer-Hz sample rates.
//! The constructor reduces `out/in` to lowest terms `L/M` and selects one of
//! three internal engines:
//!
//! - identity passthrough when `in == out`;
//! - the exact rational engine when the phase count `L` is small enough
//!   ([`MAX_EXACT_PHASES`]): `L` polyphase phases, exact rational stepping, no
//!   interpolation;
//! - the arbitrary-ratio general engine otherwise: a fixed number of phases of an
//!   oversampled prototype with an exact-rational fixed-point phase accumulator
//!   and linear interpolation between adjacent phases.
//!
//! All three emit an output as soon as its newest tap arrives, so chunk
//! boundaries are invisible in the output for every engine.

use crate::arithmetic::{
    alike, deterministic, gives, is_number, is_number_sample, lemma_gives_once, lemma_operands,
    numbers_come_from_numbers, rounding_respects_equality, sign_symmetric, Arithmetic, Binary,
    Formula,
};
use crate::error::ResamplerError;
use crate::exact::ExactEngine;
use crate::general::{
    general_delay, law_general_delay_is_nearest, GeneralEngine, GENERAL_PHASES,
};
use crate::kernel::{
    aligned_len, exact_band, exact_prototype_len, general_band, general_prototype_len,
    is_kaiser_len, is_prototype, law_aligned_len, law_kaiser_len_is_determined,
    law_prototype_is_symmetric, odd_len, offsets_mirror, Band, DESIGN_STOPBAND_DB,
    MAX_FILTER_TAPS,
};
use crate::ratio::{
    is_gcd, is_reduced, law_coprime, law_reduced_is_lowest_terms, law_reduction_is_unique, reduce,
};
use crate::resampler::Resampler;
use crate::schedule::{
    law_due_is_bare_count_rounded_up, law_due_when_newest_arrived, law_reduction_keeps_schedule,
    lemma_due_at_start, lemma_due_monotone, newest_input, outputs_due,
};
use crate::special::half_pi_is_positive;
use crate::stream::{
    emits, is_blend, law_awaited_is_near, law_bank_repeats, law_chunks_join, law_chunks_split,
    law_emission_is_shift_invariant, law_empty_chunk, law_impulse_response,
    law_impulse_response_index, law_output_is_determined, law_position_is_exact,
    law_silence_in_silence_out, lemma_fed_twice, silence_adds_nothing, weight, Bank, Stream,
};
use crate::table::{
    decomposes_by, is_entry, is_table, law_table_is_determined, law_taps_per_phase, scaled_by,
    table_by, taps_per_phase,
};
use vstd::arithmetic::div_mod::{
    lemma_fundamental_div_mod, lemma_mod_bound, lemma_mod_multiples_basic,
};
use vstd::prelude::*;

verus! {

/// Largest reduced phase count `L` the exact engine handles; above this the
/// general engine is used.
///
/// The exact table grows linearly with `L`, while the general table has a fixed
/// number of phases. Every common audio rate reduces to `L <= 640` when
/// converting to 16 kHz or 48 kHz, so 1024 routes all of them to the exact engine
/// with margin. Only rates with a large `L` fall through to the bounded general
/// engine.
pub const MAX_EXACT_PHASES: u32 = 1024;

/// Which engine a resampler runs.
#[derive(Debug, Clone, Copy, PartialEq, Eq, Structural)]
pub enum EngineKind {
    Identity,
    Exact,
    General,
}

/// The engine a rate pair is routed to, with the reduced ratio `l / m`.
#[derive(Debug, Clone, Copy)]
pub enum Route {
    Identity,
    Exact { l: u32, m: u32 },
    General { l: u32, m: u32 },
}

/// `route` is where the rate pair belongs.
pub open spec fn is_route(in_rate: u32, out_rate: u32, route: Route) -> bool {
    match route {
        Route::Identity => in_rate == out_rate,
        Route::Exact { l, m } => {
            &&& in_rate != out_rate
            &&& is_reduced(in_rate as nat, out_rate as nat, l as nat, m as nat)
            &&& l <= MAX_EXACT_PHASES
        },
        Route::General { l, m } => {
            &&& in_rate != out_rate
            &&& is_reduced(in_rate as nat, out_rate as nat, l as nat, m as nat)
            &&& l > MAX_EXACT_PHASES
        },
    }
}

/// Routes a rate pair to an engine.
pub fn route(in_rate: u32, out_rate: u32) -> (r: Result<Route, ResamplerError>)
    ensures
        in_rate == 0 || out_rate == 0 ==> r == Err::<Route, _>(ResamplerError::ZeroSampleRate),
        in_rate > 0 && out_rate > 0 ==> r is Ok && is_route(in_rate, out_rate, r->Ok_0),
        r is Ok ==> (r->Ok_0 is Identity <==> in_rate == out_rate),
        r matches Ok(Route::Exact { l, m }) ==> l <= 1024 && out_rate * m == in_rate * l,
        r matches Ok(Route::General { l, m }) ==> l > 1024 && out_rate * m == in_rate * l,
{
    if in_rate == 0 || out_rate == 0 {
        return Err(ResamplerError::ZeroSampleRate);
    }
    if in_rate == out_rate {
        return Ok(Route::Identity);
    }
    let (l, m) = reduce(in_rate, out_rate);
    proof {
        law_reduced_is_lowest_terms(in_rate as nat, out_rate as nat, l as nat, m as nat);
    }
    if l <= MAX_EXACT_PHASES {
        Ok(Route::Exact { l, m })
    } else {
        Ok(Route::General { l, m })
    }
}

/// Accepts a prototype length, or rejects the rate pair for needing more than
/// [`MAX_FILTER_TAPS`].
pub fn check_length(in_rate: u32, out_rate: u32, taps: u128) -> (r: Result<usize, ResamplerError>)
    ensures
        taps <= MAX_FILTER_TAPS ==> r == Ok::<_, ResamplerError>(taps as usize) && r->Ok_0 == taps,
        taps > MAX_FILTER_TAPS ==> r == Err::<usize, _>(
            ResamplerError::RatePairUnsupported { in_rate, out_rate },
        ),
{
    if taps > MAX_FILTER_TAPS as u128 {
        Err(ResamplerError::RatePairUnsupported { in_rate, out_rate })
    } else {
        Ok(taps as usize)
    }
}

/// The filter of a resampler: its bank, the sample that stands for silence, and
/// the group delay in output samples.
#[verifier::ext_equal]
pub struct Filter<S> {
    pub bank: Bank<S>,
    pub quiet: S,
    pub delay: usize,
}

/// The filter is the exact engine's for the ratio `l / m`, of `n` taps.
pub open spec fn is_exact_filter<A: Arithmetic>(
    in_rate: u32,
    out_rate: u32,
    l: u32,
    m: u32,
    n: nat,
    f: Filter<A::Sample>,
) -> bool {
    &&& f.bank.num == m
    &&& f.bank.den == l
    &&& f.bank.phases == l
    &&& f.bank.tpp == taps_per_phase(n, l as nat)
    &&& !f.bank.interpolates
    &&& call_ensures(A::silence, (), f.quiet)
    &&& is_table::<A>(
        exact_band(in_rate, out_rate, m, DESIGN_STOPBAND_DB),
        n,
        l as nat,
        f.quiet,
        f.bank.table,
    )
    &&& f.delay * (2 * m) == n - 1
}

/// The filter is the general engine's for the rate pair, of `n` taps.
pub open spec fn is_general_filter<A: Arithmetic>(
    in_rate: u32,
    out_rate: u32,
    n: nat,
    f: Filter<A::Sample>,
) -> bool {
    &&& f.bank.num == in_rate
    &&& f.bank.den == out_rate
    &&& f.bank.phases == GENERAL_PHASES
    &&& f.bank.tpp == taps_per_phase(n, GENERAL_PHASES as nat)
    &&& f.bank.interpolates
    &&& call_ensures(A::silence, (), f.quiet)
    &&& is_table::<A>(
        general_band(in_rate, out_rate, GENERAL_PHASES, DESIGN_STOPBAND_DB),
        n,
        GENERAL_PHASES as nat,
        f.quiet,
        f.bank.table,
    )
    &&& f.delay == general_delay(n, in_rate as nat, out_rate as nat) as usize
}

/// `taps` is a prototype length for the rate pair on the exact route: the Kaiser
/// length, aligned to `2 * m`.
pub open spec fn needs_exact<A: Arithmetic>(
    in_rate: u32,
    out_rate: u32,
    m: u32,
    taps: nat,
) -> bool {
    exists|kaiser: u64| #[trigger]
        is_kaiser_len::<A>(exact_band(in_rate, out_rate, m, DESIGN_STOPBAND_DB), kaiser) && taps
            == aligned_len(kaiser as nat, m as nat)
}

/// `taps` is a prototype length for the rate pair on the general route: the
/// Kaiser length, made odd.
pub open spec fn needs_general<A: Arithmetic>(in_rate: u32, out_rate: u32, taps: nat) -> bool {
    exists|kaiser: u64| #[trigger]
        is_kaiser_len::<A>(
            general_band(in_rate, out_rate, GENERAL_PHASES, DESIGN_STOPBAND_DB),
            kaiser,
        ) && taps == odd_len(kaiser as nat)
}

/// Construction on the route `route` may need `taps` taps.
pub open spec fn needs<A: Arithmetic>(
    in_rate: u32,
    out_rate: u32,
    route: Route,
    taps: nat,
) -> bool {
    match route {
        Route::Identity => false,
        Route::Exact { l, m } => needs_exact::<A>(in_rate, out_rate, m, taps),
        Route::General { l, m } => needs_general::<A>(in_rate, out_rate, taps),
    }
}

/// `f` is the filter of `taps` taps on the route `route`.
pub open spec fn is_filter<A: Arithmetic>(
    in_rate: u32,
    out_rate: u32,
    route: Route,
    taps: nat,
    f: Filter<A::Sample>,
) -> bool {
    match route {
        Route::Identity => false,
        Route::Exact { l, m } => is_exact_filter::<A>(in_rate, out_rate, l, m, taps, f),
        Route::General { l, m } => is_general_filter::<A>(in_rate, out_rate, taps, f),
    }
}

/// What a resampler is at a moment: its filter, absent for the identity; the
/// stream it has taken; and whether it was flushed since the stream began.
#[verifier::ext_equal]
pub struct Playback<S> {
    pub filter: Option<Filter<S>>,
    pub stream: Stream<S>,
    pub flushed: bool,
}

impl<S> Playback<S> {
    /// The identity passthrough keeps no stream.
    pub open spec fn bypass(flushed: bool) -> Self {
        Playback { filter: None, stream: Stream { taken: 0, recent: Seq::empty() }, flushed }
    }

    /// A filter at the start of a stream.
    pub open spec fn fresh(filter: Filter<S>) -> Self {
        Playback {
            filter: Some(filter),
            stream: Stream::start(filter.bank.tpp, filter.quiet),
            flushed: false,
        }
    }

    /// The same filter as at construction, at the start of a stream.
    pub open spec fn restarted(self) -> Self {
        match self.filter {
            None => Playback::bypass(false),
            Some(f) => Playback::fresh(f),
        }
    }

    /// The filter and the stream fit together.
    pub open spec fn wf(self) -> bool {
        match self.filter {
            None => self == Playback::<S>::bypass(self.flushed),
            Some(f) => f.bank.wf() && self.stream.recent.len() == f.bank.tpp,
        }
    }

    /// After `input`.
    pub open spec fn fed(self, input: Seq<S>) -> Self {
        match self.filter {
            None => self,
            Some(f) => Playback { stream: self.stream.fed(input), ..self },
        }
    }

    /// The silence that a flush feeds: enough for the newest input to leave the
    /// filter's window.
    pub open spec fn tail(self) -> Seq<S> {
        match self.filter {
            None => Seq::empty(),
            Some(f) => Seq::new((f.bank.tpp - 1) as nat, |i: int| f.quiet),
        }
    }

    /// Whether stream positions still fit their counters after `extra` more
    /// samples.
    pub open spec fn has_room(self, extra: nat) -> bool {
        match self.filter {
            None => true,
            Some(f) => f.bank.awaited(self.stream.taken + extra) <= u64::MAX,
        }
    }
}

/// `out` is what `input` produces in the state `state`.
pub open spec fn produces<A: Arithmetic>(
    state: Playback<A::Sample>,
    input: Seq<A::Sample>,
    out: Seq<A::Sample>,
) -> bool {
    match state.filter {
        None => out == input,
        Some(f) => emits::<A>(f.bank, state.stream, input, out),
    }
}

enum Engine<A: Arithmetic> {
    Identity,
    Exact(ExactEngine<A>),
    General(GeneralEngine<A>),
}

/// A streaming sample-rate resampler.
///
/// Construct it with [`PolyphaseResampler::new`] for an input and output rate,
/// then drive it through the [`Resampler`] trait.
pub struct PolyphaseResampler<A: Arithmetic> {
    engine: Engine<A>,
    /// Set by [`flush`](Resampler::flush), cleared by
    /// [`reset`](Resampler::reset) and at construction.
    flushed: bool,
}

impl<A: Arithmetic> View for PolyphaseResampler<A> {
    type V = Playback<A::Sample>;

    closed spec fn view(&self) -> Playback<A::Sample> {
        match self.engine {
            Engine::Identity => Playback::bypass(self.flushed),
            Engine::Exact(e) => Playback {
                filter: Some(Filter { bank: e.bank(), quiet: e.quiet(), delay: e.delay() }),
                stream: e.stream(),
                flushed: self.flushed,
            },
            Engine::General(e) => Playback {
                filter: Some(Filter { bank: e.bank(), quiet: e.quiet(), delay: e.delay() }),
                stream: e.stream(),
                flushed: self.flushed,
            },
        }
    }
}

impl<A: Arithmetic> PolyphaseResampler<A> {
    /// The engine is in order.
    pub closed spec fn inv(self) -> bool {
        match self.engine {
            Engine::Identity => true,
            Engine::Exact(e) => e.wf(),
            Engine::General(e) => e.wf(),
        }
    }

    /// Which engine runs.
    pub closed spec fn kind(self) -> EngineKind {
        match self.engine {
            Engine::Identity => EngineKind::Identity,
            Engine::Exact(_) => EngineKind::Exact,
            Engine::General(_) => EngineKind::General,
        }
    }

    /// The kind of engine shows in the filter: absent for the identity,
    /// interpolating for the general engine only.
    pub open spec fn kind_shows(self) -> bool {
        match self@.filter {
            None => self.kind() == EngineKind::Identity,
            Some(f) => self.kind() == if f.bank.interpolates {
                EngineKind::General
            } else {
                EngineKind::Exact
            },
        }
    }

    /// What construction on the route `route` returns once it turns out to need
    /// `taps` taps: a rejection if they are too many, and otherwise a resampler
    /// with that filter at the start of a stream.
    pub open spec fn outcome(
        in_rate: u32,
        out_rate: u32,
        route: Route,
        taps: nat,
        r: Result<Self, ResamplerError>,
    ) -> bool {
        if taps > MAX_FILTER_TAPS {
            r == Err::<Self, _>(ResamplerError::RatePairUnsupported { in_rate, out_rate })
        } else {
            &&& r is Ok
            &&& r->Ok_0@.filter is Some
            &&& is_filter::<A>(in_rate, out_rate, route, taps, r->Ok_0@.filter->0)
            &&& r->Ok_0@ == Playback::fresh(r->Ok_0@.filter->0)
        }
    }

    /// Builds a resampler on a filtering route with a prototype of `taps` taps,
    /// or rejects the rate pair before building anything.
    pub fn with_taps(in_rate: u32, out_rate: u32, route: Route, taps: u128) -> (r: Result<
        Self,
        ResamplerError,
    >)
        requires
            in_rate > 0,
            out_rate > 0,
            in_rate != out_rate,
            is_route(in_rate, out_rate, route),
            taps >= 1,
            route matches Route::Exact { l, m } ==> (taps - 1) % (2 * m as int) == 0,
        ensures
            Self::outcome(in_rate, out_rate, route, taps as nat, r),
            r is Err <==> taps > MAX_FILTER_TAPS,
            r is Err ==> r == Err::<Self, _>(
                ResamplerError::RatePairUnsupported { in_rate, out_rate },
            ),
            r is Ok ==> r->Ok_0.wf(),
    {
        let n: usize = match check_length(in_rate, out_rate, taps) {
            Err(e) => return Err(e),
            Ok(n) => n,
        };
        let engine = match route {
            Route::Identity => Engine::Identity,
            Route::Exact { l, m } => {
                proof {
                    law_reduced_is_lowest_terms(
                        in_rate as nat,
                        out_rate as nat,
                        l as nat,
                        m as nat,
                    );
                }
                Engine::Exact(ExactEngine::new(in_rate, out_rate, l, m, n))
            },
            Route::General { .. } => Engine::General(GeneralEngine::new(in_rate, out_rate, n)),
        };
        Ok(PolyphaseResampler { engine, flushed: false })
    }

    /// Creates a resampler converting from `in_rate` to `out_rate` (both in Hz).
    ///
    /// Returns [`ResamplerError::ZeroSampleRate`] if either rate is zero, and
    /// [`ResamplerError::RatePairUnsupported`] if the filter would need more than
    /// [`MAX_FILTER_TAPS`] taps, before building anything. The rate pair is fixed
    /// for the lifetime of the instance.
    pub fn new(in_rate: u32, out_rate: u32) -> (r: Result<Self, ResamplerError>)
        ensures
            in_rate == 0 || out_rate == 0 ==> r == Err::<Self, _>(ResamplerError::ZeroSampleRate),
            in_rate > 0 && in_rate == out_rate ==> r is Ok && r->Ok_0@ == Playback::<
                A::Sample,
            >::bypass(false),
            in_rate > 0 && out_rate > 0 && in_rate != out_rate ==> exists|route: Route, taps: nat|
                is_route(in_rate, out_rate, route) && #[trigger] needs::<A>(
                    in_rate,
                    out_rate,
                    route,
                    taps,
                ) && Self::outcome(in_rate, out_rate, route, taps, r) && (r is Err <==> taps
                    > MAX_FILTER_TAPS),
            r is Err ==> in_rate == 0 || out_rate == 0 || r == Err::<Self, _>(
                ResamplerError::RatePairUnsupported { in_rate, out_rate },
            ),
            r is Ok ==> r->Ok_0.wf(),
            r is Ok ==> (r->Ok_0.bypasses() <==> in_rate == out_rate),
            r is Ok ==> !r->Ok_0@.flushed,
    {
        let chosen = match route(in_rate, out_rate) {
            Err(e) => return Err(e),
            Ok(chosen) => chosen,
        };
        let taps: u128 = match chosen {
            Route::Identity => {
                return Ok(PolyphaseResampler { engine: Engine::Identity, flushed: false });
            },
            Route::Exact { l, m } => {
                proof {
                    law_reduced_is_lowest_terms(
                        in_rate as nat,
                        out_rate as nat,
                        l as nat,
                        m as nat,
                    );
                }
                let taps = exact_prototype_len::<A>(in_rate, out_rate, m, DESIGN_STOPBAND_DB);
                proof {
                    let kaiser = choose|kaiser: u64| #[trigger]
                        is_kaiser_len::<A>(
                            exact_band(in_rate, out_rate, m, DESIGN_STOPBAND_DB),
                            kaiser,
                        ) && taps == aligned_len(kaiser as nat, m as nat);
                    law_aligned_len(kaiser as nat, m as nat);
                }
                taps
            },
            Route::General { .. } => general_prototype_len::<A>(
                in_rate,
                out_rate,
                GENERAL_PHASES,
                DESIGN_STOPBAND_DB,
            ),
        };
        assert(needs::<A>(in_rate, out_rate, chosen, taps as nat));
        Self::with_taps(in_rate, out_rate, chosen, taps)
    }

    /// Creates a resampler on the general engine, whatever the ratio and however
    /// long its filter.
    ///
    /// There is none only for a length whose phase table cannot be indexed.
    pub fn new_forced_general(in_rate: u32, out_rate: u32) -> (r: Option<Self>)
        requires
            in_rate > 0,
            out_rate > 0,
        ensures
            exists|taps: nat| #[trigger]
                needs_general::<A>(in_rate, out_rate, taps) && (r is Some <==> taps
                    + GENERAL_PHASES <= usize::MAX) && (r is Some ==> r->0@.filter is Some
                    && is_general_filter::<A>(in_rate, out_rate, taps, r->0@.filter->0) && r->0@
                    == Playback::fresh(r->0@.filter->0)),
            r is Some ==> r->0.wf(),
    {
        let taps = general_prototype_len::<A>(
            in_rate,
            out_rate,
            GENERAL_PHASES,
            DESIGN_STOPBAND_DB,
        );
        assert(needs_general::<A>(in_rate, out_rate, taps as nat));
        if taps > (usize::MAX - GENERAL_PHASES as usize) as u128 {
            return None;
        }
        Some(
            PolyphaseResampler {
                engine: Engine::General(GeneralEngine::new(in_rate, out_rate, taps as usize)),
                flushed: false,
            },
        )
    }

    /// Which engine runs.
    pub fn engine_kind(&self) -> (k: EngineKind)
        ensures
            k == self.kind(),
    {
        match &self.engine {
            Engine::Identity => EngineKind::Identity,
            Engine::Exact(_) => EngineKind::Exact,
            Engine::General(_) => EngineKind::General,
        }
    }

    /// Engine path label for diagnostics: `"identity"`, `"exact"`, or
    /// `"general"`. Metadata only; never carries sample data.
    pub fn engine_path(&self) -> (label: &'static str)
        ensures
            label@ == (match self.kind() {
                EngineKind::Identity => "identity"@,
                EngineKind::Exact => "exact"@,
                EngineKind::General => "general"@,
            }),
    {
        match &self.engine {
            Engine::Identity => "identity",
            Engine::Exact(_) => "exact",
            Engine::General(_) => "general",
        }
    }

    /// The exact engine of a resampler that runs it.
    pub fn as_exact(&self) -> (e: &ExactEngine<A>)
        requires
            self.wf(),
            self.kind() == EngineKind::Exact,
        ensures
            e.wf(),
            self@.filter == Some(Filter { bank: e.bank(), quiet: e.quiet(), delay: e.delay() }),
            self@.stream == e.stream(),
    {
        match &self.engine {
            Engine::Exact(e) => e,
            _ => vstd::pervasive::unreached(),
        }
    }

    /// The general engine of a resampler that runs it.
    pub fn as_general(&self) -> (e: &GeneralEngine<A>)
        requires
            self.wf(),
            self.kind() == EngineKind::General,
        ensures
            e.wf(),
            self@.filter == Some(Filter { bank: e.bank(), quiet: e.quiet(), delay: e.delay() }),
            self@.stream == e.stream(),
    {
        match &self.engine {
            Engine::General(e) => e,
            _ => vstd::pervasive::unreached(),
        }
    }

    /// Whether the resampler was flushed and not reset since.
    pub fn is_flushed(&self) -> (b: bool)
        ensures
            b == self@.flushed,
    {
        self.flushed
    }

    /// Whether stream positions have room to process `samples` more samples.
    pub fn can_process(&self, samples: usize) -> (fits: bool)
        requires
            self.wf(),
        ensures
            fits == self.has_room(samples as nat),
    {
        match &self.engine {
            Engine::Identity => true,
            Engine::Exact(e) => e.room_for(samples),
            Engine::General(e) => e.room_for(samples),
        }
    }

    /// Whether stream positions have room for a flush.
    pub fn can_flush(&self) -> (fits: bool)
        requires
            self.wf(),
        ensures
            fits == self.has_room(self.tail_len()),
    {
        match &self.engine {
            Engine::Identity => true,
            Engine::Exact(e) => e.room_for(e.tpp() - 1),
            Engine::General(e) => e.room_for(e.tpp() - 1),
        }
    }
}

impl<A: Arithmetic> Resampler for PolyphaseResampler<A> {
    type Sample = A::Sample;

    open spec fn wf(&self) -> bool {
        &&& self.inv()
        &&& self@.wf()
        &&& self.kind_shows()
    }

    open spec fn has_room(&self, extra: nat) -> bool {
        self@.has_room(extra)
    }

    open spec fn tail_len(&self) -> nat {
        self@.tail().len()
    }

    open spec fn bypasses(&self) -> bool {
        self@.filter is None
    }

    open spec fn latency(&self) -> usize {
        match self@.filter {
            None => 0,
            Some(f) => f.delay,
        }
    }

    open spec fn processes(
        &self,
        input: Seq<A::Sample>,
        out: Seq<A::Sample>,
        next: Self,
    ) -> bool {
        &&& produces::<A>(self@, input, out)
        &&& next@ == self@.fed(input)
    }

    open spec fn flushes(&self, out: Seq<A::Sample>, next: Self) -> bool {
        &&& produces::<A>(self@, self@.tail(), out)
        &&& next@ == (Playback { flushed: true, ..self@.fed(self@.tail()) })
    }

    open spec fn resets(&self, next: Self) -> bool {
        next@ == self@.restarted()
    }

    proof fn law_streaming_carry(
        first: Self,
        second: Self,
        third: Self,
        a: Seq<A::Sample>,
        b: Seq<A::Sample>,
        out_a: Seq<A::Sample>,
        out_b: Seq<A::Sample>,
    ) {
        if let Some(f) = first@.filter {
            law_chunks_join::<A>(f.bank, first@.stream, a, b, out_a, out_b);
        }
    }

    fn process(&mut self, input: &[A::Sample], output: &mut Vec<A::Sample>) {
        let ghost start = output@.len() as int;
        match &mut self.engine {
            Engine::Identity => {
                let mut i: usize = 0;
                while i < input.len()
                    invariant
                        i <= input@.len(),
                        output@ == old(output)@ + input@.take(i as int),
                    decreases input@.len() - i,
                {
                    output.push(input[i]);
                    assert(input@.take(i + 1) =~= input@.take(i as int).push(input@[i as int]));
                    i += 1;
                }
                assert(input@.take(i as int) =~= input@);
                assert(output@.skip(start) =~= input@);
                assert(output@.take(start) =~= old(output)@);
            },
            Engine::Exact(e) => e.process(input, output),
            Engine::General(e) => e.process(input, output),
        }
    }

    fn flush(&mut self, output: &mut Vec<A::Sample>) {
        match &mut self.engine {
            Engine::Identity => {
                assert(output@.skip(output@.len() as int) =~= Seq::empty());
                assert(output@.take(output@.len() as int) =~= output@);
            },
            Engine::Exact(e) => e.flush(output),
            Engine::General(e) => e.flush(output),
        }
        self.flushed = true;
    }

    fn latency_samples(&self) -> (n: usize) {
        match &self.engine {
            Engine::Identity => 0,
            Engine::Exact(e) => e.latency(),
            Engine::General(e) => e.latency(),
        }
    }

    fn is_identity(&self) -> (b: bool) {
        match &self.engine {
            Engine::Identity => true,
            _ => false,
        }
    }

    fn reset(&mut self) {
        match &mut self.engine {
            Engine::Identity => {},
            Engine::Exact(e) => e.reset(),
            Engine::General(e) => e.reset(),
        }
        self.flushed = false;
    }
}

/// The chunks, put together.
pub open spec fn joined<S>(chunks: Seq<Seq<S>>) -> Seq<S>
    decreases chunks.len(),
{
    if chunks.len() == 0 {
        Seq::empty()
    } else {
        joined(chunks.drop_last()) + chunks.last()
    }
}

/// `out` is what the chunks produce, one call after another, from the state
/// `state`.
pub open spec fn produces_in_chunks<A: Arithmetic>(
    state: Playback<A::Sample>,
    chunks: Seq<Seq<A::Sample>>,
    out: Seq<A::Sample>,
) -> bool
    decreases chunks.len(),
{
    if chunks.len() == 0 {
        out == Seq::<A::Sample>::empty()
    } else {
        exists|cut: int|
            0 <= cut <= out.len() && produces_in_chunks::<A>(
                state,
                chunks.drop_last(),
                #[trigger] out.take(cut),
            ) && produces::<A>(
                state.fed(joined(chunks.drop_last())),
                chunks.last(),
                out.skip(cut),
            )
    }
}

/// `out` is what a stream fed as `chunks` and flushed once produces from the
/// state `state`: the outputs of the chunks, then those of the tail.
pub open spec fn plays<A: Arithmetic>(
    state: Playback<A::Sample>,
    chunks: Seq<Seq<A::Sample>>,
    out: Seq<A::Sample>,
) -> bool {
    exists|cut: int|
        0 <= cut <= out.len() && produces_in_chunks::<A>(state, chunks, #[trigger] out.take(cut))
            && produces::<A>(state.fed(joined(chunks)), state.tail(), out.skip(cut))
}

/// Chunk boundaries are invisible: any chunking of a stream may produce exactly
/// what a single call on the whole of it may produce.
pub proof fn law_chunking_is_invisible<A: Arithmetic>(
    state: Playback<A::Sample>,
    chunks: Seq<Seq<A::Sample>>,
    out: Seq<A::Sample>,
)
    requires
        state.wf(),
    ensures
        produces_in_chunks::<A>(state, chunks, out) <==> produces::<A>(state, joined(chunks), out),
    decreases chunks.len(),
{
    if chunks.len() == 0 {
        if let Some(f) = state.filter {
            law_empty_chunk::<A>(f.bank, state.stream, out);
        }
    } else {
        let init = chunks.drop_last();
        let a = joined(init);
        let b = chunks.last();
        if produces_in_chunks::<A>(state, chunks, out) {
            let cut = choose|cut: int|
                0 <= cut <= out.len() && produces_in_chunks::<A>(
                    state,
                    init,
                    #[trigger] out.take(cut),
                ) && produces::<A>(state.fed(a), b, out.skip(cut));
            law_chunking_is_invisible::<A>(state, init, out.take(cut));
            assert(out =~= out.take(cut) + out.skip(cut));
            if let Some(f) = state.filter {
                law_chunks_join::<A>(f.bank, state.stream, a, b, out.take(cut), out.skip(cut));
            }
        }
        if produces::<A>(state, a + b, out) {
            let cut = match state.filter {
                None => a.len() as int,
                Some(f) => f.bank.due(state.stream.taken + a.len()) - f.bank.due(
                    state.stream.taken,
                ),
            };
            if let Some(f) = state.filter {
                law_chunks_split::<A>(f.bank, state.stream, a, b, out);
            } else {
                assert(out.take(cut) =~= a);
                assert(out.skip(cut) =~= b);
            }
            law_chunking_is_invisible::<A>(state, init, out.take(cut));
        }
    }
}

/// Feeding a stream as many chunks and then flushing once produces the same
/// output samples, in the same order, as feeding the whole stream in a single
/// call followed by a single flush.
pub proof fn law_chunked_run_equals_single_run<A: Arithmetic>(
    state: Playback<A::Sample>,
    chunks: Seq<Seq<A::Sample>>,
    out: Seq<A::Sample>,
)
    requires
        state.wf(),
    ensures
        plays::<A>(state, chunks, out) <==> plays::<A>(state, seq![joined(chunks)], out),
{
    let whole = seq![joined(chunks)];
    assert(whole.drop_last() =~= Seq::empty());
    assert(joined(whole) =~= joined(chunks)) by {
        assert(joined(whole.drop_last()) =~= Seq::<A::Sample>::empty());
    }
    assert forall|cut: int| 0 <= cut <= out.len() implies produces_in_chunks::<A>(
        state,
        chunks,
        #[trigger] out.take(cut),
    ) == produces_in_chunks::<A>(state, whole, out.take(cut)) by {
        law_chunking_is_invisible::<A>(state, chunks, out.take(cut));
        law_chunking_is_invisible::<A>(state, whole, out.take(cut));
    }
}

/// In a deterministic number system a run has one output.
pub proof fn law_production_is_determined<A: Arithmetic>(
    state: Playback<A::Sample>,
    input: Seq<A::Sample>,
    x: Seq<A::Sample>,
    y: Seq<A::Sample>,
)
    requires
        deterministic::<A>(),
        produces::<A>(state, input, x),
        produces::<A>(state, input, y),
    ensures
        x == y,
{
    if let Some(f) = state.filter {
        law_output_is_determined::<A>(f.bank, state.stream, input, x, y);
    }
}

/// In a deterministic number system a rate pair has one route, one prototype
/// length and one filter: constructing twice gives the same resampler.
pub proof fn law_construction_is_determined<A: Arithmetic>(
    in_rate: u32,
    out_rate: u32,
    r: Route,
    q: Route,
    m: nat,
    n: nat,
    f: Filter<A::Sample>,
    g: Filter<A::Sample>,
)
    requires
        deterministic::<A>(),
        in_rate > 0,
        out_rate > 0,
        is_route(in_rate, out_rate, r),
        is_route(in_rate, out_rate, q),
        needs::<A>(in_rate, out_rate, r, m),
        needs::<A>(in_rate, out_rate, q, n),
        is_filter::<A>(in_rate, out_rate, r, m, f),
        is_filter::<A>(in_rate, out_rate, q, n, g),
    ensures
        r == q,
        m == n,
        f == g,
{
    law_length_is_determined::<A>(in_rate, out_rate, r, q, m, n);
    match r {
        Route::Exact { l, m: d } => {
            law_reduced_is_lowest_terms(in_rate as nat, out_rate as nat, l as nat, d as nat);
            law_table_is_determined::<A>(
                exact_band(in_rate, out_rate, d, DESIGN_STOPBAND_DB),
                n,
                l as nat,
                f.quiet,
                f.bank.table,
                g.bank.table,
            );
            assert(f.delay == g.delay) by (nonlinear_arith)
                requires
                    f.delay * (2 * d) == g.delay * (2 * d),
                    d > 0,
            ;
        },
        Route::General { .. } => {
            law_table_is_determined::<A>(
                general_band(in_rate, out_rate, GENERAL_PHASES, DESIGN_STOPBAND_DB),
                n,
                GENERAL_PHASES as nat,
                f.quiet,
                f.bank.table,
                g.bank.table,
            );
        },
        Route::Identity => {},
    }
}

/// In a deterministic number system a rate pair has one route and needs one
/// prototype length, which is at least one tap.
pub proof fn law_length_is_determined<A: Arithmetic>(
    in_rate: u32,
    out_rate: u32,
    r: Route,
    q: Route,
    m: nat,
    n: nat,
)
    requires
        deterministic::<A>(),
        in_rate > 0,
        out_rate > 0,
        is_route(in_rate, out_rate, r),
        is_route(in_rate, out_rate, q),
        needs::<A>(in_rate, out_rate, r, m),
        needs::<A>(in_rate, out_rate, q, n),
    ensures
        r == q,
        m == n,
        n >= 1,
{
    match r {
        Route::Exact { l, m: d } => {
            lemma_one_route(in_rate, out_rate, r, q);
            law_reduced_is_lowest_terms(in_rate as nat, out_rate as nat, l as nat, d as nat);
            let band = exact_band(in_rate, out_rate, d, DESIGN_STOPBAND_DB);
            let j = choose|k: u64| #[trigger]
                is_kaiser_len::<A>(band, k) && m == aligned_len(k as nat, d as nat);
            let k = choose|k: u64| #[trigger]
                is_kaiser_len::<A>(band, k) && n == aligned_len(k as nat, d as nat);
            law_kaiser_len_is_determined::<A>(band, j, k);
            law_aligned_len(k as nat, d as nat);
        },
        Route::General { .. } => {
            lemma_one_route(in_rate, out_rate, r, q);
            let band = general_band(in_rate, out_rate, GENERAL_PHASES, DESIGN_STOPBAND_DB);
            let j = choose|k: u64| #[trigger]
                is_kaiser_len::<A>(band, k) && m == odd_len(k as nat);
            let k = choose|k: u64| #[trigger]
                is_kaiser_len::<A>(band, k) && n == odd_len(k as nat);
            law_kaiser_len_is_determined::<A>(band, j, k);
        },
        Route::Identity => {},
    }
}

/// A prototype has at least one tap, and an odd number of them.
pub proof fn law_length_is_positive<A: Arithmetic>(
    in_rate: u32,
    out_rate: u32,
    route: Route,
    taps: nat,
)
    requires
        in_rate > 0,
        out_rate > 0,
        is_route(in_rate, out_rate, route),
        needs::<A>(in_rate, out_rate, route, taps),
    ensures
        taps >= 1,
        taps % 2 == 1,
{
    match route {
        Route::Exact { l, m } => {
            law_reduced_is_lowest_terms(in_rate as nat, out_rate as nat, l as nat, m as nat);
            let band = exact_band(in_rate, out_rate, m, DESIGN_STOPBAND_DB);
            let k = choose|k: u64| #[trigger]
                is_kaiser_len::<A>(band, k) && taps == aligned_len(k as nat, m as nat);
            law_aligned_len(k as nat, m as nat);
        },
        _ => {},
    }
}

proof fn lemma_one_route(in_rate: u32, out_rate: u32, r: Route, q: Route)
    requires
        in_rate > 0,
        out_rate > 0,
        in_rate != out_rate,
        is_route(in_rate, out_rate, r),
        is_route(in_rate, out_rate, q),
    ensures
        r == q,
{
    let (l, m) = match r {
        Route::Exact { l, m } => (l, m),
        Route::General { l, m } => (l, m),
        Route::Identity => (0, 0),
    };
    let (k, n) = match q {
        Route::Exact { l, m } => (l, m),
        Route::General { l, m } => (l, m),
        Route::Identity => (0, 0),
    };
    law_reduction_is_unique(
        in_rate as nat,
        out_rate as nat,
        l as nat,
        m as nat,
        k as nat,
        n as nat,
    );
}

/// The reported latency of the exact engine is where its impulse response has
/// the center coefficient of the prototype: output `delay` meets an impulse at
/// the start of the stream with coefficient `(n - 1) / 2`.
pub proof fn law_exact_latency_is_at_prototype_center<A: Arithmetic>(
    in_rate: u32,
    out_rate: u32,
    l: u32,
    m: u32,
    n: nat,
    f: Filter<A::Sample>,
)
    requires
        f.bank.wf(),
        is_exact_filter::<A>(in_rate, out_rate, l, m, n, f),
    ensures
        f.bank.phase(f.delay as nat) + f.bank.phases * f.bank.newest(f.delay as nat) == (n - 1) / 2,
{
    law_impulse_response_index(f.bank, f.delay as nat);
    assert(f.delay * m == (n - 1) / 2) by (nonlinear_arith)
        requires
            f.delay * (2 * m) == n - 1,
    ;
}

/// The reported latency of the general engine is the output nearest to the center
/// of the prototype, at every ratio: the oversampled position of output `delay` is
/// within half an output step of coefficient `(n - 1) / 2`. (The delay has to fit
/// its counter.)
pub proof fn law_general_latency_is_at_prototype_center<A: Arithmetic>(
    in_rate: u32,
    out_rate: u32,
    n: nat,
    f: Filter<A::Sample>,
)
    requires
        in_rate > 0,
        out_rate > 0,
        n >= 1,
        f.bank.wf(),
        is_general_filter::<A>(in_rate, out_rate, n, f),
        (n - 1) * out_rate < (1024 * in_rate) * usize::MAX,
    ensures
        -(in_rate * 512) <= 2 * (f.delay * in_rate * 512) - (n - 1) * out_rate <= in_rate * 512,
        ({
            let d = f.delay as nat;
            let at = (f.bank.newest(d) * 512 + f.bank.phase(d)) * out_rate + f.bank.overhang(d);
            -(in_rate * 512) <= 2 * at - (n - 1) * out_rate <= in_rate * 512
        }),
{
    law_general_delay_is_nearest(n, in_rate as nat, out_rate as nat);
    let d = f.delay as nat;
    law_position_is_exact(f.bank, d);
    assert(d * (1024 * in_rate) == 2 * (d * in_rate * 512)) by (nonlinear_arith);
}

/// The engine follows the reduced phase count: `l` is `out_rate` and `m` is
/// `in_rate` with nothing in common left, and the exact engine runs up to 1024
/// phases.
pub proof fn law_route_follows_phase_count(in_rate: u32, out_rate: u32, route: Route, d: nat)
    requires
        in_rate > 0,
        out_rate > 0,
        is_route(in_rate, out_rate, route),
        d >= 2,
    ensures
        route is Identity <==> in_rate == out_rate,
        route matches Route::Exact { l, m } ==> 0 < l <= 1024 && out_rate * m == in_rate * l && !(l
            as nat % d == 0 && m as nat % d == 0),
        route matches Route::General { l, m } ==> l > 1024 && out_rate * m == in_rate * l && !(l
            as nat % d == 0 && m as nat % d == 0),
{
    match route {
        Route::Exact { l, m } => {
            law_reduced_is_lowest_terms(in_rate as nat, out_rate as nat, l as nat, m as nat);
            law_coprime(l as nat, m as nat, d);
        },
        Route::General { l, m } => {
            law_reduced_is_lowest_terms(in_rate as nat, out_rate as nat, l as nat, m as nat);
            law_coprime(l as nat, m as nat, d);
        },
        Route::Identity => {},
    }
}

/// The engine that runs is the one of the route, and the latency it reports is
/// half its prototype in output samples: exactly on the exact route, and to the
/// nearest output on the general one. (There the delay has to fit its counter.)
pub proof fn law_engine_follows_route<A: Arithmetic>(
    in_rate: u32,
    out_rate: u32,
    route: Route,
    taps: nat,
    r: PolyphaseResampler<A>,
)
    requires
        r.wf(),
        in_rate > 0,
        taps >= 1,
        PolyphaseResampler::<A>::outcome(in_rate, out_rate, route, taps, Ok(r)),
    ensures
        route is Exact ==> r.kind() == EngineKind::Exact,
        route is General ==> r.kind() == EngineKind::General,
        route matches Route::Exact { l, m } ==> r.latency() * (2 * m) == taps - 1,
        route is General && (taps - 1) * out_rate < (1024 * in_rate) * usize::MAX ==> -(512
            * in_rate) <= r.latency() * (1024 * in_rate) - (taps - 1) * out_rate <= 512 * in_rate,
{
    law_general_delay_is_nearest(taps, in_rate as nat, out_rate as nat);
}

/// What a call leaves behind: processing keeps the flush mark, flushing sets it,
/// and resetting clears it and silences everything that was kept.
pub proof fn law_marks_and_memory<A: Arithmetic>(
    before: PolyphaseResampler<A>,
    after: PolyphaseResampler<A>,
    input: Seq<A::Sample>,
    out: Seq<A::Sample>,
)
    requires
        before.wf(),
    ensures
        before.tail_len() == match before@.filter {
            None => 0,
            Some(f) => f.bank.tpp - 1,
        },
        before.processes(input, out, after) ==> after@.flushed == before@.flushed,
        before.flushes(out, after) ==> after@.flushed,
        before.resets(after) ==> !after@.flushed && after@.filter == before@.filter,
        before.resets(after) ==> (before@.filter matches Some(f) ==> after@.stream.taken == 0
            && after@.stream.recent.len() == f.bank.tpp && forall|i: int|
            0 <= i < f.bank.tpp ==> after@.stream.recent[i] == f.quiet),
        before.processes(input, out, after) ==> (before@.filter matches Some(f)
            ==> after@.stream.taken == before@.stream.taken + input.len() && (input.len()
            >= f.bank.tpp ==> after@.stream.recent == input.skip(
            input.len() - f.bank.tpp,
        ))),
{
    if before.processes(input, out, after) {
        if let Some(f) = before@.filter {
            if input.len() >= f.bank.tpp {
                assert(after@.stream.recent =~= input.skip(input.len() - f.bank.tpp));
            }
        }
    }
}

/// There is room as long as stream positions, and one step of the ratio beyond
/// them, fit 64 bits.
pub proof fn law_room_is_ample<A: Arithmetic>(r: PolyphaseResampler<A>, extra: nat)
    requires
        r.wf(),
        r@.filter matches Some(f) ==> r@.stream.taken + extra + f.bank.num <= u64::MAX,
    ensures
        r.has_room(extra),
{
    if let Some(f) = r@.filter {
        law_awaited_is_near(f.bank, r@.stream.taken + extra);
        lemma_div_is_at_most(f.bank.num - 1, f.bank.den);
    }
}

proof fn lemma_div_is_at_most(a: int, b: nat)
    requires
        a >= 0,
        b > 0,
    ensures
        a / (b as int) <= a,
{
    lemma_fundamental_div_mod(a, b as int);
    lemma_mod_bound(a, b as int);
    let q = a / (b as int);
    assert(q <= a) by (nonlinear_arith)
        requires
            a == b * q + a % (b as int),
            a % (b as int) >= 0,
            a >= 0,
            b > 0,
    ;
}

/// The latency of the exact engine from its Kaiser length: `d` outputs wherever
/// that length lies within the `d`-th step of `2 * m` taps. So rate pairs whose
/// Kaiser lengths grow with `m` alone have one latency.
pub proof fn law_exact_latency_from_kaiser_len<A: Arithmetic>(
    in_rate: u32,
    out_rate: u32,
    l: u32,
    m: u32,
    kaiser: nat,
    f: Filter<A::Sample>,
    d: nat,
)
    requires
        m >= 1,
        is_exact_filter::<A>(
            in_rate,
            out_rate,
            l,
            m,
            aligned_len(kaiser, m as nat),
            f,
        ),
        (2 * m) * (d - 1) + 1 < kaiser <= (2 * m) * d + 1,
    ensures
        aligned_len(kaiser, m as nat) == (2 * m) * d + 1,
        f.delay == d,
{
    let n = aligned_len(kaiser, m as nat);
    law_aligned_len(kaiser, m as nat);
    let steps = (n - 1) / (2 * m as int);
    lemma_fundamental_div_mod(n - 1, 2 * m as int);
    let least = ((2 * m) * d + 1) as nat;
    lemma_mod_multiples_basic(d as int, 2 * m as int);
    assert((least - 1) % (2 * m as int) == 0) by {
        assert((2 * m) * d == d * (2 * m)) by (nonlinear_arith);
    }
    assert(steps == d) by (nonlinear_arith)
        requires
            n - 1 == (2 * m) * steps,
            (2 * m) * (d - 1) + 1 < n <= (2 * m) * d + 1,
            m >= 1,
    ;
    assert(f.delay == d) by (nonlinear_arith)
        requires
            f.delay * (2 * m) == n - 1,
            n - 1 == (2 * m) * d,
            m >= 1,
    ;
}

/// No call changes the filter or how many samples are kept: the phase table and
/// the ring have one length for life.
pub proof fn law_storage_keeps_its_size<A: Arithmetic>(
    before: PolyphaseResampler<A>,
    after: PolyphaseResampler<A>,
    input: Seq<A::Sample>,
    out: Seq<A::Sample>,
)
    requires
        before.wf(),
        before.processes(input, out, after) || before.flushes(out, after) || before.resets(after),
    ensures
        after@.filter == before@.filter,
        after@.stream.recent.len() == before@.stream.recent.len(),
{
}

/// Resetting returns any later state of a resampler to the state it was
/// constructed in, and resetting again changes nothing.
pub proof fn law_reset_restores_construction<S>(constructed: Playback<S>, later: Playback<S>)
    requires
        constructed.wf(),
        constructed == constructed.restarted(),
        later.filter == constructed.filter,
    ensures
        later.restarted() == constructed,
        later.restarted().restarted() == later.restarted(),
{
}

/// A resampler that was reset plays what it played just constructed: in a
/// deterministic number system the same samples.
pub proof fn law_reset_reproduces_fresh_output<A: Arithmetic>(
    constructed: PolyphaseResampler<A>,
    later: PolyphaseResampler<A>,
    reset: PolyphaseResampler<A>,
    chunks: Seq<Seq<A::Sample>>,
    x: Seq<A::Sample>,
    y: Seq<A::Sample>,
)
    requires
        constructed.wf(),
        constructed@ == constructed@.restarted(),
        later@.filter == constructed@.filter,
        later.resets(reset),
        plays::<A>(constructed@, chunks, x),
        plays::<A>(reset@, chunks, y),
    ensures
        reset@ == constructed@,
        !reset@.flushed,
        reset.latency() == constructed.latency(),
        reset.bypasses() == constructed.bypasses(),
        deterministic::<A>() ==> x == y,
{
    if deterministic::<A>() {
        law_runs_agree::<A>(constructed@, chunks, chunks, x, y);
    }
}

/// A run is the output of the input followed by the tail.
pub proof fn lemma_run_is_production<A: Arithmetic>(
    state: Playback<A::Sample>,
    chunks: Seq<Seq<A::Sample>>,
    out: Seq<A::Sample>,
)
    requires
        state.wf(),
    ensures
        plays::<A>(state, chunks, out) <==> produces::<A>(
            state,
            joined(chunks) + state.tail(),
            out,
        ),
{
    let a = joined(chunks);
    let b = state.tail();
    if plays::<A>(state, chunks, out) {
        let cut = choose|cut: int|
            0 <= cut <= out.len() && produces_in_chunks::<A>(
                state,
                chunks,
                #[trigger] out.take(cut),
            ) && produces::<A>(state.fed(a), b, out.skip(cut));
        law_chunking_is_invisible::<A>(state, chunks, out.take(cut));
        assert(out =~= out.take(cut) + out.skip(cut));
        if let Some(f) = state.filter {
            law_chunks_join::<A>(f.bank, state.stream, a, b, out.take(cut), out.skip(cut));
        }
    }
    if produces::<A>(state, a + b, out) {
        let cut = match state.filter {
            None => a.len() as int,
            Some(f) => f.bank.due(state.stream.taken + a.len()) - f.bank.due(state.stream.taken),
        };
        if let Some(f) = state.filter {
            law_chunks_split::<A>(f.bank, state.stream, a, b, out);
        } else {
            assert(out.take(cut) =~= a);
            assert(out.skip(cut) =~= b);
        }
        law_chunking_is_invisible::<A>(state, chunks, out.take(cut));
    }
}

/// Any two chunkings of one stream, each flushed once, have the same output in a
/// deterministic number system: the same length and the same samples.
pub proof fn law_runs_agree<A: Arithmetic>(
    state: Playback<A::Sample>,
    chunks: Seq<Seq<A::Sample>>,
    others: Seq<Seq<A::Sample>>,
    x: Seq<A::Sample>,
    y: Seq<A::Sample>,
)
    requires
        deterministic::<A>(),
        state.wf(),
        joined(chunks) == joined(others),
        plays::<A>(state, chunks, x),
        plays::<A>(state, others, y),
    ensures
        x == y,
{
    lemma_run_is_production::<A>(state, chunks, x);
    lemma_run_is_production::<A>(state, others, y);
    law_production_is_determined::<A>(state, joined(chunks) + state.tail(), x, y);
}

/// Processing after a flush without a reset continues from the drained state: it
/// appends what a resampler fed the stream and the tail as input would append,
/// and in a deterministic number system that is one output.
pub proof fn law_process_after_flush_continues<A: Arithmetic>(
    start: PolyphaseResampler<A>,
    fed: PolyphaseResampler<A>,
    drained: PolyphaseResampler<A>,
    next: PolyphaseResampler<A>,
    stream: Seq<A::Sample>,
    input: Seq<A::Sample>,
    out_stream: Seq<A::Sample>,
    out_tail: Seq<A::Sample>,
    out: Seq<A::Sample>,
    other: Seq<A::Sample>,
)
    requires
        start.wf(),
        start.processes(stream, out_stream, fed),
        fed.flushes(out_tail, drained),
        drained.processes(input, out, next),
    ensures
        produces::<A>(start@.fed(stream + start@.tail()), input, out),
        deterministic::<A>() && produces::<A>(
            start@.fed(stream + start@.tail()),
            input,
            other,
        ) ==> out == other,
{
    if let Some(f) = start@.filter {
        lemma_fed_twice(start@.stream, stream, start@.tail());
        assert(fed@.tail() == start@.tail());
    }
    let ready = start@.fed(stream + start@.tail());
    if deterministic::<A>() && produces::<A>(ready, input, other) {
        law_production_is_determined::<A>(ready, input, out, other);
    }
}

/// One flush empties the resampler: a second one right after it produces
/// silence, in a number system where silence adds nothing to the filter's sums.
pub proof fn law_second_flush_is_silent<A: Arithmetic>(
    start: PolyphaseResampler<A>,
    drained: PolyphaseResampler<A>,
    next: PolyphaseResampler<A>,
    first: Seq<A::Sample>,
    second: Seq<A::Sample>,
)
    requires
        start.wf(),
        start.flushes(first, drained),
        drained.flushes(second, next),
        start@.filter matches Some(f) ==> silence_adds_nothing::<A>(f.bank, f.quiet, f.quiet),
    ensures
        start@.filter is None ==> second.len() == 0,
        start@.filter matches Some(f) ==> forall|i: int|
            0 <= i < second.len() ==> second[i] == f.quiet,
{
    if let Some(f) = start@.filter {
        law_silence_in_silence_out::<A>(
            f.bank,
            f.quiet,
            start@.stream.fed(start@.tail()),
            start@.tail(),
            second,
        );
    }
}

/// The filter of either engine steps at the reduced ratio of its rate pair.
pub proof fn law_filter_has_the_ratio<A: Arithmetic>(
    in_rate: u32,
    out_rate: u32,
    route: Route,
    taps: nat,
    f: Filter<A::Sample>,
    l: u32,
    m: u32,
)
    requires
        in_rate > 0,
        out_rate > 0,
        is_reduced(in_rate as nat, out_rate as nat, l as nat, m as nat),
        route == (Route::Exact { l, m }) || route == (Route::General { l, m }),
        is_filter::<A>(in_rate, out_rate, route, taps, f),
    ensures
        f.bank.num * (l as nat) == f.bank.den * (m as nat),
{
    law_reduced_is_lowest_terms(in_rate as nat, out_rate as nat, l as nat, m as nat);
    assert(l * m == m * l) by (nonlinear_arith);
}

/// Delaying the input by `m` samples of silence delays the output by exactly `l`
/// samples, where `l / m` is the filter's ratio: a run of the delayed input is
/// `l` outputs of silence alone, then a run of the input itself.
pub proof fn law_delayed_input_delays_output<A: Arithmetic>(
    f: Filter<A::Sample>,
    l: nat,
    m: nat,
    input: Seq<A::Sample>,
    out: Seq<A::Sample>,
)
    requires
        f.bank.wf(),
        f.bank.num * l == f.bank.den * m,
    ensures
        ({
            let start = Playback::fresh(f);
            let delay = Seq::new(m, |i: int| f.quiet);
            plays::<A>(start, seq![delay + input], out) <==> l <= out.len() && produces::<A>(
                start,
                delay,
                out.take(l as int),
            ) && plays::<A>(start, seq![input], out.skip(l as int))
        }),
{
    let start = Playback::fresh(f);
    let delay = Seq::new(m, |i: int| f.quiet);
    let tail = start.tail();
    let rest = input + tail;
    lemma_joined_one(delay + input);
    lemma_joined_one(input);
    lemma_run_is_production::<A>(start, seq![delay + input], out);
    assert((delay + input) + tail =~= delay + rest);
    lemma_due_at_start(f.bank.num, f.bank.den);
    law_bank_repeats(f.bank, l, m, 0, 0);
    let delayed = start.stream.fed(delay);
    assert(delayed =~= Stream { taken: start.stream.taken + m, recent: start.stream.recent }) by {
        assert(delayed.recent =~= start.stream.recent);
    }
    if produces::<A>(start, delay + rest, out) {
        law_chunks_split::<A>(f.bank, start.stream, delay, rest, out);
    }
    if l <= out.len() {
        let later = out.skip(l as int);
        lemma_run_is_production::<A>(start, seq![input], later);
        law_emission_is_shift_invariant::<A>(f.bank, l, m, start.stream, rest, later);
        if produces::<A>(start, delay, out.take(l as int)) && produces::<A>(start, rest, later) {
            law_chunks_join::<A>(
                f.bank,
                start.stream,
                delay,
                rest,
                out.take(l as int),
                later,
            );
            assert(out =~= out.take(l as int) + later);
        }
    }
}

/// The delayed run against the plain one: in a deterministic number system it is
/// `l` samples longer and continues as the plain one, and where silence adds
/// nothing to the filter's sums it begins with `l` samples of silence.
pub proof fn law_delayed_run_is_the_run_delayed<A: Arithmetic>(
    f: Filter<A::Sample>,
    l: nat,
    m: nat,
    input: Seq<A::Sample>,
    plain: Seq<A::Sample>,
    delayed: Seq<A::Sample>,
)
    requires
        f.bank.wf(),
        f.bank.num * l == f.bank.den * m,
        plays::<A>(Playback::fresh(f), seq![input], plain),
        plays::<A>(Playback::fresh(f), seq![Seq::new(m, |i: int| f.quiet) + input], delayed),
    ensures
        delayed.len() == plain.len() + l,
        deterministic::<A>() ==> delayed.skip(l as int) == plain,
        silence_adds_nothing::<A>(f.bank, f.quiet, f.quiet) ==> forall|i: int|
            0 <= i < l ==> delayed[i] == f.quiet,
{
    let start = Playback::fresh(f);
    let delay = Seq::new(m, |i: int| f.quiet);
    law_delayed_input_delays_output::<A>(f, l, m, input, delayed);
    let later = delayed.skip(l as int);
    law_run_length::<A>(f, seq![input], plain);
    law_run_length::<A>(f, seq![input], later);
    if deterministic::<A>() {
        law_runs_agree::<A>(start, seq![input], seq![input], later, plain);
    }
    if silence_adds_nothing::<A>(f.bank, f.quiet, f.quiet) {
        law_silence_in_silence_out::<A>(
            f.bank,
            f.quiet,
            start.stream,
            delay,
            delayed.take(l as int),
        );
        assert forall|i: int| 0 <= i < l implies delayed[i] == f.quiet by {
            assert(delayed.take(l as int)[i] == delayed[i]);
        }
    }
}

proof fn lemma_joined_one<S>(chunk: Seq<S>)
    ensures
        joined(seq![chunk]) == chunk,
{
    let one = seq![chunk];
    assert(one.drop_last() =~= Seq::empty());
    assert(joined(one.drop_last()) =~= Seq::<S>::empty());
    assert(joined(one) =~= chunk);
}

/// `y` is the response to the sample `x` where it meets coefficient `i` of the
/// prototype alone: zero plus the product of the coefficient's tap and `x`.
pub open spec fn responds<A: Arithmetic>(
    coeffs: Seq<A::Real>,
    scale: A::Real,
    quiet: A::Sample,
    i: nat,
    x: A::Sample,
    y: A::Sample,
) -> bool {
    exists|tap: A::Sample, acc: A::Real|
        is_entry::<A>(coeffs, scale, quiet, i, tap) && #[trigger] gives::<A>(
            Formula::Count(0).plus(Formula::Widened(tap).times(Formula::Widened(x))),
            acc,
        ) && call_ensures(A::narrow, (acc,), y)
}

/// The impulse response of the exact engine is its prototype, decimated: a single
/// sample `x`, flushed, gives more than `2 * delay` outputs, and output `k` is the
/// product of `x` and coefficient `k * m`, which past `2 * delay` is silence. This
/// needs that silence adds nothing to the filter's sums.
pub proof fn law_exact_impulse_response<A: Arithmetic>(
    in_rate: u32,
    out_rate: u32,
    l: u32,
    m: u32,
    n: nat,
    f: Filter<A::Sample>,
    x: A::Sample,
    out: Seq<A::Sample>,
)
    requires
        f.bank.wf(),
        n >= 1,
        is_exact_filter::<A>(in_rate, out_rate, l, m, n, f),
        silence_adds_nothing::<A>(f.bank, f.quiet, x),
        plays::<A>(Playback::fresh(f), seq![seq![x]], out),
    ensures
        out.len() > 2 * f.delay,
        forall|k: nat| k > 2 * f.delay ==> #[trigger] (k * m) >= n,
        exists|coeffs: Seq<A::Real>, scale: A::Real|
            is_prototype::<A>(exact_band(in_rate, out_rate, m, DESIGN_STOPBAND_DB), coeffs)
                && coeffs.len() == n && #[trigger] decomposes_by::<A>(
                coeffs,
                l as nat,
                f.bank.tpp,
                f.quiet,
                scale,
                f.bank.table,
            ) && forall|k: nat|
                k < out.len() ==> #[trigger] responds::<A>(
                    coeffs,
                    scale,
                    f.quiet,
                    k * m as nat,
                    x,
                    out[k as int],
                ),
{
    let start = Playback::fresh(f);
    let input = seq![x] + start.tail();
    let band = exact_band(in_rate, out_rate, m, DESIGN_STOPBAND_DB);
    lemma_joined_one(seq![x]);
    lemma_run_is_production::<A>(start, seq![seq![x]], out);
    law_run_length::<A>(f, seq![seq![x]], out);
    law_taps_per_phase(n, l as nat);
    let d = f.delay as nat;
    assert((2 * d) * m == n - 1) by (nonlinear_arith)
        requires
            d * (2 * m) == n - 1,
    ;
    law_due_when_newest_arrived(f.bank.num, f.bank.den, 2 * d, f.bank.tpp);
    assert forall|k: nat| k > 2 * d implies #[trigger] (k * m) >= n by {
        assert(k * m >= n) by (nonlinear_arith)
            requires
                k >= 2 * d + 1,
                (2 * d) * m == n - 1,
                m >= 1,
        ;
    }
    let coeffs = choose|c: Seq<A::Real>| #[trigger]
        table_by::<A>(band, n, l as nat, f.quiet, c, f.bank.table);
    let scale = choose|s: A::Real| #[trigger]
        decomposes_by::<A>(coeffs, l as nat, f.bank.tpp, f.quiet, s, f.bank.table);
    assert forall|k: nat| k < out.len() implies #[trigger] responds::<A>(
        coeffs,
        scale,
        f.quiet,
        k * m as nat,
        x,
        out[k as int],
    ) by {
        law_due_when_newest_arrived(f.bank.num, f.bank.den, k, f.bank.tpp);
        law_impulse_response::<A>(f.bank, f.quiet, x, input, out, k);
        law_impulse_response_index(f.bank, k);
        law_position_is_exact(f.bank, k);
        let p = f.bank.phase(k);
        let j = f.bank.newest(k);
        let (eta, acc) = choose|eta: Option<A::Real>, acc: A::Real|
            is_blend::<A>(f.bank, k, eta) && #[trigger] gives::<A>(
                Formula::Count(0).plus(
                    weight(f.bank, p, eta, j).times(Formula::Widened(x)),
                ),
                acc,
            ) && call_ensures(A::narrow, (acc,), out[k as int]);
        let tap = f.bank.tap(p, j);
        assert(is_entry::<A>(
            coeffs,
            scale,
            f.quiet,
            p + l as nat * j,
            f.bank.table[(p * f.bank.tpp + j) as int],
        ));
        assert(gives::<A>(
            Formula::Count(0).plus(Formula::Widened(tap).times(Formula::Widened(x))),
            acc,
        ));
    }
}

/// The impulse response of the exact engine mirrors about its latency: outputs
/// `k` and `2 * delay - k` of a single sample, flushed, are the same wherever they
/// are numbers. Besides what [`law_exact_impulse_response`] needs, this needs a
/// deterministic number system that treats signs alike.
pub proof fn law_exact_impulse_response_is_symmetric<A: Arithmetic>(
    in_rate: u32,
    out_rate: u32,
    l: u32,
    m: u32,
    n: nat,
    f: Filter<A::Sample>,
    x: A::Sample,
    out: Seq<A::Sample>,
    k: nat,
)
    requires
        deterministic::<A>(),
        numbers_come_from_numbers::<A>(),
        sign_symmetric::<A>(),
        rounding_respects_equality::<A>(),
        half_pi_is_positive::<A>(),
        offsets_mirror::<A>(((n - 1) / 2) as u64),
        f.bank.wf(),
        1 <= n <= u64::MAX,
        is_exact_filter::<A>(in_rate, out_rate, l, m, n, f),
        silence_adds_nothing::<A>(f.bank, f.quiet, x),
        plays::<A>(Playback::fresh(f), seq![seq![x]], out),
        k <= 2 * f.delay,
        is_number_sample::<A>(out[k as int]),
    ensures
        out[k as int] == out[2 * f.delay - k],
{
    law_exact_impulse_response::<A>(in_rate, out_rate, l, m, n, f, x, out);
    let band = exact_band(in_rate, out_rate, m, DESIGN_STOPBAND_DB);
    let (coeffs, scale) = choose|coeffs: Seq<A::Real>, scale: A::Real|
        is_prototype::<A>(band, coeffs) && coeffs.len() == n && #[trigger] decomposes_by::<A>(
            coeffs,
            l as nat,
            f.bank.tpp,
            f.quiet,
            scale,
            f.bank.table,
        ) && forall|k: nat|
            k < out.len() ==> #[trigger] responds::<A>(
                coeffs,
                scale,
                f.quiet,
                k * m as nat,
                x,
                out[k as int],
            );
    let j = (2 * f.delay - k) as nat;
    let a = k * m as nat;
    let b = j * m as nat;
    let half = f.delay * m;
    assert(f.delay * (2 * m) == 2 * half) by (nonlinear_arith)
        requires
            half == f.delay * m,
    ;
    assert(a + b == (k + j) * m) by (nonlinear_arith)
        requires
            a == k * m,
            b == j * m,
    ;
    assert((2 * f.delay) * m == 2 * half) by (nonlinear_arith)
        requires
            half == f.delay * m,
    ;
    assert(responds::<A>(coeffs, scale, f.quiet, a, x, out[k as int]));
    assert(responds::<A>(coeffs, scale, f.quiet, b, x, out[j as int]));
    lemma_mirrored_responses::<A>(
        band,
        coeffs,
        scale,
        f.quiet,
        a,
        b,
        x,
        out[k as int],
        out[j as int],
    );
}

/// Coefficients equally far from the two ends have the same response.
proof fn lemma_mirrored_responses<A: Arithmetic>(
    band: Band,
    coeffs: Seq<A::Real>,
    scale: A::Real,
    quiet: A::Sample,
    a: nat,
    b: nat,
    x: A::Sample,
    y: A::Sample,
    z: A::Sample,
)
    requires
        deterministic::<A>(),
        numbers_come_from_numbers::<A>(),
        sign_symmetric::<A>(),
        rounding_respects_equality::<A>(),
        half_pi_is_positive::<A>(),
        offsets_mirror::<A>(((coeffs.len() - 1) / 2) as u64),
        is_prototype::<A>(band, coeffs),
        coeffs.len() % 2 == 1,
        coeffs.len() <= u64::MAX,
        a + b == coeffs.len() - 1,
        responds::<A>(coeffs, scale, quiet, a, x, y),
        responds::<A>(coeffs, scale, quiet, b, x, z),
        is_number_sample::<A>(y),
    ensures
        y == z,
{
    let (tap, acc) = choose|tap: A::Sample, acc: A::Real|
        is_entry::<A>(coeffs, scale, quiet, a, tap) && #[trigger] gives::<A>(
            Formula::Count(0).plus(Formula::Widened(tap).times(Formula::Widened(x))),
            acc,
        ) && call_ensures(A::narrow, (acc,), y);
    let (tap2, acc2) = choose|tap: A::Sample, acc: A::Real|
        is_entry::<A>(coeffs, scale, quiet, b, tap) && #[trigger] gives::<A>(
            Formula::Count(0).plus(Formula::Widened(tap).times(Formula::Widened(x))),
            acc,
        ) && call_ensures(A::narrow, (acc,), z);
    let c = coeffs[a as int];
    let c2 = coeffs[b as int];
    let s = choose|v: A::Real| #[trigger] scaled_by::<A>(c, scale, v, tap);
    let s2 = choose|v: A::Real| #[trigger] scaled_by::<A>(c2, scale, v, tap2);
    let (zero, p) = lemma_operands::<A>(
        Binary::Plus,
        Formula::Count(0),
        Formula::Widened(tap).times(Formula::Widened(x)),
        acc,
    );
    let (zero2, p2) = lemma_operands::<A>(
        Binary::Plus,
        Formula::Count(0),
        Formula::Widened(tap2).times(Formula::Widened(x)),
        acc2,
    );
    let (u, w) = lemma_operands::<A>(
        Binary::Times,
        Formula::Widened(tap),
        Formula::Widened(x),
        p,
    );
    let (u2, w2) = lemma_operands::<A>(
        Binary::Times,
        Formula::Widened(tap2),
        Formula::Widened(x),
        p2,
    );
    let (d, e) = lemma_operands::<A>(Binary::Times, Formula::Value(c), Formula::Value(scale), s);
    let (d2, e2) = lemma_operands::<A>(
        Binary::Times,
        Formula::Value(c2),
        Formula::Value(scale),
        s2,
    );
    lemma_gives_once::<A>(Formula::Count(0), zero, zero2);
    lemma_gives_once::<A>(Formula::Widened(x), w, w2);
    assert(is_number::<A>(acc));
    assert(is_number::<A>(s));
    law_prototype_is_symmetric::<A>(band, coeffs, a as int);
    assert(alike::<A>(s, s2));
    assert(alike::<A>(u, u2));
    assert(alike::<A>(p, p2));
}

/// The exact and the general engine keep the same schedule for a rate pair: the
/// reduced ratio `l / m` and the rates themselves make the same outputs due,
/// each over the same newest input.
pub proof fn law_engines_keep_one_schedule(
    in_rate: nat,
    out_rate: nat,
    l: nat,
    m: nat,
    n: nat,
    taken: nat,
)
    requires
        in_rate > 0,
        out_rate > 0,
        is_reduced(in_rate, out_rate, l, m),
    ensures
        newest_input(in_rate, out_rate, n) == newest_input(m, l, n),
        outputs_due(in_rate, out_rate, taken) == outputs_due(m, l, taken),
{
    let g = choose|g: nat| #[trigger]
        is_gcd(out_rate, in_rate, g) && out_rate == g * l && in_rate == g * m;
    assert(g > 0 && l > 0 && m > 0) by (nonlinear_arith)
        requires
            out_rate == g * l,
            in_rate == g * m,
            out_rate > 0,
            in_rate > 0,
    ;
    law_reduction_keeps_schedule(m, l, g, n, taken);
}

/// The length of a whole run from a fresh start: the outputs due once the input
/// and the tail are in. That is at least the bare resampled count of the input.
pub proof fn law_run_length<A: Arithmetic>(
    f: Filter<A::Sample>,
    chunks: Seq<Seq<A::Sample>>,
    out: Seq<A::Sample>,
)
    requires
        f.bank.wf(),
        plays::<A>(Playback::fresh(f), chunks, out),
    ensures
        out.len() == f.bank.due((joined(chunks).len() + f.bank.tpp - 1) as nat),
        out.len() >= (joined(chunks).len() * f.bank.den) / f.bank.num,
{
    let state = Playback::fresh(f);
    let input = joined(chunks);
    let cut = choose|cut: int|
        0 <= cut <= out.len() && produces_in_chunks::<A>(
            state,
            chunks,
            #[trigger] out.take(cut),
        ) && produces::<A>(state.fed(input), state.tail(), out.skip(cut));
    law_chunking_is_invisible::<A>(state, chunks, out.take(cut));
    lemma_due_at_start(f.bank.num, f.bank.den);
    let all = (input.len() + f.bank.tpp - 1) as nat;
    assert(state.fed(input).stream.taken + state.tail().len() == all);
    lemma_due_monotone(f.bank.num, f.bank.den, input.len(), all);
    law_due_is_bare_count_rounded_up(f.bank.num, f.bank.den, input.len());
}

}
