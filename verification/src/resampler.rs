//! The streaming [`Resampler`] trait, this crate's public seam.

use vstd::prelude::*;

verus! {

/// A streaming, stateful sample-rate resampler for a mono channel.
///
/// An implementation converts a continuous stream of samples from a fixed input
/// rate to a fixed output rate. It is a long-lived object fed one chunk after
/// another for the life of a stream: it carries internal state (anti-alias
/// filter history and the fractional sample position) between calls.
///
/// Construction validates the rates and is the only fallible operation; once an
/// instance exists, every method on this trait is infallible.
///
/// # The streaming carry
///
/// Successive [`process`](Resampler::process) calls carry filter history and the
/// fractional sample position across the chunk boundary, so the boundary is
/// invisible in the output. Every implementation proves this as
/// [`law_streaming_carry`](Resampler::law_streaming_carry).
///
/// # Output length
///
/// [`process`](Resampler::process) appends its output to the caller-owned buffer
/// and may append nothing when the input is too small to produce a complete
/// output sample, in which case the input is retained internally and
/// contributes to a later call. Implementations append to the buffer and do not
/// clear it.
///
/// # End of stream: flush once, then reset to reuse
///
/// At end of stream, call [`flush`](Resampler::flush) once to drain the samples
/// still held in the filter's group-delay tail. After flushing, the instance
/// must be [`reset`](Resampler::reset) before it is fed more input. Calling
/// [`process`](Resampler::process) after `flush` without an intervening `reset`
/// continues from the drained state and is not the intended use.
///
/// # Identity bypass
///
/// When the input and output rates are equal,
/// [`is_identity`](Resampler::is_identity) returns `true` and the implementation
/// is a passthrough: [`process`](Resampler::process) appends the input unchanged,
/// [`latency_samples`](Resampler::latency_samples) is `0`, and
/// [`flush`](Resampler::flush) appends nothing.
pub trait Resampler: Send + Sized {
    /// A sample of the channel.
    type Sample;

    /// The instance is in order. Every method needs and keeps this.
    spec fn wf(&self) -> bool;

    /// The counters of stream positions have room for `extra` more samples.
    spec fn has_room(&self, extra: nat) -> bool;

    /// How many samples of silence a flush feeds.
    spec fn tail_len(&self) -> nat;

    /// Input and output rates are equal.
    spec fn bypasses(&self) -> bool;

    /// The algorithmic latency, in output samples.
    spec fn latency(&self) -> usize;

    /// Processing `input` in this state may append `out` and leave the instance
    /// as `next`.
    spec fn processes(
        &self,
        input: Seq<Self::Sample>,
        out: Seq<Self::Sample>,
        next: Self,
    ) -> bool;

    /// Flushing in this state may append `out` and leave the instance as `next`.
    spec fn flushes(&self, out: Seq<Self::Sample>, next: Self) -> bool;

    /// Resetting in this state leaves the instance as `next`.
    spec fn resets(&self, next: Self) -> bool;

    /// The streaming carry: two chunks in a row do what their concatenation does
    /// in a single call, in the output and in the state that remains.
    proof fn law_streaming_carry(
        first: Self,
        second: Self,
        third: Self,
        a: Seq<Self::Sample>,
        b: Seq<Self::Sample>,
        out_a: Seq<Self::Sample>,
        out_b: Seq<Self::Sample>,
    )
        requires
            first.wf(),
            first.processes(a, out_a, second),
            second.processes(b, out_b, third),
        ensures
            first.processes(a + b, out_a + out_b, third),
    ;

    /// Resamples `input` and appends the produced samples to `output`.
    ///
    /// `input` is of any length, zero among them. The number of samples produced
    /// varies and may be zero for a small input. State carries across calls so
    /// the chunk boundary is invisible.
    fn process(&mut self, input: &[Self::Sample], output: &mut Vec<Self::Sample>)
        requires
            old(self).wf(),
            old(self).has_room(input@.len()),
        ensures
            final(self).wf(),
            final(self).bypasses() == old(self).bypasses(),
            final(self).latency() == old(self).latency(),
            final(output)@.len() >= old(output)@.len(),
            final(output)@.take(old(output)@.len() as int) == old(output)@,
            old(self).processes(
                input@,
                final(output)@.skip(old(output)@.len() as int),
                *final(self),
            ),
            old(self).bypasses() ==> final(output)@ == old(output)@ + input@,
    ;

    /// Drains the end-of-stream tail into `output`.
    ///
    /// Call once at end of stream; after it, call [`reset`](Resampler::reset)
    /// before feeding more input. For an identity bypass this appends nothing.
    fn flush(&mut self, output: &mut Vec<Self::Sample>)
        requires
            old(self).wf(),
            old(self).has_room(old(self).tail_len()),
        ensures
            final(self).wf(),
            final(self).bypasses() == old(self).bypasses(),
            final(self).latency() == old(self).latency(),
            final(output)@.len() >= old(output)@.len(),
            final(output)@.take(old(output)@.len() as int) == old(output)@,
            old(self).flushes(final(output)@.skip(old(output)@.len() as int), *final(self)),
            old(self).bypasses() ==> final(output)@ == old(output)@,
    ;

    /// Returns the constant algorithmic latency, in output samples: the
    /// anti-alias filter's group delay at the output rate. It is `0` for an
    /// identity bypass.
    fn latency_samples(&self) -> (n: usize)
        requires
            self.wf(),
        ensures
            n == self.latency(),
            self.bypasses() ==> n == 0,
    ;

    /// Returns `true` when the input and output rates are equal.
    fn is_identity(&self) -> (b: bool)
        requires
            self.wf(),
        ensures
            b == self.bypasses(),
    ;

    /// Clears all streaming state, returning the instance to its
    /// just-constructed condition. The configured rates and filter geometry are
    /// kept and no reallocation occurs.
    fn reset(&mut self)
        requires
            old(self).wf(),
        ensures
            final(self).wf(),
            final(self).bypasses() == old(self).bypasses(),
            final(self).latency() == old(self).latency(),
            old(self).resets(*final(self)),
    ;
}

}
