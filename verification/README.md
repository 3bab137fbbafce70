# decibri-resampler

A streaming, anti-aliased sample-rate resampler for mono audio, verified with
Verus.

## Layout

- `src/` is the library, all of it verified. It is generic over the number system
  it computes in (`Arithmetic`) and assumes nothing about it: contracts say which
  operations are performed on what, in which order. Laws about the numbers
  themselves name what they need of the number system, such as `deterministic` or
  `sign_symmetric`, as a premise.
  - `ratio`: greatest common divisor and lowest terms.
  - `schedule`: which input each output reads, in exact integer arithmetic.
  - `stream`: what a filter bank emits for a stretch of input, and why chunk
    boundaries are invisible.
  - `arithmetic`: the operations, formulas over them, and terms that calculate.
  - `special`, `kernel`, `table`: sine and Bessel functions, Kaiser-windowed sinc
    prototypes, and their decomposition into phases.
  - `history`, `exact`, `general`: the ring of recent samples and the two engines.
  - `resampler`, `polyphase`, `error`: the public trait, the resampler that
    dispatches between engines, and its errors.
- `app/` is the `f32` front end: the number system of `f32` samples with `f64`
  sums, `tracing` events, and `std::error::Error`.
- `tests/` runs the library over `f32`.

## Properties

- Streaming and stateful: filter state carries across calls, so chunk boundaries
  are invisible in the output.
- Deterministic by construction: a fixed accumulation order, no fused
  multiply-add, no platform-dependent transcendentals. The library proves that
  equal calls give equal samples in every number system whose single operations
  are deterministic.
- Reports its algorithmic latency in output samples.
- Identity bypass at equal rates: passthrough with zero added latency.
- Exact handling of common integer-Hz conversions, with an arbitrary-ratio path
  for other rates.
