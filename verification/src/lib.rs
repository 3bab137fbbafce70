//! A streaming, anti-aliased sample-rate resampler for a mono channel.
//!
//! [`PolyphaseResampler`] converts between two integer-Hz rates, driven through
//! the [`Resampler`] trait. It is generic over the number system it computes in,
//! an [`Arithmetic`]; for `f32` audio that is `f32` samples with `f64` sums.

pub mod arithmetic;
pub mod construction;
pub mod convolution;
pub mod design;
pub mod error;
pub mod exact;
pub mod general;
pub mod history;
pub mod kernel;
pub mod polyphase;
pub mod prototype;
pub mod ratio;
pub mod reading;
pub mod resampler;
pub mod schedule;
pub mod series;
pub mod special;
pub mod stream;
pub mod table;

pub use arithmetic::Arithmetic;
pub use error::ResamplerError;
pub use polyphase::PolyphaseResampler;
pub use resampler::Resampler;
