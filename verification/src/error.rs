//! Construction errors.

use vstd::prelude::*;

verus! {

/// Errors produced by the resampler.
///
/// This enum is `#[non_exhaustive]`: consumers pattern-matching on it must
/// have a `_ =>` catch-all arm so future variant additions are not
/// source-breaking.
#[derive(Debug)]
#[non_exhaustive]
pub enum ResamplerError {
    /// A construction sample rate was zero. Input and output rates must both
    /// be greater than zero.
    ZeroSampleRate,
    /// Construction rejected a rate pair whose anti-aliasing filter would
    /// exceed the crate's maximum supported prototype length.
    ///
    /// The payload carries the offending rates; they are not formatted into the
    /// message, so its text stays stable.
    RatePairUnsupported { in_rate: u32, out_rate: u32 },
}

impl ResamplerError {
    /// The error's text.
    pub open spec fn text(self) -> Seq<char> {
        match self {
            ResamplerError::ZeroSampleRate => "sample rate must be greater than 0"@,
            ResamplerError::RatePairUnsupported { .. } =>
                "the requested rate pair requires a filter larger than the supported maximum"@,
        }
    }

    /// The error in words.
    pub fn message(&self) -> (text: &'static str)
        ensures
            text@ == self.text(),
    {
        match self {
            ResamplerError::ZeroSampleRate => "sample rate must be greater than 0",
            ResamplerError::RatePairUnsupported { .. } =>
                "the requested rate pair requires a filter larger than the supported maximum",
        }
    }
}

}
