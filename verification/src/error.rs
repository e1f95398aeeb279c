use vstd::prelude::*;

verus! {

/// Why an operation of this library gave no result.
#[derive(Debug, Clone, PartialEq, Eq)]
pub enum AudioError {
    /// The file extension is not one of the recognised audio formats.
    /// Carries the extension as it was found in the path.
    UnsupportedFormat { extension: String },
    /// The decoder failed, or it produced no samples at all.
    DecodeFailure,
    /// The voice-activity classifier could not be set up.
    ClassifierFailure,
    /// The samples cannot be laid out as a container: a size field would not fit.
    EncodingFailure,
    /// The requested range holds no samples.
    InvalidRange,
    /// The text is not base64. Carries the decoder's own words.
    InvalidText { detail: String },
    /// A step of the processing of a file was reported out of turn.
    OutOfTurn,
    /// The two sample rates have no conversion: the source rate is zero, or the
    /// result would be longer than can be counted.
    ResampleFailure,
}

} // verus!
