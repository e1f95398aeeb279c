//! Text-safe form of a container, for embedding in a text transport.

use vstd::prelude::*;
use crate::error::AudioError;
use crate::processor::{AudioProcessor, TARGET_SAMPLE_RATE};
use crate::resample::{can_resample, resampled};
use crate::wav::{encode_wav, wav_bytes, wav_encodable, HEADER_LEN};

verus! {

/// The base64 text of `bytes`, as `base64::encode` gives it: standard alphabet,
/// with padding.
pub uninterp spec fn base64_text(bytes: Seq<u8>) -> Seq<char>;

/// The bytes that `text` stands for as base64, as `base64::decode` reads it:
/// standard alphabet, with padding. `None` where it stands for none.
pub uninterp spec fn base64_bytes(text: Seq<char>) -> Option<Seq<u8>>;

/// The number of characters in the base64 text of `byte_count` bytes.
pub open spec fn base64_len(byte_count: nat) -> nat {
    4 * ((byte_count + 2) / 3)
}

/// The error of `base64::decode`.
#[verifier::external_type_specification]
#[verifier::external_body]
pub struct ExDecodeError(base64::DecodeError);

/// Calls `base64::encode`, which encodes with the standard alphabet and pads
/// the last group with `=`.
///
/// Trusted: the text is `base64_text` of the bytes and has four characters for
/// every three bytes begun. The bound keeps out the lengths for which the
/// encoder cannot size its buffer and panics.
#[verifier::external_body]
#[allow(deprecated)]
fn encode_base64(bytes: &Vec<u8>) -> (text: String)
    requires
        base64_len(bytes@.len()) <= usize::MAX,
    ensures
        text@ == base64_text(bytes@),
        text@.len() == base64_len(bytes@.len()),
{
    base64::encode(bytes)
}

/// Calls `base64::decode`, which decodes with the standard alphabet and asks
/// for canonical padding.
///
/// Trusted: it succeeds exactly on the texts that stand for bytes, and then
/// gives `base64_bytes` of the text.
#[verifier::external_body]
#[allow(deprecated)]
fn decode_base64(text: &str) -> (r: Result<Vec<u8>, base64::DecodeError>)
    ensures
        r is Ok <==> base64_bytes(text@) is Some,
        r is Ok ==> r->Ok_0@ == base64_bytes(text@)->Some_0,
{
    base64::decode(text)
}

/// Writes out the `Display` form of the error of `base64::decode`.
///
/// Trusted, and nothing is claimed of the words.
#[verifier::external_body]
fn decode_error_words(error: &base64::DecodeError) -> (words: String) {
    format!("{}", error)
}

/// Whether `sample_count` samples at `sample_rate` hertz have a text-safe
/// container: the header fields fit, and so does the length of the text.
pub open spec fn text_encodable(sample_count: nat, sample_rate: u32) -> bool {
    wav_encodable(sample_count, sample_rate) && base64_len(HEADER_LEN as nat + 2 * sample_count)
        <= usize::MAX
}

/// The text stored with a segment: the base64 text of its container, or the
/// empty text where the samples have no text-safe container.
pub open spec fn container_text(samples: Seq<i16>, sample_rate: u32) -> Seq<char> {
    if text_encodable(samples.len(), sample_rate) {
        base64_text(wav_bytes(samples, sample_rate))
    } else {
        Seq::empty()
    }
}

/// Gives `text` as the stored form of a container, or the empty text for a
/// failed encoding.
pub fn text_or_empty(encoded: Result<String, AudioError>) -> (text: String)
    ensures
        text@ == (match encoded {
            Ok(t) => t@,
            Err(_) => Seq::<char>::empty(),
        }),
{
    match encoded {
        Ok(t) => t,
        Err(_) => String::new(),
    }
}

/// Gives the bytes of an audio file as base64 text.
///
/// Fails with `EncodingFailure` exactly when the text would be longer than
/// `usize` can count.
pub fn convert_audio_to_base64(audio_bytes: &Vec<u8>) -> (r: Result<String, AudioError>)
    ensures
        base64_len(audio_bytes@.len()) <= usize::MAX ==> r is Ok && r->Ok_0@ == base64_text(
            audio_bytes@,
        ) && r->Ok_0@.len() == base64_len(audio_bytes@.len()),
        base64_len(audio_bytes@.len()) > usize::MAX ==> r == Err::<String, AudioError>(
            AudioError::EncodingFailure,
        ),
{
    let n = audio_bytes.len();
    let groups = if n % 3 > 0 {
        n / 3 + 1
    } else {
        n / 3
    };
    assert(groups == (n + 2) / 3);
    if groups > usize::MAX / 4 {
        return Err(AudioError::EncodingFailure);
    }
    Ok(encode_base64(audio_bytes))
}

/// Gives the bytes that base64 text stands for.
///
/// Fails with `InvalidText`, which carries the decoder's words, exactly when
/// the text stands for no bytes.
pub fn audio_from_base64(audio_base64: &str) -> (r: Result<Vec<u8>, AudioError>)
    ensures
        match base64_bytes(audio_base64@) {
            Some(bytes) => r is Ok && r->Ok_0@ == bytes,
            None => r is Err && r->Err_0 is InvalidText,
        },
{
    match decode_base64(audio_base64) {
        Ok(bytes) => Ok(bytes),
        Err(error) => Err(AudioError::InvalidText { detail: decode_error_words(&error) }),
    }
}

impl AudioProcessor {
    /// Encodes `samples` at `sample_rate` hertz as a container.
    ///
    /// Fails exactly when a size field of the header would not fit in 32 bits.
    pub fn samples_to_wav_bytes(&self, samples: &[i16], sample_rate: u32) -> (r: Result<
        Vec<u8>,
        AudioError,
    >)
        ensures
            wav_encodable(samples@.len(), sample_rate) ==> r is Ok && r->Ok_0@ == wav_bytes(
                samples@,
                sample_rate,
            ),
            !wav_encodable(samples@.len(), sample_rate) ==> r == Err::<Vec<u8>, AudioError>(
                AudioError::EncodingFailure,
            ),
    {
        encode_wav(samples, sample_rate)
    }

    /// Encodes `samples` at this processor's rate as a container in base64 text.
    ///
    /// Fails exactly when the samples have no text-safe container.
    pub fn samples_to_wav_base64(&self, samples: &[i16]) -> (r: Result<String, AudioError>)
        ensures
            text_encodable(samples@.len(), self.rate()) ==> r is Ok && r->Ok_0@ == base64_text(
                wav_bytes(samples@, self.rate()),
            ),
            !text_encodable(samples@.len(), self.rate()) ==> r == Err::<String, AudioError>(
                AudioError::EncodingFailure,
            ),
    {
        match encode_wav(samples, self.sample_rate()) {
            Ok(bytes) => convert_audio_to_base64(&bytes),
            Err(error) => Err(error),
        }
    }

    /// Brings `samples` from `source_rate` to the target rate and encodes them
    /// as a container at that rate.
    ///
    /// Fails with `ResampleFailure` where the rates have no conversion, and
    /// with `EncodingFailure` where the converted samples have no container.
    pub fn convert_to_wav(&self, samples: &[i16], source_rate: u32) -> (r: Result<
        Vec<u8>,
        AudioError,
    >)
        ensures
            ({
                let converted = resampled(samples@, source_rate, TARGET_SAMPLE_RATE);
                if !can_resample(samples@.len(), source_rate, TARGET_SAMPLE_RATE) {
                    r == Err::<Vec<u8>, AudioError>(AudioError::ResampleFailure)
                } else if !wav_encodable(converted.len(), TARGET_SAMPLE_RATE) {
                    r == Err::<Vec<u8>, AudioError>(AudioError::EncodingFailure)
                } else {
                    r is Ok && r->Ok_0@ == wav_bytes(converted, TARGET_SAMPLE_RATE)
                }
            }),
    {
        match self.resample_audio(samples, source_rate, TARGET_SAMPLE_RATE) {
            Ok(converted) => encode_wav(converted.as_slice(), TARGET_SAMPLE_RATE),
            Err(error) => Err(error),
        }
    }
}

} // verus!
