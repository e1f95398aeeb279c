//! Speech segmentation for 16-bit mono audio: sample-rate conversion, assembly of
//! speech segments from per-chunk labels, gap-based merging, and encoding of each
//! segment as a self-contained PCM container.

pub mod arith;
pub mod assemble;
pub mod decode;
pub mod error;
pub mod extract;
pub mod merge;
pub mod pipeline;
pub mod processor;
pub mod resample;
pub mod segment;
pub mod text;
pub mod wav;

pub use assemble::{find_speech_spans, SampleSpan};
pub use decode::{after_packet_decode, after_packet_read, mix_down_into, DecodeStep, PacketDecode, PacketRead};
pub use error::AudioError;
pub use pipeline::{admit_extension, is_supported_format, Milestone, PipelineAction, PipelineEvent, PipelineStep};
pub use processor::{AudioProcessor, Stage, CHUNK_SIZE, DEFAULT_MAX_GAP_MS, TARGET_SAMPLE_RATE};
pub use segment::{AudioSegment, ChunkLabel};
pub use text::{audio_from_base64, convert_audio_to_base64};
pub use wav::{encode_wav, parse_wav_header, WavHeader};
