//! What to make of a decoder's packets.
//!
//! The decoder itself runs outside this library. It reports what came of each
//! read and each decode; the functions here say how to go on, mix the decoded
//! frames down to one channel, and judge the result.

use vstd::prelude::*;
use vstd::string::StringExecFns;
use crate::arith::trunc_div;
use crate::error::AudioError;
use crate::processor::AudioProcessor;

verus! {

/// The sample rate taken for a track that states none.
pub const DEFAULT_SOURCE_RATE: u32 = 44100;

/// What came of reading the next packet of the stream.
#[derive(Debug, Clone, PartialEq, Eq)]
pub enum PacketRead {
    /// A packet of the track with this number.
    Packet { track_id: u32 },
    /// The reader asks to be set up anew.
    ResetRequired,
    /// Input failed; `unexpected_eof` says whether the input ended early, and
    /// `message` is the failure in words.
    IoError { unexpected_eof: bool, message: String },
    /// Any other failure.
    OtherError,
}

/// What came of decoding a packet.
#[derive(Debug, Clone, Copy, PartialEq, Eq, Structural)]
pub enum PacketDecode {
    /// The packet gave samples.
    Decoded,
    /// Input failed while decoding.
    IoError,
    /// The packet is damaged.
    DecodeError,
    /// Any other failure.
    OtherError,
}

/// How decoding goes on.
#[derive(Debug, Clone, Copy, PartialEq, Eq, Structural)]
pub enum DecodeStep {
    /// Go on with this packet: decode what was read, keep what was decoded.
    Proceed,
    /// Leave this packet out and read the next.
    Skip,
    /// The stream is at its end; what was decoded so far is the result.
    Finish,
    /// Decoding failed; there is no result.
    Fail,
}

/// The words by which a reader reports the clean end of its stream.
pub open spec fn end_of_stream_message() -> Seq<char> {
    "end of stream"@
}

/// How decoding goes on after a read, for the track `track_id`.
///
/// A request for a reset and a clean end of the stream both end decoding with
/// success; a packet of another track is left out.
pub open spec fn read_step(read: PacketRead, track_id: u32) -> DecodeStep {
    match read {
        PacketRead::Packet { track_id: found } => if found == track_id {
            DecodeStep::Proceed
        } else {
            DecodeStep::Skip
        },
        PacketRead::ResetRequired => DecodeStep::Finish,
        PacketRead::IoError { unexpected_eof, message } => if unexpected_eof && message@
            == end_of_stream_message() {
            DecodeStep::Finish
        } else {
            DecodeStep::Fail
        },
        PacketRead::OtherError => DecodeStep::Fail,
    }
}

/// How decoding goes on after a packet was decoded.
///
/// Failed input ends decoding with what there is; a damaged packet is left out.
pub open spec fn decode_step(outcome: PacketDecode) -> DecodeStep {
    match outcome {
        PacketDecode::Decoded => DecodeStep::Proceed,
        PacketDecode::IoError => DecodeStep::Finish,
        PacketDecode::DecodeError => DecodeStep::Skip,
        PacketDecode::OtherError => DecodeStep::Fail,
    }
}

/// Says how decoding goes on after a read, for the track `track_id`.
pub fn after_packet_read(read: &PacketRead, track_id: u32) -> (step: DecodeStep)
    ensures
        step == read_step(*read, track_id),
{
    match read {
        PacketRead::Packet { track_id: found } => {
            if *found == track_id {
                DecodeStep::Proceed
            } else {
                DecodeStep::Skip
            }
        },
        PacketRead::ResetRequired => DecodeStep::Finish,
        PacketRead::IoError { unexpected_eof, message } => {
            let clean_end = String::from_str("end of stream");
            if *unexpected_eof && *message == clean_end {
                DecodeStep::Finish
            } else {
                DecodeStep::Fail
            }
        },
        PacketRead::OtherError => DecodeStep::Fail,
    }
}

/// Says how decoding goes on after a packet was decoded.
pub fn after_packet_decode(outcome: PacketDecode) -> (step: DecodeStep)
    ensures
        step == decode_step(outcome),
{
    match outcome {
        PacketDecode::Decoded => DecodeStep::Proceed,
        PacketDecode::IoError => DecodeStep::Finish,
        PacketDecode::DecodeError => DecodeStep::Skip,
        PacketDecode::OtherError => DecodeStep::Fail,
    }
}

/// The sum of the samples of `s`.
pub open spec fn sum_samples(s: Seq<i16>) -> int
    decreases s.len(),
{
    if s.len() == 0 {
        0
    } else {
        sum_samples(s.drop_last()) + s.last()
    }
}

/// The mean of the samples of `frame`, rounded toward zero.
pub open spec fn mean_sample(frame: Seq<i16>) -> i16
    recommends
        frame.len() > 0,
{
    trunc_div(sum_samples(frame), frame.len() as int) as i16
}

/// One sample for every frame of `channels` interleaved samples: their mean.
/// Where the last frame is short, it is the mean of the samples it has.
pub open spec fn mixed_down(interleaved: Seq<i16>, channels: int) -> Seq<i16>
    decreases interleaved.len(),
{
    if channels <= 0 || interleaved.len() == 0 {
        Seq::empty()
    } else if interleaved.len() <= channels {
        seq![mean_sample(interleaved)]
    } else {
        seq![mean_sample(interleaved.take(channels))] + mixed_down(
            interleaved.skip(channels),
            channels,
        )
    }
}

/// The samples of all packets, each mixed down, one packet after the other.
pub open spec fn decoded_samples(packets: Seq<Seq<i16>>, channels: int) -> Seq<i16>
    decreases packets.len(),
{
    if packets.len() == 0 {
        Seq::empty()
    } else {
        decoded_samples(packets.drop_last(), channels) + mixed_down(packets.last(), channels)
    }
}

proof fn lemma_sum_bounds(s: Seq<i16>)
    ensures
        -32768 * s.len() <= sum_samples(s) <= 32767 * s.len(),
    decreases s.len(),
{
    if s.len() > 0 {
        lemma_sum_bounds(s.drop_last());
    }
}

proof fn lemma_mean_in_range(sum: int, count: int)
    by (nonlinear_arith)
    requires
        count > 0,
        -32768 * count <= sum <= 32767 * count,
    ensures
        -32768 <= trunc_div(sum, count) <= 32767,
{
    if sum >= 0 {
        assert(sum / count <= 32767);
        assert(sum / count >= 0);
    } else {
        assert((-sum) / count <= 32768);
        assert((-sum) / count >= 0);
    }
}

/// Appends to `out` one sample for every frame of `channels` interleaved samples.
pub fn mix_down_into(out: &mut Vec<i16>, interleaved: &[i16], channels: usize)
    requires
        channels > 0,
    ensures
        final(out)@ == old(out)@ + mixed_down(interleaved@, channels as int),
{
    let n = interleaved.len();
    let mut start: usize = 0;
    assert(interleaved@.skip(0) =~= interleaved@);
    while start < n
        invariant
            start <= n,
            n == interleaved@.len(),
            channels > 0,
            out@ + mixed_down(interleaved@.skip(start as int), channels as int) == old(out)@
                + mixed_down(interleaved@, channels as int),
        decreases n - start,
    {
        let end: usize = if n - start <= channels {
            n
        } else {
            start + channels
        };
        let ghost rest = interleaved@.skip(start as int);
        let ghost frame = interleaved@.subrange(start as int, end as int);
        let mut sum: i128 = 0;
        let mut j: usize = start;
        assert(interleaved@.subrange(start as int, start as int) =~= Seq::<i16>::empty());
        while j < end
            invariant
                start <= j <= end <= n,
                n == interleaved@.len(),
                sum == sum_samples(interleaved@.subrange(start as int, j as int)),
                -32768 * (j - start) <= sum <= 32767 * (j - start),
            decreases end - j,
        {
            assert(interleaved@.subrange(start as int, j as int + 1).drop_last()
                =~= interleaved@.subrange(start as int, j as int));
            sum = sum + interleaved[j] as i128;
            j += 1;
        }
        let count: i128 = (end - start) as i128;
        proof {
            lemma_mean_in_range(sum as int, count as int);
        }
        let mean: i128 = sum / count;
        let ghost before = out@;
        out.push(mean as i16);
        proof {
            if n - start <= channels {
                assert(rest =~= frame);
                assert(interleaved@.skip(end as int) =~= Seq::<i16>::empty());
                assert(mixed_down(rest, channels as int) =~= seq![mean_sample(frame)]
                    + mixed_down(interleaved@.skip(end as int), channels as int));
            } else {
                assert(rest.take(channels as int) =~= frame);
                assert(rest.skip(channels as int) =~= interleaved@.skip(end as int));
            }
            assert(out@ + mixed_down(interleaved@.skip(end as int), channels as int) =~= before
                + mixed_down(rest, channels as int));
        }
        start = end;
    }
    assert(interleaved@.skip(n as int) =~= Seq::<i16>::empty());
    assert(out@ =~= old(out)@ + mixed_down(interleaved@, channels as int));
}

impl AudioProcessor {
    /// Makes one buffer of mono samples out of what a decoder gave.
    ///
    /// `packets` holds the interleaved samples of each packet that was decoded,
    /// in order; `channels` is the number of channels of the track, and
    /// `sample_rate` its rate, where the track states one. Fails with
    /// `DecodeFailure` exactly when the packets hold no sample at all.
    pub fn decode_audio_symphonia(
        &self,
        packets: &Vec<Vec<i16>>,
        channels: usize,
        sample_rate: Option<u32>,
    ) -> (r: Result<(Vec<i16>, u32), AudioError>)
        requires
            channels > 0,
        ensures
            ({
                let samples = decoded_samples(packets.deep_view(), channels as int);
                let rate = match sample_rate {
                    Some(hz) => hz,
                    None => DEFAULT_SOURCE_RATE,
                };
                if samples.len() == 0 {
                    r == Err::<(Vec<i16>, u32), AudioError>(AudioError::DecodeFailure)
                } else {
                    r is Ok && r->Ok_0.0@ == samples && r->Ok_0.1 == rate
                }
            }),
    {
        let mut samples: Vec<i16> = Vec::new();
        let mut i: usize = 0;
        assert(packets.deep_view().take(0) =~= Seq::<Seq<i16>>::empty());
        while i < packets.len()
            invariant
                i <= packets@.len(),
                channels > 0,
                samples@ == decoded_samples(packets.deep_view().take(i as int), channels as int),
            decreases packets@.len() - i,
        {
            assert(packets.deep_view().take(i as int + 1).drop_last() =~= packets.deep_view().take(
                i as int,
            ));
            assert(packets.deep_view().take(i as int + 1).last() == packets@[i as int]@);
            mix_down_into(&mut samples, packets[i].as_slice(), channels);
            i += 1;
        }
        assert(packets.deep_view().take(packets@.len() as int) =~= packets.deep_view());
        if samples.len() == 0 {
            return Err(AudioError::DecodeFailure);
        }
        let rate = match sample_rate {
            Some(hz) => hz,
            None => DEFAULT_SOURCE_RATE,
        };
        Ok((samples, rate))
    }
}

} // verus!
