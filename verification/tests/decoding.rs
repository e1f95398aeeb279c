use speech_segmenter::{
    after_packet_decode, after_packet_read, mix_down_into, AudioError, AudioProcessor, DecodeStep,
    PacketDecode, PacketRead,
};

fn mixed(interleaved: &[i16], channels: usize) -> Vec<i16> {
    let mut out = Vec::new();
    mix_down_into(&mut out, interleaved, channels);
    out
}

#[test]
fn one_channel_is_copied() {
    assert_eq!(mixed(&[1, -2, 3, i16::MAX, i16::MIN], 1), vec![1, -2, 3, i16::MAX, i16::MIN]);
}

#[test]
fn two_channels_are_averaged() {
    assert_eq!(mixed(&[100, 200, -100, -300, 0, 1], 2), vec![150, -200, 0]);
    assert_eq!(mixed(&[i16::MAX, i16::MAX, i16::MIN, i16::MIN], 2), vec![i16::MAX, i16::MIN]);
}

#[test]
fn the_mean_is_rounded_toward_zero() {
    assert_eq!(mixed(&[1, 2], 2), vec![1]);
    assert_eq!(mixed(&[-1, -2], 2), vec![-1]);
    assert_eq!(mixed(&[-1, 0], 2), vec![0]);
    assert_eq!(mixed(&[1, 1, 2, -4, -4, -3], 3), vec![1, -3]);
}

#[test]
fn a_short_last_frame_is_averaged_over_what_it_has() {
    assert_eq!(mixed(&[10, 20, 30, 40, 50], 2), vec![15, 35, 50]);
    assert_eq!(mixed(&[10, 20, 30, 40, 50], 3), vec![20, 45]);
    assert_eq!(mixed(&[10, 20], 6), vec![15]);
}

#[test]
fn mixing_appends_to_what_is_there() {
    let mut out = vec![7, 7];
    mix_down_into(&mut out, &[2, 4, 6, 8], 2);
    mix_down_into(&mut out, &[], 2);
    assert_eq!(out, vec![7, 7, 3, 7]);
}

#[test]
fn packets_are_mixed_down_one_after_the_other() {
    let processor = AudioProcessor::new();
    let packets = vec![vec![10, 20, 30, 40], vec![], vec![1, 3, 5]];
    assert_eq!(
        processor.decode_audio_symphonia(&packets, 2, Some(48000)),
        Ok((vec![15, 35, 2, 5], 48000))
    );
    assert_eq!(
        processor.decode_audio_symphonia(&packets, 1, Some(8000)),
        Ok((vec![10, 20, 30, 40, 1, 3, 5], 8000))
    );
}

#[test]
fn a_track_without_a_rate_counts_as_cd_rate() {
    let processor = AudioProcessor::new();
    assert_eq!(processor.decode_audio_symphonia(&vec![vec![5]], 1, None), Ok((vec![5], 44100)));
}

#[test]
fn no_samples_are_a_failed_decoding() {
    let processor = AudioProcessor::new();
    assert_eq!(processor.decode_audio_symphonia(&vec![], 2, Some(16000)), Err(AudioError::DecodeFailure));
    assert_eq!(
        processor.decode_audio_symphonia(&vec![vec![], vec![]], 2, None),
        Err(AudioError::DecodeFailure)
    );
}

#[test]
fn a_packet_of_the_track_is_decoded_and_others_are_left_out() {
    assert_eq!(after_packet_read(&PacketRead::Packet { track_id: 3 }, 3), DecodeStep::Proceed);
    assert_eq!(after_packet_read(&PacketRead::Packet { track_id: 4 }, 3), DecodeStep::Skip);
}

#[test]
fn a_clean_end_of_the_stream_is_success() {
    assert_eq!(after_packet_read(&PacketRead::ResetRequired, 0), DecodeStep::Finish);
    let end = PacketRead::IoError { unexpected_eof: true, message: "end of stream".to_string() };
    assert_eq!(after_packet_read(&end, 0), DecodeStep::Finish);
}

#[test]
fn other_failed_reads_fail_the_decoding() {
    let early = PacketRead::IoError { unexpected_eof: true, message: "failed to fill".to_string() };
    assert_eq!(after_packet_read(&early, 0), DecodeStep::Fail);
    let other = PacketRead::IoError { unexpected_eof: false, message: "end of stream".to_string() };
    assert_eq!(after_packet_read(&other, 0), DecodeStep::Fail);
    assert_eq!(after_packet_read(&PacketRead::OtherError, 0), DecodeStep::Fail);
}

#[test]
fn what_came_of_a_decode_says_how_to_go_on() {
    assert_eq!(after_packet_decode(PacketDecode::Decoded), DecodeStep::Proceed);
    assert_eq!(after_packet_decode(PacketDecode::IoError), DecodeStep::Finish);
    assert_eq!(after_packet_decode(PacketDecode::DecodeError), DecodeStep::Skip);
    assert_eq!(after_packet_decode(PacketDecode::OtherError), DecodeStep::Fail);
}
