use speech_segmenter::{AudioError, AudioProcessor};

#[test]
fn a_chunk_is_copied_from_start_to_end() {
    let processor = AudioProcessor::new();
    let content: Vec<i16> = (0..10).collect();
    assert_eq!(processor.extract_audio_chunk(&content, 2, 5), vec![2, 3, 4]);
    assert_eq!(processor.extract_audio_chunk(&content, 0, 10), content);
    assert_eq!(processor.extract_audio_chunk(&content, 4, 4), Vec::<i16>::new());
    assert_eq!(processor.extract_audio_chunk(&content, 10, 10), Vec::<i16>::new());
}

#[test]
fn a_chunk_is_held_to_the_buffer() {
    let processor = AudioProcessor::new();
    let content: Vec<i16> = (0..10).collect();
    assert_eq!(processor.extract_audio_chunk(&content, -3, 2), vec![0, 1]);
    assert_eq!(processor.extract_audio_chunk(&content, 7, 1000), vec![7, 8, 9]);
    assert_eq!(processor.extract_audio_chunk(&content, i64::MIN, i64::MAX), content);
}

#[test]
fn a_negative_end_stands_for_the_end_of_the_buffer() {
    let processor = AudioProcessor::new();
    let content: Vec<i16> = (0..10).collect();
    assert_eq!(processor.extract_audio_chunk(&content, 8, -1), vec![8, 9]);
}

#[test]
fn a_segment_is_copied_with_its_rate() {
    let processor = AudioProcessor::new();
    let audio: Vec<i16> = (0..100).collect();
    assert_eq!(
        processor.extract_segment_from_file(&audio, 44100, 10, 13),
        Ok((vec![10, 11, 12], 44100))
    );
    assert_eq!(
        processor.extract_segment_from_file(&audio, 8000, 98, 5000),
        Ok((vec![98, 99], 8000))
    );
}

#[test]
fn a_range_without_samples_is_invalid() {
    let processor = AudioProcessor::new();
    let audio: Vec<i16> = (0..100).collect();
    assert_eq!(processor.extract_segment_from_file(&audio, 16000, 5, 5), Err(AudioError::InvalidRange));
    assert_eq!(processor.extract_segment_from_file(&audio, 16000, 6, 5), Err(AudioError::InvalidRange));
    assert_eq!(
        processor.extract_segment_from_file(&audio, 16000, 100, 200),
        Err(AudioError::InvalidRange)
    );
    assert_eq!(processor.extract_segment_from_file(&[], 16000, 0, 1), Err(AudioError::InvalidRange));
}
