use speech_segmenter::{encode_wav, parse_wav_header, AudioError, AudioProcessor, WavHeader};

#[test]
fn encodes_two_samples_byte_for_byte() {
    let bytes = encode_wav(&[1, -2], 16000).unwrap();
    let expected: Vec<u8> = vec![
        82, 73, 70, 70, 40, 0, 0, 0, 87, 65, 86, 69, 102, 109, 116, 32, 16, 0, 0, 0, 1, 0, 1, 0,
        128, 62, 0, 0, 0, 125, 0, 0, 2, 0, 16, 0, 100, 97, 116, 97, 4, 0, 0, 0, 1, 0, 254, 255,
    ];
    assert_eq!(bytes, expected);
}

#[test]
fn encodes_extreme_samples_at_another_rate() {
    let bytes = encode_wav(&[0x1234, -32768, 32767], 44100).unwrap();
    let expected: Vec<u8> = vec![
        82, 73, 70, 70, 42, 0, 0, 0, 87, 65, 86, 69, 102, 109, 116, 32, 16, 0, 0, 0, 1, 0, 1, 0,
        68, 172, 0, 0, 136, 88, 1, 0, 2, 0, 16, 0, 100, 97, 116, 97, 6, 0, 0, 0, 52, 18, 0, 128,
        255, 127,
    ];
    assert_eq!(bytes, expected);
}

#[test]
fn encodes_no_samples_as_a_bare_header() {
    let bytes = encode_wav(&[], 16000).unwrap();
    assert_eq!(bytes.len(), 44);
    assert_eq!(&bytes[0..4], b"RIFF");
    assert_eq!(&bytes[4..8], &[36, 0, 0, 0]);
    assert_eq!(&bytes[8..12], b"WAVE");
    assert_eq!(&bytes[12..16], b"fmt ");
    assert_eq!(&bytes[36..40], b"data");
    assert_eq!(&bytes[40..44], &[0, 0, 0, 0]);
}

#[test]
fn encoding_is_the_same_each_time() {
    let samples: Vec<i16> = (0..1000).map(|i| (i * 37 % 2000 - 1000) as i16).collect();
    assert_eq!(encode_wav(&samples, 16000), encode_wav(&samples, 16000));
}

#[test]
fn encoding_fails_when_the_byte_rate_does_not_fit() {
    assert_eq!(encode_wav(&[1, 2, 3], 0x8000_0000), Err(AudioError::EncodingFailure));
    assert_eq!(encode_wav(&[1, 2, 3], u32::MAX), Err(AudioError::EncodingFailure));
    assert!(encode_wav(&[1, 2, 3], 0x7fff_ffff).is_ok());
}

#[test]
fn processor_encodes_like_the_free_function() {
    let processor = AudioProcessor::new();
    let samples = [5i16, -5, 300, -300];
    assert_eq!(processor.samples_to_wav_bytes(&samples, 8000), encode_wav(&samples, 8000));
    assert_eq!(
        processor.samples_to_wav_bytes(&samples, 0x8000_0000),
        Err(AudioError::EncodingFailure)
    );
}

#[test]
fn header_round_trip() {
    let samples: Vec<i16> = vec![3, 1, 4, 1, 5, 9, 2, 6];
    for rate in [1u32, 8000, 16000, 44100, 48000, 0x7fff_ffff] {
        let bytes = encode_wav(&samples, rate).unwrap();
        assert_eq!(
            parse_wav_header(&bytes),
            Some(WavHeader { channels: 1, sample_rate: rate, bits_per_sample: 16, data_size: 16 })
        );
        assert_eq!(bytes.len(), 44 + 16);
    }
}

#[test]
fn header_of_other_bytes_is_refused() {
    assert_eq!(parse_wav_header(&[]), None);
    assert_eq!(parse_wav_header(&[0u8; 43]), None);
    assert_eq!(parse_wav_header(&[0u8; 44]), None);
    let good = encode_wav(&[1, 2], 16000).unwrap();
    for at in [0usize, 3, 8, 11, 12, 15, 16, 19, 20, 21, 36, 39] {
        let mut bad = good.clone();
        bad[at] ^= 0x40;
        assert_eq!(parse_wav_header(&bad), None, "byte {}", at);
    }
    let mut short = good.clone();
    short.truncate(43);
    assert_eq!(parse_wav_header(&short), None);
}

#[test]
fn header_fields_are_read_where_they_stand() {
    let mut bytes = encode_wav(&[1, 2], 16000).unwrap();
    bytes[22] = 2;
    bytes[34] = 8;
    bytes[40] = 0x10;
    bytes[43] = 0x01;
    assert_eq!(
        parse_wav_header(&bytes),
        Some(WavHeader {
            channels: 2,
            sample_rate: 16000,
            bits_per_sample: 8,
            data_size: 0x0100_0010
        })
    );
}

#[test]
fn text_form_is_base64_of_the_container() {
    let processor = AudioProcessor::new();
    assert_eq!(
        processor.samples_to_wav_base64(&[1, -2]),
        Ok("UklGRigAAABXQVZFZm10IBAAAAABAAEAgD4AAAB9AAACABAAZGF0YQQAAAABAP7/".to_string())
    );
    assert_eq!(
        processor.samples_to_wav_base64(&[]),
        Ok("UklGRiQAAABXQVZFZm10IBAAAAABAAEAgD4AAAB9AAACABAAZGF0YQAAAAA=".to_string())
    );
    assert_eq!(
        processor.samples_to_wav_base64(&[7, 8, 9]),
        Ok("UklGRioAAABXQVZFZm10IBAAAAABAAEAgD4AAAB9AAACABAAZGF0YQYAAAAHAAgACQA=".to_string())
    );
}

#[test]
fn text_form_has_four_characters_for_three_bytes() {
    let processor = AudioProcessor::new();
    for n in 0usize..10 {
        let samples = vec![0i16; n];
        let text = processor.samples_to_wav_base64(&samples).unwrap();
        assert_eq!(text.len(), 4 * ((44 + 2 * n + 2) / 3));
    }
}
