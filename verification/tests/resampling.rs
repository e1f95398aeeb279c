use speech_segmenter::{AudioError, AudioProcessor};

#[test]
fn equal_rates_give_the_input_back() {
    let processor = AudioProcessor::new();
    let input: Vec<i16> = vec![0, 100, -200, 300, i16::MAX, i16::MIN];
    for rate in [0u32, 1, 8000, 16000, 44100, u32::MAX] {
        assert_eq!(processor.simple_resample(&input, rate, rate), input);
        assert_eq!(processor.resample_audio(&input, rate, rate), Ok(input.clone()));
    }
}

#[test]
fn halving_the_rate_takes_every_other_sample() {
    let processor = AudioProcessor::new();
    assert_eq!(processor.simple_resample(&[0, 100, 200, 300], 2, 1), vec![0, 200]);
    assert_eq!(processor.resample_audio(&[0, 100, 200, 300], 2, 1), Ok(vec![0, 200]));
}

#[test]
fn doubling_the_rate_puts_the_midpoint_between() {
    let processor = AudioProcessor::new();
    assert_eq!(
        processor.simple_resample(&[0, 100, 200, 300], 1, 2),
        vec![0, 50, 100, 150, 200, 250, 300, 300]
    );
}

#[test]
fn weighted_values_are_rounded_toward_zero() {
    let processor = AudioProcessor::new();
    // places 0, 2/3, 4/3, 2, 8/3, ...: 0 + 10 * 2/3 = 6.67, 10 - 30 * 1/3 = 0, -20, ...
    assert_eq!(processor.simple_resample(&[0, 10, -20], 2, 3), vec![0, 6, 0, -20]);
    // -5 + 1 * 1/2 = -4.5 becomes -4, and 5 - 1 * 1/2 = 4.5 becomes 4
    assert_eq!(processor.simple_resample(&[-5, -4], 1, 2), vec![-5, -4, -4, -4]);
    assert_eq!(processor.simple_resample(&[5, 4], 1, 2), vec![5, 4, 4, 4]);
    // -1 + 2 * 1/4 = -0.5 becomes 0
    assert_eq!(processor.simple_resample(&[-1, 1], 1, 4)[1], 0);
}

#[test]
fn length_is_the_quotient_rounded_down() {
    let processor = AudioProcessor::new();
    let input: Vec<i16> = (0..1000).map(|i| i as i16).collect();
    for (from, to) in [(44100u32, 16000u32), (48000, 16000), (8000, 16000), (22050, 16000), (3, 7), (7, 3)] {
        let out = processor.simple_resample(&input, from, to);
        assert_eq!(out.len() as u64, 1000u64 * to as u64 / from as u64);
    }
    assert_eq!(processor.simple_resample(&input, 44100, 16000).len(), 362);
}

#[test]
fn output_stays_between_its_neighbours() {
    let processor = AudioProcessor::new();
    let input: Vec<i16> = vec![i16::MIN, i16::MAX, i16::MIN, 0, 17, -17, i16::MAX, i16::MAX];
    let (from, to) = (16000u64, 44100u64);
    let out = processor.simple_resample(&input, from as u32, to as u32);
    for (i, v) in out.iter().enumerate() {
        let at = (i as u64 * from / to) as usize;
        if at + 1 < input.len() {
            let (lo, hi) = (input[at].min(input[at + 1]), input[at].max(input[at + 1]));
            assert!(lo <= *v && *v <= hi);
        } else {
            assert_eq!(*v, input[at]);
        }
    }
}

#[test]
fn empty_input_gives_empty_output() {
    let processor = AudioProcessor::new();
    assert_eq!(processor.simple_resample(&[], 44100, 16000), Vec::<i16>::new());
    assert_eq!(processor.resample_audio(&[], 44100, 16000), Ok(vec![]));
}

#[test]
fn a_target_rate_of_zero_gives_nothing() {
    let processor = AudioProcessor::new();
    assert_eq!(processor.resample_audio(&[1, 2, 3], 8000, 0), Ok(vec![]));
}

#[test]
fn a_source_rate_of_zero_has_no_conversion() {
    let processor = AudioProcessor::new();
    assert_eq!(processor.resample_audio(&[1, 2, 3], 0, 16000), Err(AudioError::ResampleFailure));
    assert_eq!(processor.resample_audio(&[1], 0, 1), Err(AudioError::ResampleFailure));
}

#[test]
fn no_samples_stay_no_samples_whatever_the_rates() {
    let processor = AudioProcessor::new();
    assert_eq!(processor.resample_audio(&[], 0, 16000), Ok(vec![]));
    assert_eq!(processor.resample_audio(&[], 16000, 0), Ok(vec![]));
    assert_eq!(processor.simple_resample(&[], 0, 16000), Vec::<i16>::new());
}

#[test]
fn the_largest_rates_do_not_overflow() {
    let processor = AudioProcessor::new();
    let out = processor.simple_resample(&[i16::MIN, i16::MAX, i16::MIN], u32::MAX, u32::MAX - 1);
    assert_eq!(out.len(), 2);
    assert_eq!(out[0], i16::MIN);
}

fn with_floats(input: &[i16], from_rate: u32, to_rate: u32) -> Vec<i16> {
    let ratio = from_rate as f64 / to_rate as f64;
    let output_len = (input.len() as f64 / ratio) as usize;
    let mut output = Vec::new();
    for i in 0..output_len {
        let place = i as f64 * ratio;
        let at = place as usize;
        if at >= input.len() {
            break;
        }
        if at + 1 < input.len() {
            let rest = place - at as f64;
            let a = input[at] as f64;
            let b = input[at + 1] as f64;
            output.push((a + (b - a) * rest) as i16);
        } else {
            output.push(input[at]);
        }
    }
    output
}

#[test]
fn exact_fractions_stay_within_one_step_of_float_arithmetic() {
    let processor = AudioProcessor::new();
    let mut state: u32 = 12345;
    let input: Vec<i16> = (0..5000)
        .map(|_| {
            state = state.wrapping_mul(1664525).wrapping_add(1013904223);
            (state >> 16) as i16
        })
        .collect();
    for (from, to) in [(44100u32, 16000u32), (22050, 16000), (11025, 16000), (48000, 16000), (8000, 16000)] {
        let exact = processor.simple_resample(&input, from, to);
        let float = with_floats(&input, from, to);
        assert_eq!(exact.len(), float.len());
        for (e, f) in exact.iter().zip(float.iter()) {
            assert!((*e as i32 - *f as i32).abs() <= 1);
        }
    }
    // where the ratio of the rates is a power of two, both agree to the last bit
    for (from, to) in [(32000u32, 16000u32), (8000, 16000), (64000, 16000), (4000, 16000)] {
        assert_eq!(processor.simple_resample(&input, from, to), with_floats(&input, from, to));
    }
}
