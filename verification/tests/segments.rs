use speech_segmenter::ChunkLabel::{NonSpeech, Speech};
use speech_segmenter::{find_speech_spans, AudioProcessor, AudioSegment, ChunkLabel, SampleSpan};

fn ramp(len: usize) -> Vec<i16> {
    (0..len).map(|i| (i % 30000) as i16).collect()
}

fn span(start: i64, end: i64) -> SampleSpan {
    SampleSpan { start, end }
}

fn bounds(segments: &[AudioSegment]) -> Vec<(i64, i64)> {
    segments.iter().map(|s| (s.start_sample, s.end_sample)).collect()
}

fn plain(start: i64, end: i64) -> AudioSegment {
    AudioSegment {
        start_sample: start,
        end_sample: end,
        audio_data: vec![start as i16; 3],
        audio_base64: format!("segment {}", start),
    }
}

#[test]
fn two_runs_of_speech_give_two_spans() {
    let labels = [Speech, Speech, NonSpeech, Speech];
    assert_eq!(find_speech_spans(&labels, 2048, 512), vec![span(0, 1024), span(1536, 2048)]);
}

#[test]
fn two_runs_of_speech_give_two_segments() {
    let processor = AudioProcessor::new();
    let content = ramp(2048);
    let segments = processor.assemble_segments(&[Speech, Speech, NonSpeech, Speech], &content, 512);
    assert_eq!(bounds(&segments), vec![(0, 1024), (1536, 2048)]);
    assert_eq!(segments[0].audio_data, content[0..1024].to_vec());
    assert_eq!(segments[1].audio_data, content[1536..2048].to_vec());
    assert_eq!(
        segments[0].audio_base64,
        processor.samples_to_wav_base64(&content[0..1024]).unwrap()
    );
    assert_eq!(
        segments[1].audio_base64,
        processor.samples_to_wav_base64(&content[1536..2048]).unwrap()
    );
}

#[test]
fn no_labels_give_no_segments() {
    let processor = AudioProcessor::new();
    assert_eq!(find_speech_spans(&[], 2048, 512), vec![]);
    assert_eq!(processor.assemble_segments(&[], &ramp(2048), 512), vec![]);
    assert_eq!(processor.assemble_segments(&[], &[], 512), vec![]);
}

#[test]
fn labels_without_speech_give_no_segments() {
    assert_eq!(find_speech_spans(&[NonSpeech; 4], 2048, 512), vec![]);
}

#[test]
fn speech_throughout_gives_the_whole_buffer() {
    assert_eq!(find_speech_spans(&[Speech; 4], 2048, 512), vec![span(0, 2048)]);
}

#[test]
fn a_run_open_at_the_end_closes_at_the_end_of_the_buffer() {
    // the last chunk is short: 2000 samples in four chunks of 512
    assert_eq!(
        find_speech_spans(&[NonSpeech, NonSpeech, NonSpeech, Speech], 2000, 512),
        vec![span(1536, 2000)]
    );
    // fewer labels than chunks: the open run still reaches to the end of the buffer
    assert_eq!(find_speech_spans(&[NonSpeech, Speech], 5000, 512), vec![span(512, 5000)]);
}

#[test]
fn an_unlabelled_tail_after_silence_is_left_out() {
    assert_eq!(find_speech_spans(&[Speech, NonSpeech], 5000, 512), vec![span(0, 512)]);
}

#[test]
fn labels_beyond_the_buffer_keep_their_bounds_and_cut_what_there_is() {
    let processor = AudioProcessor::new();
    let content = ramp(700);
    let labels = [Speech, Speech, Speech, NonSpeech, Speech, NonSpeech];
    assert_eq!(find_speech_spans(&labels, 700, 512), vec![span(0, 1536)]);
    let segments = processor.assemble_segments(&labels, &content, 512);
    assert_eq!(bounds(&segments), vec![(0, 1536)]);
    assert_eq!(segments[0].audio_data, content);
}

#[test]
fn a_run_that_starts_at_the_end_of_the_buffer_holds_nothing() {
    assert_eq!(find_speech_spans(&[NonSpeech, Speech], 512, 512), vec![]);
    assert_eq!(find_speech_spans(&[NonSpeech, Speech, NonSpeech], 512, 512), vec![]);
    assert_eq!(find_speech_spans(&[Speech], 0, 512), vec![]);
}

#[test]
fn chunks_of_no_samples_give_one_span_at_most() {
    assert_eq!(find_speech_spans(&[Speech, NonSpeech, Speech], 100, 0), vec![span(0, 100)]);
    assert_eq!(find_speech_spans(&[Speech, NonSpeech], 100, 0), vec![]);
}

#[test]
fn every_span_lies_in_one_run_of_speech() {
    let labels: Vec<ChunkLabel> = [1, 1, 0, 0, 1, 0, 1, 1, 1, 0, 0, 1]
        .iter()
        .map(|&b| if b == 1 { Speech } else { NonSpeech })
        .collect();
    let chunk = 512usize;
    let spans = find_speech_spans(&labels, labels.len() * chunk - 100, chunk);
    assert_eq!(spans, vec![span(0, 1024), span(2048, 2560), span(3072, 4608), span(5632, 6044)]);
    for s in &spans {
        let first = s.start as usize / chunk;
        let last = (s.end as usize - 1) / chunk;
        assert_eq!(s.start as usize % chunk, 0);
        assert!((first..=last).all(|k| labels[k] == Speech));
        assert!(first == 0 || labels[first - 1] == NonSpeech);
        assert!(last + 1 == labels.len() || labels[last + 1] == NonSpeech);
    }
}

#[test]
fn a_short_pause_is_merged_away() {
    let processor = AudioProcessor::new();
    let content = ramp(2048);
    let raw = processor.assemble_segments(&[Speech, Speech, NonSpeech, Speech], &content, 512);
    let merged = processor.merge_close_segments(raw, &content, 1500);
    assert_eq!(bounds(&merged), vec![(0, 2048)]);
    assert_eq!(merged[0].audio_data, content);
    assert_eq!(merged[0].audio_base64, processor.samples_to_wav_base64(&content).unwrap());
}

#[test]
fn a_gap_of_zero_keeps_segments_apart() {
    let processor = AudioProcessor::new();
    let content = ramp(2048);
    let raw = processor.assemble_segments(&[Speech, Speech, NonSpeech, Speech], &content, 512);
    let merged = processor.merge_close_segments(raw.clone(), &content, 0);
    assert_eq!(merged, raw);
    assert_eq!(bounds(&merged), vec![(0, 1024), (1536, 2048)]);
}

#[test]
fn merging_nothing_gives_nothing() {
    let processor = AudioProcessor::new();
    assert_eq!(processor.merge_close_segments(vec![], &ramp(100), 1500), vec![]);
    assert_eq!(processor.merge_close_segments(vec![], &[], 0), vec![]);
}

#[test]
fn one_segment_comes_out_as_it_went_in() {
    let processor = AudioProcessor::new();
    let only = plain(5, 9);
    assert_eq!(processor.merge_close_segments(vec![only.clone()], &ramp(100), 1500), vec![only]);
}

#[test]
fn a_pause_of_exactly_the_gap_still_merges() {
    let processor = AudioProcessor::new();
    let content = ramp(60000);
    // 24000 samples at 16 kHz are 1500 ms
    let merged =
        processor.merge_close_segments(vec![plain(0, 1000), plain(25000, 26000)], &content, 1500);
    assert_eq!(bounds(&merged), vec![(0, 26000)]);
    let apart =
        processor.merge_close_segments(vec![plain(0, 1000), plain(25001, 26000)], &content, 1500);
    assert_eq!(bounds(&apart), vec![(0, 1000), (25001, 26000)]);
    // 16 samples are exactly one millisecond
    let close = processor.merge_close_segments(vec![plain(0, 100), plain(116, 200)], &content, 1);
    assert_eq!(bounds(&close), vec![(0, 200)]);
    let far = processor.merge_close_segments(vec![plain(0, 100), plain(117, 200)], &content, 1);
    assert_eq!(bounds(&far), vec![(0, 100), (117, 200)]);
}

#[test]
fn segments_are_put_in_order_before_merging() {
    let processor = AudioProcessor::new();
    let content = ramp(200000);
    let given = vec![plain(100000, 101000), plain(0, 1000), plain(50000, 51000), plain(1500, 2000)];
    let merged = processor.merge_close_segments(given, &content, 1500);
    assert_eq!(bounds(&merged), vec![(0, 2000), (50000, 51000), (100000, 101000)]);
    assert_eq!(merged[0].audio_data, content[0..2000].to_vec());
    assert_eq!(merged[1], plain(50000, 51000));
    assert_eq!(merged[2], plain(100000, 101000));
}

#[test]
fn segments_with_the_same_start_keep_their_order() {
    let processor = AudioProcessor::new();
    let content = ramp(100);
    let first = AudioSegment { audio_base64: "first".to_string(), ..plain(10, 40) };
    let second = AudioSegment { audio_base64: "second".to_string(), ..plain(10, 20) };
    // the second is joined to the first: the joined segment ends where the second ends
    let merged = processor.merge_close_segments(vec![first, second], &content, 0);
    assert_eq!(bounds(&merged), vec![(10, 20)]);
    let first = AudioSegment { audio_base64: "first".to_string(), ..plain(10, 20) };
    let second = AudioSegment { audio_base64: "second".to_string(), ..plain(10, 40) };
    let merged = processor.merge_close_segments(vec![first, second], &content, 0);
    assert_eq!(bounds(&merged), vec![(10, 40)]);
}

#[test]
fn a_chain_of_short_pauses_becomes_one_segment() {
    let processor = AudioProcessor::new();
    let content = ramp(100000);
    let given: Vec<AudioSegment> = (0..10).map(|k| plain(k * 10000, k * 10000 + 5000)).collect();
    let merged = processor.merge_close_segments(given, &content, 1500);
    assert_eq!(bounds(&merged), vec![(0, 95000)]);
    assert_eq!(merged[0].audio_data.len(), 95000);
}

#[test]
fn merged_samples_are_held_to_the_buffer() {
    let processor = AudioProcessor::new();
    let content = ramp(1500);
    let merged = processor.merge_close_segments(vec![plain(1000, 1200), plain(1300, 2000)], &content, 1500);
    assert_eq!(bounds(&merged), vec![(1000, 2000)]);
    assert_eq!(merged[0].audio_data, content[1000..1500].to_vec());
    let beyond = processor.merge_close_segments(vec![plain(3000, 3200), plain(3300, 4000)], &content, 1500);
    assert_eq!(bounds(&beyond), vec![(3000, 4000)]);
    assert_eq!(beyond[0].audio_data, Vec::<i16>::new());
}

#[test]
fn merging_again_changes_nothing() {
    let processor = AudioProcessor::new();
    let content = ramp(400000);
    let given = vec![
        plain(300000, 301000),
        plain(0, 1000),
        plain(20000, 30000),
        plain(60000, 61000),
        plain(85001, 90000),
        plain(114000, 120000),
        plain(200000, 250000),
        plain(10, 20),
    ];
    for gap in [0u64, 1, 1499, 1500, 1501, 5000, 100000] {
        let once = processor.merge_close_segments(given.clone(), &content, gap);
        let twice = processor.merge_close_segments(once.clone(), &content, gap);
        assert_eq!(twice, once, "gap {}", gap);
    }
}

#[test]
fn merged_segments_do_not_overlap() {
    let processor = AudioProcessor::new();
    let content = ramp(400000);
    let given = vec![
        plain(300000, 301000),
        plain(500, 100000),
        plain(0, 1000),
        plain(20000, 30000),
        plain(130000, 131000),
        plain(200000, 250000),
        plain(240000, 245000),
    ];
    for gap in [0u64, 10, 1500, 3000] {
        let merged = processor.merge_close_segments(given.clone(), &content, gap);
        for pair in merged.windows(2) {
            assert!(pair[0].end_sample < pair[1].start_sample);
            let pause_ms = (pair[1].start_sample - pair[0].end_sample) as u64 * 1000;
            assert!(pause_ms > gap * 16000);
        }
        for s in &merged {
            assert!(0 <= s.start_sample && s.start_sample < s.end_sample);
            assert!(given.iter().any(|g| s.start_sample <= g.start_sample && g.end_sample == s.end_sample));
        }
    }
}

fn spans_by_hand(labels: &[ChunkLabel], buffer_len: usize, chunk: usize) -> Vec<SampleSpan> {
    let mut spans = Vec::new();
    let mut k = 0;
    while k < labels.len() {
        if labels[k] == Speech {
            let first = k;
            while k < labels.len() && labels[k] == Speech {
                k += 1;
            }
            let start = first * chunk;
            let end = if k == labels.len() { buffer_len } else { k * chunk };
            if start < end && start < buffer_len {
                spans.push(span(start as i64, end as i64));
            }
        } else {
            k += 1;
        }
    }
    spans
}

#[test]
fn spans_are_the_runs_of_speech_for_many_label_streams() {
    let mut state: u32 = 99;
    for round in 0..300 {
        let len = (round % 23) as usize;
        let labels: Vec<ChunkLabel> = (0..len)
            .map(|_| {
                state = state.wrapping_mul(1664525).wrapping_add(1013904223);
                if (state >> 20) % 3 == 0 { NonSpeech } else { Speech }
            })
            .collect();
        for chunk in [1usize, 7, 512] {
            for buffer_len in [0, chunk, len * chunk / 2, len * chunk, len * chunk + 3] {
                assert_eq!(
                    find_speech_spans(&labels, buffer_len, chunk),
                    spans_by_hand(&labels, buffer_len, chunk)
                );
            }
        }
    }
}

fn merged_by_hand(mut given: Vec<(i64, i64)>, gap_ms: u64) -> Vec<(i64, i64)> {
    given.sort_by_key(|s| s.0);
    let mut merged: Vec<(i64, i64)> = Vec::new();
    for next in given {
        match merged.last_mut() {
            Some(current) if ((next.0 - current.1) as i128) * 1000 <= gap_ms as i128 * 16000 => {
                current.1 = next.1;
            }
            _ => merged.push(next),
        }
    }
    merged
}

#[test]
fn merging_follows_the_rule_for_many_lists() {
    let processor = AudioProcessor::new();
    let content = ramp(3000);
    let mut state: u32 = 7;
    let mut next = |bound: u32| {
        state = state.wrapping_mul(1664525).wrapping_add(1013904223);
        (state >> 8) % bound
    };
    for round in 0..300 {
        let count = round % 9;
        let given: Vec<(i64, i64)> = (0..count)
            .map(|_| {
                let start = next(2500) as i64;
                (start, start + 1 + next(400) as i64)
            })
            .collect();
        let gap = [0u64, 1, 5, 20, 1500][round % 5];
        let segments: Vec<AudioSegment> = given.iter().map(|b| plain(b.0, b.1)).collect();
        let merged = processor.merge_close_segments(segments.clone(), &content, gap);
        assert_eq!(bounds(&merged), merged_by_hand(given.clone(), gap));
        for s in &merged {
            match segments.iter().find(|g| (g.start_sample, g.end_sample) == (s.start_sample, s.end_sample) && *g == s) {
                Some(_) => {}
                None => {
                    let from = (s.start_sample as usize).min(content.len());
                    let to = (s.end_sample as usize).min(content.len());
                    assert_eq!(s.audio_data, content[from..to].to_vec());
                    assert_eq!(
                        s.audio_base64,
                        processor.samples_to_wav_base64(&content[from..to]).unwrap()
                    );
                }
            }
        }
        assert_eq!(processor.merge_close_segments(merged.clone(), &content, gap), merged);
    }
}
