use loc_counter::count::{
    count_buffer, count_contents, looks_like_binary, unterminated_line_adjustment, LineCounts,
    StreamCounter, BINARY_CHECK_BYTES, CHUNK_SIZE, SMALL_FILE_THRESHOLD,
};

#[test]
fn empty_file_is_zero_lines() {
    let c = count_contents(b"");
    assert_eq!(
        c,
        LineCounts {
            lines: 0,
            binary: false
        }
    );
}

#[test]
fn trailing_newline_does_not_double_count() {
    assert_eq!(count_contents(b"a\nb\nc\n").lines, 3);
}

#[test]
fn missing_trailing_newline_counts_final_line() {
    assert_eq!(count_contents(b"a\nb\nc").lines, 3);
}

#[test]
fn single_line_no_newline() {
    assert_eq!(count_contents(b"hello").lines, 1);
}

#[test]
fn binary_file_is_flagged() {
    let c = count_contents(b"text\0more");
    assert!(c.binary);
}

#[test]
fn large_file_streams_correctly() {
    let mut data = Vec::with_capacity((SMALL_FILE_THRESHOLD as usize) + 1024);
    for _ in 0..((SMALL_FILE_THRESHOLD as usize / 4) + 100) {
        data.extend_from_slice(b"abc\n");
    }
    let expected_lines = (data.iter().filter(|&&b| b == b'\n').count()) as u64;
    assert_eq!(count_contents(&data).lines, expected_lines);
}

#[test]
fn unterminated_line_adjustment_is_one_for_nonnewline_byte() {
    assert_eq!(unterminated_line_adjustment(Some(b'a')), 1);
}

#[test]
fn unterminated_line_adjustment_is_zero_for_newline() {
    assert_eq!(unterminated_line_adjustment(Some(b'\n')), 0);
}

#[test]
fn unterminated_line_adjustment_is_zero_for_empty() {
    assert_eq!(unterminated_line_adjustment(None), 0);
}

#[test]
fn looks_like_binary_detects_null() {
    assert!(looks_like_binary(b"abc\0def"));
}

#[test]
fn looks_like_binary_returns_false_for_text() {
    assert!(!looks_like_binary(b"hello world\n"));
}

#[test]
fn single_newline_byte_is_one_line() {
    assert_eq!(count_contents(b"\n").lines, 1);
}

#[test]
fn consecutive_blank_lines_are_counted() {
    assert_eq!(count_contents(b"a\n\n\nb\n").lines, 4);
}

#[test]
fn crlf_line_endings_count_correctly() {
    assert_eq!(count_contents(b"a\r\nb\r\nc\r\n").lines, 3);
}

#[test]
fn cr_only_line_endings_are_treated_as_one_unterminated_line() {
    assert_eq!(count_contents(b"a\rb\rc").lines, 1);
}

#[test]
fn file_just_below_threshold_uses_buffer_path() {
    let mut data = vec![b'x'; SMALL_FILE_THRESHOLD as usize - 1];
    data.push(b'\n');
    assert_eq!(count_contents(&data).lines, 1);
}

#[test]
fn file_just_above_threshold_uses_streaming_path() {
    let mut data = vec![b'x'; SMALL_FILE_THRESHOLD as usize + 1];
    data.push(b'\n');
    assert_eq!(count_contents(&data).lines, 1);
}

#[test]
fn streaming_path_detects_binary_in_first_chunk() {
    let mut data = vec![b'a'; SMALL_FILE_THRESHOLD as usize + 1024];
    data[100] = 0;
    assert!(count_contents(&data).binary);
}

#[test]
fn null_byte_past_binary_check_window_is_not_flagged() {
    let total_size = SMALL_FILE_THRESHOLD as usize + 1024;
    let mut data = vec![b'a'; total_size];
    let null_position = BINARY_CHECK_BYTES + 1024;
    data[null_position] = 0;
    assert!(
        !count_contents(&data).binary,
        "null at byte {null_position} should not trigger binary detection"
    );
}

#[test]
fn binary_counts_have_no_lines() {
    assert_eq!(
        LineCounts::binary(),
        LineCounts {
            lines: 0,
            binary: true
        }
    );
    assert_eq!(LineCounts::default(), LineCounts { lines: 0, binary: false });
}

#[test]
fn buffer_counts_newlines_and_unterminated_line() {
    assert_eq!(count_buffer(b"one\ntwo\nthree").lines, 3);
    assert_eq!(count_buffer(b"one\ntwo\n").lines, 2);
    assert_eq!(count_buffer(b"\n\n\n\n\n").lines, 5);
    assert!(!count_buffer(b"one\ntwo\n").binary);
}

#[test]
fn null_at_last_byte_of_window_is_binary() {
    let mut data = vec![b'a'; BINARY_CHECK_BYTES + 10];
    data[BINARY_CHECK_BYTES - 1] = 0;
    assert!(looks_like_binary(&data));
    data[BINARY_CHECK_BYTES - 1] = b'a';
    data[BINARY_CHECK_BYTES] = 0;
    assert!(!looks_like_binary(&data));
}

#[test]
fn streaming_and_buffer_agree_on_large_data() {
    let mut data = Vec::new();
    for i in 0..(CHUNK_SIZE * 3 + 17) {
        data.push(if i % 7 == 0 { b'\n' } else { b'q' });
    }
    assert_eq!(count_contents(&data), count_buffer(&data));
    data.push(b'\n');
    assert_eq!(count_contents(&data), count_buffer(&data));
}

#[test]
fn stream_counter_counts_across_chunks() {
    let mut counter = StreamCounter::new();
    assert!(counter.feed(b"ab\ncd"));
    assert!(counter.feed(b"\nef"));
    assert_eq!(counter.lines(), 2);
    assert_eq!(
        counter.finish(),
        LineCounts {
            lines: 3,
            binary: false
        }
    );
}

#[test]
fn stream_counter_stops_on_binary_first_chunk() {
    let mut counter = StreamCounter::new();
    assert!(!counter.feed(b"a\0b\n"));
    assert_eq!(counter.finish(), LineCounts::binary());
}

#[test]
fn stream_counter_finds_null_in_later_chunk_within_window() {
    let mut counter = StreamCounter::new();
    assert!(counter.feed(b"a"));
    assert!(!counter.feed(b"\0"));
    assert_eq!(counter.finish(), LineCounts::binary());
}

#[test]
fn stream_counter_ignores_null_past_window() {
    let mut counter = StreamCounter::new();
    let first = vec![b'a'; BINARY_CHECK_BYTES - 1];
    assert!(counter.feed(&first));
    assert!(counter.feed(b"b\0\n"));
    assert_eq!(counter.finish().lines, 1);
}

#[test]
fn stream_counter_window_spans_small_chunks() {
    let mut counter = StreamCounter::new();
    for _ in 0..(BINARY_CHECK_BYTES - 2) {
        assert!(counter.feed(b"\n"));
    }
    assert!(!counter.feed(b"x\0"));
    assert!(counter.finish().binary);
}

#[test]
fn stream_and_buffer_agree_for_every_chunking() {
    let mut inputs: Vec<Vec<u8>> = Vec::new();
    let mut text = Vec::new();
    for i in 0..20_000u32 {
        text.push(if i % 13 == 0 { b'\n' } else { b'z' });
    }
    inputs.push(text.clone());
    for null_at in [0usize, 1, 99, 4_000, BINARY_CHECK_BYTES - 1, BINARY_CHECK_BYTES, 15_000] {
        let mut with_null = text.clone();
        with_null[null_at] = 0;
        inputs.push(with_null);
    }
    for data in &inputs {
        for size in [1usize, 7, 100, 4_096, BINARY_CHECK_BYTES, CHUNK_SIZE] {
            let mut counter = StreamCounter::new();
            for chunk in data.chunks(size) {
                if !counter.feed(chunk) {
                    break;
                }
            }
            assert_eq!(counter.finish(), count_buffer(data), "chunks of {size}");
        }
    }
}
