use video_splitter::transcribe::{
    format_as_srt, format_as_txt, format_as_vtt, format_timestamp_srt, format_timestamp_vtt,
    parse_srt, parse_timestamp, render_transcript, slice_fits, slice_srt, srt_fits, SrtEntry,
};

fn entry(start_ms: u64, end_ms: u64, text: &str) -> SrtEntry {
    SrtEntry { start_ms, end_ms, text: text.to_string() }
}

#[test]
fn test_parse_timestamp() {
    assert_eq!(parse_timestamp("00:00:01,000"), Some(1_000));
    assert_eq!(parse_timestamp("01:02:03,456"), Some(3_723_456));
    assert_eq!(parse_timestamp("00:00:00,000"), Some(0));
}

#[test]
fn test_parse_srt() {
    let srt = "1\n00:00:01,000 --> 00:00:03,500\n Hello world\n\n\
               2\n00:00:04,000 --> 00:00:06,000\n Second line\n\n";
    let entries = parse_srt(srt);
    assert_eq!(entries.len(), 2);
    assert_eq!(entries[0].start_ms, 1_000);
    assert_eq!(entries[0].end_ms, 3_500);
    assert_eq!(entries[0].text, "Hello world");
    assert_eq!(entries[1].start_ms, 4_000);
}

#[test]
fn test_slice_srt() {
    let entries = vec![entry(1_000, 3_000, "A"), entry(5_000, 7_000, "B"), entry(12_000, 14_000, "C")];

    // 0 s - 10 s
    let sliced = slice_srt(&entries, 0, 10_000);
    assert_eq!(sliced.len(), 2);
    assert_eq!(sliced[0].start_ms, 1_000);
    assert_eq!(sliced[1].start_ms, 5_000);

    // 5 s - 15 s: times become relative to 5 s
    let sliced = slice_srt(&entries, 5_000, 15_000);
    assert_eq!(sliced.len(), 2);
    assert_eq!(sliced[0].start_ms, 0);
    assert_eq!(sliced[1].start_ms, 7_000);
}

#[test]
fn test_format_as_srt() {
    let entries = vec![entry(1_500, 3_000, "Test")];
    let out = format_as_srt(&entries);
    assert!(out.contains("00:00:01,500 --> 00:00:03,000"));
    assert!(out.contains("Test"));
}

#[test]
fn test_format_as_vtt() {
    let entries = vec![entry(1_500, 3_000, "Test")];
    let out = format_as_vtt(&entries);
    assert!(out.starts_with("WEBVTT"));
    assert!(out.contains("00:00:01.500 --> 00:00:03.000"));
}

#[test]
fn timestamp_accepts_webvtt_dot_and_spaces() {
    assert_eq!(parse_timestamp("00:00:02.000"), Some(2_000));
    assert_eq!(parse_timestamp("  00:01:02,  007 "), Some(62_007));
    assert_eq!(parse_timestamp("+1:00:00,000"), Some(3_600_000));
}

#[test]
fn timestamp_rejects_malformed_text() {
    assert_eq!(parse_timestamp("00:00:01"), None);
    assert_eq!(parse_timestamp("00:01,000"), None);
    assert_eq!(parse_timestamp("00:00:0x,000"), None);
    assert_eq!(parse_timestamp("00:00:-1,000"), None);
    assert_eq!(parse_timestamp(""), None);
}

#[test]
fn timestamp_formats_exactly() {
    assert_eq!(format_timestamp_srt(0), "00:00:00,000");
    assert_eq!(format_timestamp_srt(3_723_456), "01:02:03,456");
    assert_eq!(format_timestamp_vtt(3_723_456), "01:02:03.456");
    assert_eq!(format_timestamp_srt(360_000_000), "100:00:00,000");
}

#[test]
fn timestamp_round_trips() {
    for ms in [0u64, 1, 999, 1_000, 59_999, 3_599_999, 3_600_000, 86_399_999, u64::MAX] {
        assert_eq!(parse_timestamp(&format_timestamp_srt(ms)), Some(ms));
        assert_eq!(parse_timestamp(&format_timestamp_vtt(ms)), Some(ms));
    }
}

#[test]
fn srt_round_trips() {
    let entries = vec![
        entry(1_000, 3_500, "Hello world"),
        entry(4_000, 6_000, "two\nlines"),
        entry(7_250, 7_900, "ファイルを保存します"),
    ];
    let back = parse_srt(&format_as_srt(&entries));
    assert_eq!(back.len(), 3);
    for (a, b) in entries.iter().zip(back.iter()) {
        assert_eq!((a.start_ms, a.end_ms, a.text.as_str()), (b.start_ms, b.end_ms, b.text.as_str()));
    }
    let back = parse_srt(&format_as_vtt(&entries));
    assert_eq!(back.len(), 3);
    assert_eq!(back[1].text, "two\nlines");
    assert_eq!(back[2].start_ms, 7_250);
}

#[test]
fn parse_srt_skips_blocks_that_are_not_cues() {
    let srt = "WEBVTT\r\n\r\n1\r\n00:00:01,000 --> 00:00:02,000\r\n\r\n\
               2\nnot a time line\ntext\n\n\
               3\n00:00:05,000 --> 00:00:06,000\nkept\n";
    let entries = parse_srt(srt);
    assert_eq!(entries.len(), 1);
    assert_eq!(entries[0].start_ms, 5_000);
    assert_eq!(entries[0].text, "kept");
}

#[test]
fn srt_fits_detects_times_beyond_64_bits() {
    assert!(srt_fits("1\n00:00:01,000 --> 00:00:02,000\nx\n\n"));
    assert!(!srt_fits("1\n99999999999999999:00:00,000 --> 00:00:02,000\nx\n\n"));
}

#[test]
fn slice_clips_the_end_to_the_segment() {
    let entries = vec![entry(9_000, 12_000, "across")];
    let sliced = slice_srt(&entries, 5_000, 10_000);
    assert_eq!(sliced.len(), 1);
    assert_eq!(sliced[0].start_ms, 4_000);
    assert_eq!(sliced[0].end_ms, 5_000);
    assert_eq!(sliced[0].text, "across");
}

#[test]
fn slices_of_consecutive_windows_share_the_entries() {
    let entries = vec![entry(0, 1, "a"), entry(4_999, 5_001, "b"), entry(5_000, 6_000, "c"), entry(9_999, 10_000, "d")];
    let left = slice_srt(&entries, 0, 5_000);
    let right = slice_srt(&entries, 5_000, 10_000);
    let whole = slice_srt(&entries, 0, 10_000);
    assert_eq!(left.len() + right.len(), whole.len());
    assert_eq!(left.len(), 2);
}

#[test]
fn txt_and_format_selection() {
    let entries = vec![entry(0, 1, "first"), entry(2, 3, "second")];
    assert_eq!(format_as_txt(&entries), "first\nsecond");
    assert_eq!(render_transcript(&entries, "txt"), "first\nsecond");
    assert_eq!(render_transcript(&entries, "anything"), "first\nsecond");
    assert!(render_transcript(&entries, "srt").starts_with("1\n00:00:00,000 --> 00:00:00,001\nfirst\n\n2\n"));
    assert!(render_transcript(&entries, "vtt").starts_with("WEBVTT\n\n1\n"));
    assert_eq!(format_as_srt(&[]), "");
    assert_eq!(format_as_vtt(&[]), "WEBVTT\n\n");
}

#[test]
fn slice_fits_flags_entries_ending_before_the_segment() {
    let entries = vec![entry(6_000, 4_000, "backwards"), entry(1_000, 2_000, "early")];
    assert!(!slice_fits(&entries, 5_000, 10_000));
    assert!(slice_fits(&entries, 0, 5_000));
    assert!(slice_fits(&entries, 7_000, 10_000));
}

#[test]
fn srt_round_trip_keeps_a_lone_carriage_return() {
    let entries = vec![entry(0, 1_000, "a\rb"), entry(2_000, 3_000, "c\n\rd")];
    let back = parse_srt(&format_as_srt(&entries));
    assert_eq!(back.len(), 2);
    assert_eq!(back[0].text, "a\rb");
    assert_eq!(back[1].text, "c\n\rd");
}

#[test]
fn srt_round_trip_loses_crlf_and_blank_lines() {
    let entries = vec![entry(0, 1_000, "a\r\nb"), entry(2_000, 3_000, "c\n\nd")];
    let back = parse_srt(&format_as_srt(&entries));
    assert_eq!(back[0].text, "a\nb");
    assert_eq!(back[1].text, "c");
}
