use video_splitter::search::{search_checked, search_fits, search_transcripts, TranscriptFile};

fn file(index: usize, offset_ms: u64, path: &str, content: &str) -> TranscriptFile {
    TranscriptFile { segment_index: index, offset_ms, path: path.to_string(), content: content.to_string() }
}

#[test]
fn test_search_srt_entries() {
    let srt = "1\n00:00:01,000 --> 00:00:03,000\nファイルを保存します\n\n\
               2\n00:00:05,000 --> 00:00:07,000\n別の作業を行います\n\n";
    let files = vec![file(1, 600_000, "out/seg_001.srt", srt)];
    let results = search_checked(&files, "保存").unwrap();
    assert_eq!(results.len(), 1);
    assert_eq!(results[0].segment_index, 1);
    assert_eq!(results[0].segment_timestamp_ms, 1_000);
    assert_eq!(results[0].absolute_timestamp_ms, 601_000);
    assert!(results[0].text.contains("保存"));
}

#[test]
fn test_search_vtt_entries() {
    let vtt = "WEBVTT\n\n\
               1\n00:00:02.000 --> 00:00:04.000\n画面を録画します\n\n\
               2\n00:00:06.500 --> 00:00:08.000\n別のシーン\n\n";
    let files = vec![file(1, 300_000, "seg_001.vtt", vtt)];
    assert!(search_fits(&files, "録画"));
    let results = search_transcripts(&files, "録画");
    assert_eq!(results.len(), 1);
    assert_eq!(results[0].segment_index, 1);
    assert_eq!(results[0].segment_timestamp_ms, 2_000);
    assert_eq!(results[0].absolute_timestamp_ms, 302_000);
    assert!(results[0].text.contains("録画"));
}

#[test]
fn test_search_no_match() {
    let srt = "1\n00:00:01,000 --> 00:00:03,000\nこんにちは\n\n";
    let files = vec![file(1, 0, "seg_001.srt", srt)];
    let results = search_checked(&files, "存在しないキーワード").unwrap();
    assert!(results.is_empty());
}

#[test]
fn test_search_ignores_case() {
    let srt = "1\n00:00:01,000 --> 00:00:02,000\nHello World\n\n";
    let files = vec![file(2, 10_000, "seg_002.SRT", srt)];
    let results = search_checked(&files, "hello").unwrap();
    assert_eq!(results.len(), 1);
    assert_eq!(results[0].text, "Hello World");
    assert_eq!(results[0].absolute_timestamp_ms, 11_000);
}

#[test]
fn test_search_plain_lines() {
    let txt = "  first line mentions Rust  \nnothing here\nrust again\n";
    let files = vec![file(3, 42_000, "seg_003.txt", txt)];
    let results = search_checked(&files, "RUST").unwrap();
    assert_eq!(results.len(), 2);
    assert_eq!(results[0].text, "first line mentions Rust");
    assert_eq!(results[0].segment_timestamp_ms, 0);
    assert_eq!(results[0].absolute_timestamp_ms, 42_000);
    assert_eq!(results[1].text, "rust again");
}

#[test]
fn test_search_ordered_by_time() {
    let late = "1\n00:00:01,000 --> 00:00:02,000\nkey late\n\n";
    let early = "1\n00:00:05,000 --> 00:00:06,000\nkey early\n\n";
    let files = vec![file(2, 600_000, "b.srt", late), file(1, 0, "a.srt", early)];
    let results = search_checked(&files, "key").unwrap();
    assert_eq!(results.len(), 2);
    assert_eq!(results[0].text, "key early");
    assert_eq!(results[0].absolute_timestamp_ms, 5_000);
    assert_eq!(results[1].text, "key late");
    assert_eq!(results[1].absolute_timestamp_ms, 601_000);
}

#[test]
fn test_search_time_overflow() {
    let srt = "1\n00:00:01,000 --> 00:00:02,000\nhit\n\n";
    let files = vec![file(1, u64::MAX, "a.srt", srt)];
    assert!(!search_fits(&files, "hit"));
    assert!(search_checked(&files, "hit").is_none());
    // no hit, no time computed
    assert!(search_checked(&files, "miss").unwrap().is_empty());
}
