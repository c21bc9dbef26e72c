use video_splitter::probe::{duration_fields, scene_time_texts, silence_texts};

#[test]
fn test_duration_fields() {
    let stderr = "  Duration: 01:00:12.50, start: 0.000000, bitrate: 1234 kb/s";
    let (h, m, s) = duration_fields(stderr).unwrap();
    assert_eq!(h, "01");
    assert_eq!(m, "00");
    assert_eq!(s, "12.50");
}

#[test]
fn test_duration_fields_missing() {
    assert!(duration_fields("no duration here").is_none());
}

#[test]
fn test_silence_texts() {
    let stderr = "
[silencedetect @ 0x...] silence_start: 10.5
[silencedetect @ 0x...] silence_end: 11.2 | silence_duration: 0.7
[silencedetect @ 0x...] silence_start: 605.3
[silencedetect @ 0x...] silence_end: 606.1 | silence_duration: 0.8
";
    let (starts, ends) = silence_texts(stderr).ok().unwrap();
    assert_eq!(starts, vec!["10.5".to_string(), "605.3".to_string()]);
    assert_eq!(ends, vec!["11.2".to_string(), "606.1".to_string()]);
}

#[test]
fn test_scene_time_texts() {
    let stderr = "
[Parsed_showinfo_1 @ 0x...] n:   0 pts:      0 pts_time:0       pos:     2048 fmt:yuv420p
[Parsed_showinfo_1 @ 0x...] n:   5 pts:  12800 pts_time:12.8    pos:   100000 fmt:yuv420p
[Parsed_showinfo_1 @ 0x...] n:  18 pts:  46080 pts_time:46.08   pos:   400000 fmt:yuv420p
";
    let ts = scene_time_texts(stderr).ok().unwrap();
    assert_eq!(ts, vec!["0".to_string(), "12.8".to_string(), "46.08".to_string()]);
}

#[test]
fn test_scene_time_texts_empty() {
    let ts = scene_time_texts("no scene info here").ok().unwrap();
    assert!(ts.is_empty());
}
