use video_splitter::paths::{
    frames_dir, output_dir_for, path_extension, path_file_stem, path_join, path_parent,
    path_with_extension, segment_output_path, select_frames, to_relative,
};

#[test]
fn test_to_relative_strips_base() {
    assert_eq!(to_relative("/tmp/out/lecture_001.mp4", "/tmp/out"), "lecture_001.mp4");
    assert_eq!(
        to_relative("/tmp/out/lecture_001_frames/frame_0001.jpg", "/tmp/out"),
        "lecture_001_frames/frame_0001.jpg"
    );
}

#[test]
fn test_to_relative_outside_base() {
    assert_eq!(to_relative("/other/video.mp4", "/tmp/out"), "/other/video.mp4");
    // a base that only shares a prefix of characters is no prefix of components
    assert_eq!(to_relative("/tmp/output/a.mp4", "/tmp/out"), "/tmp/output/a.mp4");
}

#[test]
fn test_to_relative_backslashes() {
    assert_eq!(to_relative("/tmp/out/a\\b.jpg", "/tmp/out"), "a/b.jpg");
}

#[test]
fn test_to_relative_base_itself() {
    assert_eq!(to_relative("/tmp/out", "/tmp/out"), "");
}

#[test]
fn test_segment_output_path_first() {
    assert_eq!(segment_output_path("/tmp/lecture.mp4", "/tmp/out", 1, 3), "/tmp/out/lecture_001.mp4");
}

#[test]
fn test_segment_output_path_padding() {
    assert_eq!(segment_output_path("/tmp/video.mp4", "/tmp", 10, 10), "/tmp/video_010.mp4");
    assert_eq!(segment_output_path("/tmp/video.mp4", "/tmp", 7, 1000), "/tmp/video_0007.mp4");
}

#[test]
fn test_segment_output_path_defaults() {
    // no extension: mp4
    assert_eq!(segment_output_path("/tmp/movie", "out", 2, 5), "out/movie_002.mp4");
    // other extensions are kept
    assert_eq!(segment_output_path("talk.mkv", "/x/", 3, 3), "/x/talk_003.mkv");
}

#[test]
fn test_frames_dir() {
    assert_eq!(frames_dir("/tmp/out/lecture_001.mp4"), "/tmp/out/lecture_001_frames");
    assert_eq!(frames_dir("seg.mp4"), "seg_frames");
}

#[test]
fn test_select_frames_sorted_jpgs() {
    let files = vec![
        "/d/frame_0002.jpg".to_string(),
        "/d/notes.txt".to_string(),
        "/d/frame_0001.JPG".to_string(),
        "/d/x.png".to_string(),
        "/d/frame_0010.jpg".to_string(),
    ];
    let frames = select_frames(&files);
    assert_eq!(
        frames,
        vec![
            "/d/frame_0001.JPG".to_string(),
            "/d/frame_0002.jpg".to_string(),
            "/d/frame_0010.jpg".to_string()
        ]
    );
}

#[test]
fn test_select_frames_none() {
    let files = vec!["/d/a.png".to_string(), "/d/jpg".to_string()];
    assert!(select_frames(&files).is_empty());
}

#[test]
fn test_file_stem_and_extension() {
    assert_eq!(path_file_stem("/tmp/a.tar.gz"), Some("a.tar".to_string()));
    assert_eq!(path_extension("/tmp/a.tar.gz"), Some("gz".to_string()));
    assert_eq!(path_file_stem("/tmp/.bashrc"), Some(".bashrc".to_string()));
    assert_eq!(path_extension("/tmp/.bashrc"), None);
    assert_eq!(path_file_stem("/"), None);
}

#[test]
fn test_parent_and_join() {
    assert_eq!(path_parent("/tmp/a.mp4"), Some("/tmp".to_string()));
    assert_eq!(path_parent("a.mp4"), Some("".to_string()));
    assert_eq!(path_parent("/"), None);
    assert_eq!(path_join("/tmp", "a"), "/tmp/a");
    assert_eq!(path_join("/tmp/", "a"), "/tmp/a");
    assert_eq!(path_join("/tmp", "/abs"), "/abs");
}

#[test]
fn test_with_extension() {
    assert_eq!(path_with_extension("/tmp/out/lecture_001.mp4", "srt"), "/tmp/out/lecture_001.srt");
    assert_eq!(path_with_extension("foo.tar.gz", "xz"), "foo.tar.xz");
    assert_eq!(path_with_extension("a/b.mp4/.", "srt"), "a/b.srt");
    assert_eq!(path_with_extension("dir/", "txt"), "dir.txt");
    assert_eq!(path_with_extension(".hidden", "srt"), ".hidden.srt");
    assert_eq!(path_with_extension("x.mp4", ""), "x");
}

#[test]
fn test_with_extension_without_file_name() {
    assert_eq!(path_with_extension("/", "srt"), "/");
    assert_eq!(path_with_extension("a/..", "srt"), "a/..");
    assert_eq!(path_with_extension("", "srt"), "");
}

#[test]
fn test_output_dir_for() {
    assert_eq!(output_dir_for("/tmp/lecture.mp4"), "/tmp");
    assert_eq!(output_dir_for("lecture.mp4"), "");
    assert_eq!(output_dir_for("/"), ".");
}

#[test]
fn test_segment_names_sort_in_segment_order() {
    let names: Vec<String> = (1..=1200).map(|i| segment_output_path("/v/talk.mp4", "/out", i, 1200)).collect();
    let mut sorted = names.clone();
    sorted.sort();
    assert_eq!(sorted, names);
    assert_eq!(names[6], "/out/talk_0007.mp4");
}

#[test]
fn test_relative_of_nested_output() {
    let dir = "/tmp/out";
    let frame = path_join(&frames_dir(&segment_output_path("/v/talk.mp4", dir, 2, 3)), "frame_0001.jpg");
    assert_eq!(frame, "/tmp/out/talk_002_frames/frame_0001.jpg");
    assert_eq!(to_relative(&frame, dir), "talk_002_frames/frame_0001.jpg");
}

#[test]
fn test_to_relative_keeps_inner_text() {
    assert_eq!(to_relative("/tmp/out/a//b.jpg", "/tmp/out"), "a//b.jpg");
    assert_eq!(to_relative("/tmp/out//a/", "/tmp/out"), "a");
    assert_eq!(to_relative("/tmp/out/./a", "/tmp/out/"), "a");
    assert_eq!(to_relative("a/./b/", ""), "a/./b");
    assert_eq!(to_relative("./x", "."), "x");
    assert_eq!(to_relative("/", ""), "/");
}

#[test]
fn test_parent_keeps_inner_text() {
    assert_eq!(path_parent("a//x/b"), Some("a//x".to_string()));
    assert_eq!(path_parent("./a"), Some(".".to_string()));
    assert_eq!(path_parent("."), Some("".to_string()));
    assert_eq!(path_parent("/a"), Some("/".to_string()));
    assert_eq!(path_parent("a/./"), Some("".to_string()));
    assert_eq!(path_parent("/a/b/."), Some("/a".to_string()));
}
