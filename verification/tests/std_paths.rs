use std::path::Path;

use video_splitter::paths::{
    output_dir_for, path_extension, path_file_stem, path_join, path_parent, path_with_extension, to_relative,
};

/// Every text made of up to `n` of the tokens.
fn texts(n: usize) -> Vec<String> {
    let tokens = ["a", "/", ".", "..", "b.c", "x.", "\\"];
    let mut all = vec![String::new()];
    let mut layer = vec![String::new()];
    for _ in 0..n {
        let mut next = Vec::new();
        for t in &layer {
            for k in tokens.iter() {
                next.push(format!("{}{}", t, k));
            }
        }
        all.extend(next.iter().cloned());
        layer = next;
    }
    all
}

fn std_str(p: &Path) -> String {
    p.to_str().unwrap().to_string()
}

#[test]
fn paths_agree_with_std_path() {
    for p in texts(4) {
        let sp = Path::new(&p);
        assert_eq!(path_file_stem(&p), sp.file_stem().map(|s| s.to_str().unwrap().to_string()), "stem {:?}", p);
        assert_eq!(path_extension(&p), sp.extension().map(|s| s.to_str().unwrap().to_string()), "ext {:?}", p);
        assert_eq!(path_parent(&p), sp.parent().map(std_str), "parent {:?}", p);
        assert_eq!(path_with_extension(&p, "srt"), std_str(&sp.with_extension("srt")), "with_extension {:?}", p);
        assert_eq!(path_with_extension(&p, ""), std_str(&sp.with_extension("")), "with_extension {:?}", p);
        assert_eq!(
            output_dir_for(&p),
            std_str(sp.parent().unwrap_or_else(|| Path::new("."))),
            "output dir {:?}",
            p
        );
    }
}

#[test]
fn joins_agree_with_std_path() {
    let all = texts(3);
    for d in &all {
        for n in &all {
            assert_eq!(path_join(d, n), std_str(&Path::new(d).join(n)), "join {:?} {:?}", d, n);
        }
    }
}

#[test]
fn relative_paths_agree_with_std_path() {
    let all = texts(3);
    for p in &all {
        for b in &all {
            let sp = Path::new(p);
            let expected = sp.strip_prefix(b).unwrap_or(sp).to_string_lossy().replace('\\', "/");
            assert_eq!(to_relative(p, b), expected, "relative {:?} {:?}", p, b);
        }
    }
}
