use video_splitter::decimal::{parse_u64_exec, push_padded};
use video_splitter::order::sort_strings;
use video_splitter::text::{
    contains_exec, is_ws_exec, join_exec, lines_exec, replace_exec, split_exec, split_once_exec, trim_exec,
};

fn v(s: &str) -> Vec<char> {
    s.chars().collect()
}

fn s(v: &[char]) -> String {
    v.iter().collect()
}

/// Every text made of up to `n` of the tokens.
fn texts(tokens: &[&str], n: usize) -> Vec<String> {
    let mut all = vec![String::new()];
    let mut layer = vec![String::new()];
    for _ in 0..n {
        let mut next = Vec::new();
        for t in &layer {
            for k in tokens.iter() {
                next.push(format!("{}{}", t, k));
            }
        }
        all.extend(next.iter().cloned());
        layer = next;
    }
    all
}

#[test]
fn text_operations_agree_with_str() {
    let tokens = ["a", "\n", "\r", " ", "\u{3000}", ",", "."];
    let pats = ["\n\n", ",", "a", "\r\n", " --> "];
    for t in texts(&tokens, 5) {
        let tv = v(&t);
        for p in pats.iter() {
            let pv = v(p);
            let got: Vec<String> = split_exec(&tv, &pv).iter().map(|x| s(x)).collect();
            let want: Vec<String> = t.split(p).map(|x| x.to_string()).collect();
            assert_eq!(got, want, "split {:?} {:?}", t, p);
            assert_eq!(s(&replace_exec(&tv, &pv, &v("\n"))), t.replace(p, "\n"), "replace {:?} {:?}", t, p);
            assert_eq!(contains_exec(&tv, &pv), t.contains(p), "contains {:?} {:?}", t, p);
            let got = split_once_exec(&tv, &pv).map(|(a, b)| (s(&a), s(&b)));
            let want = t.split_once(p).map(|(a, b)| (a.to_string(), b.to_string()));
            assert_eq!(got, want, "split_once {:?} {:?}", t, p);
        }
        let got: Vec<String> = lines_exec(&tv).iter().map(|x| s(x)).collect();
        let want: Vec<String> = t.lines().map(|x| x.to_string()).collect();
        assert_eq!(got, want, "lines {:?}", t);
        assert_eq!(s(&trim_exec(&tv)), t.trim(), "trim {:?}", t);
        let parts: Vec<Vec<char>> = t.split(',').map(v).collect();
        let strs: Vec<&str> = t.split(',').collect();
        assert_eq!(s(&join_exec(&parts, &v("\n"))), strs.join("\n"), "join {:?}", t);
    }
}

#[test]
fn white_space_agrees_with_char() {
    for c in (0u32..0x11_0000).filter_map(char::from_u32) {
        assert_eq!(is_ws_exec(c), c.is_whitespace(), "{:?}", c);
    }
}

#[test]
fn numbers_agree_with_u64_from_str() {
    let tokens = ["0", "7", "+", "-", " ", "x"];
    for t in texts(&tokens, 5) {
        assert_eq!(parse_u64_exec(&v(&t)), t.parse::<u64>().ok(), "parse {:?}", t);
    }
    for t in ["18446744073709551615", "18446744073709551616", "+18446744073709551615", "000000000000000000000001"] {
        assert_eq!(parse_u64_exec(&v(t)), t.parse::<u64>().ok(), "parse {:?}", t);
    }
    for n in [0u64, 5, 42, 999, 1000, 123456, u64::MAX] {
        for w in 0..25usize {
            let mut out = Vec::new();
            push_padded(&mut out, n, w);
            assert_eq!(s(&out), format!("{:0w$}", n, w = w));
        }
    }
}

#[test]
fn string_order_agrees_with_sort() {
    let all = texts(&["a", "B", "é", "/", "1"], 3);
    let mut want = all.clone();
    want.reverse();
    let got = sort_strings(&want);
    want.sort();
    assert_eq!(got, want);
}
