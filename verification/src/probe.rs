//! Reading FFmpeg's diagnostic output: the numbers that its `Duration:`
//! line, its `silencedetect` filter and its `showinfo` filter print, found
//! with the `regex` crate. The numbers are handed on as their text.

use vstd::prelude::*;

use crate::text::{lines, lines_exec, seqs_of, string_of};

verus! {

// ---------------------------------------------------------------------------
// The regex crate
// ---------------------------------------------------------------------------

#[verifier::external_type_specification]
#[verifier::external_body]
pub struct ExRegexError(regex::Error);

/// `regex::Regex::new` accepts the pattern.
pub uninterp spec fn regex_compiles(pattern: Seq<char>) -> bool;

/// The text of capture group `group` of the leftmost-first match of
/// `pattern` in `haystack` (`Regex::captures`, then `Captures::get`); none
/// where the pattern does not compile, nothing matches or the group took no
/// part.
pub uninterp spec fn regex_group(pattern: Seq<char>, haystack: Seq<char>, group: nat) -> Option<
    Seq<char>,
>;

/// For each successive non-overlapping match of `pattern` in `haystack`
/// (`Regex::captures_iter`), the text of capture group `group`, where it
/// took part; empty where the pattern does not compile.
pub uninterp spec fn regex_groups_all(pattern: Seq<char>, haystack: Seq<char>, group: nat) -> Seq<
    Option<Seq<char>>,
>;

/// The characters of an optional string.
pub open spec fn opt_chars(o: Option<String>) -> Option<Seq<char>> {
    match o {
        Some(s) => Some(s@),
        None => None,
    }
}

/// `regex::Regex::new`. Trusted: it succeeds exactly when the pattern
/// compiles (`regex_compiles`).
#[verifier::external_body]
fn regex_check(pattern: &str) -> (r: Result<(), regex::Error>)
    ensures
        r is Ok <==> regex_compiles(pattern@),
{
    regex::Regex::new(pattern).map(|_| ())
}

/// `Regex::captures` with `Captures::get`, the pattern compiled with
/// `Regex::new`. Trusted: the result is `regex_group` of the arguments.
#[verifier::external_body]
fn regex_capture(pattern: &str, haystack: &str, group: usize) -> (r: Option<String>)
    ensures
        opt_chars(r) == regex_group(pattern@, haystack@, group as nat),
{
    let re = regex::Regex::new(pattern).ok()?;
    re.captures(haystack).and_then(|c| c.get(group)).map(|m| m.as_str().to_string())
}

/// `Regex::captures_iter` with `Captures::get` on each match, the pattern
/// compiled with `Regex::new`. Trusted: the result is `regex_groups_all` of
/// the arguments.
#[verifier::external_body]
fn regex_capture_all(pattern: &str, haystack: &str, group: usize) -> (r: Vec<Option<String>>)
    ensures
        r@.map_values(|o: Option<String>| opt_chars(o)) == regex_groups_all(
            pattern@,
            haystack@,
            group as nat,
        ),
{
    match regex::Regex::new(pattern) {
        Ok(re) => re.captures_iter(haystack).map(
            |c| c.get(group).map(|m| m.as_str().to_string()),
        ).collect(),
        Err(_) => Vec::new(),
    }
}

// ---------------------------------------------------------------------------
// Patterns and results
// ---------------------------------------------------------------------------

/// `Duration: HH:MM:SS.ss` in `ffmpeg -i` output.
pub const DURATION_PATTERN: &'static str = "Duration:\\s*(\\d+):(\\d+):(\\d+(?:\\.\\d+)?)";

/// The start of a silent interval in `silencedetect` output.
pub const SILENCE_START_PATTERN: &'static str = "silence_start:\\s*([\\d.]+)";

/// The end of a silent interval in `silencedetect` output.
pub const SILENCE_END_PATTERN: &'static str = "silence_end:\\s*([\\d.]+)";

/// A frame's time in `showinfo` output.
pub const SCENE_TIME_PATTERN: &'static str = "pts_time:\\s*([\\d.]+)";

/// A pattern that the `regex` crate refused.
#[derive(Debug)]
pub enum ScanError {
    Pattern(regex::Error),
}

/// The present values, in order.
pub open spec fn present(s: Seq<Option<Seq<char>>>) -> Seq<Seq<char>>
    decreases s.len(),
{
    if s.len() == 0 {
        Seq::empty()
    } else {
        match s.last() {
            Some(x) => present(s.drop_last()).push(x),
            None => present(s.drop_last()),
        }
    }
}

/// Group 1 of `pattern` on each line, where it matches, in order.
pub open spec fn group_per_line(pattern: Seq<char>, ls: Seq<Seq<char>>) -> Seq<Seq<char>>
    decreases ls.len(),
{
    if ls.len() == 0 {
        Seq::empty()
    } else {
        match regex_group(pattern, ls.last(), 1) {
            Some(x) => group_per_line(pattern, ls.drop_last()).push(x),
            None => group_per_line(pattern, ls.drop_last()),
        }
    }
}

/// The hours, minutes and seconds text of the first `Duration:` in `ffmpeg
/// -i` output.
pub open spec fn duration_texts(out: Seq<char>) -> Option<(Seq<char>, Seq<char>, Seq<char>)> {
    if !regex_compiles(DURATION_PATTERN@) {
        None
    } else {
        match (
            regex_group(DURATION_PATTERN@, out, 1),
            regex_group(DURATION_PATTERN@, out, 2),
            regex_group(DURATION_PATTERN@, out, 3),
        ) {
            (Some(h), Some(m), Some(s)) => Some((h, m, s)),
            _ => None,
        }
    }
}

// ---------------------------------------------------------------------------
// Executable
// ---------------------------------------------------------------------------

/// The text of the hours, minutes and seconds of `Duration: HH:MM:SS.ss`.
pub fn duration_fields(out: &str) -> (r: Option<(String, String, String)>)
    ensures
        match r {
            Some((h, m, s)) => duration_texts(out@) == Some((h@, m@, s@)),
            None => duration_texts(out@) is None,
        },
{
    if regex_check(DURATION_PATTERN).is_err() {
        return None;
    }
    let h = regex_capture(DURATION_PATTERN, out, 1);
    let m = regex_capture(DURATION_PATTERN, out, 2);
    let s = regex_capture(DURATION_PATTERN, out, 3);
    match (h, m, s) {
        (Some(h), Some(m), Some(s)) => Some((h, m, s)),
        _ => None,
    }
}

fn group_per_line_exec(pattern: &str, ls: &Vec<Vec<char>>) -> (r: Vec<String>)
    ensures
        r@.map_values(|s: String| s@) == group_per_line(pattern@, seqs_of(ls@)),
{
    let ghost lv = seqs_of(ls@);
    let mut r: Vec<String> = Vec::new();
    let mut i: usize = 0;
    while i < ls.len()
        invariant
            i <= ls.len(),
            lv == seqs_of(ls@),
            r@.map_values(|s: String| s@) == group_per_line(pattern@, lv.take(i as int)),
        decreases ls.len() - i,
    {
        let line = string_of(&ls[i]);
        assert(lv[i as int] == ls@[i as int]@);
        assert(lv.take(i + 1).drop_last() =~= lv.take(i as int));
        assert(lv.take(i + 1).last() == line@);
        match regex_capture(pattern, line.as_str(), 1) {
            Some(x) => {
                let ghost before = r@;
                r.push(x);
                assert(r@.map_values(|s: String| s@) =~= before.map_values(|s: String| s@).push(
                    x@,
                ));
            },
            None => {},
        }
        i += 1;
    }
    assert(lv.take(ls.len() as int) =~= lv);
    r
}

/// The texts of the `silence_start` and of the `silence_end` times in
/// `silencedetect` output, each in the order of the lines that hold them.
pub fn silence_texts(out: &str) -> (r: Result<(Vec<String>, Vec<String>), ScanError>)
    ensures
        r is Ok <==> regex_compiles(SILENCE_START_PATTERN@) && regex_compiles(SILENCE_END_PATTERN@),
        r matches Ok((starts, ends)) ==> {
            &&& starts@.map_values(|s: String| s@) == group_per_line(
                SILENCE_START_PATTERN@,
                lines(out@),
            )
            &&& ends@.map_values(|s: String| s@) == group_per_line(
                SILENCE_END_PATTERN@,
                lines(out@),
            )
        },
{
    match regex_check(SILENCE_START_PATTERN) {
        Ok(()) => {},
        Err(e) => {
            return Err(ScanError::Pattern(e));
        },
    }
    match regex_check(SILENCE_END_PATTERN) {
        Ok(()) => {},
        Err(e) => {
            return Err(ScanError::Pattern(e));
        },
    }
    let chars = crate::text::chars_of(out);
    let ls = lines_exec(&chars);
    let starts = group_per_line_exec(SILENCE_START_PATTERN, &ls);
    let ends = group_per_line_exec(SILENCE_END_PATTERN, &ls);
    Ok((starts, ends))
}

/// The texts of the `pts_time` values in `showinfo` output, in order.
pub fn scene_time_texts(out: &str) -> (r: Result<Vec<String>, ScanError>)
    ensures
        r is Ok <==> regex_compiles(SCENE_TIME_PATTERN@),
        r matches Ok(ts) ==> ts@.map_values(|s: String| s@) == present(
            regex_groups_all(SCENE_TIME_PATTERN@, out@, 1),
        ),
{
    match regex_check(SCENE_TIME_PATTERN) {
        Ok(()) => {},
        Err(e) => {
            return Err(ScanError::Pattern(e));
        },
    }
    let all = regex_capture_all(SCENE_TIME_PATTERN, out, 1);
    let ghost gs = all@.map_values(|o: Option<String>| opt_chars(o));
    let mut ts: Vec<String> = Vec::new();
    let mut i: usize = 0;
    while i < all.len()
        invariant
            i <= all.len(),
            gs == all@.map_values(|o: Option<String>| opt_chars(o)),
            ts@.map_values(|s: String| s@) == present(gs.take(i as int)),
        decreases all.len() - i,
    {
        assert(gs.take(i + 1).drop_last() =~= gs.take(i as int));
        assert(gs.take(i + 1).last() == opt_chars(all@[i as int]));
        match &all[i] {
            Some(x) => {
                let ghost before = ts@;
                ts.push(x.clone());
                assert(ts@.map_values(|s: String| s@) =~= before.map_values(|s: String| s@).push(
                    x@,
                ));
            },
            None => {},
        }
        i += 1;
    }
    assert(gs.take(all.len() as int) =~= gs);
    Ok(ts)
}

} // verus!
