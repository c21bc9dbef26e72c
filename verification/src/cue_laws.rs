//! What reading gives back of writing: times and whole subtitle files
//! survive a round trip through their text.

use vstd::prelude::*;

use crate::decimal::{all_digits, dec_digits, is_digit, lemma_dec_digits, lemma_parse_padded, padded};
use crate::text::{
    contains, crlf, crlf_at, find, is_ws, join, lacks, lemma_find_from, lemma_find_from_unique, lemma_join_split,
    lemma_lines_plain, lemma_match_first, lemma_replace_crlf, lemma_replace_none, lemma_split_cons,
    lemma_split_from_nonempty, lemma_split_none, lemma_trim_id, lines, matches_at, replace, split,
    no_crlf, split_once, trim,
};
use crate::transcribe::{
    arrow, block_in_range, clock_time, cue_block, cue_blocks, cue_of_block, cues_of_blocks,
    srt_blocks, srt_cues, srt_in_range, srt_text, time_fields, timestamp_value, vtt_header,
    vtt_text, Cue,
};

verus! {

// ---------------------------------------------------------------------------
// Splitting at single characters
// ---------------------------------------------------------------------------

/// No match of `[c]` starts among the first `n` characters when none of
/// them is `c`.
proof fn lemma_no_char_match(w: Seq<char>, n: int, c: char)
    requires
        0 <= n <= w.len(),
        forall|j: int| 0 <= j < n ==> w[j] != c,
    ensures
        forall|j: int| 0 <= j < n ==> !matches_at(w, seq![c], j),
{
    assert forall|j: int| 0 <= j < n implies !matches_at(w, seq![c], j) by {
        if matches_at(w, seq![c], j) {
            lemma_match_first(w, seq![c], j);
        }
    }
}

/// `split_once(x + [c] + y, [c]) == (x, y)` when `x` lacks `c`.
pub proof fn lemma_split_once_char(x: Seq<char>, y: Seq<char>, c: char)
    requires
        lacks(x, c),
    ensures
        split_once(x + seq![c] + y, seq![c]) == Some((x, y)),
{
    let w = x + seq![c] + y;
    assert forall|j: int| 0 <= j < x.len() implies w[j] != c by {
        assert(w[j] == x[j]);
    }
    lemma_no_char_match(w, x.len() as int, c);
    assert(w.subrange(x.len() as int, x.len() as int + 1) =~= seq![c]);
    lemma_find_from_unique(w, seq![c], 0, x.len() as int);
    assert(w.take(x.len() as int) =~= x);
    assert(w.skip(x.len() as int + 1) =~= y);
}

/// `split_once(s, [c])` finds nothing when `s` lacks `c`.
pub proof fn lemma_split_once_char_none(s: Seq<char>, c: char)
    requires
        lacks(s, c),
    ensures
        split_once(s, seq![c]) is None,
{
    lemma_no_char_match(s, s.len() as int, c);
    lemma_find_from(s, seq![c], 0);
    if split_once(s, seq![c]) is Some {
        let k = find(s, seq![c])->0;
        assert(matches_at(s, seq![c], k));
    }
}

/// `split(x + [c] + y, [c]) == [x] + split(y, [c])` when `x` lacks `c`.
pub proof fn lemma_split_char_cons(x: Seq<char>, y: Seq<char>, c: char)
    requires
        lacks(x, c),
    ensures
        split(x + seq![c] + y, seq![c]) == seq![x] + split(y, seq![c]),
{
    let w = x + seq![c] + y;
    assert forall|j: int| 0 <= j < x.len() implies w[j] != c by {
        assert(w[j] == x[j]);
    }
    lemma_no_char_match(w, x.len() as int, c);
    lemma_split_cons(x, y, seq![c]);
}

/// `split(s, [c]) == [s]` when `s` lacks `c`.
pub proof fn lemma_split_char_none(s: Seq<char>, c: char)
    requires
        lacks(s, c),
    ensures
        split(s, seq![c]) == seq![s],
{
    lemma_no_char_match(s, s.len() as int, c);
    lemma_split_none(s, seq![c]);
}

/// A digit string lacks every non-digit character.
pub proof fn lemma_digits_lack(s: Seq<char>, c: char)
    requires
        all_digits(s),
        !is_digit(c),
    ensures
        lacks(s, c),
{
    assert forall|i: int| 0 <= i < s.len() implies s[i] != c by {
        assert(is_digit(s[i]));
    }
}

/// Both halves lacking `c` makes the whole lack it.
pub proof fn lemma_lacks_concat(a: Seq<char>, b: Seq<char>, c: char)
    requires
        lacks(a, c),
        lacks(b, c),
    ensures
        lacks(a + b, c),
{
    assert forall|i: int| 0 <= i < (a + b).len() implies (a + b)[i] != c by {
        if i < a.len() {
            assert((a + b)[i] == a[i]);
        } else {
            assert((a + b)[i] == b[i - a.len()]);
        }
    }
}

// ---------------------------------------------------------------------------
// Times
// ---------------------------------------------------------------------------

/// A printed time is a non-empty run of digits, `:` and its separator.
pub open spec fn clock_char(ch: char, sep: char) -> bool {
    is_digit(ch) || ch == ':' || ch == sep
}

/// The characters of a printed time.
pub proof fn lemma_clock_chars(ms: nat, sep: char)
    ensures
        clock_time(ms, sep).len() > 0,
        is_digit(clock_time(ms, sep)[0]),
        is_digit(clock_time(ms, sep).last()),
        forall|i: int|
            0 <= i < clock_time(ms, sep).len() ==> clock_char(#[trigger] clock_time(ms, sep)[i], sep),
{
    let hh = padded(ms / 3600000, 2);
    let mm = padded((ms % 3600000) / 60000, 2);
    let ss = padded((ms % 60000) / 1000, 2);
    let ff = padded(ms % 1000, 3);
    reveal_padded_facts(ms / 3600000, 2);
    reveal_padded_facts((ms % 3600000) / 60000, 2);
    reveal_padded_facts((ms % 60000) / 1000, 2);
    reveal_padded_facts(ms % 1000, 3);
    let t = clock_time(ms, sep);
    assert(t =~= hh + seq![':'] + mm + seq![':'] + ss + seq![sep] + ff);
    assert(t[0] == hh[0]);
    assert(t.last() == ff.last());
    assert forall|i: int| 0 <= i < t.len() implies clock_char(#[trigger] t[i], sep) by {
        let a = hh.len() as int;
        let b = a + 1 + mm.len();
        let c = b + 1 + ss.len();
        if i < a {
            assert(t[i] == hh[i]);
        } else if i == a {
        } else if i < b {
            assert(t[i] == mm[i - a - 1]);
        } else if i == b {
        } else if i < c {
            assert(t[i] == ss[i - b - 1]);
        } else if i == c {
        } else {
            assert(t[i] == ff[i - c - 1]);
        }
    }
}

/// A padded numeral of a value below 2^64 is a non-empty digit string.
proof fn reveal_padded_facts(n: nat, w: int)
    ensures
        n <= u64::MAX ==> padded(n, w).len() >= 1 && all_digits(padded(n, w)),
        padded(n, w).len() >= 1,
        all_digits(padded(n, w)),
{
    lemma_dec_digits(n);
    crate::decimal::lemma_dec_value_zeros(w - dec_digits(n).len(), dec_digits(n));
}

/// A time written as four numerals of any widths, `H:M:S` then `,` or `.`
/// then the milliseconds, reads as `H` hours, `M` minutes, `S` seconds and
/// that many milliseconds: each field is a whole number, the last one too.
pub proof fn law_timestamp_fields(h: u64, m: u64, s: u64, f: u64, wh: int, wm: int, ws: int, wf: int, sep: char)
    requires
        sep == ',' || sep == '.',
    ensures
        timestamp_value(
            padded(h as nat, wh) + seq![':'] + padded(m as nat, wm) + seq![':'] + padded(s as nat, ws)
                + seq![sep] + padded(f as nat, wf),
        ) == Some(h * 3600000 + m * 60000 + s * 1000 + f),
{
    reveal(timestamp_value);
    let hh = padded(h as nat, wh);
    let mm = padded(m as nat, wm);
    let ss = padded(s as nat, ws);
    let ff = padded(f as nat, wf);
    lemma_parse_padded(h as nat, wh);
    lemma_parse_padded(m as nat, wm);
    lemma_parse_padded(s as nat, ws);
    lemma_parse_padded(f as nat, wf);
    let hms = hh + seq![':'] + mm + seq![':'] + ss;
    let t = hms + seq![sep] + ff;
    assert(t =~= hh + seq![':'] + mm + seq![':'] + ss + seq![sep] + ff);
    // digits at both ends, so trimming keeps the time
    assert(t[0] == hh[0]);
    assert(t.last() == ff.last());
    assert(is_digit(hh[0]));
    assert(is_digit(ff[ff.len() - 1]));
    lemma_trim_id(t);
    // the separator is found after the clock part
    lemma_digits_lack(hh, ',');
    lemma_digits_lack(mm, ',');
    lemma_digits_lack(ss, ',');
    lemma_digits_lack(hh, '.');
    lemma_digits_lack(mm, '.');
    lemma_digits_lack(ss, '.');
    lemma_lacks_concat(hh, seq![':'], ',');
    lemma_lacks_concat(hh + seq![':'], mm, ',');
    lemma_lacks_concat(hh + seq![':'] + mm, seq![':'], ',');
    lemma_lacks_concat(hh + seq![':'] + mm + seq![':'], ss, ',');
    lemma_lacks_concat(hh, seq![':'], '.');
    lemma_lacks_concat(hh + seq![':'], mm, '.');
    lemma_lacks_concat(hh + seq![':'] + mm, seq![':'], '.');
    lemma_lacks_concat(hh + seq![':'] + mm + seq![':'], ss, '.');
    if sep == ',' {
        lemma_split_once_char(hms, ff, ',');
    } else {
        lemma_digits_lack(ff, ',');
        lemma_lacks_concat(hms, seq![sep], ',');
        lemma_lacks_concat(hms + seq![sep], ff, ',');
        lemma_split_once_char_none(t, ',');
        lemma_split_once_char(hms, ff, '.');
    }
    assert(time_fields(t) == Some((hms, ff)));
    // the clock part splits into its three fields
    lemma_digits_lack(hh, ':');
    lemma_digits_lack(mm, ':');
    lemma_digits_lack(ss, ':');
    assert(hms =~= hh + seq![':'] + (mm + seq![':'] + ss));
    lemma_split_char_cons(hh, mm + seq![':'] + ss, ':');
    lemma_split_char_cons(mm, ss, ':');
    lemma_split_char_none(ss, ':');
    let parts = split(hms, seq![':']);
    assert(parts =~= seq![hh, mm, ss]);
    // the millisecond field needs no trimming
    assert(is_digit(ff[0]));
    lemma_trim_id(ff);
}

/// Reading a printed time gives back its milliseconds, with `,` (SRT) or
/// `.` (WebVTT) before the milliseconds.
pub proof fn law_timestamp_round_trip(ms: u64, sep: char)
    requires
        sep == ',' || sep == '.',
    ensures
        timestamp_value(clock_time(ms as nat, sep)) == Some(ms as int),
{
    let n = ms as nat;
    let h = (n / 3600000) as u64;
    let m = ((n % 3600000) / 60000) as u64;
    let s = ((n % 60000) / 1000) as u64;
    let f = (n % 1000) as u64;
    law_timestamp_fields(h, m, s, f, 2, 2, 2, 3, sep);
    assert(clock_time(n, sep) =~= padded(h as nat, 2) + seq![':'] + padded(m as nat, 2) + seq![':']
        + padded(s as nat, 2) + seq![sep] + padded(f as nat, 3));
    assert(h * 3600000 + m * 60000 + s * 1000 + f == n);
}


// ---------------------------------------------------------------------------
// Whole files
// ---------------------------------------------------------------------------

/// A cue that SRT and WebVTT text can carry unchanged: times that fit in
/// 64 bits, and a non-empty text without white space at either end, without
/// `\r\n` and without a blank line.
pub open spec fn printable(c: Cue) -> bool {
    &&& 0 <= c.start_ms <= u64::MAX
    &&& 0 <= c.end_ms <= u64::MAX
    &&& c.text.len() > 0
    &&& !is_ws(c.text[0])
    &&& !is_ws(c.text.last())
    &&& !contains(c.text, seq!['\r', '\n'])
    &&& !contains(c.text, seq!['\n', '\n'])
}

/// The times line of a cue: `start --> end`.
pub open spec fn time_line(c: Cue, sep: char) -> Seq<char> {
    clock_time(c.start_ms as nat, sep) + arrow() + clock_time(c.end_ms as nat, sep)
}

/// A cue's block without the blank line after it.
pub open spec fn cue_body(n: nat, c: Cue, sep: char) -> Seq<char> {
    dec_digits(n) + seq!['\n'] + time_line(c, sep) + seq!['\n'] + c.text
}

/// Newlines stand at `j` and `j + 1`.
pub open spec fn nl_pair(s: Seq<char>, j: int) -> bool {
    s[j] == '\n' && s[j + 1] == '\n'
}

/// No two newlines stand next to each other.
pub open spec fn no_blank(s: Seq<char>) -> bool {
    forall|j: int| 0 <= j && j + 1 < s.len() ==> !#[trigger] nl_pair(s, j)
}

proof fn lemma_no_blank_concat(a: Seq<char>, b: Seq<char>)
    requires
        no_blank(a),
        no_blank(b),
        a.len() == 0 || b.len() == 0 || !(a.last() == '\n' && b[0] == '\n'),
    ensures
        no_blank(a + b),
{
    let w = a + b;
    assert forall|j: int| 0 <= j && j + 1 < w.len() implies !#[trigger] nl_pair(w, j) by {
        if j + 1 < a.len() {
            assert(w[j] == a[j] && w[j + 1] == a[j + 1]);
            assert(!nl_pair(a, j));
        } else if j + 1 == a.len() {
            assert(w[j] == a.last() && w[j + 1] == b[0]);
        } else {
            let k = j - a.len();
            assert(w[j] == b[k] && w[j + 1] == b[k + 1]);
            assert(!nl_pair(b, k));
        }
    }
}

proof fn lemma_lacks_no_blank(s: Seq<char>)
    requires
        lacks(s, '\n'),
    ensures
        no_blank(s),
{
    assert forall|j: int| 0 <= j && j + 1 < s.len() implies !#[trigger] nl_pair(s, j) by {
        assert(s[j] != '\n');
    }
}

/// Text without the pattern `\n\n` has no two adjacent newlines.
proof fn lemma_no_contains_no_blank(s: Seq<char>)
    requires
        !contains(s, seq!['\n', '\n']),
    ensures
        no_blank(s),
{
    lemma_find_from(s, seq!['\n', '\n'], 0);
    assert forall|j: int| 0 <= j && j + 1 < s.len() implies !#[trigger] nl_pair(s, j) by {
        if s[j] == '\n' && s[j + 1] == '\n' {
            assert(s.subrange(j, j + 2) =~= seq!['\n', '\n']);
            assert(matches_at(s, seq!['\n', '\n'], j));
        }
    }
}

/// Text without `\r` holds no `\r\n`.
proof fn lemma_lacks_no_crlf(s: Seq<char>)
    requires
        lacks(s, '\r'),
    ensures
        no_crlf(s),
{
    assert forall|j: int| 0 <= j && j + 1 < s.len() implies !#[trigger] crlf_at(s, j) by {
        assert(s[j] != '\r');
    }
}

/// Text where the pattern `\r\n` is not found holds no `\r\n`.
proof fn lemma_no_contains_no_crlf(s: Seq<char>)
    requires
        !contains(s, seq!['\r', '\n']),
    ensures
        no_crlf(s),
{
    lemma_find_from(s, seq!['\r', '\n'], 0);
    assert forall|j: int| 0 <= j && j + 1 < s.len() implies !#[trigger] crlf_at(s, j) by {
        if s[j] == '\r' && s[j + 1] == '\n' {
            assert(s.subrange(j, j + 2) =~= seq!['\r', '\n']);
            assert(matches_at(s, seq!['\r', '\n'], j));
        }
    }
}

proof fn lemma_no_crlf_concat(a: Seq<char>, b: Seq<char>)
    requires
        no_crlf(a),
        no_crlf(b),
        a.len() == 0 || a.last() != '\r',
    ensures
        no_crlf(a + b),
{
    let w = a + b;
    assert forall|j: int| 0 <= j && j + 1 < w.len() implies !#[trigger] crlf_at(w, j) by {
        if j + 1 < a.len() {
            assert(w[j] == a[j] && w[j + 1] == a[j + 1]);
            assert(!crlf_at(a, j));
        } else if j + 1 == a.len() {
            assert(w[j] == a.last());
        } else {
            let k = j - a.len();
            assert(w[j] == b[k] && w[j + 1] == b[k + 1]);
            assert(!crlf_at(b, k));
        }
    }
}

/// `split_once(x + pat + y, pat) == (x, y)` when no match starts in `x`.
proof fn lemma_split_once_cons(x: Seq<char>, y: Seq<char>, pat: Seq<char>)
    requires
        forall|j: int| 0 <= j < x.len() ==> !matches_at(x + pat + y, pat, j),
    ensures
        split_once(x + pat + y, pat) == Some((x, y)),
{
    let w = x + pat + y;
    assert(w.subrange(x.len() as int, (x.len() + pat.len()) as int) =~= pat);
    lemma_find_from_unique(w, pat, 0, x.len() as int);
    assert(w.take(x.len() as int) =~= x);
    assert(w.skip((x.len() + pat.len()) as int) =~= y);
}

/// The parts of a times line.
proof fn lemma_time_line(c: Cue, sep: char)
    requires
        printable(c),
        sep == ',' || sep == '.',
    ensures
        time_line(c, sep).len() > 0,
        is_digit(time_line(c, sep)[0]),
        is_digit(time_line(c, sep).last()),
        lacks(time_line(c, sep), '\n'),
        lacks(time_line(c, sep), '\r'),
        split_once(time_line(c, sep), arrow()) == Some(
            (clock_time(c.start_ms as nat, sep), clock_time(c.end_ms as nat, sep)),
        ),
        timestamp_value(clock_time(c.start_ms as nat, sep)) == Some(c.start_ms),
        timestamp_value(clock_time(c.end_ms as nat, sep)) == Some(c.end_ms),
{
    let c1 = clock_time(c.start_ms as nat, sep);
    let c2 = clock_time(c.end_ms as nat, sep);
    let l = time_line(c, sep);
    lemma_clock_chars(c.start_ms as nat, sep);
    lemma_clock_chars(c.end_ms as nat, sep);
    law_timestamp_round_trip(c.start_ms as u64, sep);
    law_timestamp_round_trip(c.end_ms as u64, sep);
    assert(l[0] == c1[0]);
    assert(l.last() == c2.last());
    assert forall|i: int| 0 <= i < l.len() implies l[i] != '\n' && l[i] != '\r' by {
        if i < c1.len() {
            assert(l[i] == c1[i]);
            assert(clock_char(c1[i], sep));
        } else if i < c1.len() + 5 {
            assert(l[i] == arrow()[i - c1.len()]);
        } else {
            assert(l[i] == c2[i - c1.len() - 5]);
            assert(clock_char(c2[i - c1.len() - 5], sep));
        }
    }
    assert forall|j: int| 0 <= j < c1.len() implies !matches_at(l, arrow(), j) by {
        assert(l[j] == c1[j]);
        assert(clock_char(c1[j], sep));
        if matches_at(l, arrow(), j) {
            lemma_match_first(l, arrow(), j);
        }
    }
    lemma_split_once_cons(c1, c2, arrow());
}

/// The parts of a cue's block.
proof fn lemma_cue_body(n: nat, c: Cue, sep: char)
    requires
        printable(c),
        sep == ',' || sep == '.',
    ensures
        cue_body(n, c, sep).len() > 0,
        cue_body(n, c, sep).last() != '\n',
        cue_body(n, c, sep).last() != '\r',
        no_blank(cue_body(n, c, sep)),
        no_crlf(cue_body(n, c, sep)),
        cue_of_block(cue_body(n, c, sep)) == Some(c),
        block_in_range(cue_body(n, c, sep)),
{
    reveal(cue_of_block);
    reveal(block_in_range);
    let d = dec_digits(n);
    let l = time_line(c, sep);
    let t = c.text;
    let nl = seq!['\n'];
    let b = cue_body(n, c, sep);
    lemma_dec_digits(n);
    lemma_time_line(c, sep);
    lemma_digits_lack(d, '\n');
    lemma_digits_lack(d, '\r');
    // no blank line inside the block
    lemma_lacks_no_blank(d);
    assert(no_blank(nl));
    lemma_lacks_no_blank(l);
    lemma_no_contains_no_blank(t);
    assert(is_digit(d.last()));
    lemma_no_blank_concat(d, nl);
    lemma_no_blank_concat(d + nl, l);
    lemma_no_blank_concat(d + nl + l, nl);
    lemma_no_blank_concat(d + nl + l + nl, t);
    // no carriage return before a newline
    lemma_lacks_concat(d, nl, '\r');
    lemma_lacks_concat(d + nl, l, '\r');
    lemma_lacks_concat(d + nl + l, nl, '\r');
    lemma_lacks_no_crlf(d + nl + l + nl);
    lemma_no_contains_no_crlf(t);
    lemma_no_crlf_concat(d + nl + l + nl, t);
    // reading the block back
    assert(b[0] == d[0]);
    assert(b.last() == t.last());
    lemma_trim_id(b);
    lemma_lines_plain(b);
    assert(b =~= d + nl + (l + nl + t));
    lemma_split_char_cons(d, l + nl + t, '\n');
    lemma_split_char_cons(l, t, '\n');
    lemma_split_from_nonempty(t, nl, 0);
    let ls = lines(b);
    assert(ls =~= seq![d, l] + split(t, nl));
    assert(ls[1] == l);
    assert(ls.skip(2) =~= split(t, nl));
    lemma_join_split(t, nl);
    lemma_trim_id(t);
}

/// The parts of the last cue's block and the blank line after it.
proof fn lemma_block_split(n: nat, c: Cue, sep: char, rest: Seq<char>)
    requires
        printable(c),
        sep == ',' || sep == '.',
    ensures
        split(cue_block(n, c, sep) + rest, seq!['\n', '\n']) == seq![cue_body(n, c, sep)] + split(
            rest,
            seq!['\n', '\n'],
        ),
{
    let b = cue_body(n, c, sep);
    let nl2 = seq!['\n', '\n'];
    lemma_cue_body(n, c, sep);
    assert(cue_block(n, c, sep) + rest =~= b + nl2 + rest);
    let w = b + nl2 + rest;
    assert forall|j: int| 0 <= j < b.len() implies !matches_at(w, nl2, j) by {
        if matches_at(w, nl2, j) {
            lemma_match_first(w, nl2, j);
            if j + 1 < b.len() {
                assert(w[j] == b[j] && w[j + 1] == b[j + 1]);
                assert(!nl_pair(b, j));
            } else {
                assert(w[j] == b.last());
            }
        }
    }
    lemma_split_cons(b, rest, nl2);
}

/// Reading is compositional in the blocks.
proof fn lemma_cues_of_blocks_concat(a: Seq<Seq<char>>, b: Seq<Seq<char>>)
    ensures
        cues_of_blocks(a + b) == cues_of_blocks(a) + cues_of_blocks(b),
    decreases b.len(),
{
    if b.len() == 0 {
        assert(a + b =~= a);
    } else {
        assert((a + b).drop_last() =~= a + b.drop_last());
        assert((a + b).last() == b.last());
        lemma_cues_of_blocks_concat(a, b.drop_last());
    }
}

/// The blank-line-separated parts of the cues' blocks.
pub open spec fn block_parts(cues: Seq<Cue>, n: nat, sep: char) -> Seq<Seq<char>> {
    split(cue_blocks(cues, n, sep), seq!['\n', '\n'])
}

/// Reading the blocks of `cues` gives them back, every time in them fits
/// in 64 bits, and they hold no `\r\n`.
#[verifier::opaque]
pub open spec fn reads_back(cues: Seq<Cue>, n: nat, sep: char) -> bool {
    &&& no_crlf(cue_blocks(cues, n, sep))
    &&& cues_of_blocks(block_parts(cues, n, sep)) == cues
    &&& forall|i: int|
        0 <= i < block_parts(cues, n, sep).len() ==> block_in_range(
            #[trigger] block_parts(cues, n, sep)[i],
        )
}

proof fn lemma_reads_back_empty(n: nat, sep: char)
    ensures
        reads_back(Seq::<Cue>::empty(), n, sep),
{
    reveal(reads_back);
    let nl2 = seq!['\n', '\n'];
    let w = cue_blocks(Seq::<Cue>::empty(), n, sep);
    assert(w.len() == 0);
    lemma_split_none(w, nl2);
    let e = Seq::<char>::empty();
    assert(w =~= e);
    assert(split(w, nl2) =~= seq![e]);
    assert(seq![e].drop_last() =~= Seq::<Seq<char>>::empty());
    assert(seq![e].last() == e);
    assert(trim(e).len() == 0);
    reveal(cue_of_block);
    reveal(block_in_range);
    assert(cue_of_block(e) is None);
    assert(block_in_range(e));
    assert(cues_of_blocks(Seq::<Seq<char>>::empty()) == Seq::<Cue>::empty());
    assert(cues_of_blocks(seq![e]) =~= Seq::<Cue>::empty());
    assert(block_parts(Seq::<Cue>::empty(), n, sep)[0] == e);
}

proof fn lemma_reads_back_cons(c: Cue, rest_cues: Seq<Cue>, n: nat, sep: char)
    requires
        printable(c),
        sep == ',' || sep == '.',
        reads_back(rest_cues, n + 1, sep),
    ensures
        reads_back(seq![c] + rest_cues, n, sep),
{
    reveal(reads_back);
    let nl2 = seq!['\n', '\n'];
    let cues = seq![c] + rest_cues;
    assert(cues[0] == c);
    assert(cues.skip(1) =~= rest_cues);
    let w = cue_blocks(cues, n, sep);
    let rest = cue_blocks(rest_cues, n + 1, sep);
    assert(w == cue_block(n, c, sep) + rest);
    lemma_block_split(n, c, sep, rest);
    lemma_cue_body(n, c, sep);
    let b = cue_body(n, c, sep);
    let parts = block_parts(cues, n, sep);
    let rest_parts = block_parts(rest_cues, n + 1, sep);
    assert(parts == seq![b] + rest_parts);
    lemma_cues_of_blocks_concat(seq![b], rest_parts);
    assert(seq![b].drop_last() =~= Seq::<Seq<char>>::empty());
    assert(seq![b].last() == b);
    assert(cues_of_blocks(Seq::<Seq<char>>::empty()) == Seq::<Cue>::empty());
    assert(cues_of_blocks(seq![b]) =~= seq![c]);
    assert forall|i: int| 0 <= i < parts.len() implies block_in_range(#[trigger] parts[i]) by {
        if i > 0 {
            assert(parts[i] == rest_parts[i - 1]);
        } else {
            assert(parts[0] == b);
        }
    }
    assert(cue_block(n, c, sep) =~= b + nl2);
    lemma_lacks_no_crlf(nl2);
    lemma_no_crlf_concat(b, nl2);
    lemma_no_crlf_concat(b + nl2, rest);
}

/// Reading the blocks of printable cues gives the cues back, and every time
/// fits in 64 bits.
proof fn lemma_cue_blocks(cues: Seq<Cue>, n: nat, sep: char)
    requires
        forall|i: int| 0 <= i < cues.len() ==> printable(#[trigger] cues[i]),
        sep == ',' || sep == '.',
    ensures
        reads_back(cues, n, sep),
    decreases cues.len(),
{
    if cues.len() == 0 {
        lemma_reads_back_empty(n, sep);
        assert(cues =~= Seq::<Cue>::empty());
    } else {
        let rest_cues = cues.skip(1);
        assert forall|i: int| 0 <= i < rest_cues.len() implies printable(#[trigger] rest_cues[i]) by {
            assert(rest_cues[i] == cues[i + 1]);
        }
        lemma_cue_blocks(rest_cues, n + 1, sep);
        assert(printable(cues[0]));
        lemma_reads_back_cons(cues[0], rest_cues, n, sep);
        assert(seq![cues[0]] + rest_cues =~= cues);
    }
}

/// No `\r\n` to replace in text that holds none.
proof fn lemma_replace_crlf_id(s: Seq<char>)
    requires
        no_crlf(s),
    ensures
        replace(s, seq!['\r', '\n'], seq!['\n']) == s,
{
    assert forall|j: int| 0 <= j < s.len() implies !matches_at(s, seq!['\r', '\n'], j) by {
        if matches_at(s, seq!['\r', '\n'], j) {
            lemma_match_first(s, seq!['\r', '\n'], j);
            assert(crlf_at(s, j));
        }
    }
    lemma_replace_none(s, seq!['\r', '\n'], seq!['\n']);
}

/// Windows line ends change nothing: text with every `\n` written `\r\n`
/// reads as the same cues, with the same times in range, as the text
/// itself (where that holds no `\r\n` of its own).
pub proof fn law_crlf_cues(s: Seq<char>)
    requires
        no_crlf(s),
    ensures
        srt_cues(crlf(s)) == srt_cues(s),
        srt_in_range(crlf(s)) == srt_in_range(s),
{
    lemma_replace_crlf(s);
    lemma_replace_crlf_id(s);
    assert(srt_blocks(crlf(s)) == srt_blocks(s));
}

/// Reading SRT text that was written from printable cues gives exactly
/// those cues back, and reading it needs no time beyond 64 bits.
pub proof fn law_srt_round_trip(cues: Seq<Cue>)
    requires
        forall|i: int| 0 <= i < cues.len() ==> printable(#[trigger] cues[i]),
    ensures
        srt_in_range(srt_text(cues)),
        srt_cues(srt_text(cues)) == cues,
{
    lemma_cue_blocks(cues, 1, ',');
    reveal(reads_back);
    lemma_replace_crlf_id(srt_text(cues));
    let bs = srt_blocks(srt_text(cues));
    assert(bs == block_parts(cues, 1, ','));
    assert forall|i: int| 0 <= i < bs.len() implies block_in_range(#[trigger] bs[i]) by {
        assert(block_parts(cues, 1, ',')[i] == bs[i]);
    }
}

/// Reading WebVTT text that was written from printable cues gives exactly
/// those cues back: the header block is not a cue.
pub proof fn law_vtt_round_trip(cues: Seq<Cue>)
    requires
        forall|i: int| 0 <= i < cues.len() ==> printable(#[trigger] cues[i]),
    ensures
        srt_in_range(vtt_text(cues)),
        srt_cues(vtt_text(cues)) == cues,
{
    let nl2 = seq!['\n', '\n'];
    let head = seq!['W', 'E', 'B', 'V', 'T', 'T'];
    let blocks = cue_blocks(cues, 1, '.');
    lemma_cue_blocks(cues, 1, '.');
    reveal(reads_back);
    let text = vtt_text(cues);
    assert(text =~= head + nl2 + blocks);
    assert(lacks(head, '\r'));
    assert(lacks(nl2, '\r'));
    lemma_lacks_concat(head, nl2, '\r');
    lemma_lacks_no_crlf(head + nl2);
    lemma_no_crlf_concat(head + nl2, blocks);
    lemma_replace_crlf_id(text);
    assert forall|j: int| 0 <= j < head.len() implies !matches_at(head + nl2 + blocks, nl2, j) by {
        if matches_at(head + nl2 + blocks, nl2, j) {
            lemma_match_first(head + nl2 + blocks, nl2, j);
        }
    }
    lemma_split_cons(head, blocks, nl2);
    let parts = split(text, nl2);
    assert(parts == seq![head] + split(blocks, nl2));
    // the header is a block of one line, which is no cue
    lemma_trim_id(head);
    lemma_lacks_no_crlf(head);
    lemma_lines_plain(head);
    assert(lacks(head, '\n'));
    lemma_split_char_none(head, '\n');
    assert(lines(head) =~= seq![head]);
    reveal(cue_of_block);
    reveal(block_in_range);
    assert(cue_of_block(head) is None);
    assert(block_in_range(head));
    lemma_cues_of_blocks_concat(seq![head], split(blocks, nl2));
    assert(seq![head].drop_last() =~= Seq::<Seq<char>>::empty());
    assert(seq![head].last() == head);
    assert(cues_of_blocks(Seq::<Seq<char>>::empty()) == Seq::<Cue>::empty());
    assert(cues_of_blocks(seq![head]) =~= Seq::<Cue>::empty());
    assert(Seq::<Cue>::empty() + cues =~= cues);
    let bs = srt_blocks(text);
    assert(bs == parts);
    assert forall|i: int| 0 <= i < bs.len() implies block_in_range(#[trigger] bs[i]) by {
        if i > 0 {
            assert(parts[i] == split(blocks, nl2)[i - 1]);
            assert(block_parts(cues, 1, '.')[i - 1] == split(blocks, nl2)[i - 1]);
        } else {
            assert(parts[0] == head);
        }
    }
}

/// Reading SRT text written from printable cues with Windows line ends
/// gives exactly those cues back.
pub proof fn law_srt_crlf_round_trip(cues: Seq<Cue>)
    requires
        forall|i: int| 0 <= i < cues.len() ==> printable(#[trigger] cues[i]),
    ensures
        srt_in_range(crlf(srt_text(cues))),
        srt_cues(crlf(srt_text(cues))) == cues,
{
    law_srt_round_trip(cues);
    lemma_cue_blocks(cues, 1, ',');
    reveal(reads_back);
    law_crlf_cues(srt_text(cues));
}

} // verus!
