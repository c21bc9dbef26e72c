//! Subtitle cues: parsing SRT (and WebVTT) text, cutting cues to a segment's
//! time range, and rendering them as SRT, WebVTT or plain text.

use vstd::prelude::*;

use crate::decimal::{dec_digits, padded, parse_u64, parse_u64_exec, push_dec, push_padded};
use crate::text::{
    chars_of, copy_range, extend_all, join, join_exec, lines, lines_exec, replace, replace_exec, seqs_of, split,
    split_exec, split_once, split_once_exec, string_of, same_chars, trim, trim_exec,
};

verus! {

/// One subtitle block: a time range in milliseconds and its text.
#[derive(Debug, Clone)]
pub struct SrtEntry {
    pub start_ms: u64,
    pub end_ms: u64,
    pub text: String,
}

/// The mathematical content of a subtitle block.
pub struct Cue {
    pub start_ms: int,
    pub end_ms: int,
    pub text: Seq<char>,
}

impl View for SrtEntry {
    type V = Cue;

    open spec fn view(&self) -> Cue {
        Cue { start_ms: self.start_ms as int, end_ms: self.end_ms as int, text: self.text@ }
    }
}

/// The cues that a sequence of entries holds.
pub open spec fn cues_of(v: Seq<SrtEntry>) -> Seq<Cue> {
    v.map_values(|e: SrtEntry| e@)
}

// ---------------------------------------------------------------------------
// Parsing: specification
// ---------------------------------------------------------------------------

/// `" --> "`, the separator of a cue's two times.
pub open spec fn arrow() -> Seq<char> {
    seq![' ', '-', '-', '>', ' ']
}

/// A time split into its clock part and its millisecond part, at the first
/// `,` (SRT) or, where there is none, at the first `.` (WebVTT).
pub open spec fn time_fields(t: Seq<char>) -> Option<(Seq<char>, Seq<char>)> {
    match split_once(t, seq![',']) {
        Some(p) => Some(p),
        None => split_once(t, seq!['.']),
    }
}

/// The milliseconds that `HH:MM:SS,mmm` (or `HH:MM:SS.mmm`) denotes, with
/// white space around it and around `mmm` allowed; each field is read as
/// `u64::from_str` reads it.
#[verifier::opaque]
pub open spec fn timestamp_value(s: Seq<char>) -> Option<int> {
    match time_fields(trim(s)) {
        None => None,
        Some((hms, frac)) => {
            let parts = split(hms, seq![':']);
            if parts.len() != 3 {
                None
            } else {
                match (
                    parse_u64(parts[0]),
                    parse_u64(parts[1]),
                    parse_u64(parts[2]),
                    parse_u64(trim(frac)),
                ) {
                    (Some(h), Some(m), Some(sec), Some(ms)) => Some(
                        h * 3600000 + m * 60000 + sec * 1000 + ms,
                    ),
                    _ => None,
                }
            }
        },
    }
}

/// A value that fits in 64 bits, when there is one.
pub open spec fn fits_u64(o: Option<int>) -> bool {
    match o {
        Some(v) => v <= u64::MAX,
        None => true,
    }
}

/// The cue that one blank-line-separated block denotes: after trimming,
/// line 1 is skipped, line 2 holds `start --> end`, and the remaining lines,
/// joined and trimmed, are the non-empty text.
#[verifier::opaque]
pub open spec fn cue_of_block(block: Seq<char>) -> Option<Cue> {
    let b = trim(block);
    let ls = lines(b);
    if b.len() == 0 || ls.len() < 3 {
        None
    } else {
        match split_once(ls[1], arrow()) {
            None => None,
            Some((a, z)) => match (timestamp_value(a), timestamp_value(z)) {
                (Some(st), Some(en)) => {
                    let text = trim(join(ls.skip(2), seq!['\n']));
                    if text.len() == 0 {
                        None
                    } else {
                        Some(Cue { start_ms: st, end_ms: en, text })
                    }
                },
                _ => None,
            },
        }
    }
}

/// Every time that reading `block` computes fits in 64 bits.
#[verifier::opaque]
pub open spec fn block_in_range(block: Seq<char>) -> bool {
    let b = trim(block);
    let ls = lines(b);
    (b.len() > 0 && ls.len() >= 3) ==> match split_once(ls[1], arrow()) {
        None => true,
        Some((a, z)) => fits_u64(timestamp_value(a)) && fits_u64(timestamp_value(z)),
    }
}

/// The blocks of a subtitle file: `\r\n` made `\n`, then split at `\n\n`.
pub open spec fn srt_blocks(content: Seq<char>) -> Seq<Seq<char>> {
    split(replace(content, seq!['\r', '\n'], seq!['\n']), seq!['\n', '\n'])
}

/// The cues of the blocks that denote one, in order.
pub open spec fn cues_of_blocks(bs: Seq<Seq<char>>) -> Seq<Cue>
    decreases bs.len(),
{
    if bs.len() == 0 {
        Seq::empty()
    } else {
        let prev = cues_of_blocks(bs.drop_last());
        match cue_of_block(bs.last()) {
            Some(c) => prev.push(c),
            None => prev,
        }
    }
}

/// The cues of a subtitle file.
pub open spec fn srt_cues(content: Seq<char>) -> Seq<Cue> {
    cues_of_blocks(srt_blocks(content))
}

/// Every time in the file fits in 64 bits.
pub open spec fn srt_in_range(content: Seq<char>) -> bool {
    let bs = srt_blocks(content);
    forall|i: int| 0 <= i < bs.len() ==> block_in_range(#[trigger] bs[i])
}

// ---------------------------------------------------------------------------
// Parsing: executable
// ---------------------------------------------------------------------------

/// The value of a time, computed in 128 bits, where every field fits in 64.
fn timestamp_wide(s: &Vec<char>) -> (r: Option<u128>)
    ensures
        match r {
            Some(v) => timestamp_value(s@) == Some(v as int),
            None => timestamp_value(s@) is None,
        },
{
    reveal(timestamp_value);
    let t = trim_exec(s);
    let comma: Vec<char> = vec![','];
    let dot: Vec<char> = vec!['.'];
    let colon: Vec<char> = vec![':'];
    assert(comma@ =~= seq![',']);
    assert(dot@ =~= seq!['.']);
    assert(colon@ =~= seq![':']);
    let fields = match split_once_exec(&t, &comma) {
        Some(p) => Some(p),
        None => split_once_exec(&t, &dot),
    };
    let (hms, frac) = match fields {
        Some(p) => p,
        None => {
            return None;
        },
    };
    assert(time_fields(trim(s@)) == Some((hms@, frac@)));
    let ms = match parse_u64_exec(&trim_exec(&frac)) {
        Some(v) => v,
        None => {
            return None;
        },
    };
    let parts = split_exec(&hms, &colon);
    if parts.len() != 3 {
        return None;
    }
    assert(seqs_of(parts@)[0] == parts@[0]@);
    assert(seqs_of(parts@)[1] == parts@[1]@);
    assert(seqs_of(parts@)[2] == parts@[2]@);
    let h = match parse_u64_exec(&parts[0]) {
        Some(v) => v,
        None => {
            return None;
        },
    };
    let m = match parse_u64_exec(&parts[1]) {
        Some(v) => v,
        None => {
            return None;
        },
    };
    let sec = match parse_u64_exec(&parts[2]) {
        Some(v) => v,
        None => {
            return None;
        },
    };
    assert(timestamp_value(s@) == Some(h * 3600000 + m * 60000 + sec * 1000 + ms));
    let (h, m, sec, ms) = (h as u128, m as u128, sec as u128, ms as u128);
    assert(h * 3600000 + m * 60000 + sec * 1000 + ms <= u128::MAX) by (nonlinear_arith)
        requires
            h <= u64::MAX,
            m <= u64::MAX,
            sec <= u64::MAX,
            ms <= u64::MAX,
    ;
    Some(h * 3600000 + m * 60000 + sec * 1000 + ms)
}

fn timestamp_from(s: &Vec<char>) -> (r: Option<u64>)
    requires
        fits_u64(timestamp_value(s@)),
    ensures
        match r {
            Some(v) => timestamp_value(s@) == Some(v as int),
            None => timestamp_value(s@) is None,
        },
{
    match timestamp_wide(s) {
        Some(v) => Some(v as u64),
        None => None,
    }
}

/// Whether the time in `s`, if any, fits in 64 bits.
fn timestamp_fits(s: &Vec<char>) -> (b: bool)
    ensures
        b == fits_u64(timestamp_value(s@)),
{
    match timestamp_wide(s) {
        Some(v) => v <= u64::MAX as u128,
        None => true,
    }
}

/// Reads `HH:MM:SS,mmm` (or `HH:MM:SS.mmm`) as milliseconds.
pub fn parse_timestamp(s: &str) -> (r: Option<u64>)
    requires
        fits_u64(timestamp_value(s@)),
    ensures
        match r {
            Some(v) => timestamp_value(s@) == Some(v as int),
            None => timestamp_value(s@) is None,
        },
{
    let v = chars_of(s);
    timestamp_from(&v)
}

fn cue_from_block(block: &Vec<char>) -> (r: Option<SrtEntry>)
    requires
        block_in_range(block@),
    ensures
        match r {
            Some(e) => cue_of_block(block@) == Some(e@),
            None => cue_of_block(block@) is None,
        },
{
    reveal(cue_of_block);
    reveal(block_in_range);
    let b = trim_exec(block);
    if b.len() == 0 {
        return None;
    }
    let ls = lines_exec(&b);
    if ls.len() < 3 {
        return None;
    }
    let arrow_v: Vec<char> = vec![' ', '-', '-', '>', ' '];
    assert(arrow_v@ =~= arrow());
    assert(seqs_of(ls@)[1] == ls@[1]@);
    let (a, z) = match split_once_exec(&ls[1], &arrow_v) {
        Some(p) => p,
        None => {
            return None;
        },
    };
    let st = timestamp_from(&a);
    let en = timestamp_from(&z);
    let (st, en) = match (st, en) {
        (Some(x), Some(y)) => (x, y),
        _ => {
            return None;
        },
    };
    let mut rest: Vec<Vec<char>> = Vec::new();
    let mut i: usize = 2;
    while i < ls.len()
        invariant
            2 <= i <= ls.len(),
            seqs_of(rest@) == seqs_of(ls@).subrange(2, i as int),
        decreases ls.len() - i,
    {
        let ghost before = rest@;
        let piece = copy_range(&ls[i], 0, ls[i].len());
        assert(piece@ =~= ls@[i as int]@);
        assert(seqs_of(ls@)[i as int] == ls@[i as int]@);
        rest.push(piece);
        assert(seqs_of(rest@) =~= seqs_of(before).push(piece@));
        assert(seqs_of(rest@) =~= seqs_of(ls@).subrange(2, i + 1));
        i += 1;
    }
    assert(seqs_of(ls@).subrange(2, ls.len() as int) =~= seqs_of(ls@).skip(2));
    let nl: Vec<char> = vec!['\n'];
    assert(nl@ =~= seq!['\n']);
    let text = trim_exec(&join_exec(&rest, &nl));
    if text.len() == 0 {
        return None;
    }
    Some(SrtEntry { start_ms: st, end_ms: en, text: string_of(&text) })
}

fn block_fits(block: &Vec<char>) -> (r: bool)
    ensures
        r == block_in_range(block@),
{
    reveal(block_in_range);
    let b = trim_exec(block);
    if b.len() == 0 {
        return true;
    }
    let ls = lines_exec(&b);
    if ls.len() < 3 {
        return true;
    }
    let arrow_v: Vec<char> = vec![' ', '-', '-', '>', ' '];
    assert(arrow_v@ =~= arrow());
    assert(seqs_of(ls@)[1] == ls@[1]@);
    match split_once_exec(&ls[1], &arrow_v) {
        Some((a, z)) => timestamp_fits(&a) && timestamp_fits(&z),
        None => true,
    }
}

/// Whether every time in `content` fits in 64 bits, so that `parse_srt`
/// may read it.
pub fn srt_fits(content: &str) -> (r: bool)
    ensures
        r == srt_in_range(content@),
{
    let cs = chars_of(content);
    let crlf: Vec<char> = vec!['\r', '\n'];
    let lf: Vec<char> = vec!['\n'];
    let blank: Vec<char> = vec!['\n', '\n'];
    assert(crlf@ =~= seq!['\r', '\n']);
    assert(lf@ =~= seq!['\n']);
    assert(blank@ =~= seq!['\n', '\n']);
    let norm = replace_exec(&cs, &crlf, &lf);
    let blocks = split_exec(&norm, &blank);
    let ghost bs = seqs_of(blocks@);
    assert(bs == srt_blocks(content@));
    let mut i: usize = 0;
    while i < blocks.len()
        invariant
            i <= blocks.len(),
            bs == seqs_of(blocks@),
            bs == srt_blocks(content@),
            forall|j: int| 0 <= j < i ==> block_in_range(#[trigger] bs[j]),
        decreases blocks.len() - i,
    {
        assert(bs[i as int] == blocks@[i as int]@);
        if !block_fits(&blocks[i]) {
            return false;
        }
        i += 1;
    }
    true
}

/// Parses SRT text (and WebVTT text, whose times use `.`) into entries:
/// blocks are separated by blank lines; a block that is not a cue is
/// skipped.
pub fn parse_srt(content: &str) -> (entries: Vec<SrtEntry>)
    requires
        srt_in_range(content@),
    ensures
        cues_of(entries@) == srt_cues(content@),
{
    let cs = chars_of(content);
    let crlf: Vec<char> = vec!['\r', '\n'];
    let lf: Vec<char> = vec!['\n'];
    let blank: Vec<char> = vec!['\n', '\n'];
    assert(crlf@ =~= seq!['\r', '\n']);
    assert(lf@ =~= seq!['\n']);
    assert(blank@ =~= seq!['\n', '\n']);
    let norm = replace_exec(&cs, &crlf, &lf);
    let blocks = split_exec(&norm, &blank);
    let ghost bs = seqs_of(blocks@);
    assert(bs == srt_blocks(content@));
    let mut entries: Vec<SrtEntry> = Vec::new();
    let mut i: usize = 0;
    while i < blocks.len()
        invariant
            i <= blocks.len(),
            bs == seqs_of(blocks@),
            bs == srt_blocks(content@),
            srt_in_range(content@),
            cues_of(entries@) == cues_of_blocks(bs.take(i as int)),
        decreases blocks.len() - i,
    {
        assert(bs[i as int] == blocks@[i as int]@);
        assert(bs.take(i + 1).drop_last() =~= bs.take(i as int));
        assert(bs.take(i + 1).last() == bs[i as int]);
        match cue_from_block(&blocks[i]) {
            Some(e) => {
                let ghost before = entries@;
                entries.push(e);
                assert(cues_of(entries@) =~= cues_of(before).push(e@));
            },
            None => {},
        }
        i += 1;
    }
    assert(bs.take(blocks.len() as int) =~= bs);
    entries
}


// ---------------------------------------------------------------------------
// Rendering
// ---------------------------------------------------------------------------

/// `HH:MM:SS<sep>mmm` for `ms` milliseconds; the hours take as many digits
/// as they need, at least two.
pub open spec fn clock_time(ms: nat, sep: char) -> Seq<char> {
    padded(ms / 3600000, 2) + seq![':'] + padded((ms % 3600000) / 60000, 2) + seq![':'] + padded(
        (ms % 60000) / 1000,
        2,
    ) + seq![sep] + padded(ms % 1000, 3)
}

/// The block of cue number `n`: its number, its times and its text, then a
/// blank line.
pub open spec fn cue_block(n: nat, c: Cue, sep: char) -> Seq<char> {
    dec_digits(n) + seq!['\n'] + clock_time(c.start_ms as nat, sep) + arrow() + clock_time(
        c.end_ms as nat,
        sep,
    ) + seq!['\n'] + c.text + seq!['\n', '\n']
}

/// The blocks of all cues, numbered from `n` on.
pub open spec fn cue_blocks(cues: Seq<Cue>, n: nat, sep: char) -> Seq<char>
    decreases cues.len(),
{
    if cues.len() == 0 {
        Seq::empty()
    } else {
        cue_block(n, cues[0], sep) + cue_blocks(cues.skip(1), n + 1, sep)
    }
}

/// `WEBVTT` and a blank line.
pub open spec fn vtt_header() -> Seq<char> {
    seq!['W', 'E', 'B', 'V', 'T', 'T', '\n', '\n']
}

/// SRT text of `cues`.
pub open spec fn srt_text(cues: Seq<Cue>) -> Seq<char> {
    cue_blocks(cues, 1, ',')
}

/// WebVTT text of `cues`.
pub open spec fn vtt_text(cues: Seq<Cue>) -> Seq<char> {
    vtt_header() + cue_blocks(cues, 1, '.')
}

/// Plain text of `cues`: their texts, one after another, separated by `\n`.
pub open spec fn txt_text(cues: Seq<Cue>) -> Seq<char> {
    join(cues.map_values(|c: Cue| c.text), seq!['\n'])
}

/// The rendering that a format name selects: `srt`, `vtt`, and plain text
/// for any other name.
pub open spec fn rendered(cues: Seq<Cue>, format: Seq<char>) -> Seq<char> {
    if format == seq!['s', 'r', 't'] {
        srt_text(cues)
    } else if format == seq!['v', 't', 't'] {
        vtt_text(cues)
    } else {
        txt_text(cues)
    }
}

fn push_clock(out: &mut Vec<char>, ms: u64, sep: char)
    ensures
        final(out)@ == old(out)@ + clock_time(ms as nat, sep),
{
    let ghost before = out@;
    push_padded(out, ms / 3600000, 2);
    out.push(':');
    push_padded(out, (ms % 3600000) / 60000, 2);
    out.push(':');
    push_padded(out, (ms % 60000) / 1000, 2);
    out.push(sep);
    push_padded(out, ms % 1000, 3);
    assert(out@ =~= before + clock_time(ms as nat, sep));
}

/// `HH:MM:SS,mmm` (SRT time) for `ms` milliseconds.
pub fn format_timestamp_srt(ms: u64) -> (r: String)
    ensures
        r@ == clock_time(ms as nat, ','),
{
    let mut out: Vec<char> = Vec::new();
    push_clock(&mut out, ms, ',');
    assert(out@ =~= clock_time(ms as nat, ','));
    string_of(&out)
}

/// `HH:MM:SS.mmm` (WebVTT time) for `ms` milliseconds.
pub fn format_timestamp_vtt(ms: u64) -> (r: String)
    ensures
        r@ == clock_time(ms as nat, '.'),
{
    let mut out: Vec<char> = Vec::new();
    push_clock(&mut out, ms, '.');
    assert(out@ =~= clock_time(ms as nat, '.'));
    string_of(&out)
}

fn push_arrow(out: &mut Vec<char>)
    ensures
        final(out)@ == old(out)@ + arrow(),
{
    out.push(' ');
    out.push('-');
    out.push('-');
    out.push('>');
    out.push(' ');
    assert(final(out)@ =~= old(out)@ + arrow());
}

fn push_times(out: &mut Vec<char>, start_ms: u64, end_ms: u64, sep: char)
    ensures
        final(out)@ == old(out)@ + (clock_time(start_ms as nat, sep) + arrow() + clock_time(
            end_ms as nat,
            sep,
        ) + seq!['\n']),
{
    let ghost s0 = out@;
    push_clock(out, start_ms, sep);
    push_arrow(out);
    push_clock(out, end_ms, sep);
    out.push('\n');
    assert(out@ =~= s0 + (clock_time(start_ms as nat, sep) + arrow() + clock_time(
        end_ms as nat,
        sep,
    ) + seq!['\n']));
}

#[verifier::spinoff_prover]
fn push_cue_block(out: &mut Vec<char>, n: u64, e: &SrtEntry, sep: char)
    ensures
        final(out)@ == old(out)@ + cue_block(n as nat, e@, sep),
{
    let ghost s0 = out@;
    push_dec(out, n);
    out.push('\n');
    let ghost s1 = out@;
    push_times(out, e.start_ms, e.end_ms, sep);
    let ghost s2 = out@;
    extend_all(out, &chars_of(e.text.as_str()));
    out.push('\n');
    out.push('\n');
    assert(out@ =~= s2 + (e.text@ + seq!['\n', '\n']));
    assert(out@ =~= s0 + cue_block(n as nat, e@, sep));
}

fn push_cue_blocks(out: &mut Vec<char>, entries: &[SrtEntry], sep: char)
    ensures
        final(out)@ == old(out)@ + cue_blocks(cues_of(entries@), 1, sep),
{
    let ghost before = out@;
    let ghost cs = cues_of(entries@);
    assert(cs.skip(0) =~= cs);
    let mut i: usize = 0;
    while i < entries.len()
        invariant
            i <= entries.len(),
            cs == cues_of(entries@),
            before + cue_blocks(cs, 1, sep) == out@ + cue_blocks(cs.skip(i as int), (i + 1) as nat, sep),
        decreases entries.len() - i,
    {
        let e = &entries[i];
        let ghost mid = out@;
        push_cue_block(out, (i + 1) as u64, e, sep);
        assert(cs.skip(i as int)[0] == e@);
        assert(cs.skip(i as int).skip(1) =~= cs.skip(i + 1));
        assert(mid + cue_blocks(cs.skip(i as int), (i + 1) as nat, sep) =~= out@ + cue_blocks(
            cs.skip(i + 1),
            (i + 2) as nat,
            sep,
        ));
        i += 1;
    }
    assert(cs.skip(entries.len() as int) =~= Seq::<Cue>::empty());
    assert(cs.skip(0) =~= cs);
    assert(out@ =~= before + cue_blocks(cs, 1, sep));
}

/// The entries as SRT text: numbered blocks separated by blank lines.
pub fn format_as_srt(entries: &[SrtEntry]) -> (r: String)
    ensures
        r@ == srt_text(cues_of(entries@)),
{
    let mut out: Vec<char> = Vec::new();
    push_cue_blocks(&mut out, entries, ',');
    assert(out@ =~= srt_text(cues_of(entries@)));
    string_of(&out)
}

/// The entries as WebVTT text: a `WEBVTT` header, then numbered blocks.
pub fn format_as_vtt(entries: &[SrtEntry]) -> (r: String)
    ensures
        r@ == vtt_text(cues_of(entries@)),
{
    let mut out: Vec<char> = vec!['W', 'E', 'B', 'V', 'T', 'T', '\n', '\n'];
    assert(out@ =~= vtt_header());
    push_cue_blocks(&mut out, entries, '.');
    string_of(&out)
}

/// The entries' texts, one per line.
pub fn format_as_txt(entries: &[SrtEntry]) -> (r: String)
    ensures
        r@ == txt_text(cues_of(entries@)),
{
    let ghost ts = cues_of(entries@).map_values(|c: Cue| c.text);
    let mut out: Vec<char> = Vec::new();
    let mut i: usize = 0;
    while i < entries.len()
        invariant
            i <= entries.len(),
            ts == cues_of(entries@).map_values(|c: Cue| c.text),
            out@ == join(ts.take(i as int), seq!['\n']),
        decreases entries.len() - i,
    {
        if i > 0 {
            out.push('\n');
        }
        extend_all(&mut out, &chars_of(entries[i].text.as_str()));
        assert(ts[i as int] == entries@[i as int].text@);
        assert(ts.take(i + 1).drop_last() =~= ts.take(i as int));
        if i == 0 {
            assert(out@ =~= ts.take(1)[0]);
        } else {
            assert(out@ =~= join(ts.take(i as int), seq!['\n']) + seq!['\n'] + ts[i as int]);
        }
        i += 1;
    }
    assert(ts.take(entries.len() as int) =~= ts);
    string_of(&out)
}

/// The transcript text in the named format (`srt`, `vtt`, otherwise plain
/// text).
pub fn render_transcript(entries: &[SrtEntry], format: &str) -> (r: String)
    ensures
        r@ == rendered(cues_of(entries@), format@),
{
    let f = chars_of(format);
    let srt: Vec<char> = vec!['s', 'r', 't'];
    let vtt: Vec<char> = vec!['v', 't', 't'];
    assert(srt@ =~= seq!['s', 'r', 't']);
    assert(vtt@ =~= seq!['v', 't', 't']);
    if same_chars(&f, &srt) {
        format_as_srt(entries)
    } else if same_chars(&f, &vtt) {
        format_as_vtt(entries)
    } else {
        format_as_txt(entries)
    }
}

// ---------------------------------------------------------------------------
// Cutting to a segment
// ---------------------------------------------------------------------------

/// The cue starts inside `[a, b)`.
pub open spec fn in_window(c: Cue, a: int, b: int) -> bool {
    a <= c.start_ms < b
}

/// The cue with its times made relative to `a` and its end clipped to the
/// segment's length `b - a`.
pub open spec fn shifted_cue(c: Cue, a: int, b: int) -> Cue {
    Cue {
        start_ms: c.start_ms - a,
        end_ms: if c.end_ms - a < b - a {
            c.end_ms - a
        } else {
            b - a
        },
        text: c.text,
    }
}

/// The cues that start inside `[a, b)`, shifted to start from `a`.
pub open spec fn window_cues(cues: Seq<Cue>, a: int, b: int) -> Seq<Cue>
    decreases cues.len(),
{
    if cues.len() == 0 {
        Seq::empty()
    } else {
        let prev = window_cues(cues.drop_last(), a, b);
        if in_window(cues.last(), a, b) {
            prev.push(shifted_cue(cues.last(), a, b))
        } else {
            prev
        }
    }
}

/// The entries that start in `[start_ms, end_ms)`, with times made relative
/// to `start_ms` and ends clipped to the segment.
pub fn slice_srt(entries: &[SrtEntry], start_ms: u64, end_ms: u64) -> (r: Vec<SrtEntry>)
    requires
        forall|i: int|
            0 <= i < entries@.len() && start_ms <= #[trigger] entries@[i].start_ms < end_ms
                ==> entries@[i].end_ms >= start_ms,
    ensures
        cues_of(r@) == window_cues(cues_of(entries@), start_ms as int, end_ms as int),
{
    let ghost cs = cues_of(entries@);
    let mut r: Vec<SrtEntry> = Vec::new();
    let mut i: usize = 0;
    while i < entries.len()
        invariant
            i <= entries.len(),
            cs == cues_of(entries@),
            forall|j: int|
                0 <= j < entries@.len() && start_ms <= #[trigger] entries@[j].start_ms < end_ms
                    ==> entries@[j].end_ms >= start_ms,
            cues_of(r@) == window_cues(cs.take(i as int), start_ms as int, end_ms as int),
        decreases entries.len() - i,
    {
        let e = &entries[i];
        assert(cs.take(i + 1).drop_last() =~= cs.take(i as int));
        assert(cs.take(i + 1).last() == e@);
        if e.start_ms >= start_ms && e.start_ms < end_ms {
            let shifted_end = if e.end_ms - start_ms < end_ms - start_ms {
                e.end_ms - start_ms
            } else {
                end_ms - start_ms
            };
            let n = SrtEntry {
                start_ms: e.start_ms - start_ms,
                end_ms: shifted_end,
                text: e.text.clone(),
            };
            let ghost before = r@;
            r.push(n);
            assert(cues_of(r@) =~= cues_of(before).push(n@));
        }
        i += 1;
    }
    assert(cs.take(entries.len() as int) =~= cs);
    r
}


/// Whether `slice_srt` may cut these entries at `[start_ms, end_ms)`: no
/// entry that starts inside ends before `start_ms`.
pub fn slice_fits(entries: &[SrtEntry], start_ms: u64, end_ms: u64) -> (b: bool)
    ensures
        b == forall|i: int|
            0 <= i < entries@.len() && start_ms <= #[trigger] entries@[i].start_ms < end_ms
                ==> entries@[i].end_ms >= start_ms,
{
    let mut i: usize = 0;
    while i < entries.len()
        invariant
            i <= entries.len(),
            forall|j: int|
                0 <= j < i && start_ms <= #[trigger] entries@[j].start_ms < end_ms
                    ==> entries@[j].end_ms >= start_ms,
        decreases entries.len() - i,
    {
        let e = &entries[i];
        if e.start_ms >= start_ms && e.start_ms < end_ms && e.end_ms < start_ms {
            return false;
        }
        i += 1;
    }
    true
}

/// A cut cue as it stands in the whole file: its start back in whole-file
/// time (the cut began at `a`), and its text.
pub open spec fn placed(c: Cue, a: int) -> (int, Seq<char>) {
    (c.start_ms + a, c.text)
}

/// Every cut cue of a segment that began at `a`, placed back in the file.
pub open spec fn placed_all(s: Seq<Cue>, a: int) -> Seq<(int, Seq<char>)> {
    s.map_values(|c: Cue| placed(c, a))
}

/// Cutting at consecutive windows `[a, b)` and `[b, c)` shares the cues of
/// `[a, c)` between them: every cue that starts in `[a, c)` lands in
/// exactly one of the two segments, with its start and its text.
pub proof fn law_slice_partition(cues: Seq<Cue>, a: int, b: int, c: int)
    requires
        a <= b <= c,
    ensures
        window_cues(cues, a, b).len() + window_cues(cues, b, c).len() == window_cues(
            cues,
            a,
            c,
        ).len(),
        placed_all(window_cues(cues, a, c), a).to_multiset() == placed_all(
            window_cues(cues, a, b),
            a,
        ).to_multiset().add(placed_all(window_cues(cues, b, c), b).to_multiset()),
    decreases cues.len(),
{
    broadcast use vstd::seq_lib::group_to_multiset_ensures;

    if cues.len() == 0 {
        assert(placed_all(window_cues(cues, a, c), a) =~= Seq::empty());
        assert(placed_all(window_cues(cues, a, b), a) =~= Seq::empty());
        assert(placed_all(window_cues(cues, b, c), b) =~= Seq::empty());
        assert(Seq::<(int, Seq<char>)>::empty().to_multiset() =~= vstd::multiset::Multiset::empty());
    } else {
        let prev = cues.drop_last();
        let x = cues.last();
        law_slice_partition(prev, a, b, c);
        let pac = placed_all(window_cues(prev, a, c), a);
        let pab = placed_all(window_cues(prev, a, b), a);
        let pbc = placed_all(window_cues(prev, b, c), b);
        let px = (x.start_ms, x.text);
        if a <= x.start_ms < b {
            assert(placed_all(window_cues(cues, a, c), a) =~= pac.push(px));
            assert(placed_all(window_cues(cues, a, b), a) =~= pab.push(px));
            assert(placed_all(window_cues(cues, b, c), b) =~= pbc);
            assert(pab.push(px).to_multiset().add(pbc.to_multiset()) =~= pab.to_multiset().add(
                pbc.to_multiset(),
            ).insert(px));
        } else if b <= x.start_ms < c {
            assert(placed_all(window_cues(cues, a, c), a) =~= pac.push(px));
            assert(placed_all(window_cues(cues, a, b), a) =~= pab);
            assert(placed_all(window_cues(cues, b, c), b) =~= pbc.push(px));
            assert(pab.to_multiset().add(pbc.push(px).to_multiset()) =~= pab.to_multiset().add(
                pbc.to_multiset(),
            ).insert(px));
        } else {
            assert(placed_all(window_cues(cues, a, c), a) =~= pac);
            assert(placed_all(window_cues(cues, a, b), a) =~= pab);
            assert(placed_all(window_cues(cues, b, c), b) =~= pbc);
        }
    }
}

/// `w` is `c` cut to the segment `[a, b)`: placed back in the file (`+ a`),
/// it starts where `c` starts and ends where `c` ends, or at `b` where `c`
/// runs past the segment; its text is `c`'s.
pub open spec fn cut_from(w: Cue, c: Cue, a: int, b: int) -> bool {
    &&& w.start_ms + a == c.start_ms
    &&& w.text == c.text
    &&& c.end_ms <= b ==> w.end_ms + a == c.end_ms
    &&& c.end_ms > b ==> w.end_ms + a == b
}

/// `w` is one of `cues` that starts in `[a, b)`, cut to that segment.
pub open spec fn cut_of_some(cues: Seq<Cue>, w: Cue, a: int, b: int) -> bool {
    exists|j: int| 0 <= j < cues.len() && a <= cues[j].start_ms < b && #[trigger] cut_from(w, cues[j], a, b)
}

/// Cutting to `[a, b)` keeps exactly the cues that start inside: each cut
/// cue is one of them, cut (`cut_from`), and each of them is among the cut
/// cues.
pub proof fn law_slice_cue_times(cues: Seq<Cue>, a: int, b: int)
    ensures
        forall|i: int|
            0 <= i < window_cues(cues, a, b).len() ==> #[trigger] cut_of_some(
                cues,
                window_cues(cues, a, b)[i],
                a,
                b,
            ),
        forall|j: int|
            #![trigger cues[j]]
            0 <= j < cues.len() && a <= cues[j].start_ms < b ==> exists|i: int|
                0 <= i < window_cues(cues, a, b).len() && #[trigger] cut_from(
                    window_cues(cues, a, b)[i],
                    cues[j],
                    a,
                    b,
                ),
    decreases cues.len(),
{
    if cues.len() > 0 {
        let d = cues.drop_last();
        let x = cues.last();
        law_slice_cue_times(d, a, b);
        let prev = window_cues(d, a, b);
        let w = window_cues(cues, a, b);
        assert(d =~= cues.drop_last());
        assert(w == if in_window(x, a, b) {
            prev.push(shifted_cue(x, a, b))
        } else {
            prev
        });
        assert forall|i: int| 0 <= i < w.len() implies #[trigger] cut_of_some(cues, w[i], a, b) by {
            if i < prev.len() {
                assert(w[i] == prev[i]);
                assert(cut_of_some(d, prev[i], a, b));
                let j = choose|j: int|
                    0 <= j < d.len() && a <= d[j].start_ms < b && #[trigger] cut_from(prev[i], d[j], a, b);
                assert(cues[j] == d[j]);
            } else {
                assert(in_window(x, a, b));
                assert(w[i] == shifted_cue(x, a, b));
                assert(cues[cues.len() - 1] == x);
                assert(cut_from(w[i], cues[cues.len() - 1], a, b));
            }
        }
        assert forall|j: int| #![trigger cues[j]] 0 <= j < cues.len() && a <= cues[j].start_ms < b implies exists|i: int|
            0 <= i < window_cues(cues, a, b).len() && #[trigger] cut_from(window_cues(cues, a, b)[i], cues[j], a, b) by {
            if j < d.len() {
                assert(cues[j] == d[j]);
                let i = choose|i: int| 0 <= i < prev.len() && #[trigger] cut_from(prev[i], d[j], a, b);
                assert(w[i] == prev[i]);
            } else {
                assert(cues[j] == x);
                assert(cut_from(w[prev.len() as int], cues[j], a, b));
            }
        }
    }
}

/// Cutting keeps the order: the `i`-th cut cue is the `i`-th cue of the
/// file that starts in `[a, b)`, cut, and there are as many cut cues as
/// such cues.
pub proof fn law_slice_in_order(cues: Seq<Cue>, a: int, b: int)
    ensures
        window_cues(cues, a, b).len() == cues.filter(|c: Cue| a <= c.start_ms < b).len(),
        forall|i: int|
            0 <= i < window_cues(cues, a, b).len() ==> cut_from(
                #[trigger] window_cues(cues, a, b)[i],
                cues.filter(|c: Cue| a <= c.start_ms < b)[i],
                a,
                b,
            ),
    decreases cues.len(),
{
    reveal_with_fuel(Seq::<_>::filter, 1);
    if cues.len() > 0 {
        let d = cues.drop_last();
        let x = cues.last();
        law_slice_in_order(d, a, b);
        let pred = |c: Cue| a <= c.start_ms < b;
        let prev = window_cues(d, a, b);
        let fd = d.filter(pred);
        let w = window_cues(cues, a, b);
        if pred(x) {
            assert(cues.filter(pred) == fd.push(x));
            assert(w == prev.push(shifted_cue(x, a, b)));
            assert forall|i: int| 0 <= i < w.len() implies cut_from(#[trigger] w[i], cues.filter(pred)[i], a, b) by {
                if i < prev.len() {
                    assert(w[i] == prev[i]);
                    assert(cues.filter(pred)[i] == fd[i]);
                }
            }
        } else {
            assert(cues.filter(pred) == fd);
            assert(w == prev);
        }
    }
}

/// A cut cue starts inside its segment and ends no later than the
/// segment's end: `0 <= start < b - a` and `end <= b - a`.
pub proof fn law_slice_within_segment(cues: Seq<Cue>, a: int, b: int)
    ensures
        forall|i: int|
            0 <= i < window_cues(cues, a, b).len() ==> {
                &&& 0 <= (#[trigger] window_cues(cues, a, b)[i]).start_ms < b - a
                &&& window_cues(cues, a, b)[i].end_ms <= b - a
            },
    decreases cues.len(),
{
    if cues.len() > 0 {
        law_slice_within_segment(cues.drop_last(), a, b);
        let prev = window_cues(cues.drop_last(), a, b);
        assert forall|i: int| 0 <= i < window_cues(cues, a, b).len() implies {
            &&& 0 <= (#[trigger] window_cues(cues, a, b)[i]).start_ms < b - a
            &&& window_cues(cues, a, b)[i].end_ms <= b - a
        } by {
            if i < prev.len() {
                assert(window_cues(cues, a, b)[i] == prev[i]);
            }
        }
    }
}

} // verus!
