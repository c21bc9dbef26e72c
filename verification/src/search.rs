//! Searching the transcripts of all segments for a query, case-insensitively,
//! with hits ordered by their time in the whole video.

use vstd::prelude::*;

use crate::paths::{extension, path_extension};
use crate::text::{chars_of, contains, contains_exec, lines, lines_exec, string_of, trim, trim_exec};
use crate::transcribe::{parse_srt, srt_cues, srt_fits, srt_in_range, Cue, SrtEntry, cues_of};

verus! {

/// One hit: the segment, the time within the segment and within the whole
/// video (milliseconds), and the matching text.
#[derive(Debug)]
pub struct SearchResult {
    pub segment_index: usize,
    pub segment_timestamp_ms: u64,
    pub absolute_timestamp_ms: u64,
    pub text: String,
}

/// The content of a hit.
pub struct Hit {
    pub segment_index: int,
    pub segment_ms: int,
    pub absolute_ms: int,
    pub text: Seq<char>,
}

impl View for SearchResult {
    type V = Hit;

    open spec fn view(&self) -> Hit {
        Hit {
            segment_index: self.segment_index as int,
            segment_ms: self.segment_timestamp_ms as int,
            absolute_ms: self.absolute_timestamp_ms as int,
            text: self.text@,
        }
    }
}

/// The hits that a sequence of results holds.
pub open spec fn hits_of(v: Seq<SearchResult>) -> Seq<Hit> {
    v.map_values(|r: SearchResult| r@)
}

/// A segment's transcript as read from disk: the segment's number, its
/// start in the video (milliseconds), the transcript's path and its text.
pub struct TranscriptFile {
    pub segment_index: usize,
    pub offset_ms: u64,
    pub path: String,
    pub content: String,
}

// ---------------------------------------------------------------------------
// Lower case (std)
// ---------------------------------------------------------------------------

/// What `str::to_lowercase` gives for a string (the Unicode lower-case
/// mapping); a function of the string alone.
pub uninterp spec fn lowercase(s: Seq<char>) -> Seq<char>;

/// std `str::to_lowercase`. Trusted: the result is `lowercase` of the
/// argument; nothing more is stated of that mapping.
#[verifier::external_body]
fn to_lowercase(s: &str) -> (r: String)
    ensures
        r@ == lowercase(s@),
{
    s.to_lowercase()
}

// ---------------------------------------------------------------------------
// Specification
// ---------------------------------------------------------------------------

/// The lower-cased extension of a transcript's path (empty where it has
/// none).
pub open spec fn ext_key(path: Seq<char>) -> Seq<char> {
    lowercase(
        match extension(path) {
            Some(e) => e,
            None => Seq::empty(),
        },
    )
}

/// The transcript has timed entries: its extension is `srt` or `vtt`.
pub open spec fn is_timed(path: Seq<char>) -> bool {
    ext_key(path) == seq!['s', 'r', 't'] || ext_key(path) == seq!['v', 't', 't']
}

/// `text`, lower-cased, holds the lower-cased query `q`.
pub open spec fn matches(text: Seq<char>, q: Seq<char>) -> bool {
    contains(lowercase(text), q)
}

/// Hits among timed entries: each matching cue at its own start.
pub open spec fn cue_hits(index: int, offset: int, cues: Seq<Cue>, q: Seq<char>) -> Seq<Hit>
    decreases cues.len(),
{
    if cues.len() == 0 {
        Seq::empty()
    } else {
        let prev = cue_hits(index, offset, cues.drop_last(), q);
        let c = cues.last();
        if matches(c.text, q) {
            prev.push(
                Hit {
                    segment_index: index,
                    segment_ms: c.start_ms,
                    absolute_ms: offset + c.start_ms,
                    text: c.text,
                },
            )
        } else {
            prev
        }
    }
}

/// Hits among plain lines: each matching line, trimmed, at the segment's
/// start.
pub open spec fn line_hits(index: int, offset: int, ls: Seq<Seq<char>>, q: Seq<char>) -> Seq<Hit>
    decreases ls.len(),
{
    if ls.len() == 0 {
        Seq::empty()
    } else {
        let prev = line_hits(index, offset, ls.drop_last(), q);
        let l = ls.last();
        if matches(l, q) {
            prev.push(Hit { segment_index: index, segment_ms: 0, absolute_ms: offset, text: trim(l) })
        } else {
            prev
        }
    }
}

/// The hits of one transcript, in the order of the transcript.
pub open spec fn file_hits(f: TranscriptFile, q: Seq<char>) -> Seq<Hit> {
    if is_timed(f.path@) {
        cue_hits(f.segment_index as int, f.offset_ms as int, srt_cues(f.content@), q)
    } else {
        line_hits(f.segment_index as int, f.offset_ms as int, lines(f.content@), q)
    }
}

/// The hits of all transcripts, transcript after transcript.
pub open spec fn all_hits(files: Seq<TranscriptFile>, q: Seq<char>) -> Seq<Hit>
    decreases files.len(),
{
    if files.len() == 0 {
        Seq::empty()
    } else {
        all_hits(files.drop_last(), q) + file_hits(files.last(), q)
    }
}

/// Searching the transcript computes no time beyond 64 bits.
pub open spec fn file_searchable(f: TranscriptFile, q: Seq<char>) -> bool {
    is_timed(f.path@) ==> {
        &&& srt_in_range(f.content@)
        &&& forall|i: int|
            0 <= i < srt_cues(f.content@).len() && matches(
                #[trigger] srt_cues(f.content@)[i].text,
                q,
            ) ==> f.offset_ms + srt_cues(f.content@)[i].start_ms <= u64::MAX
    }
}

/// Hits in order of their time in the video.
pub open spec fn by_time(s: Seq<Hit>) -> bool {
    forall|i: int, j: int|
        0 <= i < j < s.len() ==> #[trigger] s[i].absolute_ms <= #[trigger] s[j].absolute_ms
}

/// The hits at time `t`, in order.
pub open spec fn at_time(s: Seq<Hit>, t: int) -> Seq<Hit>
    decreases s.len(),
{
    if s.len() == 0 {
        Seq::empty()
    } else if s.last().absolute_ms == t {
        at_time(s.drop_last(), t).push(s.last())
    } else {
        at_time(s.drop_last(), t)
    }
}

// ---------------------------------------------------------------------------
// Lemmas on ordering by time
// ---------------------------------------------------------------------------

proof fn lemma_at_time_concat(a: Seq<Hit>, b: Seq<Hit>, t: int)
    ensures
        at_time(a + b, t) == at_time(a, t) + at_time(b, t),
    decreases b.len(),
{
    if b.len() == 0 {
        assert(a + b =~= a);
        assert(at_time(a, t) + at_time(b, t) =~= at_time(a, t));
    } else {
        assert((a + b).drop_last() =~= a + b.drop_last());
        assert((a + b).last() == b.last());
        lemma_at_time_concat(a, b.drop_last(), t);
        if b.last().absolute_ms == t {
            assert(at_time(a, t) + at_time(b, t) =~= (at_time(a, t) + at_time(b.drop_last(), t)).push(
                b.last(),
            ));
        }
    }
}

proof fn lemma_at_time_none(s: Seq<Hit>, t: int)
    requires
        forall|i: int| 0 <= i < s.len() ==> #[trigger] s[i].absolute_ms != t,
    ensures
        at_time(s, t) == Seq::<Hit>::empty(),
    decreases s.len(),
{
    if s.len() > 0 {
        lemma_at_time_none(s.drop_last(), t);
    }
}

// ---------------------------------------------------------------------------
// The times of a hit
// ---------------------------------------------------------------------------

/// The hit belongs to segment `index`, which starts at `offset` in the
/// video: its time in the video is its time in the segment plus `offset`.
pub open spec fn hit_at(h: Hit, index: int, offset: int) -> bool {
    h.segment_index == index && h.absolute_ms == offset + h.segment_ms
}

/// The hit belongs to one of the transcripts.
pub open spec fn hit_placed(files: Seq<TranscriptFile>, h: Hit) -> bool {
    exists|j: int|
        0 <= j < files.len() && hit_at(h, #[trigger] files[j].segment_index as int, files[j].offset_ms as int)
}

proof fn lemma_cue_hits_at(index: int, offset: int, cues: Seq<Cue>, q: Seq<char>)
    ensures
        forall|i: int|
            0 <= i < cue_hits(index, offset, cues, q).len() ==> hit_at(
                #[trigger] cue_hits(index, offset, cues, q)[i],
                index,
                offset,
            ),
    decreases cues.len(),
{
    if cues.len() > 0 {
        lemma_cue_hits_at(index, offset, cues.drop_last(), q);
        let prev = cue_hits(index, offset, cues.drop_last(), q);
        assert forall|i: int| 0 <= i < cue_hits(index, offset, cues, q).len() implies hit_at(
            #[trigger] cue_hits(index, offset, cues, q)[i],
            index,
            offset,
        ) by {
            if i < prev.len() {
                assert(cue_hits(index, offset, cues, q)[i] == prev[i]);
            }
        }
    }
}

proof fn lemma_line_hits_at(index: int, offset: int, ls: Seq<Seq<char>>, q: Seq<char>)
    ensures
        forall|i: int|
            0 <= i < line_hits(index, offset, ls, q).len() ==> hit_at(
                #[trigger] line_hits(index, offset, ls, q)[i],
                index,
                offset,
            ),
    decreases ls.len(),
{
    if ls.len() > 0 {
        lemma_line_hits_at(index, offset, ls.drop_last(), q);
        let prev = line_hits(index, offset, ls.drop_last(), q);
        assert forall|i: int| 0 <= i < line_hits(index, offset, ls, q).len() implies hit_at(
            #[trigger] line_hits(index, offset, ls, q)[i],
            index,
            offset,
        ) by {
            if i < prev.len() {
                assert(line_hits(index, offset, ls, q)[i] == prev[i]);
            }
        }
    }
}

/// Every hit names the segment of a searched transcript, and its time in
/// the video is that segment's start plus its time in the segment.
pub proof fn law_hit_times(files: Seq<TranscriptFile>, q: Seq<char>)
    ensures
        forall|i: int| 0 <= i < all_hits(files, q).len() ==> hit_placed(files, #[trigger] all_hits(files, q)[i]),
    decreases files.len(),
{
    if files.len() > 0 {
        let prev_files = files.drop_last();
        let f = files.last();
        law_hit_times(prev_files, q);
        let prev = all_hits(prev_files, q);
        let own = file_hits(f, q);
        if is_timed(f.path@) {
            lemma_cue_hits_at(f.segment_index as int, f.offset_ms as int, srt_cues(f.content@), q);
        } else {
            lemma_line_hits_at(f.segment_index as int, f.offset_ms as int, lines(f.content@), q);
        }
        assert forall|i: int| 0 <= i < all_hits(files, q).len() implies hit_placed(
            files,
            #[trigger] all_hits(files, q)[i],
        ) by {
            let h = all_hits(files, q)[i];
            if i < prev.len() {
                assert(h == prev[i]);
                assert(hit_placed(prev_files, h));
                let j = choose|j: int|
                    0 <= j < prev_files.len() && hit_at(
                        h,
                        #[trigger] prev_files[j].segment_index as int,
                        prev_files[j].offset_ms as int,
                    );
                assert(files[j] == prev_files[j]);
            } else {
                assert(h == own[i - prev.len()]);
                assert(hit_at(h, f.segment_index as int, f.offset_ms as int));
                assert(files[files.len() - 1] == f);
            }
        }
    }
}

// ---------------------------------------------------------------------------
// Which hits a transcript gives
// ---------------------------------------------------------------------------

proof fn lemma_cue_hits_filter(index: int, offset: int, cues: Seq<Cue>, q: Seq<char>)
    ensures
        cue_hits(index, offset, cues, q) == cues.filter(|c: Cue| matches(c.text, q)).map_values(
            |c: Cue| Hit { segment_index: index, segment_ms: c.start_ms, absolute_ms: offset + c.start_ms, text: c.text },
        ),
    decreases cues.len(),
{
    if cues.len() > 0 {
        lemma_cue_hits_filter(index, offset, cues.drop_last(), q);
        reveal_with_fuel(Seq::<_>::filter, 1);
        let pred = |c: Cue| matches(c.text, q);
        let hit = |c: Cue| Hit { segment_index: index, segment_ms: c.start_ms, absolute_ms: offset + c.start_ms, text: c.text };
        let sub = cues.drop_last().filter(pred);
        if pred(cues.last()) {
            assert(cues.filter(pred) == sub.push(cues.last()));
            assert(sub.push(cues.last()).map_values(hit) =~= sub.map_values(hit).push(hit(cues.last())));
        } else {
            assert(cues.filter(pred) == sub);
        }
    }
}

proof fn lemma_line_hits_filter(index: int, offset: int, ls: Seq<Seq<char>>, q: Seq<char>)
    ensures
        line_hits(index, offset, ls, q) == ls.filter(|l: Seq<char>| matches(l, q)).map_values(
            |l: Seq<char>| Hit { segment_index: index, segment_ms: 0, absolute_ms: offset, text: trim(l) },
        ),
    decreases ls.len(),
{
    if ls.len() > 0 {
        lemma_line_hits_filter(index, offset, ls.drop_last(), q);
        reveal_with_fuel(Seq::<_>::filter, 1);
        let pred = |l: Seq<char>| matches(l, q);
        let hit = |l: Seq<char>| Hit { segment_index: index, segment_ms: 0, absolute_ms: offset, text: trim(l) };
        let sub = ls.drop_last().filter(pred);
        if pred(ls.last()) {
            assert(ls.filter(pred) == sub.push(ls.last()));
            assert(sub.push(ls.last()).map_values(hit) =~= sub.map_values(hit).push(hit(ls.last())));
        } else {
            assert(ls.filter(pred) == sub);
        }
    }
}

/// The hits of one transcript are exactly its matching entries, in order:
/// for an `.srt`/`.vtt` transcript, every cue whose lower-cased text holds
/// the lower-cased query, at its start in the segment and that start plus
/// the segment's offset in the video; for any other transcript, every
/// matching line, trimmed, at the segment's start.
pub proof fn law_file_hits(f: TranscriptFile, q: Seq<char>)
    ensures
        is_timed(f.path@) ==> file_hits(f, q) == srt_cues(f.content@).filter(
            |c: Cue| contains(lowercase(c.text), q),
        ).map_values(
            |c: Cue|
                Hit {
                    segment_index: f.segment_index as int,
                    segment_ms: c.start_ms,
                    absolute_ms: f.offset_ms + c.start_ms,
                    text: c.text,
                },
        ),
        !is_timed(f.path@) ==> file_hits(f, q) == lines(f.content@).filter(
            |l: Seq<char>| contains(lowercase(l), q),
        ).map_values(
            |l: Seq<char>|
                Hit {
                    segment_index: f.segment_index as int,
                    segment_ms: 0,
                    absolute_ms: f.offset_ms as int,
                    text: trim(l),
                },
        ),
{
    lemma_cue_hits_filter(f.segment_index as int, f.offset_ms as int, srt_cues(f.content@), q);
    lemma_line_hits_filter(f.segment_index as int, f.offset_ms as int, lines(f.content@), q);
    let p1 = |c: Cue| contains(lowercase(c.text), q);
    let p2 = |c: Cue| matches(c.text, q);
    assert(p1 =~= p2);
    let l1 = |l: Seq<char>| contains(lowercase(l), q);
    let l2 = |l: Seq<char>| matches(l, q);
    assert(l1 =~= l2);
}

/// The hit that cue `c` of transcript `f` gives.
pub open spec fn cue_hit(f: TranscriptFile, c: Cue) -> Hit {
    Hit {
        segment_index: f.segment_index as int,
        segment_ms: c.start_ms,
        absolute_ms: f.offset_ms + c.start_ms,
        text: c.text,
    }
}

/// Every cue of an `.srt`/`.vtt` transcript whose lower-cased text holds the
/// lower-cased query is found: its hit, with the transcript's segment, the
/// cue's start and that start plus the segment's offset, is among the hits.
pub proof fn law_search_complete(files: Seq<TranscriptFile>, q: Seq<char>)
    ensures
        forall|k: int, i: int|
            0 <= k < files.len() && is_timed(files[k].path@) && 0 <= i < srt_cues(files[k].content@).len()
                && contains(lowercase(#[trigger] srt_cues(files[k].content@)[i].text), q) ==> all_hits(
                files,
                q,
            ).contains(cue_hit(files[k], srt_cues(files[k].content@)[i])),
    decreases files.len(),
{
    if files.len() > 0 {
        let d = files.drop_last();
        let f = files.last();
        law_search_complete(d, q);
        law_file_hits(f, q);
        let prev = all_hits(d, q);
        let own = file_hits(f, q);
        assert(all_hits(files, q) == prev + own);
        assert forall|k: int, i: int|
            0 <= k < files.len() && is_timed(files[k].path@) && 0 <= i < srt_cues(files[k].content@).len()
                && contains(lowercase(#[trigger] srt_cues(files[k].content@)[i].text), q) implies all_hits(
                files,
                q,
            ).contains(cue_hit(files[k], srt_cues(files[k].content@)[i])) by {
            let c = srt_cues(files[k].content@)[i];
            let h = cue_hit(files[k], c);
            if k < d.len() {
                assert(files[k] == d[k]);
                assert(prev.contains(h));
                let w = choose|w: int| 0 <= w < prev.len() && prev[w] == h;
                assert((prev + own)[w] == h);
            } else {
                assert(files[k] == f);
                let cs = srt_cues(f.content@);
                let pred = |x: Cue| contains(lowercase(x.text), q);
                let hit = |x: Cue|
                    Hit {
                        segment_index: f.segment_index as int,
                        segment_ms: x.start_ms,
                        absolute_ms: f.offset_ms + x.start_ms,
                        text: x.text,
                    };
                assert(own == cs.filter(pred).map_values(hit));
                cs.lemma_filter_contains(pred, i);
                let w = choose|w: int| 0 <= w < cs.filter(pred).len() && cs.filter(pred)[w] == c;
                assert(own[w] == hit(c));
                assert(hit(c) == h);
                assert((prev + own)[prev.len() + w] == h);
            }
        }
    }
}

/// `h` is among `s` exactly when it is among the hits of `s` at its time.
proof fn lemma_at_time_contains(s: Seq<Hit>, h: Hit)
    ensures
        s.contains(h) <==> at_time(s, h.absolute_ms).contains(h),
    decreases s.len(),
{
    if s.len() > 0 {
        let d = s.drop_last();
        lemma_at_time_contains(d, h);
        let t = h.absolute_ms;
        if s.contains(h) {
            let w = choose|w: int| 0 <= w < s.len() && s[w] == h;
            if w < d.len() {
                assert(d[w] == h);
                assert(d.contains(h));
                let v = choose|v: int| 0 <= v < at_time(d, t).len() && at_time(d, t)[v] == h;
                if s.last().absolute_ms == t {
                    assert(at_time(s, t)[v] == h);
                }
            } else {
                assert(s.last() == h);
                assert(at_time(s, t) == at_time(d, t).push(h));
                assert(at_time(s, t)[at_time(d, t).len() as int] == h);
            }
        }
        if at_time(s, t).contains(h) {
            let v = choose|v: int| 0 <= v < at_time(s, t).len() && at_time(s, t)[v] == h;
            if s.last().absolute_ms == t {
                if v < at_time(d, t).len() {
                    assert(at_time(d, t)[v] == h);
                    assert(at_time(d, t).contains(h));
                    let w = choose|w: int| 0 <= w < d.len() && d[w] == h;
                    assert(s[w] == h);
                } else {
                    assert(s[s.len() - 1] == h);
                }
            } else {
                assert(at_time(d, t).contains(h));
                let w = choose|w: int| 0 <= w < d.len() && d[w] == h;
                assert(s[w] == h);
            }
        }
    }
}

/// What `search_transcripts` returns holds every hit of every matching cue
/// of every `.srt`/`.vtt` transcript: any hits that agree with all the
/// hits at every time do.
pub proof fn law_search_results_complete(files: Seq<TranscriptFile>, q: Seq<char>, r: Seq<Hit>)
    requires
        forall|t: int| at_time(r, t) == at_time(all_hits(files, q), t),
    ensures
        forall|k: int, i: int|
            0 <= k < files.len() && is_timed(files[k].path@) && 0 <= i < srt_cues(files[k].content@).len()
                && contains(lowercase(#[trigger] srt_cues(files[k].content@)[i].text), q) ==> r.contains(
                cue_hit(files[k], srt_cues(files[k].content@)[i]),
            ),
{
    law_search_complete(files, q);
    assert forall|k: int, i: int|
        0 <= k < files.len() && is_timed(files[k].path@) && 0 <= i < srt_cues(files[k].content@).len()
            && contains(lowercase(#[trigger] srt_cues(files[k].content@)[i].text), q) implies r.contains(
            cue_hit(files[k], srt_cues(files[k].content@)[i]),
        ) by {
        let h = cue_hit(files[k], srt_cues(files[k].content@)[i]);
        lemma_at_time_contains(all_hits(files, q), h);
        lemma_at_time_contains(r, h);
        assert(at_time(r, h.absolute_ms) == at_time(all_hits(files, q), h.absolute_ms));
    }
}

// ---------------------------------------------------------------------------
// Executable
// ---------------------------------------------------------------------------

fn copy_result(r: &SearchResult) -> (c: SearchResult)
    ensures
        c@ == r@,
{
    SearchResult {
        segment_index: r.segment_index,
        segment_timestamp_ms: r.segment_timestamp_ms,
        absolute_timestamp_ms: r.absolute_timestamp_ms,
        text: r.text.clone(),
    }
}

/// The results in order of their time in the video; results at the same
/// time keep their order.
pub fn sort_by_time(v: &Vec<SearchResult>) -> (r: Vec<SearchResult>)
    ensures
        by_time(hits_of(r@)),
        forall|t: int| at_time(hits_of(r@), t) == at_time(hits_of(v@), t),
{
    let mut out: Vec<SearchResult> = Vec::new();
    let mut i: usize = 0;
    while i < v.len()
        invariant
            i <= v.len(),
            by_time(hits_of(out@)),
            forall|t: int| at_time(hits_of(out@), t) == at_time(hits_of(v@.take(i as int)), t),
        decreases v.len() - i,
    {
        let x = copy_result(&v[i]);
        let key = x.absolute_timestamp_ms;
        let ghost os = hits_of(out@);
        let mut p: usize = 0;
        while p < out.len() && out[p].absolute_timestamp_ms <= key
            invariant
                p <= out.len(),
                os == hits_of(out@),
                forall|j: int| 0 <= j < p ==> #[trigger] os[j].absolute_ms <= key,
            decreases out.len() - p,
        {
            assert(os[p as int] == out@[p as int]@);
            p += 1;
        }
        proof {
            if p < out.len() {
                assert(os[p as int] == out@[p as int]@);
            }
            let ns = os.insert(p as int, x@);
            assert forall|a: int, b: int| 0 <= a < b < ns.len() implies #[trigger] ns[a].absolute_ms
                <= #[trigger] ns[b].absolute_ms by {
                if b < p {
                    assert(ns[a] == os[a] && ns[b] == os[b]);
                } else if b == p {
                    assert(ns[a] == os[a] && ns[b] == x@);
                } else if a < p {
                    assert(ns[a] == os[a] && ns[b] == os[b - 1]);
                } else if a == p {
                    assert(ns[a] == x@ && ns[b] == os[b - 1]);
                    assert(os[p as int].absolute_ms <= os[b - 1].absolute_ms);
                } else {
                    assert(ns[a] == os[a - 1] && ns[b] == os[b - 1]);
                }
            }
            // results at each time keep their order
            let pre = os.take(p as int);
            let post = os.skip(p as int);
            assert(ns =~= pre + seq![x@] + post);
            assert(os =~= pre + post);
            assert forall|j: int| 0 <= j < post.len() implies #[trigger] post[j].absolute_ms
                != key by {
                assert(post[j] == os[p + j]);
                if j > 0 {
                    assert(os[p as int].absolute_ms <= os[p + j].absolute_ms);
                }
            }
            let vs = hits_of(v@.take(i + 1));
            let prefix = hits_of(v@.take(i as int));
            assert(vs =~= prefix.push(x@));
            assert(vs.drop_last() =~= prefix);
            assert(vs.last() == x@);
            assert(x@.absolute_ms == key);
            assert forall|t: int| at_time(ns, t) == at_time(vs, t) by {
                assert(at_time(os, t) == at_time(prefix, t));
                lemma_at_time_concat(pre + seq![x@], post, t);
                lemma_at_time_concat(pre, seq![x@], t);
                lemma_at_time_concat(pre, post, t);
                assert(seq![x@].drop_last() =~= Seq::<crate::search::Hit>::empty());
                assert(seq![x@].last() == x@);
                assert(at_time(Seq::<crate::search::Hit>::empty(), t) == Seq::<crate::search::Hit>::empty());
                if t == key {
                    lemma_at_time_none(post, t);
                    assert(at_time(ns, t) =~= at_time(os, t).push(x@));
                } else {
                    assert(at_time(seq![x@], t) =~= Seq::<crate::search::Hit>::empty());
                    assert(at_time(ns, t) =~= at_time(os, t));
                }
            }
        }
        out.insert(p, x);
        assert(hits_of(out@) =~= os.insert(p as int, x@));
        i += 1;
    }
    assert(v@.take(v.len() as int) =~= v@);
    out
}

fn is_timed_exec(path: &str) -> (b: bool)
    ensures
        b == is_timed(path@),
{
    let ext = match path_extension(path) {
        Some(e) => e,
        None => String::new(),
    };
    let key = chars_of(to_lowercase(ext.as_str()).as_str());
    let srt: Vec<char> = vec!['s', 'r', 't'];
    let vtt: Vec<char> = vec!['v', 't', 't'];
    assert(srt@ =~= seq!['s', 'r', 't']);
    assert(vtt@ =~= seq!['v', 't', 't']);
    crate::text::same_chars(&key, &srt) || crate::text::same_chars(&key, &vtt)
}

fn text_matches(text: &str, q: &Vec<char>) -> (b: bool)
    ensures
        b == matches(text@, q@),
{
    let low = chars_of(to_lowercase(text).as_str());
    contains_exec(&low, q)
}

fn file_hits_exec(f: &TranscriptFile, q: &Vec<char>) -> (r: Vec<SearchResult>)
    requires
        file_searchable(*f, q@),
    ensures
        hits_of(r@) == file_hits(*f, q@),
{
    let mut out: Vec<SearchResult> = Vec::new();
    if is_timed_exec(f.path.as_str()) {
        let entries = parse_srt(f.content.as_str());
        let ghost cs = srt_cues(f.content@);
        assert(cues_of(entries@) == cs);
        let mut i: usize = 0;
        while i < entries.len()
            invariant
                i <= entries.len(),
                cues_of(entries@) == cs,
                cs == srt_cues(f.content@),
                file_searchable(*f, q@),
                is_timed(f.path@),
                hits_of(out@) == cue_hits(
                    f.segment_index as int,
                    f.offset_ms as int,
                    cs.take(i as int),
                    q@,
                ),
            decreases entries.len() - i,
        {
            let e = &entries[i];
            assert(cs[i as int] == e@);
            assert(cs.take(i + 1).drop_last() =~= cs.take(i as int));
            assert(cs.take(i + 1).last() == e@);
            if text_matches(e.text.as_str(), q) {
                assert(matches(cs[i as int].text, q@));
                let hit = SearchResult {
                    segment_index: f.segment_index,
                    segment_timestamp_ms: e.start_ms,
                    absolute_timestamp_ms: f.offset_ms + e.start_ms,
                    text: e.text.clone(),
                };
                let ghost before = out@;
                out.push(hit);
                assert(hits_of(out@) =~= hits_of(before).push(hit@));
            }
            i += 1;
        }
        assert(cs.take(entries.len() as int) =~= cs);
    } else {
        let content = chars_of(f.content.as_str());
        let ls = lines_exec(&content);
        let ghost lv = crate::text::seqs_of(ls@);
        let mut i: usize = 0;
        while i < ls.len()
            invariant
                i <= ls.len(),
                lv == crate::text::seqs_of(ls@),
                lv == lines(f.content@),
                hits_of(out@) == line_hits(
                    f.segment_index as int,
                    f.offset_ms as int,
                    lv.take(i as int),
                    q@,
                ),
            decreases ls.len() - i,
        {
            assert(lv[i as int] == ls@[i as int]@);
            assert(lv.take(i + 1).drop_last() =~= lv.take(i as int));
            assert(lv.take(i + 1).last() == ls@[i as int]@);
            let line = string_of(&ls[i]);
            if text_matches(line.as_str(), q) {
                let t = trim_exec(&ls[i]);
                let hit = SearchResult {
                    segment_index: f.segment_index,
                    segment_timestamp_ms: 0,
                    absolute_timestamp_ms: f.offset_ms,
                    text: string_of(&t),
                };
                let ghost before = out@;
                out.push(hit);
                assert(hits_of(out@) =~= hits_of(before).push(hit@));
            }
            i += 1;
        }
        assert(lv.take(ls.len() as int) =~= lv);
    }
    out
}

/// Searches every transcript for `query` (compared in lower case): entries
/// of `.srt`/`.vtt` transcripts at their own times, lines of other
/// transcripts at their segment's start; the hits ordered by their time in
/// the video, hits at one time in the order of the transcripts.
pub fn search_transcripts(files: &[TranscriptFile], query: &str) -> (r: Vec<SearchResult>)
    requires
        forall|i: int| 0 <= i < files@.len() ==> file_searchable(#[trigger] files@[i], lowercase(query@)),
    ensures
        by_time(hits_of(r@)),
        forall|t: int| at_time(hits_of(r@), t) == at_time(all_hits(files@, lowercase(query@)), t),
{
    let q = chars_of(to_lowercase(query).as_str());
    let mut all: Vec<SearchResult> = Vec::new();
    let mut i: usize = 0;
    while i < files.len()
        invariant
            i <= files.len(),
            q@ == lowercase(query@),
            forall|j: int| 0 <= j < files@.len() ==> file_searchable(#[trigger] files@[j], q@),
            hits_of(all@) == all_hits(files@.take(i as int), q@),
        decreases files.len() - i,
    {
        let mut hits = file_hits_exec(&files[i], &q);
        let ghost before = all@;
        let ghost found = hits@;
        all.append(&mut hits);
        assert(files@.take(i + 1).drop_last() =~= files@.take(i as int));
        assert(files@.take(i + 1).last() == files@[i as int]);
        assert(hits_of(all@) =~= hits_of(before) + hits_of(found));
        i += 1;
    }
    assert(files@.take(files.len() as int) =~= files@);
    sort_by_time(&all)
}

/// Whether `search_transcripts` may search these transcripts for `query`:
/// every time it computes fits in 64 bits.
pub fn search_fits(files: &[TranscriptFile], query: &str) -> (b: bool)
    ensures
        b == forall|i: int|
            0 <= i < files@.len() ==> file_searchable(#[trigger] files@[i], lowercase(query@)),
{
    let q = chars_of(to_lowercase(query).as_str());
    let mut i: usize = 0;
    while i < files.len()
        invariant
            i <= files.len(),
            q@ == lowercase(query@),
            forall|j: int| 0 <= j < i ==> file_searchable(#[trigger] files@[j], q@),
        decreases files.len() - i,
    {
        let f = &files[i];
        if is_timed_exec(f.path.as_str()) {
            if !srt_fits(f.content.as_str()) {
                return false;
            }
            let entries = parse_srt(f.content.as_str());
            let ghost cs = srt_cues(f.content@);
            let mut k: usize = 0;
            while k < entries.len()
                invariant
                    k <= entries.len(),
                    i < files.len(),
                    *f == files@[i as int],
                    q@ == lowercase(query@),
                    is_timed(f.path@),
                    cues_of(entries@) == cs,
                    cs == srt_cues(f.content@),
                    forall|j: int|
                        0 <= j < k && matches(#[trigger] cs[j].text, q@) ==> f.offset_ms
                            + cs[j].start_ms <= u64::MAX,
                decreases entries.len() - k,
            {
                assert(cs[k as int] == entries@[k as int]@);
                if text_matches(entries[k].text.as_str(), &q) {
                    if f.offset_ms.checked_add(entries[k].start_ms).is_none() {
                        assert(files@[i as int] == *f);
                        assert(matches(srt_cues(files@[i as int].content@)[k as int].text, q@));
                        return false;
                    }
                }
                k += 1;
            }
        }
        i += 1;
    }
    true
}


/// `search_transcripts` where every time it computes fits in 64 bits;
/// none otherwise.
pub fn search_checked(files: &[TranscriptFile], query: &str) -> (r: Option<Vec<SearchResult>>)
    ensures
        r is Some <==> forall|i: int|
            0 <= i < files@.len() ==> file_searchable(#[trigger] files@[i], lowercase(query@)),
        r matches Some(v) ==> {
            &&& by_time(hits_of(v@))
            &&& forall|t: int| at_time(hits_of(v@), t) == at_time(all_hits(files@, lowercase(query@)), t)
        },
{
    if search_fits(files, query) {
        Some(search_transcripts(files, query))
    } else {
        None
    }
}

} // verus!
