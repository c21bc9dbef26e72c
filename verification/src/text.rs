//! Character-sequence primitives with exact specifications: searching,
//! splitting, replacing, line breaking, trimming and joining, each with the
//! meaning that Rust's `str` methods of the same name have.

use vstd::prelude::*;

verus! {

broadcast use vstd::string::group_string_axioms;

// ---------------------------------------------------------------------------
// Specifications
// ---------------------------------------------------------------------------

/// The views of a sequence of character vectors.
pub open spec fn seqs_of(v: Seq<Vec<char>>) -> Seq<Seq<char>> {
    v.map_values(|x: Vec<char>| x@)
}

/// `pat` occurs in `s` starting at index `i`.
pub open spec fn matches_at(s: Seq<char>, pat: Seq<char>, i: int) -> bool {
    0 <= i && i + pat.len() <= s.len() && s.subrange(i, i + pat.len()) == pat
}

/// The first index `k >= i` at which `pat` occurs in `s`.
pub open spec fn find_from(s: Seq<char>, pat: Seq<char>, i: int) -> Option<int>
    decreases s.len() + 1 - i,
{
    if i < 0 || i + pat.len() > s.len() {
        None
    } else if matches_at(s, pat, i) {
        Some(i)
    } else {
        find_from(s, pat, i + 1)
    }
}

/// The first index at which `pat` occurs in `s`.
pub open spec fn find(s: Seq<char>, pat: Seq<char>) -> Option<int> {
    find_from(s, pat, 0)
}

/// `pat` occurs somewhere in `s` (`str::contains`).
pub open spec fn contains(s: Seq<char>, pat: Seq<char>) -> bool {
    find(s, pat) is Some
}

/// The pieces of `s[i..]` between the non-overlapping occurrences of `pat`,
/// searched left to right (`str::split` with a string pattern).
pub open spec fn split_from(s: Seq<char>, pat: Seq<char>, i: int) -> Seq<Seq<char>>
    decreases s.len() - i,
{
    if pat.len() == 0 || i < 0 || i > s.len() {
        seq![s.subrange(i, s.len() as int)]
    } else {
        match find_from(s, pat, i) {
            None => seq![s.subrange(i, s.len() as int)],
            Some(k) => {
                proof {
                    lemma_find_from(s, pat, i);
                }
                seq![s.subrange(i, k)] + split_from(s, pat, k + pat.len())
            },
        }
    }
}

/// `str::split` with a non-empty string pattern.
pub open spec fn split(s: Seq<char>, pat: Seq<char>) -> Seq<Seq<char>> {
    split_from(s, pat, 0)
}

/// `s[i..]` with every non-overlapping occurrence of `pat` (left to right)
/// replaced by `rep` (`str::replace`).
pub open spec fn replace_from(s: Seq<char>, pat: Seq<char>, rep: Seq<char>, i: int) -> Seq<char>
    decreases s.len() - i,
{
    if pat.len() == 0 || i < 0 || i > s.len() {
        s.subrange(i, s.len() as int)
    } else {
        match find_from(s, pat, i) {
            None => s.subrange(i, s.len() as int),
            Some(k) => {
                proof {
                    lemma_find_from(s, pat, i);
                }
                s.subrange(i, k) + rep + replace_from(s, pat, rep, k + pat.len())
            },
        }
    }
}

/// `str::replace` with a non-empty pattern.
pub open spec fn replace(s: Seq<char>, pat: Seq<char>, rep: Seq<char>) -> Seq<char> {
    replace_from(s, pat, rep, 0)
}

/// The two sides of the first occurrence of `pat` (`str::split_once`).
pub open spec fn split_once(s: Seq<char>, pat: Seq<char>) -> Option<(Seq<char>, Seq<char>)> {
    match find(s, pat) {
        Some(k) => Some((s.take(k), s.skip(k + pat.len()))),
        None => None,
    }
}

/// One trailing carriage return removed, if there is one.
pub open spec fn strip_cr(l: Seq<char>) -> Seq<char> {
    if l.len() > 0 && l.last() == '\r' {
        l.drop_last()
    } else {
        l
    }
}

/// `str::lines`: the lines of `s`, split at `\n`; a line that a `\n` ends
/// loses one `\r` before it; a final `\n` opens no empty line.
pub open spec fn lines(s: Seq<char>) -> Seq<Seq<char>> {
    let parts = split(s, seq!['\n']);
    let body = parts.drop_last().map_values(|l: Seq<char>| strip_cr(l));
    if parts.last().len() == 0 {
        body
    } else {
        body.push(parts.last())
    }
}

/// `parts` joined with `sep` between neighbours (`[..].join`).
pub open spec fn join(parts: Seq<Seq<char>>, sep: Seq<char>) -> Seq<char>
    decreases parts.len(),
{
    if parts.len() == 0 {
        Seq::empty()
    } else if parts.len() == 1 {
        parts[0]
    } else {
        join(parts.drop_last(), sep) + sep + parts.last()
    }
}

/// `char::is_whitespace`: the Unicode `White_Space` property.
pub open spec fn is_ws(c: char) -> bool {
    ||| ('\u{9}' <= c && c <= '\u{d}')
    ||| c == ' '
    ||| c == '\u{85}'
    ||| c == '\u{a0}'
    ||| c == '\u{1680}'
    ||| ('\u{2000}' <= c && c <= '\u{200a}')
    ||| c == '\u{2028}'
    ||| c == '\u{2029}'
    ||| c == '\u{202f}'
    ||| c == '\u{205f}'
    ||| c == '\u{3000}'
}

/// `str::trim_start`.
pub open spec fn trim_start(s: Seq<char>) -> Seq<char>
    decreases s.len(),
{
    if s.len() > 0 && is_ws(s[0]) {
        trim_start(s.skip(1))
    } else {
        s
    }
}

/// `str::trim_end`.
pub open spec fn trim_end(s: Seq<char>) -> Seq<char>
    decreases s.len(),
{
    if s.len() > 0 && is_ws(s.last()) {
        trim_end(s.drop_last())
    } else {
        s
    }
}

/// `str::trim`.
pub open spec fn trim(s: Seq<char>) -> Seq<char> {
    trim_end(trim_start(s))
}

// ---------------------------------------------------------------------------
// Lemmas
// ---------------------------------------------------------------------------

/// What `find_from` returns: the least matching index at or after `i`.
pub proof fn lemma_find_from(s: Seq<char>, pat: Seq<char>, i: int)
    requires
        0 <= i,
    ensures
        match find_from(s, pat, i) {
            Some(k) => {
                &&& i <= k
                &&& k + pat.len() <= s.len()
                &&& matches_at(s, pat, k)
                &&& forall|j: int| i <= j < k ==> !matches_at(s, pat, j)
            },
            None => forall|j: int| i <= j ==> !matches_at(s, pat, j),
        },
    decreases s.len() + 1 - i,
{
    if i + pat.len() > s.len() {
    } else if matches_at(s, pat, i) {
    } else {
        lemma_find_from(s, pat, i + 1);
    }
}


// ---------------------------------------------------------------------------
// Executable functions
// ---------------------------------------------------------------------------

/// Appends one character to a `String` (std `String::push`).
/// Trusted: the new contents are the old contents followed by `c`.
#[verifier::external_body]
pub(crate) fn push_char(s: &mut String, c: char)
    ensures
        final(s)@ == old(s)@.push(c),
{
    s.push(c);
}

/// The characters of `s`, in order.
pub fn chars_of(s: &str) -> (v: Vec<char>)
    ensures
        v@ == s@,
{
    let mut v: Vec<char> = Vec::new();
    for c in it: s.chars()
        invariant
            v@ == it.seq().take(it.index()),
    {
        v.push(c);
    }
    v
}

/// A `String` holding exactly the characters of `v`.
pub fn string_of(v: &Vec<char>) -> (s: String)
    ensures
        s@ == v@,
{
    let mut s = String::new();
    let mut i: usize = 0;
    while i < v.len()
        invariant
            i <= v.len(),
            s@ == v@.take(i as int),
        decreases v.len() - i,
    {
        push_char(&mut s, v[i]);
        assert(v@.take(i as int + 1) =~= v@.take(i as int).push(v@[i as int]));
        i += 1;
    }
    assert(v@.take(v.len() as int) =~= v@);
    s
}

/// Appends `src[lo..hi]` to `out`.
pub fn extend_range(out: &mut Vec<char>, src: &Vec<char>, lo: usize, hi: usize)
    requires
        lo <= hi <= src.len(),
    ensures
        final(out)@ == old(out)@ + src@.subrange(lo as int, hi as int),
{
    let ghost start = out@;
    let mut i = lo;
    while i < hi
        invariant
            lo <= i <= hi <= src.len(),
            out@ == start + src@.subrange(lo as int, i as int),
        decreases hi - i,
    {
        out.push(src[i]);
        assert(src@.subrange(lo as int, i + 1) =~= src@.subrange(lo as int, i as int).push(
            src@[i as int],
        ));
        i += 1;
    }
}

/// Appends all of `src` to `out`.
pub fn extend_all(out: &mut Vec<char>, src: &Vec<char>)
    ensures
        final(out)@ == old(out)@ + src@,
{
    extend_range(out, src, 0, src.len());
    assert(src@.subrange(0, src.len() as int) =~= src@);
}

/// A copy of `src[lo..hi]`.
pub fn copy_range(src: &Vec<char>, lo: usize, hi: usize) -> (r: Vec<char>)
    requires
        lo <= hi <= src.len(),
    ensures
        r@ == src@.subrange(lo as int, hi as int),
{
    let mut r: Vec<char> = Vec::new();
    extend_range(&mut r, src, lo, hi);
    assert(Seq::<char>::empty() + src@.subrange(lo as int, hi as int) =~= src@.subrange(
        lo as int,
        hi as int,
    ));
    r
}

/// Whether `pat` occurs in `s` at index `i`.
fn matches_here(s: &Vec<char>, pat: &Vec<char>, i: usize) -> (b: bool)
    requires
        i + pat.len() <= s.len(),
    ensures
        b == matches_at(s@, pat@, i as int),
{
    let mut j: usize = 0;
    while j < pat.len()
        invariant
            j <= pat.len(),
            i + pat.len() <= s.len(),
            forall|t: int| 0 <= t < j ==> s@[i + t] == pat@[t],
        decreases pat.len() - j,
    {
        if s[i + j] != pat[j] {
            assert(s@.subrange(i as int, i + pat.len())[j as int] != pat@[j as int]);
            return false;
        }
        j += 1;
    }
    assert(s@.subrange(i as int, i + pat.len()) =~= pat@);
    true
}

/// The first occurrence of `pat` in `s` at or after `from`.
pub fn find_from_exec(s: &Vec<char>, pat: &Vec<char>, from: usize) -> (r: Option<usize>)
    ensures
        match r {
            Some(k) => find_from(s@, pat@, from as int) == Some(k as int),
            None => find_from(s@, pat@, from as int) is None,
        },
{
    if pat.len() == 0 {
        if from <= s.len() {
            assert(s@.subrange(from as int, from as int) =~= pat@);
            return Some(from);
        }
        return None;
    }
    let mut i = from;
    while i <= s.len() && pat.len() <= s.len() - i
        invariant
            from <= i,
            pat.len() > 0,
            find_from(s@, pat@, from as int) == find_from(s@, pat@, i as int),
        decreases s.len() + 1 - i,
    {
        if matches_here(s, pat, i) {
            return Some(i);
        }
        i += 1;
    }
    None
}

/// Whether `pat` occurs in `s` (`str::contains`).
pub fn contains_exec(s: &Vec<char>, pat: &Vec<char>) -> (b: bool)
    ensures
        b == contains(s@, pat@),
{
    find_from_exec(s, pat, 0).is_some()
}

/// `str::split` with a non-empty pattern.
pub fn split_exec(s: &Vec<char>, pat: &Vec<char>) -> (parts: Vec<Vec<char>>)
    requires
        pat.len() > 0,
    ensures
        seqs_of(parts@) == split(s@, pat@),
{
    let mut parts: Vec<Vec<char>> = Vec::new();
    let mut pos: usize = 0;
    loop
        invariant
            pat.len() > 0,
            pos <= s.len(),
            seqs_of(parts@) + split_from(s@, pat@, pos as int) == split(s@, pat@),
        decreases s.len() - pos,
    {
        let ghost before = parts@;
        match find_from_exec(s, pat, pos) {
            None => {
                parts.push(copy_range(s, pos, s.len()));
                assert(seqs_of(parts@) =~= seqs_of(before).push(s@.subrange(pos as int, s.len() as int)));
                assert(seqs_of(parts@) =~= seqs_of(before) + split_from(s@, pat@, pos as int));
                return parts;
            },
            Some(k) => {
                proof {
                    lemma_find_from(s@, pat@, pos as int);
                }
                parts.push(copy_range(s, pos, k));
                assert(seqs_of(parts@) =~= seqs_of(before).push(s@.subrange(pos as int, k as int)));
                assert(seqs_of(parts@) + split_from(s@, pat@, (k + pat.len()) as int) =~= seqs_of(
                    before,
                ) + split_from(s@, pat@, pos as int));
                pos = k + pat.len();
            },
        }
    }
}

/// `str::replace` with a non-empty pattern.
pub fn replace_exec(s: &Vec<char>, pat: &Vec<char>, rep: &Vec<char>) -> (r: Vec<char>)
    requires
        pat.len() > 0,
    ensures
        r@ == replace(s@, pat@, rep@),
{
    let mut r: Vec<char> = Vec::new();
    let mut pos: usize = 0;
    loop
        invariant
            pat.len() > 0,
            pos <= s.len(),
            r@ + replace_from(s@, pat@, rep@, pos as int) == replace(s@, pat@, rep@),
        decreases s.len() - pos,
    {
        let ghost before = r@;
        match find_from_exec(s, pat, pos) {
            None => {
                extend_range(&mut r, s, pos, s.len());
                return r;
            },
            Some(k) => {
                proof {
                    lemma_find_from(s@, pat@, pos as int);
                }
                extend_range(&mut r, s, pos, k);
                extend_all(&mut r, rep);
                assert(r@ + replace_from(s@, pat@, rep@, (k + pat.len()) as int) =~= before
                    + replace_from(s@, pat@, rep@, pos as int));
                pos = k + pat.len();
            },
        }
    }
}

/// `str::split_once` with a non-empty pattern.
pub fn split_once_exec(s: &Vec<char>, pat: &Vec<char>) -> (r: Option<(Vec<char>, Vec<char>)>)
    ensures
        match r {
            Some((a, b)) => split_once(s@, pat@) == Some((a@, b@)),
            None => split_once(s@, pat@) is None,
        },
{
    match find_from_exec(s, pat, 0) {
        Some(k) => {
            assert(find_from(s@, pat@, 0) == Some(k as int));
            proof {
                lemma_find_from(s@, pat@, 0);
            }
            assert(k + pat.len() <= s.len());
            let a = copy_range(s, 0, k);
            let b = copy_range(s, k + pat.len(), s.len());
            assert(a@ =~= s@.take(k as int));
            assert(b@ =~= s@.skip(k + pat.len()));
            Some((a, b))
        },
        None => None,
    }
}

/// A piece of `v` without one trailing carriage return.
fn strip_cr_exec(v: &Vec<char>) -> (r: Vec<char>)
    ensures
        r@ == strip_cr(v@),
{
    if v.len() > 0 && v[v.len() - 1] == '\r' {
        let r = copy_range(v, 0, v.len() - 1);
        assert(r@ =~= v@.drop_last());
        r
    } else {
        let r = copy_range(v, 0, v.len());
        assert(r@ =~= v@);
        r
    }
}

/// `split_from` always yields at least one piece.
pub proof fn lemma_split_from_nonempty(s: Seq<char>, pat: Seq<char>, i: int)
    ensures
        split_from(s, pat, i).len() >= 1,
    decreases s.len() - i,
{
    if pat.len() == 0 || i < 0 || i > s.len() {
    } else {
        match find_from(s, pat, i) {
            None => {},
            Some(k) => {
                lemma_find_from(s, pat, i);
                lemma_split_from_nonempty(s, pat, k + pat.len());
            },
        }
    }
}

/// `str::lines`.
pub fn lines_exec(s: &Vec<char>) -> (r: Vec<Vec<char>>)
    ensures
        seqs_of(r@) == lines(s@),
{
    let nl: Vec<char> = vec!['\n'];
    assert(nl@ =~= seq!['\n']);
    let parts = split_exec(s, &nl);
    proof {
        lemma_split_from_nonempty(s@, seq!['\n'], 0);
    }
    let ghost ps = seqs_of(parts@);
    let ghost body = ps.drop_last().map_values(|l: Seq<char>| strip_cr(l));
    let n = parts.len();
    let mut r: Vec<Vec<char>> = Vec::new();
    let mut i: usize = 0;
    while i + 1 < n
        invariant
            n == parts.len(),
            n >= 1,
            i + 1 <= n,
            ps == seqs_of(parts@),
            body == ps.drop_last().map_values(|l: Seq<char>| strip_cr(l)),
            seqs_of(r@) == body.take(i as int),
        decreases n - i,
    {
        let l = strip_cr_exec(&parts[i]);
        assert(ps[i as int] == parts@[i as int]@);
        assert(ps.drop_last()[i as int] == ps[i as int]);
        assert(body[i as int] == strip_cr(ps[i as int]));
        let ghost old_r = r@;
        r.push(l);
        assert(seqs_of(r@) =~= seqs_of(old_r).push(l@));
        assert(seqs_of(r@) =~= body.take(i + 1));
        i += 1;
    }
    assert(body.take(i as int) =~= body);
    if parts[n - 1].len() > 0 {
        let last = copy_range(&parts[n - 1], 0, parts[n - 1].len());
        assert(last@ =~= ps.last());
        r.push(last);
        assert(seqs_of(r@) =~= body.push(ps.last()));
    }
    r
}

/// `parts` joined with `sep`.
pub fn join_exec(parts: &Vec<Vec<char>>, sep: &Vec<char>) -> (r: Vec<char>)
    ensures
        r@ == join(seqs_of(parts@), sep@),
{
    let ghost ps = seqs_of(parts@);
    let mut r: Vec<char> = Vec::new();
    let mut i: usize = 0;
    while i < parts.len()
        invariant
            i <= parts.len(),
            ps == seqs_of(parts@),
            r@ == join(ps.take(i as int), sep@),
        decreases parts.len() - i,
    {
        if i > 0 {
            extend_all(&mut r, sep);
        }
        extend_all(&mut r, &parts[i]);
        assert(ps.take(i + 1).drop_last() =~= ps.take(i as int));
        if i == 0 {
            assert(r@ =~= ps.take(1)[0]);
        }
        i += 1;
    }
    assert(ps.take(parts.len() as int) =~= ps);
    r
}

/// `char::is_whitespace`.
pub fn is_ws_exec(c: char) -> (b: bool)
    ensures
        b == is_ws(c),
{
    ('\u{9}' <= c && c <= '\u{d}') || c == ' ' || c == '\u{85}' || c == '\u{a0}' || c
        == '\u{1680}' || ('\u{2000}' <= c && c <= '\u{200a}') || c == '\u{2028}' || c
        == '\u{2029}' || c == '\u{202f}' || c == '\u{205f}' || c == '\u{3000}'
}

/// `trim_start` of a suffix reaches past leading white space.
proof fn lemma_trim_start_step(s: Seq<char>, lo: int)
    requires
        0 <= lo < s.len(),
        is_ws(s[lo]),
    ensures
        trim_start(s.subrange(lo, s.len() as int)) == trim_start(s.subrange(lo + 1, s.len() as int)),
{
    assert(s.subrange(lo, s.len() as int).skip(1) =~= s.subrange(lo + 1, s.len() as int));
}

/// `trim_end` of a prefix reaches past trailing white space.
proof fn lemma_trim_end_step(s: Seq<char>, lo: int, hi: int)
    requires
        0 <= lo < hi <= s.len(),
        is_ws(s[hi - 1]),
    ensures
        trim_end(s.subrange(lo, hi)) == trim_end(s.subrange(lo, hi - 1)),
{
    assert(s.subrange(lo, hi).drop_last() =~= s.subrange(lo, hi - 1));
}

/// `str::trim`.
pub fn trim_exec(s: &Vec<char>) -> (r: Vec<char>)
    ensures
        r@ == trim(s@),
{
    let mut lo: usize = 0;
    assert(s@.subrange(0, s.len() as int) =~= s@);
    while lo < s.len() && is_ws_exec(s[lo])
        invariant
            lo <= s.len(),
            trim_start(s@) == trim_start(s@.subrange(lo as int, s.len() as int)),
        decreases s.len() - lo,
    {
        proof {
            lemma_trim_start_step(s@, lo as int);
        }
        lo += 1;
    }
    assert(trim_start(s@) == s@.subrange(lo as int, s.len() as int));
    let mut hi: usize = s.len();
    while hi > lo && is_ws_exec(s[hi - 1])
        invariant
            lo <= hi <= s.len(),
            trim(s@) == trim_end(s@.subrange(lo as int, hi as int)),
        decreases hi,
    {
        proof {
            lemma_trim_end_step(s@, lo as int, hi as int);
        }
        hi -= 1;
    }
    let r = copy_range(s, lo, hi);
    assert(trim_end(s@.subrange(lo as int, hi as int)) == s@.subrange(lo as int, hi as int));
    r
}


/// Whether `a` and `b` hold the same characters.
pub fn same_chars(a: &Vec<char>, b: &Vec<char>) -> (r: bool)
    ensures
        r == (a@ == b@),
{
    if a.len() != b.len() {
        return false;
    }
    let mut i: usize = 0;
    while i < a.len()
        invariant
            a.len() == b.len(),
            i <= a.len(),
            forall|j: int| 0 <= j < i ==> a@[j] == b@[j],
        decreases a.len() - i,
    {
        if a[i] != b[i] {
            return false;
        }
        i += 1;
    }
    assert(a@ =~= b@);
    true
}


/// A match found at `k` with none before it (from `i` on) is what
/// `find_from` returns.
pub proof fn lemma_find_from_unique(s: Seq<char>, pat: Seq<char>, i: int, k: int)
    requires
        0 <= i <= k,
        matches_at(s, pat, k),
        forall|j: int| i <= j < k ==> !matches_at(s, pat, j),
    ensures
        find_from(s, pat, i) == Some(k),
{
    lemma_find_from(s, pat, i);
}

/// Matches in `p + y` at or after `p.len()` are the matches in `y`, moved.
pub proof fn lemma_find_shift(p: Seq<char>, y: Seq<char>, pat: Seq<char>, i: int)
    requires
        0 <= i,
    ensures
        find_from(p + y, pat, p.len() + i) == match find_from(y, pat, i) {
            Some(k) => Some(k + p.len()),
            None => None,
        },
    decreases y.len() + 1 - i,
{
    let w = p + y;
    if i + pat.len() > y.len() {
    } else {
        assert(w.subrange(p.len() + i, p.len() + i + pat.len()) =~= y.subrange(i, i + pat.len()));
        if !matches_at(y, pat, i) {
            lemma_find_shift(p, y, pat, i + 1);
            assert(p.len() + i + 1 == p.len() + (i + 1));
        }
    }
}

/// Splitting the part of `p + y` after `p` is splitting `y`.
pub proof fn lemma_split_shift(p: Seq<char>, y: Seq<char>, pat: Seq<char>, i: int)
    requires
        0 <= i <= y.len(),
        pat.len() > 0,
    ensures
        split_from(p + y, pat, p.len() + i) == split_from(y, pat, i),
    decreases y.len() - i,
{
    let w = p + y;
    lemma_find_shift(p, y, pat, i);
    match find_from(y, pat, i) {
        None => {
            assert(w.subrange(p.len() + i, w.len() as int) =~= y.subrange(i, y.len() as int));
        },
        Some(k) => {
            lemma_find_from(y, pat, i);
            assert(w.subrange(p.len() + i, k + p.len()) =~= y.subrange(i, k));
            lemma_split_shift(p, y, pat, k + pat.len());
            assert(k + p.len() + pat.len() == p.len() + (k + pat.len()));
        },
    }
}

/// A match of a non-empty pattern starts with the pattern's first character.
pub proof fn lemma_match_first(s: Seq<char>, pat: Seq<char>, j: int)
    requires
        matches_at(s, pat, j),
        pat.len() > 0,
    ensures
        s[j] == pat[0],
        pat.len() > 1 ==> s[j + 1] == pat[1],
{
    assert(s.subrange(j, j + pat.len())[0] == pat[0]);
    if pat.len() > 1 {
        assert(s.subrange(j, j + pat.len())[1] == pat[1]);
    }
}

/// Splitting `x + pat + y`, where no match starts inside `x`, gives `x` and
/// then the pieces of `y`.
pub proof fn lemma_split_cons(x: Seq<char>, y: Seq<char>, pat: Seq<char>)
    requires
        pat.len() > 0,
        forall|j: int| 0 <= j < x.len() ==> !matches_at(x + pat + y, pat, j),
    ensures
        split(x + pat + y, pat) == seq![x] + split(y, pat),
{
    let w = x + pat + y;
    assert(w.subrange(x.len() as int, (x.len() + pat.len()) as int) =~= pat);
    lemma_find_from_unique(w, pat, 0, x.len() as int);
    assert(w.subrange(0, x.len() as int) =~= x);
    assert(w =~= (x + pat) + y);
    lemma_split_shift(x + pat, y, pat, 0);
}

/// With no match at all, splitting gives the whole sequence.
pub proof fn lemma_split_none(s: Seq<char>, pat: Seq<char>)
    requires
        pat.len() > 0,
        forall|j: int| 0 <= j < s.len() ==> !matches_at(s, pat, j),
    ensures
        split(s, pat) == seq![s],
{
    lemma_find_from(s, pat, 0);
    assert(s.subrange(0, s.len() as int) =~= s);
}

/// With no match at all, replacing changes nothing.
pub proof fn lemma_replace_none(s: Seq<char>, pat: Seq<char>, rep: Seq<char>)
    requires
        pat.len() > 0,
        forall|j: int| 0 <= j < s.len() ==> !matches_at(s, pat, j),
    ensures
        replace(s, pat, rep) == s,
{
    lemma_find_from(s, pat, 0);
    assert(s.subrange(0, s.len() as int) =~= s);
}

/// Joining a piece in front of others puts one separator between.
pub proof fn lemma_join_cons(x: Seq<char>, rest: Seq<Seq<char>>, sep: Seq<char>)
    requires
        rest.len() >= 1,
    ensures
        join(seq![x] + rest, sep) == x + sep + join(rest, sep),
    decreases rest.len(),
{
    let all = seq![x] + rest;
    if rest.len() == 1 {
        assert(all.drop_last() =~= seq![x]);
        assert(all.last() == rest[0]);
        assert(join(seq![x], sep) == x);
        assert(join(rest, sep) == rest[0]);
    } else {
        assert(all.drop_last() =~= seq![x] + rest.drop_last());
        lemma_join_cons(x, rest.drop_last(), sep);
        assert(all.last() == rest.last());
        assert(join(all, sep) =~= x + sep + (join(rest.drop_last(), sep) + sep + rest.last()));
    }
}

/// Joining the pieces of `s[i..]` with the pattern gives `s[i..]` back.
pub proof fn lemma_join_split_from(s: Seq<char>, pat: Seq<char>, i: int)
    requires
        0 <= i <= s.len(),
        pat.len() > 0,
    ensures
        join(split_from(s, pat, i), pat) == s.subrange(i, s.len() as int),
    decreases s.len() - i,
{
    match find_from(s, pat, i) {
        None => {},
        Some(k) => {
            lemma_find_from(s, pat, i);
            lemma_join_split_from(s, pat, k + pat.len());
            lemma_split_from_nonempty(s, pat, k + pat.len());
            lemma_join_cons(s.subrange(i, k), split_from(s, pat, k + pat.len()), pat);
            assert(s.subrange(i, s.len() as int) =~= s.subrange(i, k) + pat + s.subrange(
                k + pat.len(),
                s.len() as int,
            ));
        },
    }
}

/// `join(split(s, pat), pat) == s`: splitting loses nothing.
pub proof fn lemma_join_split(s: Seq<char>, pat: Seq<char>)
    requires
        pat.len() > 0,
    ensures
        join(split(s, pat), pat) == s,
{
    lemma_join_split_from(s, pat, 0);
    assert(s.subrange(0, s.len() as int) =~= s);
}

/// `c` occurs nowhere in `s`.
pub open spec fn lacks(s: Seq<char>, c: char) -> bool {
    forall|i: int| 0 <= i < s.len() ==> s[i] != c
}

/// No piece of a split holds a character that the whole does not hold.
pub proof fn lemma_split_lacks(s: Seq<char>, pat: Seq<char>, i: int, c: char)
    requires
        0 <= i <= s.len(),
        lacks(s, c),
    ensures
        forall|k: int|
            0 <= k < split_from(s, pat, i).len() ==> lacks(#[trigger] split_from(s, pat, i)[k], c),
    decreases s.len() - i,
{
    if pat.len() == 0 {
    } else {
        match find_from(s, pat, i) {
            None => {},
            Some(k) => {
                lemma_find_from(s, pat, i);
                lemma_split_lacks(s, pat, k + pat.len(), c);
                let rest = split_from(s, pat, k + pat.len());
                assert forall|t: int|
                    0 <= t < split_from(s, pat, i).len() implies lacks(
                    #[trigger] split_from(s, pat, i)[t],
                    c,
                ) by {
                    if t > 0 {
                        assert(split_from(s, pat, i)[t] == rest[t - 1]);
                    }
                }
            },
        }
    }
}

/// No piece of a split is longer than what was split.
pub proof fn lemma_split_piece_len(s: Seq<char>, pat: Seq<char>, i: int)
    requires
        0 <= i <= s.len(),
    ensures
        forall|k: int|
            0 <= k < split_from(s, pat, i).len() ==> (#[trigger] split_from(s, pat, i)[k]).len()
                <= s.len() - i,
    decreases s.len() - i,
{
    if pat.len() > 0 {
        match find_from(s, pat, i) {
            None => {},
            Some(k) => {
                lemma_find_from(s, pat, i);
                lemma_split_piece_len(s, pat, k + pat.len());
                let rest = split_from(s, pat, k + pat.len());
                assert forall|t: int| 0 <= t < split_from(s, pat, i).len() implies (
                #[trigger] split_from(s, pat, i)[t]).len() <= s.len() - i by {
                    if t > 0 {
                        assert(split_from(s, pat, i)[t] == rest[t - 1]);
                    }
                }
            },
        }
    }
}

/// The last piece of a split is empty only when nothing was left to split
/// or the sequence ends with the pattern.
pub proof fn lemma_split_last(s: Seq<char>, pat: Seq<char>, i: int)
    requires
        0 <= i <= s.len(),
        pat.len() > 0,
    ensures
        split_from(s, pat, i).len() >= 1,
        split_from(s, pat, i).last().len() == 0 ==> (i == s.len() || matches_at(
            s,
            pat,
            s.len() - pat.len(),
        )),
    decreases s.len() - i,
{
    lemma_split_from_nonempty(s, pat, i);
    match find_from(s, pat, i) {
        None => {},
        Some(k) => {
            lemma_find_from(s, pat, i);
            lemma_split_last(s, pat, k + pat.len());
            let rest = split_from(s, pat, k + pat.len());
            assert(split_from(s, pat, i).last() == rest.last());
        },
    }
}

/// Replacing in `p + y` from inside `y` is replacing in `y`.
pub proof fn lemma_replace_shift(p: Seq<char>, y: Seq<char>, pat: Seq<char>, rep: Seq<char>, i: int)
    requires
        0 <= i <= y.len(),
        pat.len() > 0,
    ensures
        replace_from(p + y, pat, rep, p.len() + i) == replace_from(y, pat, rep, i),
    decreases y.len() - i,
{
    let w = p + y;
    lemma_find_shift(p, y, pat, i);
    match find_from(y, pat, i) {
        None => {
            assert(w.subrange(p.len() + i, w.len() as int) =~= y.subrange(i, y.len() as int));
        },
        Some(k) => {
            lemma_find_from(y, pat, i);
            assert(w.subrange(p.len() + i, k + p.len()) =~= y.subrange(i, k));
            lemma_replace_shift(p, y, pat, rep, k + pat.len());
            assert(k + p.len() + pat.len() == p.len() + (k + pat.len()));
        },
    }
}

/// Replacing in `x + pat + y`, where no match starts inside `x`, keeps `x`,
/// replaces that `pat` and goes on in `y`.
pub proof fn lemma_replace_cons(x: Seq<char>, y: Seq<char>, pat: Seq<char>, rep: Seq<char>)
    requires
        pat.len() > 0,
        forall|j: int| 0 <= j < x.len() ==> !matches_at(x + pat + y, pat, j),
    ensures
        replace(x + pat + y, pat, rep) == x + rep + replace(y, pat, rep),
{
    let w = x + pat + y;
    assert(w.subrange(x.len() as int, (x.len() + pat.len()) as int) =~= pat);
    lemma_find_from_unique(w, pat, 0, x.len() as int);
    assert(w.subrange(0, x.len() as int) =~= x);
    assert(w =~= (x + pat) + y);
    lemma_replace_shift(x + pat, y, pat, rep, 0);
}

/// `s` with every `\n` written `\r\n` (Windows line ends).
pub open spec fn crlf(s: Seq<char>) -> Seq<char>
    decreases s.len(),
{
    if s.len() == 0 {
        Seq::empty()
    } else {
        (if s[0] == '\n' {
            seq!['\r', '\n']
        } else {
            seq![s[0]]
        }) + crlf(s.skip(1))
    }
}

proof fn lemma_crlf_concat(a: Seq<char>, b: Seq<char>)
    ensures
        crlf(a + b) == crlf(a) + crlf(b),
    decreases a.len(),
{
    if a.len() == 0 {
        assert(a + b =~= b);
        assert(crlf(a) + crlf(b) =~= crlf(b));
    } else {
        assert((a + b)[0] == a[0]);
        assert((a + b).skip(1) =~= a.skip(1) + b);
        lemma_crlf_concat(a.skip(1), b);
        let h = if a[0] == '\n' {
            seq!['\r', '\n']
        } else {
            seq![a[0]]
        };
        assert(crlf(a + b) =~= h + (crlf(a.skip(1)) + crlf(b)));
        assert(crlf(a) + crlf(b) =~= h + (crlf(a.skip(1)) + crlf(b)));
    }
}

proof fn lemma_crlf_plain(a: Seq<char>)
    requires
        lacks(a, '\n'),
    ensures
        crlf(a) == a,
    decreases a.len(),
{
    if a.len() > 0 {
        assert(a[0] != '\n');
        assert forall|i: int| 0 <= i < a.skip(1).len() implies a.skip(1)[i] != '\n' by {
            assert(a.skip(1)[i] == a[i + 1]);
        }
        lemma_crlf_plain(a.skip(1));
        assert(seq![a[0]] + a.skip(1) =~= a);
    }
}

/// Making `\r\n` into `\n` undoes writing every `\n` as `\r\n`.
pub proof fn lemma_replace_crlf(s: Seq<char>)
    ensures
        replace(crlf(s), seq!['\r', '\n'], seq!['\n']) == s,
    decreases s.len(),
{
    let nl = seq!['\n'];
    let pat = seq!['\r', '\n'];
    lemma_find_from(s, nl, 0);
    match find_from(s, nl, 0) {
        None => {
            assert forall|i: int| 0 <= i < s.len() implies s[i] != '\n' by {
                if s[i] == '\n' {
                    assert(s.subrange(i, i + 1) =~= nl);
                    assert(matches_at(s, nl, i));
                }
            }
            lemma_crlf_plain(s);
            assert forall|j: int| 0 <= j < s.len() implies !matches_at(s, pat, j) by {
                if matches_at(s, pat, j) {
                    lemma_match_first(s, pat, j);
                }
            }
            lemma_replace_none(s, pat, nl);
        },
        Some(k) => {
            let x = s.take(k);
            let y = s.skip(k + 1);
            assert(s.subrange(k, k + 1) == nl);
            assert(s[k] == s.subrange(k, k + 1)[0]);
            assert(s =~= x + nl + y);
            assert forall|i: int| 0 <= i < x.len() implies x[i] != '\n' by {
                if x[i] == '\n' {
                    assert(s.subrange(i, i + 1) =~= nl);
                    assert(matches_at(s, nl, i));
                }
            }
            lemma_crlf_plain(x);
            lemma_crlf_concat(x, nl + y);
            lemma_crlf_concat(nl, y);
            assert(crlf(nl) =~= pat) by {
                assert(nl.skip(1) =~= Seq::<char>::empty());
                assert(nl[0] == '\n');
                assert(crlf(Seq::<char>::empty()) == Seq::<char>::empty());
                assert(crlf(nl) == pat + crlf(nl.skip(1)));
            }
            let w = x + pat + crlf(y);
            assert(crlf(s) =~= w) by {
                assert(x + nl + y =~= x + (nl + y));
            }
            assert forall|j: int| 0 <= j < x.len() implies !matches_at(w, pat, j) by {
                if matches_at(w, pat, j) {
                    lemma_match_first(w, pat, j);
                    if j + 1 < x.len() {
                        assert(w[j + 1] == x[j + 1]);
                    } else {
                        assert(w[j + 1] == '\r');
                    }
                }
            }
            lemma_replace_cons(x, crlf(y), pat, nl);
            lemma_replace_crlf(y);
        },
    }
}

/// `\r` stands at `j` and `\n` right after it.
pub open spec fn crlf_at(s: Seq<char>, j: int) -> bool {
    s[j] == '\r' && s[j + 1] == '\n'
}

/// `s` holds no `\r\n`.
pub open spec fn no_crlf(s: Seq<char>) -> bool {
    forall|j: int| 0 <= j && j + 1 < s.len() ==> !#[trigger] crlf_at(s, j)
}

/// In text without `\r\n`, no piece of a split at `\n` that a `\n` ends
/// has a `\r` to lose.
pub proof fn lemma_split_nl_keeps_cr(s: Seq<char>, i: int)
    requires
        0 <= i <= s.len(),
        no_crlf(s),
    ensures
        forall|k: int|
            0 <= k < split_from(s, seq!['\n'], i).len() - 1 ==> strip_cr(
                #[trigger] split_from(s, seq!['\n'], i)[k],
            ) == split_from(s, seq!['\n'], i)[k],
    decreases s.len() - i,
{
    let pat = seq!['\n'];
    lemma_find_from(s, pat, i);
    match find_from(s, pat, i) {
        None => {},
        Some(k) => {
            lemma_split_nl_keeps_cr(s, k + 1);
            let rest = split_from(s, pat, k + 1);
            let piece = s.subrange(i, k);
            assert(s.subrange(k, k + 1) == pat);
            assert(s[k] == s.subrange(k, k + 1)[0]);
            if piece.len() > 0 {
                assert(piece.last() == s[k - 1]);
                assert(!crlf_at(s, k - 1));
            }
            assert(split_from(s, pat, i)[0] == piece);
            assert forall|t: int|
                0 <= t < split_from(s, pat, i).len() - 1 implies strip_cr(
                #[trigger] split_from(s, pat, i)[t],
            ) == split_from(s, pat, i)[t] by {
                if t > 0 {
                    assert(split_from(s, pat, i)[t] == rest[t - 1]);
                }
            }
        },
    }
}

/// Lines of text that holds no `\r\n` and does not end with `\n` are its
/// pieces between `\n`s.
pub proof fn lemma_lines_plain(s: Seq<char>)
    requires
        s.len() > 0,
        s.last() != '\n',
        no_crlf(s),
    ensures
        lines(s) == split(s, seq!['\n']),
{
    let parts = split(s, seq!['\n']);
    lemma_split_last(s, seq!['\n'], 0);
    if parts.last().len() == 0 {
        lemma_match_first(s, seq!['\n'], s.len() - 1);
    }
    lemma_split_nl_keeps_cr(s, 0);
    let body = parts.drop_last().map_values(|l: Seq<char>| strip_cr(l));
    assert forall|k: int| 0 <= k < body.len() implies body[k] == parts[k] by {
        assert(strip_cr(parts[k]) == parts[k]);
    }
    assert(body.push(parts.last()) =~= parts);
}

/// Trimming text that starts and ends with non-white-space changes nothing.
pub proof fn lemma_trim_id(s: Seq<char>)
    requires
        s.len() > 0,
        !is_ws(s[0]),
        !is_ws(s.last()),
    ensures
        trim(s) == s,
{
}

} // verus!
