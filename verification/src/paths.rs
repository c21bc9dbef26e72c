//! Unix path names as `std::path::Path` reads them: components, file name,
//! stem, extension, parent, joining and stripping a prefix; and the names
//! this tool gives to its output files.

use vstd::prelude::*;

use crate::decimal::{dec_digits, dec_len, lemma_dec_len_mono, lemma_padded_exact, padded, push_padded};
use crate::order::{lemma_lex_decided, lemma_lex_numerals, lemma_lex_prefix, lex_le, lex_sorted, sort_strings, strs_of};
use crate::text::{
    chars_of, copy_range, extend_all, find_from, join, join_exec, lacks, lemma_find_from,
    lemma_find_from_unique, lemma_split_shift, matches_at, same_chars, seqs_of, split, split_exec,
    split_from, string_of,
};

verus! {

// ---------------------------------------------------------------------------
// Specification
// ---------------------------------------------------------------------------

/// `.`
pub open spec fn dot() -> Seq<char> {
    seq!['.']
}

/// `..`
pub open spec fn dot_dot() -> Seq<char> {
    seq!['.', '.']
}

/// A piece between `/` that names something: not empty, not `.`.
pub open spec fn named_piece(x: Seq<char>) -> bool {
    x.len() > 0 && x != dot()
}

/// The pieces between `/` that name something.
pub open spec fn named(segs: Seq<Seq<char>>) -> Seq<Seq<char>>
    decreases segs.len(),
{
    if segs.len() == 0 {
        Seq::empty()
    } else {
        let prev = named(segs.drop_last());
        let l = segs.last();
        if named_piece(l) {
            prev.push(l)
        } else {
            prev
        }
    }
}

/// The indices of the pieces that name something, in order.
pub open spec fn named_idx(segs: Seq<Seq<char>>) -> Seq<int>
    decreases segs.len(),
{
    if segs.len() == 0 {
        Seq::empty()
    } else {
        let prev = named_idx(segs.drop_last());
        if named_piece(segs.last()) {
            prev.push(segs.len() - 1)
        } else {
            prev
        }
    }
}

/// The pieces from the first that names something to the last that does.
pub open spec fn inner_pieces(segs: Seq<Seq<char>>) -> Seq<Seq<char>> {
    let ix = named_idx(segs);
    if ix.len() == 0 {
        Seq::empty()
    } else {
        segs.subrange(ix[0], ix.last() + 1)
    }
}

/// The pieces up to the last that names something.
pub open spec fn leading_pieces(segs: Seq<Seq<char>>) -> Seq<Seq<char>> {
    let ix = named_idx(segs);
    if ix.len() == 0 {
        Seq::empty()
    } else {
        segs.take(ix.last() + 1)
    }
}

/// The named components of `p` (normal components and `..`).
pub open spec fn names(p: Seq<char>) -> Seq<Seq<char>> {
    named(split(p, seq!['/']))
}

/// `p` starts at the root.
pub open spec fn has_root(p: Seq<char>) -> bool {
    p.len() > 0 && p[0] == '/'
}

/// `p` starts with a `.` component, which a relative path keeps.
pub open spec fn leading_cur(p: Seq<char>) -> bool {
    !has_root(p) && p.len() > 0 && p[0] == '.' && (p.len() == 1 || p[1] == '/')
}

/// The components of `p` after the root: a leading `.` if there is one,
/// then the named components.
pub open spec fn comp_names(p: Seq<char>) -> Seq<Seq<char>> {
    if leading_cur(p) {
        seq![dot()] + names(p)
    } else {
        names(p)
    }
}

/// All components of `p`; the root is written `/`, which no other
/// component can be.
pub open spec fn comps(p: Seq<char>) -> Seq<Seq<char>> {
    if has_root(p) {
        seq![seq!['/']] + comp_names(p)
    } else {
        comp_names(p)
    }
}

/// The length of what stands before the named components: a root `/` or a
/// leading `.` component.
pub open spec fn head_len(p: Seq<char>) -> int {
    if has_root(p) || leading_cur(p) {
        1
    } else {
        0
    }
}

/// The pieces between `/` of what follows the root or leading `.`.
pub open spec fn body_pieces(p: Seq<char>) -> Seq<Seq<char>> {
    split(p.skip(head_len(p)), seq!['/'])
}

/// The text that is left of `p` once its first `k` components are taken
/// (`Components::as_path`): with none taken, `p` without the separators
/// and `.` pieces that end it; otherwise the pieces after the `k`-th
/// component, from the first that names something to the last.
pub open spec fn rest_after(p: Seq<char>, k: int) -> Seq<char> {
    let h = head_len(p);
    let bs = body_pieces(p);
    if k == 0 {
        p.take(h) + join(leading_pieces(bs), seq!['/'])
    } else if k <= h {
        join(inner_pieces(bs), seq!['/'])
    } else {
        join(inner_pieces(bs.skip(named_idx(bs)[k - h - 1] + 1)), seq!['/'])
    }
}

/// `Path::file_name`: the last component, unless it is `..` or there is
/// no named component.
pub open spec fn file_name(p: Seq<char>) -> Option<Seq<char>> {
    let ns = names(p);
    if ns.len() == 0 || ns.last() == dot_dot() {
        None
    } else {
        Some(ns.last())
    }
}

/// The index of the last `c` in `s`.
pub open spec fn rfind_char(s: Seq<char>, c: char) -> Option<int>
    decreases s.len(),
{
    if s.len() == 0 {
        None
    } else if s.last() == c {
        Some(s.len() - 1)
    } else {
        rfind_char(s.drop_last(), c)
    }
}

/// The stem of a file name: what stands before its last `.`, unless that
/// `.` is the first character or there is none.
pub open spec fn stem_of(name: Seq<char>) -> Seq<char> {
    match rfind_char(name, '.') {
        Some(k) => if k > 0 {
            name.take(k)
        } else {
            name
        },
        None => name,
    }
}

/// The extension of a file name: what follows its last `.`, when that `.`
/// is not the first character.
pub open spec fn ext_of(name: Seq<char>) -> Option<Seq<char>> {
    match rfind_char(name, '.') {
        Some(k) => if k > 0 {
            Some(name.skip(k + 1))
        } else {
            None
        },
        None => None,
    }
}

/// `Path::file_stem`.
pub open spec fn file_stem(p: Seq<char>) -> Option<Seq<char>> {
    match file_name(p) {
        Some(n) => Some(stem_of(n)),
        None => None,
    }
}

/// `Path::extension`.
pub open spec fn extension(p: Seq<char>) -> Option<Seq<char>> {
    match file_name(p) {
        Some(n) => ext_of(n),
        None => None,
    }
}

/// `Path::parent`: the text before the last component, without the
/// separators and `.` pieces that end it; none for a path that is empty or
/// only the root.
pub open spec fn parent(p: Seq<char>) -> Option<Seq<char>> {
    let bs = body_pieces(p);
    let ix = named_idx(bs);
    if ix.len() > 0 {
        Some(p.take(head_len(p)) + join(leading_pieces(bs.take(ix.last())), seq!['/']))
    } else if leading_cur(p) {
        Some(Seq::empty())
    } else {
        None
    }
}

/// `Path::join` with a file name: an absolute `name` replaces `dir`; an
/// empty `dir` gives `name`; otherwise one `/` stands between them.
pub open spec fn join_path(dir: Seq<char>, name: Seq<char>) -> Seq<char> {
    if has_root(name) || dir.len() == 0 {
        name
    } else if dir.last() == '/' {
        dir + name
    } else {
        dir + seq!['/'] + name
    }
}

/// `Path::strip_prefix`: when the components of `base` begin those of
/// `path`, the text of `path` that is left after them.
pub open spec fn strip_prefix(path: Seq<char>, base: Seq<char>) -> Option<Seq<char>> {
    let pc = comps(path);
    let bc = comps(base);
    if bc.len() <= pc.len() && pc.take(bc.len() as int) == bc {
        Some(rest_after(path, bc.len() as int))
    } else {
        None
    }
}

/// The index of the last piece that names something (not empty, not `.`).
pub open spec fn last_named(segs: Seq<Seq<char>>) -> Option<int>
    decreases segs.len(),
{
    if segs.len() == 0 {
        None
    } else if named_piece(segs.last()) {
        Some(segs.len() - 1)
    } else {
        last_named(segs.drop_last())
    }
}

/// `PathBuf::set_extension`: the text up to the end of the file stem, then
/// `.` and `ext` unless `ext` is empty; the path itself where it has no
/// file name.
pub open spec fn set_extension_text(p: Seq<char>, ext: Seq<char>) -> Seq<char> {
    let segs = split(p, seq!['/']);
    match last_named(segs) {
        Some(j) => if segs[j] == dot_dot() {
            p
        } else {
            let tail = if ext.len() == 0 {
                Seq::empty()
            } else {
                seq!['.'] + ext
            };
            join(segs.take(j).push(stem_of(segs[j]) + tail), seq!['/'])
        },
        None => p,
    }
}

/// `Path::with_extension`: where the path has an extension, its text
/// without that extension (the `.` kept) is given the new one with
/// `set_extension`; otherwise the path itself is.
pub open spec fn with_extension(p: Seq<char>, ext: Seq<char>) -> Seq<char> {
    match extension(p) {
        Some(x) => set_extension_text(p.take(p.len() - x.len()), ext),
        None => set_extension_text(p, ext),
    }
}

/// The directory that output goes to by default: the input's parent, or
/// `.` where it has none.
pub open spec fn default_output_dir(input: Seq<char>) -> Seq<char> {
    match parent(input) {
        Some(d) => d,
        None => dot(),
    }
}

/// Every `\` made `/`.
pub open spec fn slashes(s: Seq<char>) -> Seq<char> {
    s.map_values(
        |c: char|
            if c == '\\' {
                '/'
            } else {
                c
            },
    )
}

/// The path relative to `base` (or the path itself where `base` is not a
/// prefix of it), written with `/` only.
pub open spec fn relative_to(path: Seq<char>, base: Seq<char>) -> Seq<char> {
    slashes(
        match strip_prefix(path, base) {
            Some(r) => r,
            None => path,
        },
    )
}

// ---------------------------------------------------------------------------
// Named pieces and where they stand
// ---------------------------------------------------------------------------

/// `named_idx` lists, in increasing order, exactly the indices of the
/// pieces that name something, and `named` the pieces there.
pub proof fn lemma_named_idx(segs: Seq<Seq<char>>)
    ensures
        named_idx(segs).len() == named(segs).len(),
        forall|i: int|
            0 <= i < named_idx(segs).len() ==> {
                &&& 0 <= #[trigger] named_idx(segs)[i] < segs.len()
                &&& named_piece(segs[named_idx(segs)[i]])
                &&& named(segs)[i] == segs[named_idx(segs)[i]]
            },
        forall|i: int, j: int|
            0 <= i < j < named_idx(segs).len() ==> #[trigger] named_idx(segs)[i] < #[trigger] named_idx(
                segs,
            )[j],
        forall|m: int|
            0 <= m < segs.len() && named_piece(#[trigger] segs[m]) ==> exists|i: int|
                0 <= i < named_idx(segs).len() && #[trigger] named_idx(segs)[i] == m,
    decreases segs.len(),
{
    if segs.len() > 0 {
        let d = segs.drop_last();
        lemma_named_idx(d);
        let pi = named_idx(d);
        let ix = named_idx(segs);
        assert forall|i: int| 0 <= i < pi.len() implies segs[#[trigger] pi[i]] == d[pi[i]] by {}
        assert forall|m: int| 0 <= m < segs.len() && named_piece(#[trigger] segs[m]) implies exists|i: int|
            0 <= i < ix.len() && #[trigger] ix[i] == m by {
            if m < segs.len() - 1 {
                assert(d[m] == segs[m]);
                let i = choose|i: int| 0 <= i < pi.len() && #[trigger] pi[i] == m;
                assert(ix[i] == m);
            } else {
                assert(ix[ix.len() - 1] == m);
            }
        }
    }
}

/// The named components of a path are the named pieces of its body.
pub proof fn lemma_names_body(p: Seq<char>)
    ensures
        names(p) == named(body_pieces(p)),
        comps(p).len() == head_len(p) + named_idx(body_pieces(p)).len(),
{
    let sl = seq!['/'];
    let e = Seq::<char>::empty();
    lemma_named_idx(body_pieces(p));
    if has_root(p) {
        assert(p =~= e + sl + p.skip(1));
        crate::cue_laws::lemma_split_char_cons(e, p.skip(1), '/');
        lemma_named_concat(seq![e], split(p.skip(1), sl));
        assert(seq![e].drop_last() =~= Seq::<Seq<char>>::empty());
        assert(seq![e].last() == e);
        assert(named(Seq::<Seq<char>>::empty()) == Seq::<Seq<char>>::empty());
        assert(named(seq![e]) =~= Seq::<Seq<char>>::empty());
        assert(named(seq![e]) + named(split(p.skip(1), sl)) =~= named(split(p.skip(1), sl)));
    } else if leading_cur(p) {
        let d = dot();
        if p.len() == 1 {
            assert(p =~= d);
            crate::cue_laws::lemma_split_char_none(d, '/');
            assert(p.skip(1) =~= e);
            crate::text::lemma_split_none(e, sl);
            assert(e.subrange(0, 0) =~= e);
            assert(seq![d].drop_last() =~= Seq::<Seq<char>>::empty());
            assert(seq![d].last() == d);
            assert(!named_piece(d));
            assert(seq![e].drop_last() =~= Seq::<Seq<char>>::empty());
        assert(seq![e].last() == e);
        assert(named(Seq::<Seq<char>>::empty()) == Seq::<Seq<char>>::empty());
            assert(named(seq![d]) =~= Seq::<Seq<char>>::empty());
            assert(named(seq![e]) =~= Seq::<Seq<char>>::empty());
        } else {
            let r = p.skip(2);
            assert(p =~= d + sl + r);
            assert(p.skip(1) =~= e + sl + r);
            crate::cue_laws::lemma_split_char_cons(d, r, '/');
            crate::cue_laws::lemma_split_char_cons(e, r, '/');
            lemma_named_concat(seq![d], split(r, sl));
            lemma_named_concat(seq![e], split(r, sl));
            assert(seq![d].drop_last() =~= Seq::<Seq<char>>::empty());
            assert(seq![d].last() == d);
            assert(!named_piece(d));
            assert(seq![e].drop_last() =~= Seq::<Seq<char>>::empty());
        assert(seq![e].last() == e);
        assert(named(Seq::<Seq<char>>::empty()) == Seq::<Seq<char>>::empty());
            assert(named(seq![d]) =~= Seq::<Seq<char>>::empty());
            assert(named(seq![e]) =~= Seq::<Seq<char>>::empty());
            assert(named(seq![d]) + named(split(r, sl)) =~= named(split(r, sl)));
            assert(named(seq![e]) + named(split(r, sl)) =~= named(split(r, sl)));
        }
    } else {
        assert(p.skip(0) =~= p);
    }
}

/// The last `c` stands inside `s`.
proof fn lemma_rfind_char(s: Seq<char>, c: char)
    ensures
        rfind_char(s, c) matches Some(k) ==> 0 <= k < s.len(),
    decreases s.len(),
{
    if s.len() > 0 && s.last() != c {
        lemma_rfind_char(s.drop_last(), c);
    }
}

/// An extension is no longer than the path it is read from.
pub proof fn lemma_extension_len(p: Seq<char>)
    ensures
        extension(p) matches Some(x) ==> x.len() <= p.len(),
{
    let segs = split(p, seq!['/']);
    lemma_named_idx(segs);
    crate::text::lemma_split_piece_len(p, seq!['/'], 0);
    let ns = names(p);
    if ns.len() > 0 {
        let i = ns.len() - 1;
        assert(ns[i] == segs[named_idx(segs)[i]]);
        assert(ns[i].len() <= p.len());
        lemma_rfind_char(ns[i], '.');
    }
}

// ---------------------------------------------------------------------------
// Executable
// ---------------------------------------------------------------------------

fn named_exec(segs: &Vec<Vec<char>>) -> (r: Vec<Vec<char>>)
    ensures
        seqs_of(r@) == named(seqs_of(segs@)),
{
    let ghost ss = seqs_of(segs@);
    let dot_v: Vec<char> = vec!['.'];
    assert(dot_v@ =~= dot());
    let mut r: Vec<Vec<char>> = Vec::new();
    let mut i: usize = 0;
    while i < segs.len()
        invariant
            i <= segs.len(),
            ss == seqs_of(segs@),
            dot_v@ == dot(),
            seqs_of(r@) == named(ss.take(i as int)),
        decreases segs.len() - i,
    {
        assert(ss.take(i + 1).drop_last() =~= ss.take(i as int));
        assert(ss.take(i + 1).last() == segs@[i as int]@);
        if segs[i].len() > 0 && !same_chars(&segs[i], &dot_v) {
            let c = copy_range(&segs[i], 0, segs[i].len());
            assert(c@ =~= segs@[i as int]@);
            let ghost before = r@;
            r.push(c);
            assert(seqs_of(r@) =~= seqs_of(before).push(c@));
        }
        i += 1;
    }
    assert(ss.take(segs.len() as int) =~= ss);
    r
}

fn names_exec(p: &Vec<char>) -> (r: Vec<Vec<char>>)
    ensures
        seqs_of(r@) == names(p@),
{
    let slash: Vec<char> = vec!['/'];
    assert(slash@ =~= seq!['/']);
    let segs = split_exec(p, &slash);
    named_exec(&segs)
}

fn has_root_exec(p: &Vec<char>) -> (b: bool)
    ensures
        b == has_root(p@),
{
    p.len() > 0 && p[0] == '/'
}

fn comps_exec(p: &Vec<char>) -> (r: Vec<Vec<char>>)
    ensures
        seqs_of(r@) == comps(p@),
{
    let ns = names_exec(p);
    let root = has_root_exec(p);
    let cur = !root && p.len() > 0 && p[0] == '.' && (p.len() == 1 || p[1] == '/');
    let mut r: Vec<Vec<char>> = Vec::new();
    let ghost head0: Seq<Seq<char>> = if has_root(p@) {
        seq![seq!['/']]
    } else {
        Seq::empty()
    };
    let ghost head1: Seq<Seq<char>> = if leading_cur(p@) {
        seq![dot()]
    } else {
        Seq::empty()
    };
    if root {
        let v: Vec<char> = vec!['/'];
        assert(v@ =~= seq!['/']);
        r.push(v);
    }
    assert(seqs_of(r@) =~= head0);
    if cur {
        let v: Vec<char> = vec!['.'];
        assert(v@ =~= dot());
        let ghost before = r@;
        r.push(v);
        assert(seqs_of(r@) =~= seqs_of(before).push(v@));
    }
    assert(seqs_of(r@) =~= head0 + head1);
    let ghost head = seqs_of(r@);
    let mut i: usize = 0;
    while i < ns.len()
        invariant
            i <= ns.len(),
            seqs_of(r@) == head + seqs_of(ns@).take(i as int),
        decreases ns.len() - i,
    {
        let c = copy_range(&ns[i], 0, ns[i].len());
        assert(c@ =~= ns@[i as int]@);
        let ghost before = r@;
        r.push(c);
        assert(seqs_of(r@) =~= seqs_of(before).push(c@));
        assert(seqs_of(ns@).take(i + 1) =~= seqs_of(ns@).take(i as int).push(c@));
        i += 1;
    }
    assert(seqs_of(ns@).take(ns.len() as int) =~= seqs_of(ns@));
    assert(seqs_of(r@) =~= head0 + head1 + names(p@));
    assert(comps(p@) =~= head0 + head1 + names(p@));
    r
}

fn named_piece_exec(x: &Vec<char>) -> (b: bool)
    ensures
        b == named_piece(x@),
{
    let dot_v: Vec<char> = vec!['.'];
    assert(dot_v@ =~= dot());
    x.len() > 0 && !same_chars(x, &dot_v)
}

fn named_idx_exec(segs: &Vec<Vec<char>>) -> (ix: Vec<usize>)
    ensures
        ix@.map_values(|u: usize| u as int) == named_idx(seqs_of(segs@)),
{
    let ghost ss = seqs_of(segs@);
    let mut ix: Vec<usize> = Vec::new();
    let mut i: usize = 0;
    while i < segs.len()
        invariant
            i <= segs.len(),
            ss == seqs_of(segs@),
            ix@.map_values(|u: usize| u as int) == named_idx(ss.take(i as int)),
        decreases segs.len() - i,
    {
        assert(ss.take(i + 1).drop_last() =~= ss.take(i as int));
        assert(ss.take(i + 1).last() == segs@[i as int]@);
        if named_piece_exec(&segs[i]) {
            let ghost before = ix@;
            ix.push(i);
            assert(ix@.map_values(|u: usize| u as int) =~= before.map_values(|u: usize| u as int).push(
                i as int,
            ));
        }
        i += 1;
    }
    assert(ss.take(segs.len() as int) =~= ss);
    ix
}

/// A copy of the pieces `segs[lo..hi]`.
fn sub_pieces(segs: &Vec<Vec<char>>, lo: usize, hi: usize) -> (r: Vec<Vec<char>>)
    requires
        lo <= hi <= segs.len(),
    ensures
        seqs_of(r@) == seqs_of(segs@).subrange(lo as int, hi as int),
{
    let mut r: Vec<Vec<char>> = Vec::new();
    let mut i = lo;
    while i < hi
        invariant
            lo <= i <= hi <= segs.len(),
            seqs_of(r@) == seqs_of(segs@).subrange(lo as int, i as int),
        decreases hi - i,
    {
        let c = copy_range(&segs[i], 0, segs[i].len());
        assert(c@ =~= segs@[i as int]@);
        let ghost before = r@;
        r.push(c);
        assert(seqs_of(r@) =~= seqs_of(before).push(c@));
        assert(seqs_of(segs@).subrange(lo as int, i + 1) =~= seqs_of(segs@).subrange(
            lo as int,
            i as int,
        ).push(c@));
        i += 1;
    }
    r
}

fn head_len_exec(p: &Vec<char>) -> (h: usize)
    ensures
        h == head_len(p@),
{
    if has_root_exec(p) || (p.len() > 0 && p[0] == '.' && (p.len() == 1 || p[1] == '/')) {
        1
    } else {
        0
    }
}

fn body_pieces_exec(p: &Vec<char>) -> (bs: Vec<Vec<char>>)
    ensures
        seqs_of(bs@) == body_pieces(p@),
{
    let h = head_len_exec(p);
    let b = copy_range(p, h, p.len());
    assert(b@ =~= p@.skip(h as int));
    let slash: Vec<char> = vec!['/'];
    assert(slash@ =~= seq!['/']);
    split_exec(&b, &slash)
}

/// The pieces from the first named one to the last, joined by `/`.
fn inner_join(segs: &Vec<Vec<char>>) -> (r: Vec<char>)
    ensures
        r@ == join(inner_pieces(seqs_of(segs@)), seq!['/']),
{
    let ghost ss = seqs_of(segs@);
    let ix = named_idx_exec(segs);
    proof {
        lemma_named_idx(ss);
    }
    let slash: Vec<char> = vec!['/'];
    assert(slash@ =~= seq!['/']);
    if ix.len() == 0 {
        let r: Vec<char> = Vec::new();
        assert(r@ =~= join(Seq::<Seq<char>>::empty(), seq!['/']));
        r
    } else {
        let ghost gi = named_idx(ss);
        assert(ix@.map_values(|u: usize| u as int)[0] == ix@[0] as int);
        assert(ix@.map_values(|u: usize| u as int)[ix.len() - 1] == ix@[ix.len() - 1] as int);
        let lo = ix[0];
        let last = ix[ix.len() - 1];
        assert(gi[0] == lo as int && gi.last() == last as int);
        assert(gi[0] <= gi[gi.len() - 1]);
        assert(0 <= gi[gi.len() - 1] < ss.len());
        assert(ss.len() == segs.len());
        let sub = sub_pieces(segs, lo, last + 1);
        join_exec(&sub, &slash)
    }
}

/// The pieces up to the last named one, joined by `/`.
fn leading_join(segs: &Vec<Vec<char>>) -> (r: Vec<char>)
    ensures
        r@ == join(leading_pieces(seqs_of(segs@)), seq!['/']),
{
    let ghost ss = seqs_of(segs@);
    let ix = named_idx_exec(segs);
    proof {
        lemma_named_idx(ss);
    }
    let slash: Vec<char> = vec!['/'];
    assert(slash@ =~= seq!['/']);
    if ix.len() == 0 {
        let r: Vec<char> = Vec::new();
        assert(r@ =~= join(Seq::<Seq<char>>::empty(), seq!['/']));
        r
    } else {
        let ghost gi = named_idx(ss);
        assert(ix@.map_values(|u: usize| u as int)[ix.len() - 1] == ix@[ix.len() - 1] as int);
        let last = ix[ix.len() - 1];
        assert(gi.last() == last as int);
        assert(0 <= gi[gi.len() - 1] < ss.len());
        assert(ss.len() == segs.len());
        let sub = sub_pieces(segs, 0, last + 1);
        assert(ss.subrange(0, last + 1) =~= ss.take(last + 1));
        join_exec(&sub, &slash)
    }
}

/// The text left of `p` once its first `k` components are taken.
fn rest_after_exec(p: &Vec<char>, k: usize) -> (r: Vec<char>)
    requires
        k <= comps(p@).len(),
    ensures
        r@ == rest_after(p@, k as int),
{
    proof {
        lemma_names_body(p@);
    }
    let h = head_len_exec(p);
    let bs = body_pieces_exec(p);
    let ghost ss = seqs_of(bs@);
    if k == 0 {
        let mut out = copy_range(p, 0, h);
        assert(out@ =~= p@.take(h as int));
        let l = leading_join(&bs);
        extend_all(&mut out, &l);
        out
    } else if k <= h {
        inner_join(&bs)
    } else {
        let ix = named_idx_exec(&bs);
        proof {
            lemma_named_idx(ss);
        }
        let ghost gi = named_idx(ss);
        assert(ix@.map_values(|u: usize| u as int)[k - h - 1] == ix@[k - h - 1] as int);
        let t = ix[k - h - 1];
        assert(gi[k - h - 1] == t as int);
        assert(0 <= gi[k - h - 1] < ss.len());
        assert(ss.len() == bs.len());
        let tail = sub_pieces(&bs, t + 1, bs.len());
        assert(ss.subrange(t + 1, ss.len() as int) =~= ss.skip(t + 1));
        inner_join(&tail)
    }
}

fn rfind_char_exec(s: &Vec<char>, c: char) -> (r: Option<usize>)
    ensures
        match r {
            Some(k) => rfind_char(s@, c) == Some(k as int) && k < s.len(),
            None => rfind_char(s@, c) is None,
        },
{
    let mut i = s.len();
    assert(s@.take(i as int) =~= s@);
    while i > 0
        invariant
            i <= s.len(),
            rfind_char(s@, c) == rfind_char(s@.take(i as int), c),
        decreases i,
    {
        assert(s@.take(i as int).last() == s@[i - 1]);
        if s[i - 1] == c {
            return Some(i - 1);
        }
        assert(s@.take(i as int).drop_last() =~= s@.take(i - 1));
        i -= 1;
    }
    None
}

fn file_name_exec(p: &Vec<char>) -> (r: Option<Vec<char>>)
    ensures
        match r {
            Some(n) => file_name(p@) == Some(n@),
            None => file_name(p@) is None,
        },
{
    let ns = names_exec(p);
    let dd: Vec<char> = vec!['.', '.'];
    assert(dd@ =~= dot_dot());
    if ns.len() == 0 {
        return None;
    }
    assert(seqs_of(ns@).last() == ns@[ns.len() - 1]@);
    if same_chars(&ns[ns.len() - 1], &dd) {
        return None;
    }
    let last = copy_range(&ns[ns.len() - 1], 0, ns[ns.len() - 1].len());
    assert(last@ =~= ns@[ns.len() - 1]@);
    Some(last)
}

/// `Path::file_stem`.
pub fn path_file_stem(p: &str) -> (r: Option<String>)
    ensures
        match r {
            Some(s) => file_stem(p@) == Some(s@),
            None => file_stem(p@) is None,
        },
{
    let pv = chars_of(p);
    match file_name_exec(&pv) {
        None => None,
        Some(n) => match rfind_char_exec(&n, '.') {
            Some(k) => {
                if k > 0 {
                    let s = copy_range(&n, 0, k);
                    assert(s@ =~= n@.take(k as int));
                    Some(string_of(&s))
                } else {
                    Some(string_of(&n))
                }
            },
            None => Some(string_of(&n)),
        },
    }
}

/// `Path::extension`.
pub fn path_extension(p: &str) -> (r: Option<String>)
    ensures
        match r {
            Some(s) => extension(p@) == Some(s@),
            None => extension(p@) is None,
        },
{
    let pv = chars_of(p);
    match file_name_exec(&pv) {
        None => None,
        Some(n) => match rfind_char_exec(&n, '.') {
            Some(k) => {
                if k > 0 {
                    let s = copy_range(&n, k + 1, n.len());
                    assert(s@ =~= n@.skip(k + 1));
                    Some(string_of(&s))
                } else {
                    None
                }
            },
            None => None,
        },
    }
}

/// `Path::parent`.
pub fn path_parent(p: &str) -> (r: Option<String>)
    ensures
        match r {
            Some(s) => parent(p@) == Some(s@),
            None => parent(p@) is None,
        },
{
    let pv = chars_of(p);
    let h = head_len_exec(&pv);
    let bs = body_pieces_exec(&pv);
    let ghost ss = seqs_of(bs@);
    let ix = named_idx_exec(&bs);
    proof {
        lemma_named_idx(ss);
    }
    if ix.len() > 0 {
        let ghost gi = named_idx(ss);
        assert(ix@.map_values(|u: usize| u as int)[ix.len() - 1] == ix@[ix.len() - 1] as int);
        let t = ix[ix.len() - 1];
        assert(gi.last() == t as int);
        let pre = sub_pieces(&bs, 0, t);
        assert(ss.subrange(0, t as int) =~= ss.take(t as int));
        let mut out = copy_range(&pv, 0, h);
        assert(out@ =~= pv@.take(h as int));
        let l = leading_join(&pre);
        extend_all(&mut out, &l);
        Some(string_of(&out))
    } else if pv.len() > 0 && !has_root_exec(&pv) && pv[0] == '.' && (pv.len() == 1 || pv[1] == '/') {
        let e: Vec<char> = Vec::new();
        Some(string_of(&e))
    } else {
        None
    }
}

/// `Path::join` with a file name.
pub fn path_join(dir: &str, name: &str) -> (r: String)
    ensures
        r@ == join_path(dir@, name@),
{
    let d = chars_of(dir);
    let n = chars_of(name);
    if has_root_exec(&n) || d.len() == 0 {
        return string_of(&n);
    }
    let mut out = copy_range(&d, 0, d.len());
    assert(out@ =~= d@);
    if d[d.len() - 1] != '/' {
        out.push('/');
    }
    extend_all(&mut out, &n);
    string_of(&out)
}

/// `PathBuf::set_extension` on the characters of a path.
#[verifier::spinoff_prover]
#[verifier::rlimit(30)]
fn set_extension_exec(pv: &Vec<char>, ev: &Vec<char>) -> (r: Vec<char>)
    ensures
        r@ == set_extension_text(pv@, ev@),
{
    let slash: Vec<char> = vec!['/'];
    assert(slash@ =~= seq!['/']);
    let segs = split_exec(pv, &slash);
    let ghost ss = seqs_of(segs@);
    let dot_v: Vec<char> = vec!['.'];
    assert(dot_v@ =~= dot());
    let mut j = segs.len();
    assert(ss.take(j as int) =~= ss);
    while j > 0 && !(segs[j - 1].len() > 0 && !same_chars(&segs[j - 1], &dot_v))
        invariant
            j <= segs.len(),
            ss == seqs_of(segs@),
            dot_v@ == dot(),
            last_named(ss) == last_named(ss.take(j as int)),
        decreases j,
    {
        assert(ss.take(j as int).last() == segs@[j - 1]@);
        assert(ss.take(j as int).drop_last() =~= ss.take(j - 1));
        j -= 1;
    }
    if j == 0 {
        assert(ss.take(0) =~= Seq::<Seq<char>>::empty());
        return copy_range(pv, 0, pv.len());
    }
    let k = j - 1;
    assert(ss.take(j as int).last() == segs@[k as int]@);
    assert(last_named(ss) == Some(k as int));
    assert(ss[k as int] == segs@[k as int]@);
    let dd: Vec<char> = vec!['.', '.'];
    assert(dd@ =~= dot_dot());
    if same_chars(&segs[k], &dd) {
        return copy_range(pv, 0, pv.len());
    }
    let name = &segs[k];
    let mut new_name: Vec<char> = match rfind_char_exec(name, '.') {
        Some(d) => {
            if d > 0 {
                let s = copy_range(name, 0, d);
                assert(s@ =~= name@.take(d as int));
                s
            } else {
                copy_range(name, 0, name.len())
            }
        },
        None => copy_range(name, 0, name.len()),
    };
    assert(new_name@ =~= stem_of(name@));
    if ev.len() > 0 {
        let ghost stem = new_name@;
        new_name.push('.');
        extend_all(&mut new_name, &ev);
        assert(new_name@ =~= stem + (seq!['.'] + ev@));
    } else {
        assert(new_name@ =~= stem_of(name@) + Seq::<char>::empty());
    }
    let mut parts: Vec<Vec<char>> = Vec::new();
    let mut i: usize = 0;
    while i < k
        invariant
            i <= k < segs.len(),
            ss == seqs_of(segs@),
            seqs_of(parts@) == ss.take(i as int),
        decreases k - i,
    {
        let c = copy_range(&segs[i], 0, segs[i].len());
        assert(c@ =~= segs@[i as int]@);
        let ghost before = parts@;
        parts.push(c);
        assert(seqs_of(parts@) =~= seqs_of(before).push(c@));
        assert(ss.take(i + 1) =~= ss.take(i as int).push(c@));
        i += 1;
    }
    let ghost before = parts@;
    parts.push(new_name);
    assert(seqs_of(parts@) =~= seqs_of(before).push(new_name@));
    let r = join_exec(&parts, &slash);
    r
}

/// `Path::with_extension` for an extension without `/`.
pub fn path_with_extension(p: &str, ext: &str) -> (r: String)
    requires
        lacks(ext@, '/'),
    ensures
        r@ == with_extension(p@, ext@),
{
    let pv = chars_of(p);
    let ev = chars_of(ext);
    let out = match path_extension(p) {
        Some(x) => {
            let xv = chars_of(x.as_str());
            proof {
                lemma_extension_len(p@);
            }
            let q = copy_range(&pv, 0, pv.len() - xv.len());
            assert(q@ =~= pv@.take(pv.len() - xv.len()));
            set_extension_exec(&q, &ev)
        },
        None => set_extension_exec(&pv, &ev),
    };
    string_of(&out)
}

/// The directory that output goes to by default: the input's parent, or
/// `.` where it has none.
pub fn output_dir_for(input: &str) -> (r: String)
    ensures
        r@ == default_output_dir(input@),
{
    match path_parent(input) {
        Some(d) => d,
        None => {
            let d: Vec<char> = vec!['.'];
            assert(d@ =~= dot());
            string_of(&d)
        },
    }
}

/// `path` relative to the directory `base`, written with `/` only: the
/// text of `path` after the components of `base`, when those begin
/// `path`'s (`Path::strip_prefix`); otherwise `path` itself.
pub fn to_relative(path: &str, base: &str) -> (r: String)
    ensures
        r@ == relative_to(path@, base@),
{
    let pv = chars_of(path);
    let bv = chars_of(base);
    let pc = comps_exec(&pv);
    let bc = comps_exec(&bv);
    let ghost ps = seqs_of(pc@);
    let ghost bs = seqs_of(bc@);
    let mut is_prefix = bc.len() <= pc.len();
    let mut i: usize = 0;
    while is_prefix && i < bc.len()
        invariant
            i <= bc.len(),
            is_prefix ==> bc.len() <= pc.len(),
            is_prefix ==> ps.take(i as int) == bs.take(i as int),
            !is_prefix ==> !(bs.len() <= ps.len() && ps.take(bs.len() as int) == bs),
            ps == seqs_of(pc@),
            bs == seqs_of(bc@),
        decreases bc.len() - i + (if is_prefix {
            1int
        } else {
            0int
        }),
    {
        assert(ps[i as int] == pc@[i as int]@);
        assert(bs[i as int] == bc@[i as int]@);
        if !same_chars(&pc[i], &bc[i]) {
            assert(ps.take(bs.len() as int)[i as int] == ps[i as int]);
            is_prefix = false;
        } else {
            assert(ps.take(i + 1) =~= ps.take(i as int).push(ps[i as int]));
            assert(bs.take(i + 1) =~= bs.take(i as int).push(bs[i as int]));
            i += 1;
        }
    }
    let chosen: Vec<char> = if is_prefix {
        assert(bs.take(bs.len() as int) =~= bs);
        rest_after_exec(&pv, bc.len())
    } else {
        copy_range(&pv, 0, pv.len())
    };
    assert(!is_prefix ==> chosen@ =~= path@);
    let mut out: Vec<char> = Vec::new();
    let mut k: usize = 0;
    while k < chosen.len()
        invariant
            k <= chosen.len(),
            out@ == slashes(chosen@.take(k as int)),
        decreases chosen.len() - k,
    {
        let c = chosen[k];
        out.push(if c == '\\' { '/' } else { c });
        assert(slashes(chosen@.take(k + 1)) =~= slashes(chosen@.take(k as int)).push(
            if c == '\\' { '/' } else { c },
        ));
        k += 1;
    }
    assert(chosen@.take(chosen.len() as int) =~= chosen@);
    string_of(&out)
}


// ---------------------------------------------------------------------------
// Names of this tool's output files
// ---------------------------------------------------------------------------

/// The width of segment numbers: the digits of the segment count, at least
/// three.
pub open spec fn pad_width(count: nat) -> int {
    if dec_digits(count).len() > 3 {
        dec_digits(count).len() as int
    } else {
        3
    }
}

/// The input's file stem, or `output` where it has none.
pub open spec fn input_stem(input: Seq<char>) -> Seq<char> {
    match file_stem(input) {
        Some(s) => s,
        None => seq!['o', 'u', 't', 'p', 'u', 't'],
    }
}

/// The input's extension, or `mp4` where it has none.
pub open spec fn input_ext(input: Seq<char>) -> Seq<char> {
    match extension(input) {
        Some(e) => e,
        None => seq!['m', 'p', '4'],
    }
}

/// `{stem}_{index}.{ext}`, the index zero-padded to the width that the
/// segment count asks for.
pub open spec fn segment_name(input: Seq<char>, index: nat, count: nat) -> Seq<char> {
    input_stem(input) + seq!['_'] + padded(index, pad_width(count)) + seq!['.'] + input_ext(input)
}

/// The output path of segment `index` (from 1) of `count` cut from `input`
/// into `output_dir`.
pub fn segment_output_path(input: &str, output_dir: &str, index: usize, count: usize) -> (r:
    String)
    ensures
        r@ == join_path(output_dir@, segment_name(input@, index as nat, count as nat)),
{
    let mut name: Vec<char> = match path_file_stem(input) {
        Some(s) => chars_of(s.as_str()),
        None => vec!['o', 'u', 't', 'p', 'u', 't'],
    };
    assert(name@ =~= input_stem(input@));
    name.push('_');
    let digits = dec_len(count as u64);
    let width: usize = if digits > 3 {
        digits
    } else {
        3
    };
    push_padded(&mut name, index as u64, width);
    name.push('.');
    let ext: Vec<char> = match path_extension(input) {
        Some(e) => chars_of(e.as_str()),
        None => vec!['m', 'p', '4'],
    };
    assert(ext@ =~= input_ext(input@));
    extend_all(&mut name, &ext);
    assert(name@ =~= segment_name(input@, index as nat, count as nat));
    let n = string_of(&name);
    path_join(output_dir, n.as_str())
}

/// The directory that holds a segment's key frames: `{stem}_frames` beside
/// the segment (stem `segment` where the path has none; `.` where it has
/// no parent).
pub open spec fn frames_dir_of(segment: Seq<char>) -> Seq<char> {
    let stem = match file_stem(segment) {
        Some(s) => s,
        None => seq!['s', 'e', 'g', 'm', 'e', 'n', 't'],
    };
    let dir = match parent(segment) {
        Some(d) => d,
        None => dot(),
    };
    join_path(dir, stem + seq!['_', 'f', 'r', 'a', 'm', 'e', 's'])
}

/// The key-frame directory of a segment.
pub fn frames_dir(segment: &str) -> (r: String)
    ensures
        r@ == frames_dir_of(segment@),
{
    let mut name: Vec<char> = match path_file_stem(segment) {
        Some(s) => chars_of(s.as_str()),
        None => vec!['s', 'e', 'g', 'm', 'e', 'n', 't'],
    };
    let ghost stem = name@;
    name.push('_');
    name.push('f');
    name.push('r');
    name.push('a');
    name.push('m');
    name.push('e');
    name.push('s');
    assert(name@ =~= stem + seq!['_', 'f', 'r', 'a', 'm', 'e', 's']);
    let dir = match path_parent(segment) {
        Some(d) => d,
        None => {
            let d: Vec<char> = vec!['.'];
            assert(d@ =~= dot());
            string_of(&d)
        },
    };
    let n = string_of(&name);
    path_join(dir.as_str(), n.as_str())
}


// ---------------------------------------------------------------------------
// Key-frame files
// ---------------------------------------------------------------------------

/// A character with ASCII upper case made lower case, as a code point.
pub open spec fn ascii_lower(c: char) -> int {
    if 'A' <= c && c <= 'Z' {
        c as int + 32
    } else {
        c as int
    }
}

/// `str::eq_ignore_ascii_case`.
pub open spec fn eq_ignore_ascii_case(a: Seq<char>, b: Seq<char>) -> bool {
    a.len() == b.len() && forall|i: int| 0 <= i < a.len() ==> ascii_lower(a[i]) == ascii_lower(b[i])
}

/// The path names a JPEG file: its extension is `jpg` in any ASCII case.
pub open spec fn is_jpg(p: Seq<char>) -> bool {
    match extension(p) {
        Some(e) => eq_ignore_ascii_case(e, seq!['j', 'p', 'g']),
        None => false,
    }
}

/// The JPEG paths among `ps`, in order.
pub open spec fn jpgs(ps: Seq<Seq<char>>) -> Seq<Seq<char>>
    decreases ps.len(),
{
    if ps.len() == 0 {
        Seq::empty()
    } else if is_jpg(ps.last()) {
        jpgs(ps.drop_last()).push(ps.last())
    } else {
        jpgs(ps.drop_last())
    }
}

fn ascii_lower_exec(c: char) -> (r: u32)
    ensures
        r as int == ascii_lower(c),
{
    if 'A' <= c && c <= 'Z' {
        c as u32 + 32
    } else {
        c as u32
    }
}

fn is_jpg_exec(p: &str) -> (b: bool)
    ensures
        b == is_jpg(p@),
{
    match path_extension(p) {
        None => false,
        Some(e) => {
            let ev = chars_of(e.as_str());
            let jpg: Vec<char> = vec!['j', 'p', 'g'];
            assert(jpg@ =~= seq!['j', 'p', 'g']);
            if ev.len() != 3 {
                return false;
            }
            let mut i: usize = 0;
            while i < 3
                invariant
                    i <= 3,
                    ev.len() == 3,
                    jpg@ == seq!['j', 'p', 'g'],
                    extension(p@) == Some(ev@),
                    forall|j: int| 0 <= j < i ==> ascii_lower(ev@[j]) == ascii_lower(jpg@[j]),
                decreases 3 - i,
            {
                if ascii_lower_exec(ev[i]) != ascii_lower_exec(jpg[i]) {
                    assert(!eq_ignore_ascii_case(ev@, seq!['j', 'p', 'g']));
                    return false;
                }
                i += 1;
            }
            true
        },
    }
}

/// The JPEG files among the files of one directory, in file-name order
/// (the order of `PathBuf` for files of one directory).
pub fn select_frames(paths: &Vec<String>) -> (r: Vec<String>)
    ensures
        lex_sorted(strs_of(r@)),
        strs_of(r@).to_multiset() == jpgs(strs_of(paths@)).to_multiset(),
{
    let mut kept: Vec<String> = Vec::new();
    let mut i: usize = 0;
    while i < paths.len()
        invariant
            i <= paths.len(),
            strs_of(kept@) == jpgs(strs_of(paths@).take(i as int)),
        decreases paths.len() - i,
    {
        let ghost ps = strs_of(paths@);
        assert(ps.take(i + 1).drop_last() =~= ps.take(i as int));
        assert(ps.take(i + 1).last() == paths@[i as int]@);
        if is_jpg_exec(paths[i].as_str()) {
            let ghost before = kept@;
            kept.push(paths[i].clone());
            assert(strs_of(kept@) =~= strs_of(before).push(paths@[i as int]@));
        }
        i += 1;
    }
    assert(strs_of(paths@).take(paths.len() as int) =~= strs_of(paths@));
    sort_strings(&kept)
}


/// Different segments of one input get different names: the name gives
/// back the segment's number.
pub proof fn law_segment_names_distinct(input: Seq<char>, i: nat, j: nat, count: nat)
    requires
        i <= u64::MAX,
        j <= u64::MAX,
        segment_name(input, i, count) == segment_name(input, j, count),
    ensures
        i == j,
{
    let a = input_stem(input) + seq!['_'];
    let b = seq!['.'] + input_ext(input);
    let pi = padded(i, pad_width(count));
    let pj = padded(j, pad_width(count));
    let ni = segment_name(input, i, count);
    let nj = segment_name(input, j, count);
    assert(ni =~= a + pi + b);
    assert(nj =~= a + pj + b);
    assert(pi.len() == pj.len());
    assert(pi =~= ni.subrange(a.len() as int, (a.len() + pi.len()) as int));
    assert(pj =~= nj.subrange(a.len() as int, (a.len() + pj.len()) as int));
    crate::decimal::lemma_parse_padded(i, pad_width(count));
    crate::decimal::lemma_parse_padded(j, pad_width(count));
}


/// The numbers of the segments are padded to one width, so their names
/// sort in the order of the segments.
pub proof fn law_segment_names_ordered(input: Seq<char>, i: nat, j: nat, count: nat)
    requires
        i < j <= count,
    ensures
        lex_le(segment_name(input, i, count), segment_name(input, j, count)),
        segment_name(input, i, count) != segment_name(input, j, count),
{
    let w = pad_width(count);
    lemma_dec_len_mono(i, count);
    lemma_dec_len_mono(j, count);
    lemma_padded_exact(i, w);
    lemma_padded_exact(j, w);
    let a = input_stem(input) + seq!['_'];
    let b = seq!['.'] + input_ext(input);
    let pi = padded(i, w);
    let pj = padded(j, w);
    lemma_lex_numerals(pi, pj);
    assert(segment_name(input, i, count) =~= a + (pi + b));
    assert(segment_name(input, j, count) =~= a + (pj + b));
    lemma_lex_prefix(a, pi + b, pj + b);
    lemma_lex_decided(pi, pj, b, b);
    assert((a + (pi + b)).subrange(a.len() as int, (a.len() + w) as int) =~= pi);
    assert((a + (pj + b)).subrange(a.len() as int, (a.len() + w) as int) =~= pj);
}

// ---------------------------------------------------------------------------
// A file joined under a directory is named relative to it by its name
// ---------------------------------------------------------------------------

/// A name that is one path component other than `.`, and holds no `\`.
pub open spec fn plain_name(n: Seq<char>) -> bool {
    n.len() > 0 && lacks(n, '/') && lacks(n, '\\') && n != dot()
}

proof fn lemma_split_char_concat_from(x: Seq<char>, y: Seq<char>, c: char, i: int)
    requires
        0 <= i <= x.len(),
    ensures
        split_from(x + seq![c] + y, seq![c], i) == split_from(x, seq![c], i) + split(y, seq![c]),
    decreases x.len() - i,
{
    let w = x + seq![c] + y;
    let pat = seq![c];
    lemma_find_from(x, pat, i);
    assert forall|j: int| 0 <= j < x.len() implies (matches_at(w, pat, j) == matches_at(x, pat, j)) by {
        assert(w.subrange(j, j + 1) =~= seq![w[j]]);
        assert(w[j] == x[j]);
        if j + 1 <= x.len() {
            assert(x.subrange(j, j + 1) =~= seq![x[j]]);
        }
    }
    match find_from(x, pat, i) {
        Some(k) => {
            lemma_find_from_unique(w, pat, i, k);
            assert(w.subrange(i, k) =~= x.subrange(i, k));
            lemma_split_char_concat_from(x, y, c, k + 1);
            assert(split_from(w, pat, i) =~= seq![x.subrange(i, k)] + split_from(w, pat, k + 1));
            assert(split_from(x, pat, i) =~= seq![x.subrange(i, k)] + split_from(x, pat, k + 1));
        },
        None => {
            assert forall|j: int| i <= j < x.len() implies !matches_at(w, pat, j) by {}
            assert(w.subrange(x.len() as int, x.len() as int + 1) =~= pat);
            lemma_find_from_unique(w, pat, i, x.len() as int);
            assert(w.subrange(i, x.len() as int) =~= x.subrange(i, x.len() as int));
            assert(w =~= (x + pat) + y);
            lemma_split_shift(x + pat, y, pat, 0);
            assert(x.len() + 1 == (x + pat).len() + 0);
        },
    }
}

/// Splitting at a one-character separator is compositional.
pub proof fn lemma_split_char_concat(x: Seq<char>, y: Seq<char>, c: char)
    ensures
        split(x + seq![c] + y, seq![c]) == split(x, seq![c]) + split(y, seq![c]),
{
    lemma_split_char_concat_from(x, y, c, 0);
}

proof fn lemma_named_concat(a: Seq<Seq<char>>, b: Seq<Seq<char>>)
    ensures
        named(a + b) == named(a) + named(b),
    decreases b.len(),
{
    if b.len() == 0 {
        assert(a + b =~= a);
        assert(named(a) + named(b) =~= named(a));
    } else {
        assert((a + b).drop_last() =~= a + b.drop_last());
        assert((a + b).last() == b.last());
        lemma_named_concat(a, b.drop_last());
        assert(named(a) + named(b.drop_last()).push(b.last()) =~= (named(a) + named(
            b.drop_last(),
        )).push(b.last()));
    }
}

proof fn lemma_names_plain(n: Seq<char>)
    requires
        plain_name(n),
    ensures
        names(n) == seq![n],
{
    crate::cue_laws::lemma_split_char_none(n, '/');
    assert(seq![n].drop_last() =~= Seq::<Seq<char>>::empty());
    assert(seq![n].last() == n);
    assert(named(Seq::<Seq<char>>::empty()) == Seq::<Seq<char>>::empty());
}

/// A relative path of plain names, joined by single `/`.
pub open spec fn plain_path(parts: Seq<Seq<char>>) -> bool {
    parts.len() > 0 && forall|i: int| 0 <= i < parts.len() ==> plain_name(#[trigger] parts[i])
}

proof fn lemma_join_lacks(parts: Seq<Seq<char>>, sep: Seq<char>, c: char)
    requires
        lacks(sep, c),
        forall|i: int| 0 <= i < parts.len() ==> lacks(#[trigger] parts[i], c),
    ensures
        lacks(join(parts, sep), c),
    decreases parts.len(),
{
    if parts.len() > 1 {
        lemma_join_lacks(parts.drop_last(), sep, c);
        crate::cue_laws::lemma_lacks_concat(join(parts.drop_last(), sep), sep, c);
        crate::cue_laws::lemma_lacks_concat(join(parts.drop_last(), sep) + sep, parts.last(), c);
    } else if parts.len() == 1 {
        assert(lacks(parts[0], c));
    }
}

/// The named components of plain names joined by `/` are those names; the
/// joined path neither starts at the root nor with a `.` component.
proof fn lemma_names_of_plain_path(parts: Seq<Seq<char>>)
    requires
        plain_path(parts),
    ensures
        names(join(parts, seq!['/'])) == parts,
        split(join(parts, seq!['/']), seq!['/']) == parts,
        join(parts, seq!['/']).len() > 0,
        !has_root(join(parts, seq!['/'])),
        !leading_cur(join(parts, seq!['/'])),
    decreases parts.len(),
{
    let sl = seq!['/'];
    let p0 = parts[0];
    assert(plain_name(p0));
    let name = join(parts, sl);
    if parts.len() == 1 {
        assert(name == p0);
        lemma_names_plain(p0);
        crate::cue_laws::lemma_split_char_none(p0, '/');
        assert(seq![p0] =~= parts);
    } else {
        let rest = parts.skip(1);
        assert(plain_path(rest)) by {
            assert forall|i: int| 0 <= i < rest.len() implies plain_name(#[trigger] rest[i]) by {
                assert(rest[i] == parts[i + 1]);
            }
        }
        lemma_names_of_plain_path(rest);
        assert(seq![p0] + rest =~= parts);
        crate::text::lemma_join_cons(p0, rest, sl);
        assert(name == p0 + sl + join(rest, sl));
        crate::cue_laws::lemma_split_char_cons(p0, join(rest, sl), '/');
        lemma_named_concat(seq![p0], split(join(rest, sl), sl));
        lemma_names_plain(p0);
        crate::cue_laws::lemma_split_char_none(p0, '/');
        assert(named(seq![p0]) == names(p0));
        assert(names(name) =~= parts);
        assert(split(name, sl) =~= parts);
        assert(name[0] == p0[0]);
        if p0.len() > 1 {
            assert(name[1] == p0[1]);
        } else {
            assert(name[1] == '/');
        }
    }
    assert(p0[0] != '/');
    assert(!leading_cur(name)) by {
        if p0.len() == 1 && p0[0] == '.' {
            assert(p0 =~= dot());
        }
        if p0.len() > 1 {
            assert(p0[1] != '/');
        }
    }
}

/// The components of a relative path joined under a directory are the
/// directory's and then the path's.
pub proof fn lemma_comps_join(dir: Seq<char>, name: Seq<char>)
    requires
        name.len() > 0,
        !has_root(name),
        !leading_cur(name),
    ensures
        comps(join_path(dir, name)) == comps(dir) + names(name),
        dir.len() > 0 ==> head_len(join_path(dir, name)) == head_len(dir),
{
    let j = join_path(dir, name);
    let sl = seq!['/'];
    if dir.len() == 0 {
        let e = Seq::<char>::empty();
        crate::text::lemma_split_none(e, sl);
        assert(e.subrange(0, 0) =~= e);
        assert(split(e, sl) =~= seq![e]);
        assert(seq![e].drop_last() =~= Seq::<Seq<char>>::empty());
        assert(seq![e].last() == e);
        assert(named(Seq::<Seq<char>>::empty()) == Seq::<Seq<char>>::empty());
        assert(dir =~= e);
        assert(named(seq![e]) =~= Seq::<Seq<char>>::empty());
        assert(names(dir) =~= Seq::<Seq<char>>::empty());
        assert(comps(dir) =~= Seq::<Seq<char>>::empty());
        assert(comps(j) =~= names(name));
        return;
    }
    if dir.last() == '/' {
        let d = dir.drop_last();
        assert(dir =~= d + sl + Seq::<char>::empty());
        assert(j =~= d + sl + name);
        lemma_split_char_concat(d, name, '/');
        lemma_split_char_concat(d, Seq::<char>::empty(), '/');
        let e = Seq::<char>::empty();
        crate::text::lemma_split_none(e, sl);
        assert(e.subrange(0, 0) =~= e);
        assert(split(e, sl) =~= seq![e]);
        lemma_named_concat(split(d, sl), split(name, sl));
        lemma_named_concat(split(d, sl), split(e, sl));
        assert(seq![e].drop_last() =~= Seq::<Seq<char>>::empty());
        assert(seq![e].last() == e);
        assert(named(Seq::<Seq<char>>::empty()) == Seq::<Seq<char>>::empty());
        assert(named(seq![e]) =~= Seq::<Seq<char>>::empty());
        assert(named(split(d, sl)) + Seq::<Seq<char>>::empty() =~= named(split(d, sl)));
        assert(names(j) =~= names(dir) + names(name));
    } else {
        assert(j =~= dir + sl + name);
        lemma_split_char_concat(dir, name, '/');
        lemma_named_concat(split(dir, sl), split(name, sl));
        assert(names(j) =~= names(dir) + names(name));
    }
    assert(j[0] == dir[0]);
    assert(has_root(j) == has_root(dir));
    if dir.len() >= 2 {
        assert(j[1] == dir[1]);
    } else if dir.last() != '/' {
        assert(j[1] == '/');
    }
    assert(leading_cur(j) == leading_cur(dir));
    assert(comps(j) =~= comps(dir) + names(name));
}

/// The indices of the named pieces of `d + q`: those of `d`, then those of
/// `q` moved past `d`.
proof fn lemma_idx_concat(d: Seq<Seq<char>>, q: Seq<Seq<char>>)
    ensures
        named_idx(d + q) == named_idx(d) + named_idx(q).map_values(|i: int| i + d.len()),
    decreases q.len(),
{
    let f = |i: int| i + d.len();
    if q.len() == 0 {
        assert(d + q =~= d);
        assert(named_idx(q).map_values(f) =~= Seq::<int>::empty());
        assert(named_idx(d) + Seq::<int>::empty() =~= named_idx(d));
    } else {
        assert((d + q).drop_last() =~= d + q.drop_last());
        assert((d + q).last() == q.last());
        lemma_idx_concat(d, q.drop_last());
        if named_piece(q.last()) {
            assert(named_idx(q).map_values(f) =~= named_idx(q.drop_last()).map_values(f).push(
                q.len() - 1 + d.len(),
            ));
            assert(named_idx(d) + named_idx(q).map_values(f) =~= (named_idx(d) + named_idx(
                q.drop_last(),
            ).map_values(f)).push((d + q).len() - 1));
        } else {
            assert(named_idx(q).map_values(f) =~= named_idx(q.drop_last()).map_values(f));
        }
    }
}

proof fn lemma_idx_all_named(q: Seq<Seq<char>>)
    requires
        forall|i: int| 0 <= i < q.len() ==> named_piece(#[trigger] q[i]),
    ensures
        named_idx(q) == Seq::new(q.len(), |i: int| i),
    decreases q.len(),
{
    if q.len() > 0 {
        let d = q.drop_last();
        assert forall|i: int| 0 <= i < d.len() implies named_piece(#[trigger] d[i]) by {
            assert(d[i] == q[i]);
        }
        lemma_idx_all_named(d);
        assert(named_piece(q[q.len() - 1]));
        assert(Seq::new(q.len(), |i: int| i) =~= Seq::new(d.len(), |i: int| i).push(q.len() - 1));
    } else {
        assert(Seq::new(0, |i: int| i) =~= Seq::<int>::empty());
    }
}

proof fn lemma_idx_none(d: Seq<Seq<char>>)
    requires
        forall|i: int| 0 <= i < d.len() ==> !named_piece(#[trigger] d[i]),
    ensures
        named_idx(d) == Seq::<int>::empty(),
    decreases d.len(),
{
    if d.len() > 0 {
        let e = d.drop_last();
        assert forall|i: int| 0 <= i < e.len() implies !named_piece(#[trigger] e[i]) by {
            assert(e[i] == d[i]);
        }
        lemma_idx_none(e);
        assert(!named_piece(d[d.len() - 1]));
    }
}

/// Past pieces that name nothing, named pieces are their own inner and
/// leading pieces.
proof fn lemma_inner_after_unnamed(u: Seq<Seq<char>>, q: Seq<Seq<char>>)
    requires
        forall|i: int| 0 <= i < u.len() ==> !named_piece(#[trigger] u[i]),
        q.len() > 0,
        forall|i: int| 0 <= i < q.len() ==> named_piece(#[trigger] q[i]),
    ensures
        inner_pieces(u + q) == q,
        leading_pieces(u + q) == u + q,
{
    lemma_idx_concat(u, q);
    lemma_idx_none(u);
    lemma_idx_all_named(q);
    let ix = named_idx(u + q);
    assert(ix =~= Seq::new(q.len(), |i: int| i).map_values(|i: int| i + u.len()));
    assert(ix[0] == u.len());
    assert(ix[ix.len() - 1] == u.len() + q.len() - 1);
    assert((u + q).subrange(u.len() as int, (u.len() + q.len()) as int) =~= q);
    assert((u + q).take((u.len() + q.len()) as int) =~= u + q);
}

/// No piece after the last named one names something; where there is no
/// named piece, none does.
proof fn lemma_after_last_named(d: Seq<Seq<char>>)
    ensures
        named_idx(d).len() == 0 ==> forall|i: int| 0 <= i < d.len() ==> !named_piece(#[trigger] d[i]),
        named_idx(d).len() > 0 ==> forall|i: int|
            0 <= i < d.skip(named_idx(d).last() + 1).len() ==> !named_piece(
                #[trigger] d.skip(named_idx(d).last() + 1)[i],
            ),
{
    lemma_named_idx(d);
    let ix = named_idx(d);
    if ix.len() == 0 {
        assert forall|i: int| 0 <= i < d.len() implies !named_piece(#[trigger] d[i]) by {
            if named_piece(d[i]) {
                let w = choose|w: int| 0 <= w < ix.len() && #[trigger] ix[w] == i;
            }
        }
    } else {
        let t = ix[ix.len() - 1];
        let r = d.skip(t + 1);
        assert forall|i: int| 0 <= i < r.len() implies !named_piece(#[trigger] r[i]) by {
            assert(r[i] == d[t + 1 + i]);
            if named_piece(d[t + 1 + i]) {
                let w = choose|w: int| 0 <= w < ix.len() && #[trigger] ix[w] == t + 1 + i;
                if w < ix.len() - 1 {
                    assert(ix[w] < ix[ix.len() - 1]);
                }
            }
        }
    }
}

/// A non-empty path with neither a root nor a leading `.` component starts
/// with a piece that names something.
proof fn lemma_first_piece_named(s: Seq<char>)
    requires
        s.len() > 0,
        !has_root(s),
        !leading_cur(s),
    ensures
        named_piece(split(s, seq!['/'])[0]),
{
    let sl = seq!['/'];
    lemma_find_from(s, sl, 0);
    match find_from(s, sl, 0) {
        None => {
            assert(split(s, sl) == seq![s.subrange(0, s.len() as int)]);
            assert(s.subrange(0, s.len() as int) =~= s);
            if s =~= dot() {
                assert(s[0] == '.');
            }
        },
        Some(k) => {
            assert(split(s, sl) == seq![s.subrange(0, k)] + split_from(s, sl, k + 1));
            let x = s.subrange(0, k);
            assert(split(s, sl)[0] == x);
            if k == 0 {
                assert(s.subrange(0, 1) == sl);
                assert(s[0] == s.subrange(0, 1)[0]);
            }
            if x =~= dot() {
                assert(k == 1);
                assert(s[0] == x[0]);
                assert(s.subrange(1, 2) == sl);
                assert(s[1] == s.subrange(1, 2)[0]);
            }
        },
    }
}

/// A relative path of plain names joined under a directory is, relative to
/// that directory, that path again: what the manifest records of each
/// output file and key frame.
pub proof fn law_relative_of_joined(dir: Seq<char>, parts: Seq<Seq<char>>)
    requires
        plain_path(parts),
    ensures
        relative_to(join_path(dir, join(parts, seq!['/'])), dir) == join(parts, seq!['/']),
{
    let sl = seq!['/'];
    let name = join(parts, sl);
    let j = join_path(dir, name);
    lemma_names_of_plain_path(parts);
    lemma_comps_join(dir, name);
    let pc = comps(j);
    let bc = comps(dir);
    assert(pc.take(bc.len() as int) =~= bc);
    let k = bc.len() as int;
    assert(strip_prefix(j, dir) == Some(rest_after(j, k)));
    assert forall|i: int| 0 <= i < parts.len() implies named_piece(#[trigger] parts[i]) by {
        assert(plain_name(parts[i]));
    }
    lemma_names_body(dir);
    let h = head_len(dir);
    let e = Seq::<char>::empty();
    if dir.len() == 0 {
        assert(j == name);
        assert(name.skip(0) =~= name);
        assert(body_pieces(j) == parts);
        lemma_inner_after_unnamed(Seq::<Seq<char>>::empty(), parts);
        assert(Seq::<Seq<char>>::empty() + parts =~= parts);
        assert(name.take(0) + join(parts, sl) =~= name);
        assert(rest_after(j, k) == name);
    } else {
        assert(head_len(j) == h);
        let d: Seq<Seq<char>> = if dir.last() != '/' {
            body_pieces(dir)
        } else if dir.len() == 1 {
            Seq::empty()
        } else {
            split(dir.drop_last().skip(h), sl)
        };
        if dir.last() != '/' {
            assert(j =~= dir + sl + name);
            assert(j.skip(h) =~= dir.skip(h) + sl + name);
            lemma_split_char_concat(dir.skip(h), name, '/');
        } else if dir.len() == 1 {
            assert(dir =~= sl);
            assert(j.skip(h) =~= name);
            assert(dir.skip(h) =~= e);
            crate::text::lemma_split_none(e, sl);
            assert(e.subrange(0, 0) =~= e);
            assert(body_pieces(dir) =~= seq![e]);
            assert(seq![e].drop_last() =~= Seq::<Seq<char>>::empty());
            assert(seq![e].last() == e);
            assert(named_idx(body_pieces(dir)) =~= Seq::<int>::empty());
            assert(named_idx(d) =~= Seq::<int>::empty());
            assert(Seq::<Seq<char>>::empty() + parts =~= parts);
        } else {
            let dd = dir.drop_last();
            assert(dir =~= dd + sl);
            assert(j =~= dd + sl + name);
            assert(j.skip(h) =~= dd.skip(h) + sl + name);
            assert(dir.skip(h) =~= dd.skip(h) + sl + e);
            lemma_split_char_concat(dd.skip(h), name, '/');
            lemma_split_char_concat(dd.skip(h), e, '/');
            crate::text::lemma_split_none(e, sl);
            assert(e.subrange(0, 0) =~= e);
            assert(split(e, sl) =~= seq![e]);
            assert(body_pieces(dir) == d + seq![e]);
            assert((d + seq![e]).drop_last() =~= d);
            assert((d + seq![e]).last() == e);
            assert(named_idx(body_pieces(dir)) == named_idx(d));
        }
        assert(body_pieces(j) == d + parts);
        assert(named_idx(body_pieces(dir)) == named_idx(d));
        lemma_after_last_named(d);
        lemma_idx_concat(d, parts);
        if k == 0 {
            // a non-empty directory without a head has a named first piece
            if dir.last() != '/' {
                assert(dir.skip(0) =~= dir);
                lemma_first_piece_named(dir);
                assert(!named_piece(d[0]));
            } else {
                let dd = dir.drop_last();
                assert(dd[0] == dir[0]);
                assert(!leading_cur(dd)) by {
                    if dd.len() > 1 {
                        assert(dd[1] == dir[1]);
                    } else {
                        assert(dir[1] == '/');
                    }
                }
                assert(dd.skip(0) =~= dd);
                lemma_first_piece_named(dd);
                assert(!named_piece(d[0]));
            }
        } else if k <= h {
            lemma_inner_after_unnamed(d, parts);
            assert(rest_after(j, k) == name);
        } else {
            let n = named_idx(d).len();
            let t = named_idx(d)[n - 1];
            lemma_named_idx(d);
            assert(named_idx(d + parts)[k - h - 1] == t);
            assert(0 <= t < d.len());
            assert((d + parts).skip(t + 1) =~= d.skip(t + 1) + parts);
            lemma_inner_after_unnamed(d.skip(t + 1), parts);
            assert(rest_after(j, k) == name);
        }
    }
    assert(lacks(sl, '\\'));
    assert forall|i: int| 0 <= i < parts.len() implies lacks(#[trigger] parts[i], '\\') by {
        assert(plain_name(parts[i]));
    }
    lemma_join_lacks(parts, sl, '\\');
    assert(slashes(name) =~= name);
}

} // verus!
