//! Lexicographic order of character sequences (the order of `String` and,
//! within one directory, of `PathBuf`), and sorting by it.

use vstd::prelude::*;

use crate::decimal::{all_digits, dec_value, digit_value, is_digit, lemma_dec_value_bound, lemma_dec_value_front, pow10};
use crate::text::chars_of;

verus! {

/// `a` comes no later than `b` in lexicographic order of code points.
pub open spec fn lex_le(a: Seq<char>, b: Seq<char>) -> bool
    decreases a.len(),
{
    if a.len() == 0 {
        true
    } else if b.len() == 0 {
        false
    } else if a[0] != b[0] {
        a[0] < b[0]
    } else {
        lex_le(a.skip(1), b.skip(1))
    }
}

/// The contents of a sequence of strings.
pub open spec fn strs_of(v: Seq<String>) -> Seq<Seq<char>> {
    v.map_values(|s: String| s@)
}

/// Each sequence comes no later than any after it.
pub open spec fn lex_sorted(s: Seq<Seq<char>>) -> bool {
    forall|i: int, j: int| 0 <= i < j < s.len() ==> lex_le(#[trigger] s[i], #[trigger] s[j])
}

/// Any two sequences are ordered one way or the other.
pub proof fn lemma_lex_total(a: Seq<char>, b: Seq<char>)
    ensures
        lex_le(a, b) || lex_le(b, a),
    decreases a.len(),
{
    if a.len() > 0 && b.len() > 0 && a[0] == b[0] {
        lemma_lex_total(a.skip(1), b.skip(1));
    }
}

/// The order is transitive.
pub proof fn lemma_lex_trans(a: Seq<char>, b: Seq<char>, c: Seq<char>)
    requires
        lex_le(a, b),
        lex_le(b, c),
    ensures
        lex_le(a, c),
    decreases a.len(),
{
    if a.len() > 0 && b.len() > 0 && c.len() > 0 && a[0] == b[0] && b[0] == c[0] {
        lemma_lex_trans(a.skip(1), b.skip(1), c.skip(1));
    }
}

/// Of two digit strings of one length, the smaller number comes first and
/// differs from the other.
pub proof fn lemma_lex_numerals(a: Seq<char>, b: Seq<char>)
    requires
        a.len() == b.len(),
        all_digits(a),
        all_digits(b),
        dec_value(a) < dec_value(b),
    ensures
        lex_le(a, b),
        a != b,
    decreases a.len(),
{
    if a.len() > 0 {
        lemma_dec_value_front(a);
        lemma_dec_value_front(b);
        let ra = a.skip(1);
        let rb = b.skip(1);
        assert(all_digits(ra));
        assert(all_digits(rb));
        lemma_dec_value_bound(ra);
        lemma_dec_value_bound(rb);
        assert(is_digit(a[0]) && is_digit(b[0]));
        let p = pow10((a.len() - 1) as nat);
        let x = digit_value(a[0]);
        let y = digit_value(b[0]);
        let va = dec_value(ra);
        let vb = dec_value(rb);
        if a[0] == b[0] {
            lemma_lex_numerals(ra, rb);
            assert(a.skip(1) != b.skip(1));
        } else {
            assert(x < y) by {
                if x > y {
                    assert(x * p + va >= y * p + p) by (nonlinear_arith)
                        requires
                            x >= y + 1,
                            p >= 0,
                            va >= 0,
                    ;
                }
            }
        }
    }
}

/// A common prefix does not change the order.
pub proof fn lemma_lex_prefix(p: Seq<char>, x: Seq<char>, y: Seq<char>)
    ensures
        lex_le(p + x, p + y) == lex_le(x, y),
    decreases p.len(),
{
    if p.len() > 0 {
        assert((p + x)[0] == p[0]);
        assert((p + y)[0] == p[0]);
        assert((p + x).skip(1) =~= p.skip(1) + x);
        assert((p + y).skip(1) =~= p.skip(1) + y);
        lemma_lex_prefix(p.skip(1), x, y);
    } else {
        assert(p + x =~= x);
        assert(p + y =~= y);
    }
}

/// Two different sequences of one length decide the order of anything that
/// follows them.
pub proof fn lemma_lex_decided(x: Seq<char>, y: Seq<char>, r1: Seq<char>, r2: Seq<char>)
    requires
        x.len() == y.len(),
        x != y,
    ensures
        lex_le(x + r1, y + r2) == lex_le(x, y),
    decreases x.len(),
{
    if x.len() == 0 {
        assert(x =~= y);
    } else {
        assert((x + r1)[0] == x[0]);
        assert((y + r2)[0] == y[0]);
        if x[0] == y[0] {
            assert((x + r1).skip(1) =~= x.skip(1) + r1);
            assert((y + r2).skip(1) =~= y.skip(1) + r2);
            if x.skip(1) =~= y.skip(1) {
                assert(x =~= y) by {
                    assert forall|i: int| 0 <= i < x.len() implies x[i] == y[i] by {
                        if i > 0 {
                            assert(x[i] == x.skip(1)[i - 1]);
                            assert(y[i] == y.skip(1)[i - 1]);
                        }
                    }
                }
            }
            lemma_lex_decided(x.skip(1), y.skip(1), r1, r2);
        }
    }
}

/// Whether `a` comes no later than `b`.
pub fn lex_le_exec(a: &Vec<char>, b: &Vec<char>) -> (r: bool)
    ensures
        r == lex_le(a@, b@),
{
    let mut i: usize = 0;
    assert(a@.skip(0) =~= a@);
    assert(b@.skip(0) =~= b@);
    loop
        invariant
            i <= a.len(),
            i <= b.len(),
            lex_le(a@, b@) == lex_le(a@.skip(i as int), b@.skip(i as int)),
        decreases a.len() - i,
    {
        if i == a.len() {
            return true;
        }
        if i == b.len() {
            return false;
        }
        assert(a@.skip(i as int)[0] == a@[i as int]);
        assert(b@.skip(i as int)[0] == b@[i as int]);
        if a[i] != b[i] {
            return a[i] < b[i];
        }
        assert(a@.skip(i as int).skip(1) =~= a@.skip(i + 1));
        assert(b@.skip(i as int).skip(1) =~= b@.skip(i + 1));
        i += 1;
    }
}

/// The strings in ascending order.
pub fn sort_strings(v: &Vec<String>) -> (r: Vec<String>)
    ensures
        lex_sorted(strs_of(r@)),
        strs_of(r@).to_multiset() == strs_of(v@).to_multiset(),
{
    broadcast use vstd::seq_lib::group_to_multiset_ensures;

    let mut out: Vec<String> = Vec::new();
    let mut i: usize = 0;
    while i < v.len()
        invariant
            i <= v.len(),
            lex_sorted(strs_of(out@)),
            strs_of(out@).to_multiset() == strs_of(v@.take(i as int)).to_multiset(),
        decreases v.len() - i,
    {
        let x = v[i].clone();
        let xv = chars_of(x.as_str());
        let ghost os = strs_of(out@);
        let mut p: usize = 0;
        while p < out.len() && lex_le_exec(&chars_of(out[p].as_str()), &xv)
            invariant
                p <= out.len(),
                os == strs_of(out@),
                xv@ == x@,
                forall|j: int| 0 <= j < p ==> lex_le(#[trigger] os[j], x@),
            decreases out.len() - p,
        {
            assert(os[p as int] == out@[p as int]@);
            p += 1;
        }
        proof {
            if p < out.len() {
                lemma_lex_total(os[p as int], x@);
            }
            assert forall|a: int, b: int|
                0 <= a < b < os.len() + 1 implies lex_le(
                #[trigger] os.insert(p as int, x@)[a],
                #[trigger] os.insert(p as int, x@)[b],
            ) by {
                let t = os.insert(p as int, x@);
                if b < p {
                    assert(t[a] == os[a] && t[b] == os[b]);
                } else if b == p {
                    assert(t[a] == os[a] && t[b] == x@);
                } else if a < p {
                    assert(t[a] == os[a] && t[b] == os[b - 1]);
                    assert(lex_le(os[a], os[b - 1]));
                } else if a == p {
                    assert(t[a] == x@ && t[b] == os[b - 1]);
                    if p < b - 1 {
                        assert(lex_le(os[p as int], os[b - 1]));
                        lemma_lex_trans(x@, os[p as int], os[b - 1]);
                    }
                } else {
                    assert(t[a] == os[a - 1] && t[b] == os[b - 1]);
                }
            }
        }
        out.insert(p, x);
        assert(strs_of(out@) =~= os.insert(p as int, x@));
        assert(v@.take(i + 1) =~= v@.take(i as int).push(v@[i as int]));
        assert(strs_of(v@.take(i + 1)) =~= strs_of(v@.take(i as int)).push(x@));
        proof {
            vstd::seq_lib::to_multiset_insert(os, p as int, x@);
            vstd::seq_lib::to_multiset_build(strs_of(v@.take(i as int)), x@);
        }
        i += 1;
    }
    assert(v@.take(v.len() as int) =~= v@);
    out
}

} // verus!
