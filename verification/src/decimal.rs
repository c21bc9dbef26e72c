//! Decimal numerals: parsing as `u64::from_str` does, and printing with
//! zero padding as `format!("{:0w$}")` does.

use vstd::prelude::*;

verus! {

/// An ASCII decimal digit.
pub open spec fn is_digit(c: char) -> bool {
    '0' <= c && c <= '9'
}

/// Every character of `s` is an ASCII decimal digit.
pub open spec fn all_digits(s: Seq<char>) -> bool {
    forall|i: int| 0 <= i < s.len() ==> is_digit(#[trigger] s[i])
}

/// The value of one digit character.
pub open spec fn digit_value(c: char) -> int {
    c as int - '0' as int
}

/// The value of a string of decimal digits.
pub open spec fn dec_value(s: Seq<char>) -> int
    decreases s.len(),
{
    if s.len() == 0 {
        0
    } else {
        dec_value(s.drop_last()) * 10 + digit_value(s.last())
    }
}

/// `u64::from_str`: an optional `+`, then one or more ASCII digits whose
/// value fits in 64 bits.
pub open spec fn parse_u64(s: Seq<char>) -> Option<int> {
    let d = if s.len() > 0 && s[0] == '+' {
        s.skip(1)
    } else {
        s
    };
    if d.len() > 0 && all_digits(d) && dec_value(d) <= u64::MAX {
        Some(dec_value(d))
    } else {
        None
    }
}

/// The digit character of `d` (`0 <= d < 10`).
pub open spec fn digit_char(d: int) -> char {
    if d == 0 {
        '0'
    } else if d == 1 {
        '1'
    } else if d == 2 {
        '2'
    } else if d == 3 {
        '3'
    } else if d == 4 {
        '4'
    } else if d == 5 {
        '5'
    } else if d == 6 {
        '6'
    } else if d == 7 {
        '7'
    } else if d == 8 {
        '8'
    } else {
        '9'
    }
}

/// The decimal numeral of `n`, without leading zeros.
pub open spec fn dec_digits(n: nat) -> Seq<char>
    decreases n,
{
    if n < 10 {
        seq![digit_char(n as int)]
    } else {
        dec_digits(n / 10).push(digit_char((n % 10) as int))
    }
}

/// `k` zero characters (none when `k <= 0`).
pub open spec fn zeros(k: int) -> Seq<char> {
    Seq::new(
        if k > 0 {
            k as nat
        } else {
            0
        },
        |i: int| '0',
    )
}

/// The numeral of `n` left-padded with zeros to at least `w` characters.
pub open spec fn padded(n: nat, w: int) -> Seq<char> {
    zeros(w - dec_digits(n).len()) + dec_digits(n)
}

// ---------------------------------------------------------------------------
// Lemmas
// ---------------------------------------------------------------------------

/// Facts about one digit character.
pub proof fn lemma_digit_char(d: int)
    requires
        0 <= d < 10,
    ensures
        is_digit(digit_char(d)),
        digit_value(digit_char(d)) == d,
{
}

/// The numeral of `n` is a non-empty string of digits with value `n`.
pub proof fn lemma_dec_digits(n: nat)
    ensures
        dec_digits(n).len() >= 1,
        all_digits(dec_digits(n)),
        dec_value(dec_digits(n)) == n,
    decreases n,
{
    if n < 10 {
        lemma_digit_char(n as int);
        let s = dec_digits(n);
        assert(s.drop_last() =~= Seq::<char>::empty());
        assert(dec_value(s.drop_last()) == 0);
        assert(s.last() == digit_char(n as int));
        assert(dec_value(s) == n);
    } else {
        lemma_dec_digits(n / 10);
        lemma_digit_char((n % 10) as int);
        let s = dec_digits(n);
        assert(s.drop_last() =~= dec_digits(n / 10));
        assert(s.last() == digit_char((n % 10) as int));
        assert(dec_value(s) == dec_value(dec_digits(n / 10)) * 10 + (n % 10) as int);
        assert((n / 10) * 10 + n % 10 == n);
        assert forall|i: int| 0 <= i < s.len() implies is_digit(#[trigger] s[i]) by {
            if i < s.len() - 1 {
                assert(s[i] == dec_digits(n / 10)[i]);
            }
        }
    }
}

/// Leading zeros change neither digit-ness nor value.
pub proof fn lemma_dec_value_zeros(k: int, s: Seq<char>)
    ensures
        dec_value(zeros(k) + s) == dec_value(s),
        all_digits(s) ==> all_digits(zeros(k) + s),
    decreases s.len(),
{
    let z = zeros(k);
    if s.len() == 0 {
        assert(z + s =~= z);
        lemma_dec_value_all_zero(z);
    } else {
        lemma_dec_value_zeros(k, s.drop_last());
        assert((z + s).drop_last() =~= z + s.drop_last());
        assert((z + s).last() == s.last());
    }
    if all_digits(s) {
        assert forall|i: int| 0 <= i < (z + s).len() implies is_digit(#[trigger] (z + s)[i]) by {
            if i < z.len() {
            } else {
                assert((z + s)[i] == s[i - z.len()]);
            }
        }
    }
}

/// A string of zeros has value zero.
pub proof fn lemma_dec_value_all_zero(z: Seq<char>)
    requires
        forall|i: int| 0 <= i < z.len() ==> z[i] == '0',
    ensures
        dec_value(z) == 0,
    decreases z.len(),
{
    if z.len() > 0 {
        lemma_dec_value_all_zero(z.drop_last());
    }
}

/// The value of a digit string is non-negative and at least that of any
/// prefix.
pub proof fn lemma_dec_value_prefix(s: Seq<char>, k: int)
    requires
        all_digits(s),
        0 <= k <= s.len(),
    ensures
        0 <= dec_value(s.take(k)) <= dec_value(s),
    decreases s.len(),
{
    if s.len() == 0 {
        assert(s.take(k) =~= s);
    } else if k == s.len() {
        assert(s.take(k) =~= s);
        lemma_dec_value_prefix(s.drop_last(), 0);
        assert(s.drop_last().take(0) =~= Seq::<char>::empty());
        assert(is_digit(s[s.len() - 1]));
    } else {
        assert(all_digits(s.drop_last()));
        lemma_dec_value_prefix(s.drop_last(), k);
        assert(s.drop_last().take(k) =~= s.take(k));
        assert(is_digit(s[s.len() - 1]));
    }
}

/// A zero-padded numeral of a 64-bit value parses back to that value.
pub proof fn lemma_parse_padded(n: nat, w: int)
    requires
        n <= u64::MAX,
    ensures
        parse_u64(padded(n, w)) == Some(n as int),
        padded(n, w).len() >= 1,
        all_digits(padded(n, w)),
{
    lemma_dec_digits(n);
    let d = dec_digits(n);
    lemma_dec_value_zeros(w - d.len(), d);
    let p = padded(n, w);
    assert(is_digit(p[0]));
}

/// A larger number has no fewer digits.
pub proof fn lemma_dec_len_mono(n: nat, m: nat)
    requires
        n <= m,
    ensures
        dec_digits(n).len() <= dec_digits(m).len(),
    decreases m,
{
    if n >= 10 {
        lemma_dec_len_mono(n / 10, m / 10);
    }
    if m >= 10 {
        lemma_dec_digits(m / 10);
    }
}

/// The numeral of `n` padded to `w`, where its digits fit in `w`, has `w`
/// digits and value `n`.
pub proof fn lemma_padded_exact(n: nat, w: int)
    requires
        dec_digits(n).len() <= w,
    ensures
        padded(n, w).len() == w,
        all_digits(padded(n, w)),
        dec_value(padded(n, w)) == n,
{
    lemma_dec_digits(n);
    lemma_dec_value_zeros(w - dec_digits(n).len(), dec_digits(n));
}

/// The value of a digit string read from its first digit: that digit's
/// value times `10^(len - 1)`, plus the value of the rest.
pub proof fn lemma_dec_value_front(s: Seq<char>)
    requires
        s.len() >= 1,
    ensures
        dec_value(s) == digit_value(s[0]) * pow10((s.len() - 1) as nat) + dec_value(s.skip(1)),
    decreases s.len(),
{
    if s.len() == 1 {
        assert(s.skip(1) =~= Seq::<char>::empty());
        assert(s.drop_last() =~= Seq::<char>::empty());
        assert(s.last() == s[0]);
        assert(dec_value(s.drop_last()) == 0);
        assert(dec_value(s) == digit_value(s[0]));
        let one = pow10(0);
        assert(one == 1);
        let x = digit_value(s[0]);
        assert(x * one == x) by (nonlinear_arith)
            requires
                one == 1,
        ;
        assert(dec_value(s.skip(1)) == 0);
    } else {
        let t = s.drop_last();
        lemma_dec_value_front(t);
        assert(t[0] == s[0]);
        assert(s.skip(1).drop_last() =~= t.skip(1));
        assert(s.skip(1).last() == s.last());
        let x = digit_value(s[0]);
        let p = pow10((t.len() - 1) as nat);
        let v = dec_value(t.skip(1));
        assert(pow10((s.len() - 1) as nat) == 10 * p);
        assert(dec_value(s) == dec_value(t) * 10 + digit_value(s.last()));
        assert(dec_value(s.skip(1)) == v * 10 + digit_value(s.last()));
        assert((x * p + v) * 10 + digit_value(s.last()) == x * (10 * p) + (v * 10 + digit_value(
            s.last(),
        ))) by (nonlinear_arith);
    }
}

/// A digit string of length `k` has a value below `10^k`.
pub proof fn lemma_dec_value_bound(s: Seq<char>)
    requires
        all_digits(s),
    ensures
        0 <= dec_value(s) < pow10(s.len()),
    decreases s.len(),
{
    if s.len() > 0 {
        let t = s.drop_last();
        assert(all_digits(t));
        lemma_dec_value_bound(t);
        assert(is_digit(s[s.len() - 1]));
        let v = dec_value(t);
        let p = pow10(t.len());
        let d = digit_value(s.last());
        assert(pow10(s.len()) == 10 * p);
        assert(0 <= v * 10 + d < 10 * p) by (nonlinear_arith)
            requires
                0 <= v < p,
                0 <= d <= 9,
        ;
    }
}

// ---------------------------------------------------------------------------
// Executable functions
// ---------------------------------------------------------------------------

/// `u64::from_str` on a character vector.
pub fn parse_u64_exec(s: &Vec<char>) -> (r: Option<u64>)
    ensures
        match r {
            Some(v) => parse_u64(s@) == Some(v as int),
            None => parse_u64(s@) is None,
        },
{
    let start: usize = if s.len() > 0 && s[0] == '+' {
        1
    } else {
        0
    };
    let ghost d = if s@.len() > 0 && s@[0] == '+' {
        s@.skip(1)
    } else {
        s@
    };
    assert(d =~= s@.subrange(start as int, s.len() as int));
    assert(parse_u64(s@) == (if d.len() > 0 && all_digits(d) && dec_value(d) <= u64::MAX {
        Some(dec_value(d))
    } else {
        None
    }));
    if start >= s.len() {
        return None;
    }
    let mut v: u64 = 0;
    let mut i: usize = start;
    while i < s.len()
        invariant
            start <= i <= s.len(),
            d == s@.subrange(start as int, s.len() as int),
            parse_u64(s@) == (if d.len() > 0 && all_digits(d) && dec_value(d) <= u64::MAX {
                Some(dec_value(d))
            } else {
                None
            }),
            all_digits(d.take(i - start)),
            v as int == dec_value(d.take(i - start)),
        decreases s.len() - i,
    {
        let c = s[i];
        assert(d[i - start] == c);
        if !(c >= '0' && c <= '9') {
            assert(!all_digits(d));
            assert(parse_u64(s@) is None);
            return None;
        }
        let dv = (c as u32 - '0' as u32) as u64;
        assert(d.take(i - start + 1).drop_last() =~= d.take(i - start));
        assert(d.take(i - start + 1).last() == c);
        assert forall|j: int| 0 <= j < i - start + 1 implies is_digit(
            #[trigger] d.take(i - start + 1)[j],
        ) by {
            if j < i - start {
                assert(d.take(i - start + 1)[j] == d.take(i - start)[j]);
            }
        }
        assert(dv as int == digit_value(c));
        assert(dec_value(d.take(i - start + 1)) == v as int * 10 + dv as int);
        match v.checked_mul(10) {
            Some(m) => match m.checked_add(dv) {
                Some(nv) => {
                    v = nv;
                },
                None => {
                    proof {
                        lemma_overflow_is_final(d, i - start + 1);
                    }
                    assert(parse_u64(s@) is None);
                    return None;
                },
            },
            None => {
                proof {
                    lemma_overflow_is_final(d, i - start + 1);
                }
                assert(parse_u64(s@) is None);
                return None;
            },
        }
        i += 1;
    }
    assert(d.take(i - start) =~= d);
    Some(v)
}

/// Once a prefix of the digits exceeds 64 bits, the whole string does, or
/// it holds a non-digit.
proof fn lemma_overflow_is_final(d: Seq<char>, k: int)
    requires
        0 <= k <= d.len(),
        dec_value(d.take(k)) > u64::MAX,
    ensures
        !(all_digits(d) && dec_value(d) <= u64::MAX),
{
    if all_digits(d) {
        lemma_dec_value_prefix(d, k);
    }
}

/// The digit character for `d < 10`.
pub fn digit_to_char(d: u64) -> (c: char)
    requires
        d < 10,
    ensures
        c == digit_char(d as int),
{
    if d == 0 {
        '0'
    } else if d == 1 {
        '1'
    } else if d == 2 {
        '2'
    } else if d == 3 {
        '3'
    } else if d == 4 {
        '4'
    } else if d == 5 {
        '5'
    } else if d == 6 {
        '6'
    } else if d == 7 {
        '7'
    } else if d == 8 {
        '8'
    } else {
        '9'
    }
}

/// Appends the numeral of `n` to `out`.
pub fn push_dec(out: &mut Vec<char>, n: u64)
    ensures
        final(out)@ == old(out)@ + dec_digits(n as nat),
    decreases n,
{
    if n >= 10 {
        push_dec(out, n / 10);
    }
    let ghost before = out@;
    out.push(digit_to_char(n % 10));
    proof {
        if n < 10 {
            assert(out@ =~= old(out)@ + dec_digits(n as nat));
        } else {
            assert(out@ =~= old(out)@ + dec_digits(n as nat));
        }
    }
}

/// The number of digits in the numeral of `n`.
pub fn dec_len(n: u64) -> (k: usize)
    ensures
        k == dec_digits(n as nat).len(),
        1 <= k <= 20,
    decreases n,
{
    if n < 10 {
        1
    } else {
        proof {
            lemma_dec_len_bound(n as nat);
        }
        dec_len(n / 10) + 1
    }
}

/// Numerals of 64-bit values have at most 20 digits.
proof fn lemma_dec_len_bound(n: nat)
    ensures
        n <= u64::MAX ==> dec_digits(n).len() <= 20,
        n < 10 ==> dec_digits(n).len() == 1,
        n >= 10 ==> dec_digits(n).len() == dec_digits(n / 10).len() + 1,
{
    if n <= u64::MAX {
        reveal_with_fuel(pow10, 21);
        assert(pow10(20) == 100000000000000000000nat);
        lemma_dec_len_le(n, 20);
    }
}

/// `n < 10^k` (for `k >= 1`) has at most `k` digits.
proof fn lemma_dec_len_le(n: nat, k: nat)
    requires
        k >= 1,
        n < pow10(k),
    ensures
        dec_digits(n).len() <= k,
    decreases k,
{
    if n >= 10 {
        assert(k >= 2) by {
            if k == 1 {
                assert(pow10(1) == 10 * pow10(0));
            }
        }
        assert(n / 10 < pow10((k - 1) as nat)) by {
            assert(pow10(k) == 10 * pow10((k - 1) as nat));
        }
        lemma_dec_len_le(n / 10, (k - 1) as nat);
    }
}

/// Ten to the power `k`.
pub open spec fn pow10(k: nat) -> nat
    decreases k,
{
    if k == 0 {
        1
    } else {
        10 * pow10((k - 1) as nat)
    }
}

/// Appends the numeral of `n`, left-padded with zeros to `w` characters.
pub fn push_padded(out: &mut Vec<char>, n: u64, w: usize)
    ensures
        final(out)@ == old(out)@ + padded(n as nat, w as int),
{
    let k = dec_len(n);
    let ghost before = out@;
    let mut z: usize = k;
    while z < w
        invariant
            k <= z,
            z <= w || z == k,
            out@ == before + zeros(z - k),
        decreases w - z,
    {
        out.push('0');
        assert(zeros(z + 1 - k) =~= zeros(z - k).push('0'));
        z += 1;
    }
    assert(zeros(z - k) =~= zeros(w - k));
    push_dec(out, n);
    assert(out@ =~= before + padded(n as nat, w as int));
}

} // verus!
