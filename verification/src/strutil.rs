//! Character-level string utilities: conversions between `String` and
//! `Vec<char>`, decimal rendering and parsing, lexicographic comparison,
//! non-overlapping textual replacement, and whitespace splitting.

use vstd::prelude::*;
use vstd::string::*;

verus! {

/// Relies on String::push: appends exactly one character to the string.
#[verifier::external_body]
pub(crate) fn push_char(s: &mut String, c: char)
    ensures
        final(s)@ == old(s)@.push(c),
{
    s.push(c);
}

/// The characters of a string slice, in order.
pub fn chars_of(s: &str) -> (r: Vec<char>)
    ensures
        r@ == s@,
{
    let n = s.unicode_len();
    let mut r: Vec<char> = Vec::new();
    let mut i: usize = 0;
    while i < n
        invariant
            i <= n,
            n == s@.len(),
            r@ == s@.take(i as int),
        decreases n - i,
    {
        let c = s.get_char(i);
        r.push(c);
        i = i + 1;
        proof {
            assert(s@.take(i as int) =~= s@.take(i - 1).push(s@[i - 1]));
        }
    }
    proof {
        assert(s@.take(n as int) =~= s@);
    }
    r
}

/// A `String` holding exactly the given characters.
pub fn string_of(v: &Vec<char>) -> (r: String)
    ensures
        r@ == v@,
{
    let mut s = String::new();
    let mut i: usize = 0;
    while i < v.len()
        invariant
            i <= v.len(),
            s@ == v@.take(i as int),
        decreases v.len() - i,
    {
        push_char(&mut s, v[i]);
        i = i + 1;
        proof {
            assert(v@.take(i as int) =~= v@.take(i - 1).push(v@[i - 1]));
        }
    }
    proof {
        assert(v@.take(v@.len() as int) =~= v@);
    }
    s
}

/// A copy of `v[from..to]`.
pub fn vec_slice(v: &Vec<char>, from: usize, to: usize) -> (r: Vec<char>)
    requires
        from <= to <= v@.len(),
    ensures
        r@ == v@.subrange(from as int, to as int),
{
    let mut r: Vec<char> = Vec::new();
    let mut i: usize = from;
    while i < to
        invariant
            from <= i <= to <= v@.len(),
            r@ == v@.subrange(from as int, i as int),
        decreases to - i,
    {
        r.push(v[i]);
        i = i + 1;
        proof {
            assert(v@.subrange(from as int, i as int) =~= v@.subrange(from as int, i - 1).push(
                v@[i - 1],
            ));
        }
    }
    r
}

/// The whitespace characters recognized when splitting argument strings.
pub open spec fn is_space_char(c: char) -> bool {
    c == ' ' || c == '\t' || c == '\n' || c == '\r'
}

/// Executable test matching `is_space_char`.
pub fn char_is_space(c: char) -> (r: bool)
    ensures
        r == is_space_char(c),
{
    c == ' ' || c == '\t' || c == '\n' || c == '\r'
}

pub open spec fn is_digit_char(c: char) -> bool {
    48 <= c as u32 <= 57
}

/// Executable test matching `is_digit_char`.
pub fn char_is_digit(c: char) -> (r: bool)
    ensures
        r == is_digit_char(c),
{
    let u = c as u32;
    48 <= u && u <= 57
}

/// The numeric value of a decimal digit character.
pub open spec fn digit_val(c: char) -> int {
    c as u32 - 48
}

/// The decimal digit character for a value in 0..10.
pub open spec fn digit_char(d: int) -> char {
    ((48 + d) as u8) as char
}

/// The decimal rendering of a non-negative integer, most significant
/// digit first, with no leading zeros (a single `'0'` for zero).
pub open spec fn spec_dec_digits(n: int) -> Seq<char>
    recommends
        n >= 0,
    decreases n,
{
    if n < 10 {
        seq![digit_char(n)]
    } else {
        spec_dec_digits(n / 10).push(digit_char(n % 10))
    }
}

/// Appends the decimal rendering of `n` to `out`.
pub fn push_dec_digits(n: u128, out: &mut Vec<char>)
    ensures
        final(out)@ == old(out)@ + spec_dec_digits(n as int),
    decreases n,
{
    if n < 10 {
        let d: u8 = (n as u8) + 48;
        out.push(d as char);
        proof {
            assert(out@ =~= old(out)@ + spec_dec_digits(n as int));
        }
    } else {
        push_dec_digits(n / 10, out);
        let d: u8 = ((n % 10) as u8) + 48;
        out.push(d as char);
        proof {
            assert(out@ =~= old(out)@ + spec_dec_digits(n as int));
        }
    }
}

/// The decimal rendering of `n` as a `String`.
pub fn usize_to_string(n: usize) -> (r: String)
    ensures
        r@ == spec_dec_digits(n as int),
{
    let mut v: Vec<char> = Vec::new();
    push_dec_digits(n as u128, &mut v);
    string_of(&v)
}

pub open spec fn all_digits(s: Seq<char>) -> bool {
    forall|i: int| 0 <= i < s.len() ==> is_digit_char(#[trigger] s[i])
}

/// The integer denoted by a sequence of decimal digit characters,
/// most significant first.
pub open spec fn digits_val(s: Seq<char>) -> int
    decreases s.len(),
{
    if s.len() == 0 {
        0
    } else {
        digits_val(s.drop_last()) * 10 + digit_val(s.last())
    }
}

pub proof fn lemma_digits_val_nonneg(s: Seq<char>)
    requires
        all_digits(s),
    ensures
        digits_val(s) >= 0,
    decreases s.len(),
{
    if s.len() > 0 {
        lemma_digits_val_nonneg(s.drop_last());
    }
}

/// Appending further digits can only increase a digit string's value.
pub proof fn lemma_digits_val_take_le(s: Seq<char>, k: int)
    requires
        all_digits(s),
        0 <= k <= s.len(),
    ensures
        digits_val(s.take(k)) <= digits_val(s),
    decreases s.len() - k,
{
    if k < s.len() {
        lemma_digits_val_nonneg(s.take(k));
        assert(s.take(k + 1).drop_last() =~= s.take(k));
        assert(digits_val(s.take(k + 1)) == digits_val(s.take(k)) * 10 + digit_val(s.take(k + 1).last()));
        lemma_digits_val_take_le(s, k + 1);
    } else {
        assert(s.take(k) =~= s);
    }
}

/// The value a decimal literal with optional `+` sign denotes, if it is
/// well-formed and at most `max`; mirrors how unsigned integers parse.
pub open spec fn spec_parse_uint(s: Seq<char>, max: int) -> Option<int> {
    let digits = if s.len() >= 1 && s[0] == '+' {
        s.drop_first()
    } else {
        s
    };
    if digits.len() == 0 {
        None
    } else if !all_digits(digits) {
        None
    } else if digits_val(digits) > max {
        None
    } else {
        Some(digits_val(digits))
    }
}

/// Parses an unsigned decimal literal (optional `+` sign), rejecting
/// values above `max`.
pub fn parse_unsigned(v: &Vec<char>, max: u64) -> (r: Option<u64>)
    ensures
        match r {
            Some(x) => spec_parse_uint(v@, max as int) == Some(x as int) && x <= max,
            None => spec_parse_uint(v@, max as int) is None,
        },
{
    let start: usize = if v.len() >= 1 && v[0] == '+' {
        1
    } else {
        0
    };
    let ghost digits = if start == 1 {
        v@.drop_first()
    } else {
        v@
    };
    proof {
        assert(digits =~= v@.skip(start as int));
    }
    if v.len() == start {
        return None;
    }
    let mut acc: u64 = 0;
    let mut i: usize = start;
    while i < v.len()
        invariant
            start <= i <= v@.len(),
            start == 0 || start == 1,
            (start == 1) == (v@.len() >= 1 && v@[0] == '+'),
            digits == v@.skip(start as int),
            digits == if start == 1 {
                v@.drop_first()
            } else {
                v@
            },
            all_digits(v@.subrange(start as int, i as int)),
            acc as int == digits_val(v@.subrange(start as int, i as int)),
            acc <= max,
        decreases v@.len() - i,
    {
        let c = v[i];
        if !char_is_digit(c) {
            proof {
                assert(digits[i - start] == c);
                assert(!all_digits(digits));
            }
            return None;
        }
        let d: u64 = (c as u32 - 48) as u64;
        let next: u64 = match acc.checked_mul(10) {
            Some(m) => match m.checked_add(d) {
                Some(n) => n,
                None => {
                    proof {
                        overflow_means_none(v@, digits, start as int, i as int, max as int);
                    }
                    return None;
                },
            },
            None => {
                proof {
                    overflow_means_none(v@, digits, start as int, i as int, max as int);
                }
                return None;
            },
        };
        if next > max {
            proof {
                overflow_means_none(v@, digits, start as int, i as int, max as int);
            }
            return None;
        }
        proof {
            assert(v@.subrange(start as int, i + 1).drop_last() =~= v@.subrange(
                start as int,
                i as int,
            ));
            assert forall|k: int| 0 <= k < i + 1 - start implies is_digit_char(
                #[trigger] v@.subrange(start as int, i + 1)[k],
            ) by {
                if k < i - start {
                    assert(v@.subrange(start as int, i + 1)[k] == v@.subrange(
                        start as int,
                        i as int,
                    )[k]);
                } else {
                    assert(v@.subrange(start as int, i + 1)[k] == v@[i as int]);
                }
            }
        }
        acc = next;
        i = i + 1;
    }
    proof {
        assert(v@.subrange(start as int, i as int) =~= digits);
    }
    Some(acc)
}

/// When one more digit would push the running value past `max`, the whole
/// literal denotes no value at most `max`.
proof fn overflow_means_none(s: Seq<char>, digits: Seq<char>, start: int, i: int, max: int)
    requires
        0 <= start <= i < s.len(),
        digits == s.skip(start),
        (start == 1) == (s.len() >= 1 && s[0] == '+'),
        start == 0 || start == 1,
        all_digits(s.subrange(start, i)),
        is_digit_char(s[i]),
        digits_val(s.subrange(start, i)) * 10 + digit_val(s[i]) > max,
    ensures
        spec_parse_uint(s, max) is None,
{
    if start == 1 {
        assert(s.drop_first() =~= s.skip(1));
    } else {
        assert(s.skip(0) =~= s);
    }
    if all_digits(digits) {
        assert(s.subrange(start, i + 1).drop_last() =~= s.subrange(start, i));
        assert(digits_val(s.subrange(start, i + 1)) > max);
        assert(digits.take(i + 1 - start) =~= s.subrange(start, i + 1));
        lemma_digits_val_take_le(digits, i + 1 - start);
    }
}

/// The value a signed decimal literal denotes, if well-formed and within
/// `[min, max]`; mirrors how signed integers parse.
pub open spec fn spec_parse_sint(s: Seq<char>, min: int, max: int) -> Option<int> {
    if s.len() >= 1 && s[0] == '-' {
        let digits = s.drop_first();
        if digits.len() == 0 || !all_digits(digits) {
            None
        } else if -digits_val(digits) < min {
            None
        } else {
            Some(-digits_val(digits))
        }
    } else {
        spec_parse_uint(s, max)
    }
}

/// Parses a signed decimal literal (optional `+` or `-` sign), rejecting
/// values outside `[min, max]`.
pub fn parse_signed(v: &Vec<char>, min: i64, max: i64) -> (r: Option<i64>)
    requires
        min <= 0 <= max,
    ensures
        match r {
            Some(x) => spec_parse_sint(v@, min as int, max as int) == Some(x as int) && min <= x
                <= max,
            None => spec_parse_sint(v@, min as int, max as int) is None,
        },
{
    if v.len() >= 1 && v[0] == '-' {
        let rest = vec_slice(v, 1, v.len());
        proof {
            assert(rest@ =~= v@.drop_first());
        }
        let bound: u64 = ((-(min as i128)) as u64);
        match parse_unsigned(&rest, bound) {
            Some(mag) => {
                if rest.len() >= 1 && rest[0] == '+' {
                    // a sign after the sign, as in "-+3", is not a number
                    proof {
                        assert(!all_digits(v@.drop_first()));
                    }
                    None
                } else {
                    let val: i64 = ((-(mag as i128)) as i64);
                    Some(val)
                }
            },
            None => {
                proof {
                    let digits = v@.drop_first();
                    if digits.len() >= 1 && digits[0] == '+' {
                        assert(!all_digits(digits));
                    }
                }
                None
            },
        }
    } else {
        match parse_unsigned(v, max as u64) {
            Some(x) => Some(x as i64),
            None => None,
        }
    }
}

/// Lexicographic order on character sequences, by code point.
pub open spec fn lex_le(a: Seq<char>, b: Seq<char>) -> bool
    decreases a.len(),
{
    if a.len() == 0 {
        true
    } else if b.len() == 0 {
        false
    } else if (a[0] as u32) < (b[0] as u32) {
        true
    } else if (a[0] as u32) > (b[0] as u32) {
        false
    } else {
        lex_le(a.drop_first(), b.drop_first())
    }
}

/// Executable comparison matching `lex_le`.
pub fn chars_le(a: &Vec<char>, b: &Vec<char>) -> (r: bool)
    ensures
        r == lex_le(a@, b@),
{
    let mut i: usize = 0;
    proof {
        assert(a@.skip(0) =~= a@);
        assert(b@.skip(0) =~= b@);
    }
    loop
        invariant
            i <= a@.len(),
            i <= b@.len(),
            lex_le(a@, b@) == lex_le(a@.skip(i as int), b@.skip(i as int)),
        decreases a@.len() - i,
    {
        if i == a.len() {
            proof {
                assert(a@.skip(i as int) =~= Seq::<char>::empty());
            }
            return true;
        }
        if i == b.len() {
            proof {
                assert(b@.skip(i as int) =~= Seq::<char>::empty());
            }
            return false;
        }
        let ca = a[i];
        let cb = b[i];
        if (ca as u32) < (cb as u32) {
            return true;
        }
        if (ca as u32) > (cb as u32) {
            return false;
        }
        i = i + 1;
        proof {
            assert(a@.skip(i - 1).drop_first() =~= a@.skip(i as int));
            assert(b@.skip(i - 1).drop_first() =~= b@.skip(i as int));
        }
    }
}

/// The result of replacing, left to right and without rescanning the
/// replacement text, every occurrence of `pat` in `s` by `rep`; with an
/// empty pattern the text is unchanged.
pub open spec fn replace_from(s: Seq<char>, pat: Seq<char>, rep: Seq<char>) -> Seq<char>
    decreases s.len(),
{
    if pat.len() == 0 {
        s
    } else if s.len() == 0 {
        Seq::empty()
    } else if pat.len() <= s.len() && s.take(pat.len() as int) == pat {
        rep + replace_from(s.skip(pat.len() as int), pat, rep)
    } else {
        seq![s[0]] + replace_from(s.drop_first(), pat, rep)
    }
}

/// Whether `pat` occurs in `s` starting at position `i`.
fn matches_at(s: &Vec<char>, pat: &Vec<char>, i: usize) -> (r: bool)
    requires
        i <= s@.len(),
    ensures
        r == (i + pat@.len() <= s@.len() && s@.skip(i as int).take(pat@.len() as int) == pat@),
{
    if pat.len() > s.len() - i {
        return false;
    }
    let slen = s.len();
    let mut j: usize = 0;
    while j < pat.len()
        invariant
            j <= pat@.len(),
            slen == s@.len(),
            i + pat@.len() <= slen,
            forall|k: int| 0 <= k < j ==> s@[i + k] == pat@[k],
        decreases pat@.len() - j,
    {
        if s[i + j] != pat[j] {
            proof {
                assert(s@.skip(i as int).take(pat@.len() as int)[j as int] == s@[i + j]);
            }
            return false;
        }
        j = j + 1;
    }
    proof {
        assert(s@.skip(i as int).take(pat@.len() as int) =~= pat@);
    }
    true
}

/// Replaces every occurrence of `pat` in `s` by `rep`, left to right.
pub fn replace_all(s: &Vec<char>, pat: &Vec<char>, rep: &Vec<char>) -> (r: Vec<char>)
    requires
        pat@.len() > 0,
    ensures
        r@ == replace_from(s@, pat@, rep@),
{
    let mut out: Vec<char> = Vec::new();
    let mut i: usize = 0;
    proof {
        assert(s@.skip(0) =~= s@);
        assert(out@ + replace_from(s@, pat@, rep@) =~= replace_from(s@, pat@, rep@));
    }
    while i < s.len()
        invariant
            i <= s@.len(),
            pat@.len() > 0,
            replace_from(s@, pat@, rep@) == out@ + replace_from(s@.skip(i as int), pat@, rep@),
        decreases s@.len() - i,
    {
        let ghost prev = i as int;
        if matches_at(s, pat, i) {
            let ghost out0 = out@;
            let mut j: usize = 0;
            while j < rep.len()
                invariant
                    j <= rep@.len(),
                    out@ == out0 + rep@.take(j as int),
                decreases rep@.len() - j,
            {
                out.push(rep[j]);
                j = j + 1;
                proof {
                    assert(rep@.take(j as int) =~= rep@.take(j - 1).push(rep@[j - 1]));
                }
            }
            i = i + pat.len();
            proof {
                assert(rep@.take(rep@.len() as int) =~= rep@);
                assert(s@.skip(prev).skip(pat@.len() as int) =~= s@.skip(i as int));
                assert(out0 + rep@ + replace_from(s@.skip(i as int), pat@, rep@) =~= out0 + (rep@
                    + replace_from(s@.skip(i as int), pat@, rep@)));
            }
        } else {
            let ghost out0 = out@;
            out.push(s[i]);
            i = i + 1;
            proof {
                assert(s@.skip(prev).drop_first() =~= s@.skip(i as int));
                assert(s@.skip(prev)[0] == s@[prev]);
                assert(out@ =~= out0 + seq![s@[prev]]);
                assert(out0 + seq![s@[prev]] + replace_from(s@.skip(i as int), pat@, rep@) =~= out0
                    + (seq![s@[prev]] + replace_from(s@.skip(i as int), pat@, rep@)));
            }
        }
    }
    proof {
        assert(s@.skip(i as int) =~= Seq::<char>::empty());
        assert(out@ + Seq::<char>::empty() =~= out@);
    }
    out
}

/// Splitting helper: the words of `s` given that `cur` holds the
/// (possibly empty) word read so far.
pub open spec fn split_acc(s: Seq<char>, cur: Seq<char>) -> Seq<Seq<char>>
    decreases s.len(),
{
    if s.len() == 0 {
        if cur.len() == 0 {
            Seq::empty()
        } else {
            seq![cur]
        }
    } else if is_space_char(s[0]) {
        if cur.len() == 0 {
            split_acc(s.drop_first(), Seq::empty())
        } else {
            seq![cur] + split_acc(s.drop_first(), Seq::empty())
        }
    } else {
        split_acc(s.drop_first(), cur.push(s[0]))
    }
}

/// The whitespace-separated words of `s`, in order; empty words do not
/// occur (consecutive separators collapse).
pub open spec fn spec_split_ws(s: Seq<char>) -> Seq<Seq<char>> {
    split_acc(s, Seq::empty())
}

/// Splits `v` into its whitespace-separated words.
pub fn split_ws(v: &Vec<char>) -> (r: Vec<Vec<char>>)
    ensures
        r.deep_view() == spec_split_ws(v@),
{
    let mut out: Vec<Vec<char>> = Vec::new();
    let mut cur: Vec<char> = Vec::new();
    let mut i: usize = 0;
    proof {
        assert(v@.skip(0) =~= v@);
        assert(out.deep_view() + split_acc(v@, cur@) =~= split_acc(v@, cur@));
    }
    while i < v.len()
        invariant
            i <= v@.len(),
            spec_split_ws(v@) == out.deep_view() + split_acc(v@.skip(i as int), cur@),
        decreases v@.len() - i,
    {
        let c = v[i];
        let ghost pre = v@.skip(i as int);
        let ghost dv0 = out.deep_view();
        let ghost cur0 = cur@;
        if char_is_space(c) {
            if cur.len() > 0 {
                out.push(cur);
                cur = Vec::new();
                proof {
                    assert(cur@ =~= Seq::<char>::empty());
                    assert(out.deep_view() =~~= dv0 + seq![cur0]);
                    assert(dv0 + seq![cur0] + split_acc(pre.drop_first(), Seq::empty()) =~~= dv0 + (
                    seq![cur0] + split_acc(pre.drop_first(), Seq::empty())));
                }
            } else {
                proof {
                    assert(cur@ =~= Seq::<char>::empty());
                }
            }
        } else {
            cur.push(c);
        }
        i = i + 1;
        proof {
            assert(pre.drop_first() =~= v@.skip(i as int));
            assert(pre[0] == v@[i - 1]);
        }
    }
    proof {
        assert(v@.skip(i as int) =~= Seq::<char>::empty());
    }
    let ghost dv1 = out.deep_view();
    let ghost cur1 = cur@;
    if cur.len() > 0 {
        out.push(cur);
        proof {
            assert(out.deep_view() =~~= dv1 + seq![cur1]);
        }
    } else {
        proof {
            assert(dv1 + split_acc(Seq::<char>::empty(), cur1) =~~= dv1);
        }
    }
    out
}

} // verus!
