//! Names of the saved calibration images: `left_NN.png` / `right_NN.png`
//! pairs, numbered from one.
use vstd::prelude::*;
use vstd::string::{StrSliceExecFns, StringExecFns};
use crate::text::{
    chars_of, contains_range, contains_seq, decimal, digit_char, occurs_at, occurs_at_range, push_decimal,
};

verus! {

broadcast use vstd::string::group_string_axioms;

pub open spec fn left_prefix() -> Seq<char> {
    seq!['l', 'e', 'f', 't', '_']
}

pub open spec fn png_suffix() -> Seq<char> {
    seq!['.', 'p', 'n', 'g']
}

pub open spec fn left_tag() -> Seq<char> {
    seq!['_', 'l', 'e', 'f', 't']
}

pub open spec fn right_tag() -> Seq<char> {
    seq!['_', 'r', 'i', 'g', 'h', 't']
}

pub open spec fn left_word() -> Seq<char> {
    seq!['l', 'e', 'f', 't']
}

pub open spec fn right_word() -> Seq<char> {
    seq!['r', 'i', 'g', 'h', 't']
}

pub open spec fn starts_with(s: Seq<char>, p: Seq<char>) -> bool {
    p.len() <= s.len() && s.take(p.len() as int) == p
}

pub open spec fn ends_with(s: Seq<char>, p: Seq<char>) -> bool {
    p.len() <= s.len() && s.skip(s.len() - p.len()) == p
}

/// `s` with every leading repetition of `p` removed (`str::trim_start_matches`).
pub open spec fn strip_leading(s: Seq<char>, p: Seq<char>) -> Seq<char>
    decreases s.len(),
{
    if p.len() > 0 && starts_with(s, p) {
        strip_leading(s.skip(p.len() as int), p)
    } else {
        s
    }
}

/// `s` with every trailing repetition of `p` removed (`str::trim_end_matches`).
pub open spec fn strip_trailing(s: Seq<char>, p: Seq<char>) -> Seq<char>
    decreases s.len(),
{
    if p.len() > 0 && ends_with(s, p) {
        strip_trailing(s.take(s.len() - p.len()), p)
    } else {
        s
    }
}

pub open spec fn is_digit(c: char) -> bool {
    '0' <= c <= '9'
}

pub open spec fn all_digits(s: Seq<char>) -> bool {
    forall|i: int| 0 <= i < s.len() ==> is_digit(#[trigger] s[i])
}

/// Value of a string of decimal digits.
pub open spec fn digits_value(s: Seq<char>) -> int
    decreases s.len(),
{
    if s.len() == 0 {
        0
    } else {
        digits_value(s.drop_last()) * 10 + (s.last() as int - '0' as int)
    }
}

/// What `str::parse::<u32>` gives: an optional `+` followed by at least one
/// decimal digit, of value at most `u32::MAX`.
pub open spec fn parse_u32(s: Seq<char>) -> Option<u32> {
    let d = if s.len() > 0 && s[0] == '+' {
        s.skip(1)
    } else {
        s
    };
    if d.len() > 0 && all_digits(d) && digits_value(d) <= u32::MAX {
        Some(digits_value(d) as u32)
    } else {
        None
    }
}

/// The pair number a file name carries, for names `left_<n>.png`.
pub open spec fn saved_index(name: Seq<char>) -> Option<u32> {
    if starts_with(name, left_prefix()) && ends_with(name, png_suffix()) {
        parse_u32(strip_trailing(strip_leading(name, left_prefix()), png_suffix()))
    } else {
        None
    }
}

/// Largest pair number among the names, zero when there is none.
pub open spec fn max_saved_index(names: Seq<Seq<char>>) -> int
    decreases names.len(),
{
    if names.len() == 0 {
        0
    } else {
        let m = max_saved_index(names.drop_last());
        match saved_index(names.last()) {
            Some(v) => if v > m {
                v as int
            } else {
                m
            },
            None => m,
        }
    }
}

proof fn lemma_digits_value_prefix(s: Seq<char>, i: int)
    requires
        all_digits(s),
        0 <= i <= s.len(),
    ensures
        0 <= digits_value(s.take(i)) <= digits_value(s),
    decreases s.len(),
{
    if s.len() > 0 {
        if i == s.len() {
            assert(s.take(i) =~= s);
            lemma_digits_value_prefix(s.drop_last(), s.len() - 1);
            assert(s.drop_last().take(s.len() - 1) =~= s.drop_last());
        } else {
            lemma_digits_value_prefix(s.drop_last(), i);
            assert(s.drop_last().take(i) =~= s.take(i));
            lemma_digits_value_prefix(s.drop_last(), s.len() - 1);
            assert(s.drop_last().take(s.len() - 1) =~= s.drop_last());
        }
    } else {
        assert(s.take(i) =~= s);
    }
}

proof fn lemma_max_saved_index_bounds(names: Seq<Seq<char>>)
    ensures
        0 <= max_saved_index(names) <= u32::MAX,
        forall|i: int|
            0 <= i < names.len() ==> ((#[trigger] saved_index(names[i])) matches Some(v) ==> v
                <= max_saved_index(names)),
    decreases names.len(),
{
    if names.len() > 0 {
        lemma_max_saved_index_bounds(names.drop_last());
        assert forall|i: int|
            0 <= i < names.len() implies ((#[trigger] saved_index(names[i])) matches Some(v) ==> v
            <= max_saved_index(names)) by {
            if i < names.len() - 1 {
                assert(names[i] == names.drop_last()[i]);
            }
        }
    }
}

/// Parses the characters `lo..hi` of `v` as `str::parse::<u32>` does.
fn parse_u32_range(v: &Vec<char>, lo: usize, hi: usize) -> (r: Option<u32>)
    requires
        lo <= hi <= v@.len(),
    ensures
        r == parse_u32(v@.subrange(lo as int, hi as int)),
{
    let ghost s = v@.subrange(lo as int, hi as int);
    let start = if lo < hi && v[lo] == '+' {
        lo + 1
    } else {
        lo
    };
    let ghost d = v@.subrange(start as int, hi as int);
    assert(d == if s.len() > 0 && s[0] == '+' {
        s.skip(1)
    } else {
        s
    });
    if start == hi {
        return None;
    }
    let mut i = start;
    while i < hi
        invariant
            lo <= start <= i <= hi <= v@.len(),
            d == v@.subrange(start as int, hi as int),
            s == v@.subrange(lo as int, hi as int),
            d == if s.len() > 0 && s[0] == '+' {
                s.skip(1)
            } else {
                s
            },
            forall|k: int| 0 <= k < i - start ==> is_digit(#[trigger] d[k]),
        decreases hi - i,
    {
        let c = v[i];
        if !('0' <= c && c <= '9') {
            assert(!is_digit(d[i - start]));
            assert(!all_digits(d));
            return None;
        }
        i = i + 1;
    }
    assert(all_digits(d));
    let mut acc: u64 = 0;
    let mut k = start;
    while k < hi
        invariant
            lo <= start <= k <= hi <= v@.len(),
            d == v@.subrange(start as int, hi as int),
            s == v@.subrange(lo as int, hi as int),
            d == if s.len() > 0 && s[0] == '+' {
                s.skip(1)
            } else {
                s
            },
            all_digits(d),
            acc == digits_value(d.take(k - start)),
            acc <= u32::MAX,
        decreases hi - k,
    {
        let c = v[k];
        proof {
            assert(d.take(k + 1 - start).drop_last() =~= d.take(k - start));
            assert(d[k - start] == c);
        }
        let digit = (c as u32 - '0' as u32) as u64;
        acc = acc * 10 + digit;
        if acc > u32::MAX as u64 {
            proof {
                lemma_digits_value_prefix(d, k + 1 - start);
                assert(digits_value(d) > u32::MAX);
            }
            return None;
        }
        k = k + 1;
    }
    assert(d.take(hi - start) =~= d);
    Some(acc as u32)
}

fn left_prefix_chars() -> (v: Vec<char>)
    ensures
        v@ == left_prefix(),
{
    let mut v: Vec<char> = Vec::new();
    v.push('l');
    v.push('e');
    v.push('f');
    v.push('t');
    v.push('_');
    assert(v@ =~= left_prefix());
    v
}

fn png_suffix_chars() -> (v: Vec<char>)
    ensures
        v@ == png_suffix(),
{
    let mut v: Vec<char> = Vec::new();
    v.push('.');
    v.push('p');
    v.push('n');
    v.push('g');
    assert(v@ =~= png_suffix());
    v
}

/// The pair number a file name carries (see `saved_index`).
pub fn saved_pair_index(name: &str) -> (r: Option<u32>)
    ensures
        r == saved_index(name@),
{
    let v = chars_of(name);
    let prefix = left_prefix_chars();
    let suffix = png_suffix_chars();
    let n = v.len();
    let ghost s = v@;
    assert(v@.subrange(0, n as int) =~= s);
    let has_prefix = occurs_at_range(&v, 0, n, prefix.as_slice(), 0);
    let has_suffix = n >= 4 && occurs_at_range(&v, 0, n, suffix.as_slice(), n - 4);
    proof {
        if n >= 4 {
            assert(s.subrange(n - 4, n as int) =~= s.skip(n - 4));
        }
        assert(s.subrange(0, 5) =~= s.take(5)) by {
            if n >= 5 {
            }
        }
    }
    if !(has_prefix && has_suffix) {
        proof {
            if starts_with(s, left_prefix()) {
                assert(s.subrange(0, 5) =~= s.take(5));
            }
            if ends_with(s, png_suffix()) {
                assert(s.subrange(n - 4, n as int) =~= s.skip(n - 4));
            }
        }
        return None;
    }
    proof {
        assert(s.subrange(0, 5) =~= s.take(5));
    }
    let mut lo: usize = 0;
    while hi_ok(lo, n) && occurs_at_range(&v, lo, n, prefix.as_slice(), 0)
        invariant
            lo <= n == v@.len(),
            s == v@,
            prefix@ == left_prefix(),
            strip_leading(s, left_prefix()) == strip_leading(v@.subrange(lo as int, n as int), left_prefix()),
        decreases n - lo,
    {
        proof {
            let t = v@.subrange(lo as int, n as int);
            assert(t.subrange(0, 5) =~= t.take(5));
            assert(t.skip(5) =~= v@.subrange(lo + 5, n as int));
        }
        lo = lo + 5;
    }
    proof {
        let t = v@.subrange(lo as int, n as int);
        if t.len() >= 5 {
            assert(t.subrange(0, 5) =~= t.take(5));
        }
        assert(strip_leading(t, left_prefix()) == t);
    }
    let mut hi: usize = n;
    while hi - lo >= 4 && occurs_at_range(&v, lo, hi, suffix.as_slice(), hi - lo - 4)
        invariant
            lo <= hi <= n == v@.len(),
            s == v@,
            suffix@ == png_suffix(),
            strip_trailing(strip_leading(s, left_prefix()), png_suffix()) == strip_trailing(
                v@.subrange(lo as int, hi as int),
                png_suffix(),
            ),
        decreases hi,
    {
        proof {
            let t = v@.subrange(lo as int, hi as int);
            assert(t.subrange(t.len() - 4, t.len() as int) =~= t.skip(t.len() - 4));
            assert(t.take(t.len() - 4) =~= v@.subrange(lo as int, hi - 4));
        }
        hi = hi - 4;
    }
    proof {
        let t = v@.subrange(lo as int, hi as int);
        if t.len() >= 4 {
            assert(t.subrange(t.len() - 4, t.len() as int) =~= t.skip(t.len() - 4));
        }
        assert(strip_trailing(t, png_suffix()) == t);
    }
    parse_u32_range(&v, lo, hi)
}

fn hi_ok(lo: usize, n: usize) -> (b: bool)
    ensures
        b == (lo + 5 <= n),
{
    lo <= n && n - lo >= 5
}

/// The number for the next saved pair: one more than the largest number
/// among the existing `left_<n>.png` names (one when there is none).
pub fn next_pair_index(names: &Vec<String>) -> (next: u32)
    requires
        max_saved_index(names@.map_values(|s: String| s@)) < u32::MAX,
    ensures
        next == max_saved_index(names@.map_values(|s: String| s@)) + 1,
{
    let ghost all = names@.map_values(|s: String| s@);
    let mut best: u32 = 0;
    let mut i: usize = 0;
    while i < names.len()
        invariant
            i <= names@.len(),
            all == names@.map_values(|s: String| s@),
            max_saved_index(all) < u32::MAX,
            best == max_saved_index(all.take(i as int)),
        decreases names.len() - i,
    {
        proof {
            assert(all.take(i + 1).drop_last() =~= all.take(i as int));
            assert(all.take(i + 1).last() == names@[i as int]@);
        }
        match saved_pair_index(names[i].as_str()) {
            Some(v) => {
                if v > best {
                    best = v;
                }
            },
            None => {},
        }
        i = i + 1;
    }
    assert(all.take(names@.len() as int) =~= all);
    best + 1
}

/// Two-digit zero padding, as `format!("{:02}", n)` writes `n`.
pub open spec fn padded2(n: nat) -> Seq<char> {
    if n < 10 {
        seq!['0'] + decimal(n)
    } else {
        decimal(n)
    }
}

/// The file names of pair `index`: `left_NN.png` and `right_NN.png`, with
/// the number padded to two digits.
pub fn pair_file_names(index: u32) -> (names: (String, String))
    ensures
        names.0@ == left_prefix() + padded2(index as nat) + png_suffix(),
        names.1@ == right_word() + seq!['_'] + padded2(index as nat) + png_suffix(),
{
    proof {
        reveal_strlit("left_");
        reveal_strlit("right_");
        reveal_strlit("0");
        reveal_strlit(".png");
    }
    let mut number = String::new();
    if index < 10 {
        number.append("0");
    }
    push_decimal(&mut number, index);
    assert(number@ =~= padded2(index as nat));
    let mut left = String::from_str("left_");
    left.append(number.as_str());
    left.append(".png");
    let mut right = String::from_str("right_");
    right.append(number.as_str());
    right.append(".png");
    assert(left@ =~= left_prefix() + padded2(index as nat) + png_suffix());
    assert(right@ =~= right_word() + seq!['_'] + padded2(index as nat) + png_suffix());
    (left, right)
}

/// `s` with every non-overlapping occurrence of `from`, found left to
/// right, replaced by `to` (`str::replace`).
pub open spec fn replace_all(s: Seq<char>, from: Seq<char>, to: Seq<char>) -> Seq<char>
    decreases s.len(),
{
    if s.len() == 0 || from.len() == 0 {
        s
    } else if starts_with(s, from) {
        to + replace_all(s.skip(from.len() as int), from, to)
    } else {
        seq![s[0]] + replace_all(s.skip(1), from, to)
    }
}

/// The name of the right image that belongs with a left calibration image:
/// names containing `_left` get every `_left` replaced by `_right`; names
/// starting with `left_` or `left.` get that first `left` replaced by
/// `right`; other names are not left images.
pub open spec fn partner_name(name: Seq<char>) -> Option<Seq<char>> {
    if contains_seq(name, left_tag()) {
        Some(replace_all(name, left_tag(), right_tag()))
    } else if starts_with(name, left_prefix()) || starts_with(name, seq!['l', 'e', 'f', 't', '.']) {
        Some(right_word() + name.skip(4))
    } else {
        None
    }
}

fn left_tag_chars() -> (v: Vec<char>)
    ensures
        v@ == left_tag(),
{
    let mut v: Vec<char> = Vec::new();
    v.push('_');
    v.push('l');
    v.push('e');
    v.push('f');
    v.push('t');
    assert(v@ =~= left_tag());
    v
}

/// The right image's file name for a left image's file name (see
/// `partner_name`); `None` for names that are not left images.
pub fn right_partner_name(filename: &str) -> (r: Option<String>)
    ensures
        r is Some <==> partner_name(filename@) is Some,
        r matches Some(n) ==> n@ == partner_name(filename@)->0,
{
    proof {
        reveal_strlit("_right");
        reveal_strlit("right");
    }
    let v = chars_of(filename);
    let n = v.len();
    let ghost s = v@;
    assert(v@.subrange(0, n as int) =~= s);
    let tag = left_tag_chars();
    if contains_range(&v, 0, n, tag.as_slice()) {
        let mut out = String::new();
        let mut seg: usize = 0;
        let mut i: usize = 0;
        while i < n && n - i >= 5
            invariant
                seg <= i <= n == v@.len(),
                s == v@,
                filename@ == s,
                tag@ == left_tag(),
                replace_all(s, left_tag(), right_tag()) == out@ + s.subrange(seg as int, i as int)
                    + replace_all(s.skip(i as int), left_tag(), right_tag()),
            decreases n - i,
        {
            let ghost t = v@.subrange(i as int, n as int);
            proof {
                assert(s.skip(i as int) =~= t);
                assert(t.subrange(0, 5) =~= t.take(5));
            }
            let ghost out0 = out@;
            let ghost rest = replace_all(s.skip(i as int), left_tag(), right_tag());
            if occurs_at_range(&v, i, n, tag.as_slice(), 0) {
                let before = filename.substring_char(seg, i);
                out.append(before);
                out.append("_right");
                proof {
                    reveal_strlit("_right");
                    assert("_right"@ =~= right_tag());
                    assert(out@ =~= out0 + s.subrange(seg as int, i as int) + right_tag());
                    assert(starts_with(t, left_tag()));
                    assert(replace_all(t, left_tag(), right_tag()) == right_tag() + replace_all(
                        t.skip(5),
                        left_tag(),
                        right_tag(),
                    ));
                    assert(t.skip(5) =~= s.skip(i + 5));
                    assert(s.subrange(i + 5, i + 5) =~= Seq::<char>::empty());
                    let rest5 = replace_all(s.skip(i + 5), left_tag(), right_tag());
                    assert(rest == right_tag() + rest5);
                    assert(out@ + s.subrange(i + 5, i + 5) + rest5 =~= out0 + s.subrange(
                        seg as int,
                        i as int,
                    ) + rest);
                }
                i = i + 5;
                seg = i;
            } else {
                proof {
                    assert(!starts_with(t, left_tag()));
                    assert(replace_all(t, left_tag(), right_tag()) == seq![t[0]] + replace_all(
                        t.skip(1),
                        left_tag(),
                        right_tag(),
                    ));
                    assert(t.skip(1) =~= s.skip(i + 1));
                    assert(s.subrange(seg as int, i + 1) =~= s.subrange(seg as int, i as int) + seq![s[i as int]]);
                    let rest1 = replace_all(s.skip(i + 1), left_tag(), right_tag());
                    assert(rest == seq![s[i as int]] + rest1);
                    assert(out@ + s.subrange(seg as int, i + 1) + rest1 =~= out0 + s.subrange(
                        seg as int,
                        i as int,
                    ) + rest);
                }
                i = i + 1;
            }
        }
        proof {
            let t = s.skip(i as int);
            assert(replace_all(t, left_tag(), right_tag()) == t) by {
                lemma_replace_short(t, left_tag(), right_tag());
            }
            assert(s.subrange(seg as int, i as int) + t =~= s.subrange(seg as int, n as int));
        }
        let rest = filename.substring_char(seg, n);
        out.append(rest);
        return Some(out);
    }
    let prefix = left_prefix_chars();
    let is_underscore = occurs_at_range(&v, 0, n, prefix.as_slice(), 0);
    let is_dot = n >= 5 && v[0] == 'l' && v[1] == 'e' && v[2] == 'f' && v[3] == 't' && v[4] == '.';
    proof {
        if n >= 5 {
            assert(s.subrange(0, 5) =~= s.take(5));
        }
        let dot = seq!['l', 'e', 'f', 't', '.'];
        if starts_with(s, dot) {
            assert(s.take(5)[0] == 'l');
            assert(s.take(5)[4] == '.');
        }
        if is_dot {
            assert(s.take(5) =~= dot);
        }
    }
    if is_underscore || is_dot {
        let mut out = String::from_str("right");
        out.append(filename.substring_char(4, n));
        assert(s.subrange(4, n as int) =~= s.skip(4));
        Some(out)
    } else {
        None
    }
}

/// Nothing is replaced in text shorter than the searched pattern.
proof fn lemma_replace_short(t: Seq<char>, from: Seq<char>, to: Seq<char>)
    requires
        t.len() < from.len(),
    ensures
        replace_all(t, from, to) == t,
    decreases t.len(),
{
    if t.len() > 0 {
        lemma_replace_short(t.skip(1), from, to);
        assert(seq![t[0]] + t.skip(1) =~= t);
    }
}


proof fn lemma_decimal_digits(n: nat)
    ensures
        decimal(n).len() >= 1,
        all_digits(decimal(n)),
        digits_value(decimal(n)) == n,
    decreases n,
{
    assert(digits_value(Seq::<char>::empty()) == 0);
    if n < 10 {
        assert(digit_char(n) as int == '0' as int + n);
        assert(decimal(n).drop_last() =~= Seq::<char>::empty());
        assert(decimal(n).last() == digit_char(n));
    } else {
        lemma_decimal_digits(n / 10);
        let d = decimal(n);
        assert(d.drop_last() =~= decimal(n / 10));
        assert(d.last() == digit_char(n % 10));
        assert(digit_char(n % 10) as int == '0' as int + n % 10);
        assert(digits_value(d) == digits_value(decimal(n / 10)) * 10 + n % 10);
        assert((n / 10) * 10 + n % 10 == n);
        assert forall|i: int| 0 <= i < d.len() implies is_digit(#[trigger] d[i]) by {
            if i < d.len() - 1 {
                assert(d[i] == decimal(n / 10)[i]);
            }
        }
    }
}

proof fn lemma_leading_zero(d: Seq<char>)
    ensures
        digits_value(seq!['0'] + d) == digits_value(d),
    decreases d.len(),
{
    assert(digits_value(Seq::<char>::empty()) == 0);
    if d.len() == 0 {
        assert((seq!['0'] + d).drop_last() =~= Seq::<char>::empty());
        assert((seq!['0'] + d).last() == '0');
    } else {
        lemma_leading_zero(d.drop_last());
        assert((seq!['0'] + d).drop_last() =~= seq!['0'] + d.drop_last());
        assert((seq!['0'] + d).last() == d.last());
    }
}

proof fn lemma_padded2_digits(n: nat)
    ensures
        padded2(n).len() >= 1,
        all_digits(padded2(n)),
        digits_value(padded2(n)) == n,
{
    lemma_decimal_digits(n);
    if n < 10 {
        lemma_leading_zero(decimal(n));
        let p = padded2(n);
        assert forall|i: int| 0 <= i < p.len() implies is_digit(#[trigger] p[i]) by {
            if i > 0 {
                assert(p[i] == decimal(n)[i - 1]);
            }
        }
    }
}

/// A saved left image's name is read back as the number it was saved
/// under.
pub proof fn lemma_saved_name_read_back(index: u32)
    ensures
        saved_index(left_prefix() + padded2(index as nat) + png_suffix()) == Some(index),
{
    let p = padded2(index as nat);
    lemma_padded2_digits(index as nat);
    let name = left_prefix() + p + png_suffix();
    let rest = p + png_suffix();
    assert(name.take(5) =~= left_prefix());
    assert(name.skip(name.len() - 4) =~= png_suffix());
    assert(name.skip(5) =~= rest);
    assert(is_digit(p[0]));
    assert(rest[0] == p[0]);
    assert(!starts_with(rest, left_prefix())) by {
        if starts_with(rest, left_prefix()) {
            assert(rest.take(5)[0] == 'l');
        }
    }
    assert(strip_leading(rest, left_prefix()) == rest);
    assert(strip_leading(name, left_prefix()) == rest);
    assert(rest.skip(rest.len() - 4) =~= png_suffix());
    assert(rest.take(rest.len() - 4) =~= p);
    assert(is_digit(p[p.len() - 1]));
    assert(!ends_with(p, png_suffix())) by {
        if ends_with(p, png_suffix()) {
            assert(p.skip(p.len() - 4)[3] == p[p.len() - 1]);
        }
    }
    assert(strip_trailing(p, png_suffix()) == p);
    assert(strip_trailing(rest, png_suffix()) == p);
    assert(p[0] != '+');
}

/// The left image of the next pair gets a name no existing file has.
pub proof fn lemma_next_name_is_new(names: Seq<Seq<char>>)
    requires
        max_saved_index(names) < u32::MAX,
    ensures
        forall|i: int|
            0 <= i < names.len() ==> #[trigger] names[i] != left_prefix() + padded2(
                (max_saved_index(names) + 1) as nat,
            ) + png_suffix(),
{
    lemma_max_saved_index_bounds(names);
    let next = (max_saved_index(names) + 1) as u32;
    lemma_saved_name_read_back(next);
    assert forall|i: int| 0 <= i < names.len() implies #[trigger] names[i] != left_prefix()
        + padded2((max_saved_index(names) + 1) as nat) + png_suffix() by {
        if names[i] == left_prefix() + padded2(next as nat) + png_suffix() {
            assert(saved_index(names[i]) == Some(next));
        }
    }
}

/// The calibration pairing finds, for a saved left image, the right image
/// saved with it.
pub proof fn lemma_saved_pair_matches(index: u32)
    ensures
        partner_name(left_prefix() + padded2(index as nat) + png_suffix()) == Some(
            right_word() + seq!['_'] + padded2(index as nat) + png_suffix(),
        ),
{
    let p = padded2(index as nat);
    lemma_padded2_digits(index as nat);
    let name = left_prefix() + p + png_suffix();
    assert forall|k: int| !occurs_at(name, left_tag(), k) by {
        if occurs_at(name, left_tag(), k) {
            let w = name.subrange(k, k + 5);
            assert(w[0] == '_');
            assert(name[k] == '_');
            assert(name[k + 1] == 'l');
            if k < 4 {
                assert(name[k] == left_prefix()[k]);
            } else if k == 4 {
                assert(name[5] == p[0]);
            } else if k < 5 + p.len() {
                assert(name[k] == p[k - 5]);
                assert(is_digit(p[k - 5]));
            } else {
                assert(name[k] == png_suffix()[k - 5 - p.len()]);
            }
        }
    }
    assert(!contains_seq(name, left_tag()));
    assert(name.take(5) =~= left_prefix());
    assert(right_word() + name.skip(4) =~= right_word() + seq!['_'] + p + png_suffix());
}

} // verus!
