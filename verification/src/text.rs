//! Character-level helpers for the short text formats the tooling reads:
//! whitespace trimming, searching, quoting and decimal numbers.
use vstd::prelude::*;
use vstd::string::StringExecFns;

verus! {

broadcast use vstd::string::group_string_axioms;

/// The characters of `s`, in order.
pub fn chars_of(s: &str) -> (v: Vec<char>)
    ensures
        v@ == s@,
{
    let mut v: Vec<char> = Vec::new();
    for c in it: s.chars()
        invariant
            v@ == it.seq().take(it.index() as int),
            it.seq() == s@,
    {
        v.push(c);
    }
    v
}

/// Unicode `White_Space`, the property `char::is_whitespace` tests.
pub open spec fn is_whitespace(c: char) -> bool {
    let u = c as u32;
    ||| 0x09 <= u <= 0x0d
    ||| u == 0x20
    ||| u == 0x85
    ||| u == 0xa0
    ||| u == 0x1680
    ||| 0x2000 <= u <= 0x200a
    ||| u == 0x2028
    ||| u == 0x2029
    ||| u == 0x202f
    ||| u == 0x205f
    ||| u == 0x3000
}

pub fn is_ws(c: char) -> (b: bool)
    ensures
        b == is_whitespace(c),
{
    let u = c as u32;
    (0x09 <= u && u <= 0x0d) || u == 0x20 || u == 0x85 || u == 0xa0 || u == 0x1680 || (0x2000
        <= u && u <= 0x200a) || u == 0x2028 || u == 0x2029 || u == 0x202f || u == 0x205f || u
        == 0x3000
}

/// Position of the first non-whitespace character at or after `i`
/// (the length when there is none).
pub open spec fn lead(t: Seq<char>, i: int) -> int
    decreases t.len() - i,
{
    if i >= t.len() {
        t.len() as int
    } else if !is_whitespace(t[i]) {
        i
    } else {
        lead(t, i + 1)
    }
}

/// One past the last non-whitespace character before `j` (zero when there
/// is none).
pub open spec fn trail(t: Seq<char>, j: int) -> int
    decreases j,
{
    if j <= 0 {
        0
    } else if !is_whitespace(t[j - 1]) {
        j
    } else {
        trail(t, j - 1)
    }
}

/// `t` without leading and trailing whitespace, as `str::trim` gives it.
pub open spec fn trim(t: Seq<char>) -> Seq<char> {
    let a = lead(t, 0);
    let b = trail(t, t.len() as int);
    if b <= a {
        Seq::empty()
    } else {
        t.subrange(a, b)
    }
}

/// Position of the first `c` at or after `from`, or `-1`.
pub open spec fn first_index(t: Seq<char>, c: char, from: int) -> int
    decreases t.len() - from,
{
    if from < 0 || from >= t.len() {
        -1
    } else if t[from] == c {
        from
    } else {
        first_index(t, c, from + 1)
    }
}

/// `pat` occurs in `t` starting at position `k`.
pub open spec fn occurs_at(t: Seq<char>, pat: Seq<char>, k: int) -> bool {
    &&& 0 <= k
    &&& k + pat.len() <= t.len()
    &&& t.subrange(k, k + pat.len()) == pat
}

pub open spec fn contains_seq(t: Seq<char>, pat: Seq<char>) -> bool {
    exists|k: int| occurs_at(t, pat, k)
}

pub open spec fn starts_with_seq(t: Seq<char>, pat: Seq<char>) -> bool {
    occurs_at(t, pat, 0)
}

/// The text between the first double quote and the next one, if both exist.
pub open spec fn quoted(t: Seq<char>) -> Option<Seq<char>> {
    let a = first_index(t, '"', 0);
    if a < 0 {
        None
    } else {
        let b = first_index(t, '"', a + 1);
        if b < 0 {
            None
        } else {
            Some(t.subrange(a + 1, b))
        }
    }
}

proof fn lemma_lead_bounds(t: Seq<char>, i: int)
    requires
        0 <= i,
    ensures
        i <= lead(t, i) || (i > t.len() && lead(t, i) == t.len()),
        lead(t, i) <= t.len(),
        lead(t, i) < t.len() ==> !is_whitespace(t[lead(t, i)]),
    decreases t.len() - i,
{
    if i < t.len() && is_whitespace(t[i]) {
        lemma_lead_bounds(t, i + 1);
    }
}

proof fn lemma_trail_bounds(t: Seq<char>, j: int)
    requires
        0 <= j <= t.len(),
    ensures
        0 <= trail(t, j) <= j,
        trail(t, j) > 0 ==> !is_whitespace(t[trail(t, j) - 1]),
        forall|k: int| trail(t, j) <= k < j ==> is_whitespace(#[trigger] t[k]),
    decreases j,
{
    if j > 0 && is_whitespace(t[j - 1]) {
        lemma_trail_bounds(t, j - 1);
    }
}

/// When every character before `j` is whitespace, nothing is left.
proof fn lemma_trail_all_ws(t: Seq<char>, j: int)
    requires
        0 <= j <= t.len(),
        forall|k: int| 0 <= k < j ==> is_whitespace(#[trigger] t[k]),
    ensures
        trail(t, j) == 0,
    decreases j,
{
    if j > 0 {
        lemma_trail_all_ws(t, j - 1);
    }
}

/// Bounds `(a, b)` of `trim` applied to the characters `lo..hi` of `v`.
pub fn trim_range(v: &Vec<char>, lo: usize, hi: usize) -> (r: (usize, usize))
    requires
        lo <= hi <= v@.len(),
    ensures
        lo <= r.0 <= r.1 <= hi,
        v@.subrange(r.0 as int, r.1 as int) == trim(v@.subrange(lo as int, hi as int)),
{
    let ghost t = v@.subrange(lo as int, hi as int);
    let mut a = lo;
    while a < hi && is_ws(v[a])
        invariant
            lo <= a <= hi <= v@.len(),
            t == v@.subrange(lo as int, hi as int),
            lead(t, 0) == lead(t, a - lo),
            forall|k: int| 0 <= k < a - lo ==> is_whitespace(#[trigger] t[k]),
        decreases hi - a,
    {
        assert(t[a - lo] == v@[a as int]);
        a = a + 1;
    }
    if a == hi {
        proof {
            lemma_trail_all_ws(t, t.len() as int);
            assert(v@.subrange(a as int, a as int) =~= Seq::<char>::empty());
        }
        return (a, a);
    }
    assert(t[a - lo] == v@[a as int]);
    assert(lead(t, 0) == a - lo);
    let mut b = hi;
    while is_ws(v[b - 1])
        invariant
            lo <= a < b <= hi <= v@.len(),
            t == v@.subrange(lo as int, hi as int),
            !is_whitespace(v@[a as int]),
            trail(t, t.len() as int) == trail(t, b - lo),
        decreases b,
    {
        assert(t[b - 1 - lo] == v@[b - 1]);
        b = b - 1;
    }
    assert(t[b - 1 - lo] == v@[b - 1]);
    assert(trail(t, b - lo) == b - lo);
    assert(v@.subrange(a as int, b as int) =~= t.subrange(a - lo, b - lo));
    (a, b)
}

/// Position in `v` of the first `c` among the characters `from..hi`.
pub fn find_char(v: &Vec<char>, c: char, lo: usize, from: usize, hi: usize) -> (r: Option<usize>)
    requires
        lo <= from <= hi <= v@.len(),
    ensures
        match r {
            Some(k) => lo <= from <= k < hi && first_index(
                v@.subrange(lo as int, hi as int),
                c,
                from - lo,
            ) == k - lo,
            None => first_index(v@.subrange(lo as int, hi as int), c, from - lo) == -1,
        },
{
    let ghost t = v@.subrange(lo as int, hi as int);
    let mut k = from;
    while k < hi
        invariant
            lo <= from <= k <= hi <= v@.len(),
            t == v@.subrange(lo as int, hi as int),
            first_index(t, c, from - lo) == first_index(t, c, k - lo),
        decreases hi - k,
    {
        assert(t[k - lo] == v@[k as int]);
        if v[k] == c {
            return Some(k);
        }
        k = k + 1;
    }
    None
}

/// Whether `pat` occurs in the characters `lo..hi` of `v` at offset `k`.
pub fn occurs_at_range(v: &Vec<char>, lo: usize, hi: usize, pat: &[char], k: usize) -> (b: bool)
    requires
        lo <= hi <= v@.len(),
    ensures
        b == occurs_at(v@.subrange(lo as int, hi as int), pat@, k as int),
{
    let ghost t = v@.subrange(lo as int, hi as int);
    if k > hi - lo || pat.len() > hi - lo - k {
        return false;
    }
    let mut i: usize = 0;
    while i < pat.len()
        invariant
            lo <= hi <= v@.len(),
            k + pat@.len() <= hi - lo,
            t == v@.subrange(lo as int, hi as int),
            i <= pat@.len(),
            forall|j: int| 0 <= j < i ==> t[k + j] == pat@[j],
        decreases pat.len() - i,
    {
        assert(t[k + i] == v@[lo + k + i]);
        if v[lo + k + i] != pat[i] {
            assert(t.subrange(k as int, k + pat@.len())[i as int] != pat@[i as int]);
            return false;
        }
        i = i + 1;
    }
    assert(t.subrange(k as int, k + pat@.len()) =~= pat@);
    true
}

/// Whether `pat` occurs anywhere in the characters `lo..hi` of `v`.
pub fn contains_range(v: &Vec<char>, lo: usize, hi: usize, pat: &[char]) -> (b: bool)
    requires
        lo <= hi <= v@.len(),
    ensures
        b == contains_seq(v@.subrange(lo as int, hi as int), pat@),
{
    let ghost t = v@.subrange(lo as int, hi as int);
    let mut k: usize = 0;
    loop
        invariant
            lo <= hi <= v@.len(),
            t == v@.subrange(lo as int, hi as int),
            k <= hi - lo,
            forall|j: int| 0 <= j < k ==> !occurs_at(t, pat@, j),
        ensures
            forall|j: int| 0 <= j <= hi - lo ==> !occurs_at(t, pat@, j),
        decreases hi - lo - k,
    {
        if occurs_at_range(v, lo, hi, pat, k) {
            return true;
        }
        if k == hi - lo {
            break;
        }
        k = k + 1;
    }
    assert forall|j: int| !occurs_at(t, pat@, j) by {
        if 0 <= j <= hi - lo {
        }
    }
    false
}

/// The quoted text of the characters `lo..hi` of `v`, as a range of `v`.
pub fn quoted_range(v: &Vec<char>, lo: usize, hi: usize) -> (r: Option<(usize, usize)>)
    requires
        lo <= hi <= v@.len(),
    ensures
        r is Some <==> quoted(v@.subrange(lo as int, hi as int)) is Some,
        r matches Some(p) ==> lo <= p.0 <= p.1 <= hi && v@.subrange(p.0 as int, p.1 as int)
            == quoted(v@.subrange(lo as int, hi as int))->0,
{
    let ghost t = v@.subrange(lo as int, hi as int);
    match find_char(v, '"', lo, lo, hi) {
        None => None,
        Some(a) => {
            match find_char(v, '"', lo, a + 1, hi) {
                None => None,
                Some(b) => {
                    assert(v@.subrange(a + 1, b as int) =~= t.subrange(a + 1 - lo, b - lo));
                    Some((a + 1, b))
                },
            }
        },
    }
}

/// The ASCII digit for `d < 10`.
pub open spec fn digit_char(d: nat) -> char {
    ('0' as u32 + d) as char
}

/// Decimal notation of `n`, without leading zeros.
pub open spec fn decimal(n: nat) -> Seq<char>
    decreases n,
{
    if n < 10 {
        seq![digit_char(n)]
    } else {
        decimal(n / 10).push(digit_char(n % 10))
    }
}

fn digit_str(d: u32) -> (s: &'static str)
    requires
        d < 10,
    ensures
        s@ == seq![digit_char(d as nat)],
{
    proof {
        reveal_strlit("0");
        reveal_strlit("1");
        reveal_strlit("2");
        reveal_strlit("3");
        reveal_strlit("4");
        reveal_strlit("5");
        reveal_strlit("6");
        reveal_strlit("7");
        reveal_strlit("8");
        reveal_strlit("9");
    }
    let s = match d {
        0 => "0",
        1 => "1",
        2 => "2",
        3 => "3",
        4 => "4",
        5 => "5",
        6 => "6",
        7 => "7",
        8 => "8",
        _ => "9",
    };
    assert(s@ =~= seq![digit_char(d as nat)]);
    s
}

/// Appends the decimal notation of `n` to `out`.
pub fn push_decimal(out: &mut String, n: u32)
    ensures
        final(out)@ == old(out)@ + decimal(n as nat),
    decreases n,
{
    if n >= 10 {
        push_decimal(out, n / 10);
        out.append(digit_str(n % 10));
        assert(decimal(n as nat) == decimal((n / 10) as nat).push(digit_char((n % 10) as nat)));
    } else {
        out.append(digit_str(n));
    }
    assert(out@ =~= old(out)@ + decimal(n as nat));
}

} // verus!
