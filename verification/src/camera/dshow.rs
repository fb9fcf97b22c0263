//! Camera discovery through DirectShow: reading the device list that
//! `ffmpeg -list_devices true -f dshow -i dummy` prints on its error stream.
//!
//! A device appears as a line such as
//! `[dshow @ 00000] "USB Camera" (video)`, optionally followed by a line
//! `[dshow @ 00000]   Alternative name "@device_cm:{GUID}\{GUID}"`.
//! The quoted names are the devices' identifiers; when no device has a
//! quoted name of its own, the alternative names identify them.
use vstd::prelude::*;
use vstd::string::StrSliceExecFns;
use crate::text::{
    chars_of, contains_range, contains_seq, find_char, first_index, occurs_at_range, quoted, quoted_range,
    starts_with_seq, trim, trim_range,
};

verus! {

broadcast use vstd::string::group_string_axioms;

pub open spec fn video_tag() -> Seq<char> {
    seq!['(', 'v', 'i', 'd', 'e', 'o']
}

pub open spec fn alternative_tag() -> Seq<char> {
    seq!['A', 'l', 't', 'e', 'r', 'n', 'a', 't', 'i', 'v', 'e', ' ', 'n', 'a', 'm', 'e']
}

/// The input name ffmpeg is given while listing; it is not a device.
pub open spec fn placeholder_name() -> Seq<char> {
    seq!['d', 'u', 'm', 'm', 'y']
}

/// The lines of `s` that end in a newline, and the text after the last
/// newline.
pub open spec fn split_state(s: Seq<char>) -> (Seq<Seq<char>>, Seq<char>)
    decreases s.len(),
{
    if s.len() == 0 {
        (Seq::empty(), Seq::empty())
    } else {
        let (done, cur) = split_state(s.drop_last());
        if s.last() == '\n' {
            (done.push(cur), Seq::empty())
        } else {
            (done, cur.push(s.last()))
        }
    }
}

/// The lines of `s`, split at `'\n'`.  (Compared with `str::lines`, a final
/// empty line may be added and a `'\r'` before each `'\n'` is kept; both
/// vanish once each line is trimmed.)
pub open spec fn lines(s: Seq<char>) -> Seq<Seq<char>> {
    split_state(s).0.push(split_state(s).1)
}

/// The device named by a line that announces a video device, if it has a
/// quoted, non-empty name other than the placeholder.
pub open spec fn video_entry(line: Seq<char>) -> Option<Seq<char>> {
    let t = trim(line);
    if contains_seq(t, video_tag()) {
        match quoted(t) {
            Some(n) => if n.len() > 0 && n != placeholder_name() {
                Some(n)
            } else {
                None
            },
            None => None,
        }
    } else {
        None
    }
}

/// `t` without a leading bracketed tag such as ffmpeg's `[dshow @ 00000]`
/// (everything up to and including the first `]`, when `t` starts with
/// `[`) and without the whitespace that follows it.
pub open spec fn untagged(t: Seq<char>) -> Seq<char> {
    let k = first_index(t, ']', 0);
    if t.len() > 0 && t[0] == '[' && k >= 0 {
        trim(t.skip(k + 1))
    } else {
        t
    }
}

/// The quoted name of an `Alternative name` line (the line taken without
/// surrounding whitespace and without its bracketed tag).
pub open spec fn alternative_entry(line: Seq<char>) -> Option<Seq<char>> {
    let u = untagged(trim(line));
    if starts_with_seq(u, alternative_tag()) {
        quoted(u)
    } else {
        None
    }
}

pub open spec fn video_names(ls: Seq<Seq<char>>) -> Seq<Seq<char>>
    decreases ls.len(),
{
    if ls.len() == 0 {
        Seq::empty()
    } else {
        let p = video_names(ls.drop_last());
        match video_entry(ls.last()) {
            Some(n) => p.push(n),
            None => p,
        }
    }
}

pub open spec fn alternative_names(ls: Seq<Seq<char>>) -> Seq<Seq<char>>
    decreases ls.len(),
{
    if ls.len() == 0 {
        Seq::empty()
    } else {
        let p = alternative_names(ls.drop_last());
        match alternative_entry(ls.last()) {
            Some(n) => p.push(n),
            None => p,
        }
    }
}

/// The devices found in a listing, in order: the named video devices, or,
/// when there is none, the alternative names.
pub open spec fn dshow_devices(text: Seq<char>) -> Seq<Seq<char>> {
    let ls = lines(text);
    let v = video_names(ls);
    let a = alternative_names(ls);
    if v.len() == 0 && a.len() > 0 {
        a
    } else {
        v
    }
}

fn video_tag_chars() -> (v: Vec<char>)
    ensures
        v@ == video_tag(),
{
    let mut v: Vec<char> = Vec::new();
    v.push('(');
    v.push('v');
    v.push('i');
    v.push('d');
    v.push('e');
    v.push('o');
    assert(v@ =~= video_tag());
    v
}

fn alternative_tag_chars() -> (v: Vec<char>)
    ensures
        v@ == alternative_tag(),
{
    let mut v: Vec<char> = Vec::new();
    v.push('A');
    v.push('l');
    v.push('t');
    v.push('e');
    v.push('r');
    v.push('n');
    v.push('a');
    v.push('t');
    v.push('i');
    v.push('v');
    v.push('e');
    v.push(' ');
    v.push('n');
    v.push('a');
    v.push('m');
    v.push('e');
    assert(v@ =~= alternative_tag());
    v
}

fn placeholder_chars() -> (v: Vec<char>)
    ensures
        v@ == placeholder_name(),
{
    let mut v: Vec<char> = Vec::new();
    v.push('d');
    v.push('u');
    v.push('m');
    v.push('m');
    v.push('y');
    assert(v@ =~= placeholder_name());
    v
}

/// Where the names of the line `lo..hi` of `chars` lie: the video device
/// name and the alternative name, as ranges of `chars`.
fn line_entries(
    chars: &Vec<char>,
    lo: usize,
    hi: usize,
    video: &Vec<char>,
    alternative: &Vec<char>,
    placeholder: &Vec<char>,
) -> (r: (Option<(usize, usize)>, Option<(usize, usize)>))
    requires
        lo <= hi <= chars@.len(),
        video@ == video_tag(),
        alternative@ == alternative_tag(),
        placeholder@ == placeholder_name(),
    ensures
        r.0 is Some <==> video_entry(chars@.subrange(lo as int, hi as int)) is Some,
        r.0 matches Some(p) ==> p.0 <= p.1 <= chars@.len() && chars@.subrange(p.0 as int, p.1 as int)
            == video_entry(chars@.subrange(lo as int, hi as int))->0,
        r.1 is Some <==> alternative_entry(chars@.subrange(lo as int, hi as int)) is Some,
        r.1 matches Some(p) ==> p.0 <= p.1 <= chars@.len() && chars@.subrange(p.0 as int, p.1 as int)
            == alternative_entry(chars@.subrange(lo as int, hi as int))->0,
{
    let ghost line = chars@.subrange(lo as int, hi as int);
    let (a, b) = trim_range(chars, lo, hi);
    let ghost t = trim(line);
    assert(chars@.subrange(a as int, b as int) == t);
    let q = quoted_range(chars, a, b);
    let mut video_name: Option<(usize, usize)> = None;
    if contains_range(chars, a, b, video.as_slice()) {
        if let Some((p, e)) = q {
            let is_placeholder = e - p == 5 && occurs_at_range(
                chars,
                p,
                e,
                placeholder.as_slice(),
                0,
            );
            proof {
                let n = chars@.subrange(p as int, e as int);
                if e - p == 5 {
                    assert(n.subrange(0, 5) =~= n);
                }
                if n == placeholder_name() {
                    assert(n.subrange(0, 5) =~= n);
                }
            }
            if e > p && !is_placeholder {
                video_name = Some((p, e));
            }
        }
    }
    let (c, d) = if a < b && chars[a] == '[' {
        match find_char(chars, ']', a, a, b) {
            Some(k) => {
                let r = trim_range(chars, k + 1, b);
                proof {
                    assert(t.skip(k - a + 1) =~= chars@.subrange(k + 1, b as int));
                }
                r
            },
            None => (a, b),
        }
    } else {
        (a, b)
    };
    assert(chars@.subrange(c as int, d as int) == untagged(t));
    let alternative_name = if occurs_at_range(chars, c, d, alternative.as_slice(), 0) {
        quoted_range(chars, c, d)
    } else {
        None
    };
    (video_name, alternative_name)
}

/// Index ranges of `chars` holding the given names, one range per name.
pub open spec fn ranges_hold(chars: Seq<char>, ranges: Seq<(usize, usize)>, names: Seq<Seq<char>>) -> bool {
    &&& ranges.len() == names.len()
    &&& forall|j: int|
        0 <= j < ranges.len() ==> ranges[j].0 <= ranges[j].1 <= chars.len() && chars.subrange(
            #[trigger] ranges[j].0 as int,
            ranges[j].1 as int,
        ) == names[j]
}

/// The cameras of a DirectShow device listing, numbered from zero in the
/// order they are listed: the quoted names of the lines that contain
/// `(video` (except empty names and `dummy`), or, when there is none of
/// those, the quoted names of the lines that start with `Alternative name`
/// once the bracketed `[dshow @ ...]` tag is dropped (each line taken
/// without surrounding whitespace).
pub fn list_cameras(stderr: &str) -> (cameras: Vec<(u32, String)>)
    ensures
        cameras@.len() == dshow_devices(stderr@).len(),
        forall|i: int|
            0 <= i < cameras@.len() ==> (#[trigger] cameras@[i]).0 == i % 0x1_0000_0000 && cameras@[i].1@
                == dshow_devices(stderr@)[i],
{
    let chars = chars_of(stderr);
    let video = video_tag_chars();
    let alternative = alternative_tag_chars();
    let placeholder = placeholder_chars();
    let n = chars.len();
    let mut videos: Vec<(usize, usize)> = Vec::new();
    let mut alternatives: Vec<(usize, usize)> = Vec::new();
    let mut start: usize = 0;
    let mut i: usize = 0;
    let ghost mut done: Seq<Seq<char>> = Seq::empty();
    assert(chars@.take(0) =~= Seq::<char>::empty());
    assert(chars@.subrange(0, 0) =~= Seq::<char>::empty());
    while i < n
        invariant
            n == chars@.len(),
            chars@ == stderr@,
            video@ == video_tag(),
            alternative@ == alternative_tag(),
            placeholder@ == placeholder_name(),
            start <= i <= n,
            split_state(chars@.take(i as int)) == (done, chars@.subrange(start as int, i as int)),
            ranges_hold(chars@, videos@, video_names(done)),
            ranges_hold(chars@, alternatives@, alternative_names(done)),
        decreases n - i,
    {
        let ghost prev = chars@.take(i as int);
        assert(chars@.take(i + 1).drop_last() =~= prev);
        if chars[i] == '\n' {
            let (v, a) = line_entries(&chars, start, i, &video, &alternative, &placeholder);
            let ghost line = chars@.subrange(start as int, i as int);
            if let Some(r) = v {
                videos.push(r);
            }
            if let Some(r) = a {
                alternatives.push(r);
            }
            proof {
                let nd = done.push(line);
                assert(nd.drop_last() =~= done);
                assert(ranges_hold(chars@, videos@, video_names(nd)));
                assert(ranges_hold(chars@, alternatives@, alternative_names(nd)));
                done = nd;
                assert(chars@.subrange(i + 1, i + 1) =~= Seq::<char>::empty());
            }
            start = i + 1;
        } else {
            assert(chars@.subrange(start as int, i + 1) =~= chars@.subrange(
                start as int,
                i as int,
            ).push(chars@[i as int]));
        }
        i = i + 1;
    }
    let (v, a) = line_entries(&chars, start, n, &video, &alternative, &placeholder);
    let ghost last = chars@.subrange(start as int, n as int);
    if let Some(r) = v {
        videos.push(r);
    }
    if let Some(r) = a {
        alternatives.push(r);
    }
    let ghost ls = done.push(last);
    proof {
        assert(chars@.take(n as int) =~= chars@);
        assert(lines(stderr@) == ls);
        assert(ls.drop_last() =~= done);
        assert(ranges_hold(chars@, videos@, video_names(ls)));
        assert(ranges_hold(chars@, alternatives@, alternative_names(ls)));
    }
    let chosen = if videos.len() == 0 && alternatives.len() > 0 {
        alternatives
    } else {
        videos
    };
    let ghost devices = dshow_devices(stderr@);
    assert(ranges_hold(chars@, chosen@, devices));
    let mut cameras: Vec<(u32, String)> = Vec::new();
    let mut k: usize = 0;
    while k < chosen.len()
        invariant
            chars@ == stderr@,
            ranges_hold(chars@, chosen@, devices),
            k <= chosen@.len(),
            cameras@.len() == k,
            forall|i: int|
                0 <= i < k ==> (#[trigger] cameras@[i]).0 == i % 0x1_0000_0000 && cameras@[i].1@
                    == devices[i],
        decreases chosen.len() - k,
    {
        let (p, e) = chosen[k];
        assert(chosen@[k as int].0 <= chosen@[k as int].1);
        let name = stderr.substring_char(p, e).to_owned();
        let index: u32 = (k as u64 % 0x1_0000_0000u64) as u32;
        cameras.push((index, name));
        k = k + 1;
    }
    cameras
}

} // verus!
