//! Free-standing helpers of the pipeline: the two normalization stages on
//! strings, joining a caption's text lines, parsing the time-range line of
//! a caption, and a plain sentence extractor.

use vstd::prelude::*;

use crate::chars::chars_of;
use crate::chars::is_digit;
use crate::chars::digit_char;
use crate::chars::spec_trim;
use crate::chars::string_of;
use crate::chars::trim_chars;
use crate::normalize::spec_clean;
use crate::normalize::spec_special;
use crate::normalize::clean_chars;
use crate::normalize::special_chars;
use crate::scan::collect_sentences;
use crate::scan::spec_sentences_plain;

verus! {

/// The markup-stripping stage of normalization: color and italics tags,
/// double quotes, dashes and short parentheticals removed, in that order.
pub fn clean_content_string(input: &str) -> (r: String)
    ensures
        r@ == spec_clean(input@),
{
    let v = chars_of(input);
    let c = clean_chars(&v);
    string_of(&c)
}

/// The locale-substitution stage of normalization: the first leading
/// interrogative clause dropped, then the first ellipsis turned into a
/// dash-style pause marker, the text trimmed after each rule.
pub fn special_language_replacements(input: &str) -> (r: String)
    ensures
        r@ == spec_special(input@),
{
    let v = chars_of(input);
    let c = special_chars(&v);
    string_of(&c)
}

/// Up to three text lines of a caption joined: each line trimmed, the
/// lines joined with single spaces, lines beyond the third ignored; no
/// line at all yields nothing.
pub open spec fn spec_get_text(ls: Seq<Seq<char>>) -> Option<Seq<char>> {
    if ls.len() == 0 {
        None
    } else if ls.len() == 1 {
        Some(spec_trim(ls[0]))
    } else if ls.len() == 2 {
        Some(spec_trim(ls[0]) + seq![' '] + spec_trim(ls[1]))
    } else {
        Some(spec_trim(ls[0]) + seq![' '] + spec_trim(ls[1]) + seq![' '] + spec_trim(ls[2]))
    }
}

/// The views of a sequence of string slices.
pub open spec fn views_of_strs(ls: Seq<&str>) -> Seq<Seq<char>> {
    Seq::new(ls.len(), |i: int| ls[i]@)
}

pub(crate) fn append_chars(out: &mut Vec<char>, piece: &Vec<char>)
    ensures
        final(out)@ == old(out)@ + piece@,
{
    let mut t: usize = 0;
    while t < piece.len()
        invariant
            t <= piece@.len(),
            out@ == old(out)@ + piece@.subrange(0, t as int),
        decreases piece@.len() - t,
    {
        out.push(piece[t]);
        proof {
            assert(out@ =~= old(out)@ + piece@.subrange(0, t + 1 as int));
        }
        t = t + 1;
    }
    proof {
        assert(out@ =~= old(out)@ + piece@);
    }
}

/// The joined text of a caption's lines.
pub fn get_text(lines: Vec<&str>) -> (r: Option<String>)
    ensures
        match r {
            Some(t) => spec_get_text(views_of_strs(lines@)) == Some(t@),
            None => spec_get_text(views_of_strs(lines@)) is None,
        },
{
    if lines.len() == 0 {
        return None;
    }
    let mut out: Vec<char> = Vec::new();
    let l0 = chars_of(lines[0]);
    let t0 = trim_chars(&l0);
    append_chars(&mut out, &t0);
    if lines.len() == 1 {
        proof {
            assert(out@ =~= spec_trim(lines@[0]@));
        }
        return Some(string_of(&out));
    }
    out.push(' ');
    let l1 = chars_of(lines[1]);
    let t1 = trim_chars(&l1);
    append_chars(&mut out, &t1);
    if lines.len() == 2 {
        proof {
            assert(out@ =~= spec_trim(lines@[0]@) + seq![' '] + spec_trim(lines@[1]@));
        }
        return Some(string_of(&out));
    }
    out.push(' ');
    let l2 = chars_of(lines[2]);
    let t2 = trim_chars(&l2);
    append_chars(&mut out, &t2);
    proof {
        assert(out@ =~= spec_trim(lines@[0]@) + seq![' '] + spec_trim(lines@[1]@) + seq![' ']
            + spec_trim(lines@[2]@));
    }
    Some(string_of(&out))
}

/// The numeric value of a decimal digit character.
pub open spec fn dv(c: char) -> int {
    c as int - 48
}

/// A timestamp `HH:MM:SS?mmm` stands at `p` (any character other than a
/// line break between seconds and milliseconds).
pub open spec fn time_stamp_at(s: Seq<char>, p: int) -> bool {
    &&& 0 <= p
    &&& p + 12 <= s.len()
    &&& is_digit(s[p])
    &&& is_digit(s[p + 1])
    &&& s[p + 2] == ':'
    &&& is_digit(s[p + 3])
    &&& is_digit(s[p + 4])
    &&& s[p + 5] == ':'
    &&& is_digit(s[p + 6])
    &&& is_digit(s[p + 7])
    &&& s[p + 8] != '\n'
    &&& is_digit(s[p + 9])
    &&& is_digit(s[p + 10])
    &&& is_digit(s[p + 11])
}

/// A full time range `HH:MM:SS?mmm --> HH:MM:SS?mmm` stands at `p`.
pub open spec fn time_range_at(s: Seq<char>, p: int) -> bool {
    &&& time_stamp_at(s, p)
    &&& p + 29 <= s.len()
    &&& s[p + 12] == ' '
    &&& s[p + 13] == '-'
    &&& s[p + 14] == '-'
    &&& s[p + 15] == '>'
    &&& s[p + 16] == ' '
    &&& time_stamp_at(s, p + 17)
}

/// The milliseconds a timestamp at `p` denotes.
pub open spec fn stamp_millis(s: Seq<char>, p: int) -> int {
    (((dv(s[p]) * 10 + dv(s[p + 1])) * 60 + (dv(s[p + 3]) * 10 + dv(s[p + 4]))) * 60 + (dv(
        s[p + 6],
    ) * 10 + dv(s[p + 7]))) * 1000 + dv(s[p + 9]) * 100 + dv(s[p + 10]) * 10 + dv(s[p + 11])
}

/// First position at or after `i` where a time range stands, or the length.
pub open spec fn first_time_range_from(s: Seq<char>, i: int) -> int
    decreases s.len() - i,
{
    if i < 0 || i >= s.len() {
        s.len() as int
    } else if time_range_at(s, i) {
        i
    } else {
        first_time_range_from(s, i + 1)
    }
}

/// Whether a full time range stands at `p`.
fn range_at(v: &Vec<char>, p: usize) -> (r: bool)
    requires
        p <= v@.len(),
    ensures
        r == time_range_at(v@, p as int),
{
    let n = v.len();
    if n - p < 29 {
        return false;
    }
    digit_char(v[p]) && digit_char(v[p + 1]) && v[p + 2] == ':' && digit_char(v[p + 3])
        && digit_char(v[p + 4]) && v[p + 5] == ':' && digit_char(v[p + 6]) && digit_char(v[p + 7])
        && v[p + 8] != '\n' && digit_char(v[p + 9]) && digit_char(v[p + 10]) && digit_char(
        v[p + 11],
    ) && v[p + 12] == ' ' && v[p + 13] == '-' && v[p + 14] == '-' && v[p + 15] == '>' && v[p + 16]
        == ' ' && digit_char(v[p + 17]) && digit_char(v[p + 18]) && v[p + 19] == ':' && digit_char(
        v[p + 20],
    ) && digit_char(v[p + 21]) && v[p + 22] == ':' && digit_char(v[p + 23]) && digit_char(
        v[p + 24],
    ) && v[p + 25] != '\n' && digit_char(v[p + 26]) && digit_char(v[p + 27]) && digit_char(
        v[p + 28],
    )
}

fn digit_val(c: char) -> (r: u64)
    requires
        is_digit(c),
    ensures
        r == dv(c),
        r <= 9,
{
    (c as u32 - 48) as u64
}

/// The milliseconds of the timestamp at `p`.
fn stamp_value(v: &Vec<char>, p: usize) -> (r: u64)
    requires
        time_stamp_at(v@, p as int),
    ensures
        r == stamp_millis(v@, p as int),
        r < 400000000,
{
    let n = v.len();
    proof {
        assert(p + 12 <= n);
    }
    let hh = digit_val(v[p]) * 10 + digit_val(v[p + 1]);
    let mm = digit_val(v[p + 3]) * 10 + digit_val(v[p + 4]);
    let ss = digit_val(v[p + 6]) * 10 + digit_val(v[p + 7]);
    let mmm = digit_val(v[p + 9]) * 100 + digit_val(v[p + 10]) * 10 + digit_val(v[p + 11]);
    ((hh * 60 + mm) * 60 + ss) * 1000 + mmm
}

/// The start and end milliseconds read from the first time range in the
/// line; nothing when no time range stands anywhere in it.
pub fn get_times(time_line: &str) -> (r: Option<(u64, u64)>)
    ensures
        match r {
            Some(times) => {
                let p = first_time_range_from(time_line@, 0);
                &&& p < time_line@.len()
                &&& times.0 == stamp_millis(time_line@, p)
                &&& times.1 == stamp_millis(time_line@, p + 17)
                &&& times.0 < 400000000
                &&& times.1 < 400000000
            },
            None => first_time_range_from(time_line@, 0) == time_line@.len(),
        },
{
    let v = chars_of(time_line);
    let n = v.len();
    let mut p: usize = 0;
    while p < n
        invariant
            p <= n == v@.len(),
            v@ == time_line@,
            first_time_range_from(v@, 0) == first_time_range_from(v@, p as int),
        decreases n - p,
    {
        if range_at(&v, p) {
            let from = stamp_value(&v, p);
            let to = stamp_value(&v, p + 17);
            return Some((from, to));
        }
        p = p + 1;
    }
    None
}

/// The views of a sequence of strings.
pub open spec fn views_of_strings(ls: Seq<String>) -> Seq<Seq<char>> {
    Seq::new(ls.len(), |i: int| ls[i]@)
}

/// All complete sentences of the text in the plain notion: a capital lead
/// (an inverted mark allowed before it), no digits as leads, no ellipsis
/// tail.
pub fn extract_sentences(input: String) -> (r: Vec<String>)
    ensures
        views_of_strings(r@) == spec_sentences_plain(input@),
{
    let v = chars_of(input.as_str());
    let found = collect_sentences(&v, false, false);
    let mut r: Vec<String> = Vec::new();
    let mut i: usize = 0;
    while i < found.len()
        invariant
            i <= found@.len(),
            r@.len() == i,
            forall|j: int| 0 <= j < i ==> r@[j]@ == found@[j]@,
        decreases found@.len() - i,
    {
        let s = string_of(&found[i]);
        r.push(s);
        i = i + 1;
    }
    proof {
        assert(views_of_strings(r@) =~= crate::scan::views_of(found@));
    }
    r
}

} // verus!
