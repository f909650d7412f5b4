//! Character classes and elementary text operations the pipeline is built
//! on: sentence-ending punctuation, the inverted Spanish question and
//! exclamation marks, whitespace and trimming, and the conversions between
//! `String` and `Vec<char>` that the scanners work on.

use vstd::prelude::*;

verus! {

use vstd::std_specs::iter::IteratorSpec;

broadcast use vstd::string::axiom_spec_iter, vstd::string::next_postcondition;

/// Sentence-ending punctuation: one of `.`, `!`, `?`.
pub open spec fn is_term(c: char) -> bool {
    c == '.' || c == '!' || c == '?'
}

pub open spec fn is_upper(c: char) -> bool {
    'A' <= c && c <= 'Z'
}

pub open spec fn is_lower(c: char) -> bool {
    'a' <= c && c <= 'z'
}

pub open spec fn is_digit(c: char) -> bool {
    '0' <= c && c <= '9'
}

pub open spec fn is_alnum(c: char) -> bool {
    is_upper(c) || is_lower(c) || is_digit(c)
}

pub open spec fn is_upper_or_digit(c: char) -> bool {
    is_upper(c) || is_digit(c)
}

/// Whitespace, exactly the characters with the Unicode `White_Space`
/// property, which is what both `str::trim` and a whitespace character
/// class in a text pattern recognize.
pub open spec fn is_space(c: char) -> bool {
    c == ' ' || c == '\u{9}' || c == '\u{a}' || c == '\u{b}' || c == '\u{c}' || c == '\u{d}'
        || c == '\u{85}' || c == '\u{a0}' || c == '\u{1680}' || ('\u{2000}' <= c && c
        <= '\u{200a}') || c == '\u{2028}' || c == '\u{2029}' || c == '\u{202f}' || c == '\u{205f}'
        || c == '\u{3000}'
}

pub fn term_char(c: char) -> (b: bool)
    ensures
        b == is_term(c),
{
    c == '.' || c == '!' || c == '?'
}

pub fn upper_char(c: char) -> (b: bool)
    ensures
        b == is_upper(c),
{
    'A' <= c && c <= 'Z'
}

pub fn lower_char(c: char) -> (b: bool)
    ensures
        b == is_lower(c),
{
    'a' <= c && c <= 'z'
}

pub fn digit_char(c: char) -> (b: bool)
    ensures
        b == is_digit(c),
{
    '0' <= c && c <= '9'
}

pub fn alnum_char(c: char) -> (b: bool)
    ensures
        b == is_alnum(c),
{
    upper_char(c) || lower_char(c) || digit_char(c)
}

pub fn upper_or_digit_char(c: char) -> (b: bool)
    ensures
        b == is_upper_or_digit(c),
{
    upper_char(c) || digit_char(c)
}

pub fn space_char(c: char) -> (b: bool)
    ensures
        b == is_space(c),
{
    c == ' ' || c == '\u{9}' || c == '\u{a}' || c == '\u{b}' || c == '\u{c}' || c == '\u{d}'
        || c == '\u{85}' || c == '\u{a0}' || c == '\u{1680}' || ('\u{2000}' <= c && c
        <= '\u{200a}') || c == '\u{2028}' || c == '\u{2029}' || c == '\u{202f}' || c == '\u{205f}'
        || c == '\u{3000}'
}

/// Number of leading whitespace characters.
pub open spec fn space_prefix_len(s: Seq<char>) -> int
    decreases s.len(),
{
    if s.len() == 0 {
        0
    } else if is_space(s[0]) {
        1 + space_prefix_len(s.skip(1))
    } else {
        0
    }
}

/// Number of trailing whitespace characters.
pub open spec fn space_suffix_len(s: Seq<char>) -> int
    decreases s.len(),
{
    if s.len() == 0 {
        0
    } else if is_space(s[s.len() - 1]) {
        1 + space_suffix_len(s.take(s.len() - 1))
    } else {
        0
    }
}

/// The text with leading and trailing whitespace removed, as `str::trim`
/// leaves it.
pub open spec fn spec_trim(s: Seq<char>) -> Seq<char> {
    if space_prefix_len(s) == s.len() {
        Seq::empty()
    } else {
        s.subrange(space_prefix_len(s), s.len() - space_suffix_len(s))
    }
}

/// The whitespace prefix is whitespace throughout and stops at the first
/// character that is none.
pub proof fn lemma_space_prefix_len_bounds(s: Seq<char>)
    ensures
        0 <= space_prefix_len(s) <= s.len(),
        forall|i: int| 0 <= i < space_prefix_len(s) ==> is_space(s[i]),
        space_prefix_len(s) < s.len() ==> !is_space(s[space_prefix_len(s)]),
    decreases s.len(),
{
    if s.len() > 0 && is_space(s[0]) {
        lemma_space_prefix_len_bounds(s.skip(1));
        assert forall|i: int| 0 <= i < space_prefix_len(s) implies is_space(s[i]) by {
            if i > 0 {
                assert(s.skip(1)[i - 1] == s[i]);
            }
        }
    }
}

/// The whitespace suffix is whitespace throughout and stops below the
/// last character that is none.
pub proof fn lemma_space_suffix_len_bounds(s: Seq<char>)
    ensures
        0 <= space_suffix_len(s) <= s.len(),
        forall|i: int| s.len() - space_suffix_len(s) <= i < s.len() ==> is_space(s[i]),
        space_suffix_len(s) < s.len() ==> !is_space(s[s.len() - space_suffix_len(s) - 1]),
    decreases s.len(),
{
    if s.len() > 0 && is_space(s[s.len() - 1]) {
        let t = s.take(s.len() - 1);
        lemma_space_suffix_len_bounds(t);
        assert forall|i: int| s.len() - space_suffix_len(s) <= i < s.len() implies is_space(
            s[i],
        ) by {
            if i < s.len() - 1 {
                assert(t[i] == s[i]);
            }
        }
    }
}

/// A trimmed text neither starts nor ends with whitespace, and trimming it
/// again changes nothing.
pub proof fn lemma_trim_trimmed(s: Seq<char>)
    ensures
        spec_trim(s).len() > 0 ==> !is_space(spec_trim(s)[0]),
        spec_trim(s).len() > 0 ==> !is_space(spec_trim(s)[spec_trim(s).len() - 1]),
        spec_trim(spec_trim(s)) == spec_trim(s),
{
    lemma_space_prefix_len_bounds(s);
    lemma_space_suffix_len_bounds(s);
    let t = spec_trim(s);
    if t.len() > 0 {
        let a = space_prefix_len(s);
        let b = space_suffix_len(s);
        assert(a + b < s.len());
        assert(t[0] == s[a]);
        assert(t[t.len() - 1] == s[s.len() - b - 1]);
        assert(!is_space(t[0]));
        assert(!is_space(t[t.len() - 1]));
        assert(space_prefix_len(t) == 0);
        reveal_with_fuel(space_suffix_len, 2);
        assert(space_suffix_len(t) == 0);
        assert(spec_trim(t) =~= t);
    } else {
        assert(spec_trim(t) =~= t);
    }
}

/// The characters of `s`, in order, as a vector.
pub fn chars_of(s: &str) -> (r: Vec<char>)
    ensures
        r@ == s@,
{
    let mut it = s.chars();
    let mut r: Vec<char> = Vec::new();
    loop
        invariant
            r@ + it.remaining() == s@,
            it.obeys_prophetic_iter_laws(),
            it.decrease() is Some,
        ensures
            r@ == s@,
        decreases it.decrease()->0,
    {
        match it.next() {
            Some(c) => {
                r.push(c);
            },
            None => {
                proof {
                    assert(r@ =~= s@);
                }
                break ;
            },
        }
    }
    r
}

/// Relies on `String::push`: appends exactly the one character.
#[verifier::external_body]
fn push_char(s: &mut String, c: char)
    ensures
        final(s)@ == old(s)@.push(c),
{
    s.push(c)
}

/// The characters of `v`, in order, as a `String`.
pub fn string_of(v: &Vec<char>) -> (r: String)
    ensures
        r@ == v@,
{
    let mut r = String::new();
    let mut i: usize = 0;
    while i < v.len()
        invariant
            i <= v.len(),
            r@ == v@.subrange(0, i as int),
        decreases v.len() - i,
    {
        push_char(&mut r, v[i]);
        proof {
            assert(r@ =~= v@.subrange(0, i + 1 as int));
        }
        i = i + 1;
    }
    proof {
        assert(r@ =~= v@);
    }
    r
}

/// The trimmed copy of `v`.
pub fn trim_chars(v: &Vec<char>) -> (r: Vec<char>)
    ensures
        r@ == spec_trim(v@),
{
    proof {
        lemma_space_prefix_len_bounds(v@);
        lemma_space_suffix_len_bounds(v@);
    }
    let n = v.len();
    let mut a: usize = 0;
    while a < n && space_char(v[a])
        invariant
            n == v@.len(),
            0 <= a <= n,
            forall|i: int| 0 <= i < a ==> is_space(v@[i]),
            a <= space_prefix_len(v@),
        decreases n - a,
    {
        proof {
            lemma_space_prefix_pushes(v@, a as int);
        }
        a = a + 1;
    }
    proof {
        assert(a == space_prefix_len(v@)) by {
            lemma_space_prefix_len_bounds(v@);
        }
    }
    if a == n {
        proof {
            assert(spec_trim(v@) =~= Seq::<char>::empty());
        }
        return Vec::new();
    }
    let mut b: usize = 0;
    while b < n && space_char(v[n - 1 - b])
        invariant
            n == v@.len(),
            0 <= b <= n,
            forall|i: int| n - b <= i < n ==> is_space(v@[i]),
            b <= space_suffix_len(v@),
        decreases n - b,
    {
        proof {
            lemma_space_suffix_pushes(v@, b as int);
        }
        b = b + 1;
    }
    proof {
        assert(b == space_suffix_len(v@)) by {
            lemma_space_suffix_len_bounds(v@);
        }
        assert(a + b < n);
    }
    let mut r: Vec<char> = Vec::new();
    let mut i: usize = a;
    while i < n - b
        invariant
            n == v@.len(),
            0 <= a <= i <= n - b,
            b < n,
            r@ == v@.subrange(a as int, i as int),
        decreases n - b - i,
    {
        r.push(v[i]);
        proof {
            assert(r@ =~= v@.subrange(a as int, i + 1 as int));
        }
        i = i + 1;
    }
    r
}

/// If the first `k` characters are whitespace and the text is longer than
/// `k`, the whitespace prefix is at least `k + 1` long when `s[k]` is
/// whitespace too.
proof fn lemma_space_prefix_pushes(s: Seq<char>, k: int)
    requires
        0 <= k < s.len(),
        forall|i: int| 0 <= i < k ==> is_space(s[i]),
        is_space(s[k]),
    ensures
        space_prefix_len(s) >= k + 1,
    decreases k,
{
    if k == 0 {
        lemma_space_prefix_len_bounds(s.skip(1));
    } else {
        assert forall|i: int| 0 <= i < k - 1 implies is_space(s.skip(1)[i]) by {
            assert(s.skip(1)[i] == s[i + 1]);
        }
        assert(s.skip(1)[k - 1] == s[k]);
        lemma_space_prefix_pushes(s.skip(1), k - 1);
    }
}

proof fn lemma_space_suffix_pushes(s: Seq<char>, k: int)
    requires
        0 <= k < s.len(),
        forall|i: int| s.len() - k <= i < s.len() ==> is_space(s[i]),
        is_space(s[s.len() - 1 - k]),
    ensures
        space_suffix_len(s) >= k + 1,
    decreases k,
{
    if k == 0 {
        lemma_space_suffix_len_bounds(s.take(s.len() - 1));
    } else {
        let t = s.take(s.len() - 1);
        assert forall|i: int| t.len() - (k - 1) <= i < t.len() implies is_space(t[i]) by {
            assert(t[i] == s[i]);
        }
        assert(t[t.len() - 1 - (k - 1)] == s[s.len() - 1 - k]);
        lemma_space_suffix_pushes(t, k - 1);
    }
}

} // verus!
