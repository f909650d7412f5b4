//! The sentence-shape grammar. A sentence starts with a capital letter,
//! optionally preceded by an inverted question or exclamation mark, and ends
//! at one of `.`, `!`, `?`, optionally followed by up to two further periods
//! (an ellipsis). These spec functions say where such spans lie in a text;
//! the exec scanners compute them.

use vstd::prelude::*;

use crate::chars::is_alnum;
use crate::chars::is_lower;
use crate::chars::is_space;
use crate::chars::is_term;
use crate::chars::is_upper;
use crate::chars::is_upper_or_digit;
use crate::chars::lower_char;
use crate::chars::space_char;
use crate::chars::term_char;
use crate::chars::upper_char;
use crate::chars::upper_or_digit_char;
use crate::chars::alnum_char;

verus! {

/// Index of the first sentence-ending punctuation mark at or after `i`, or
/// `s.len()` if there is none.
pub open spec fn first_term_from(s: Seq<char>, i: int) -> int
    decreases s.len() - i,
{
    if i < 0 || i >= s.len() {
        s.len() as int
    } else if is_term(s[i]) {
        i
    } else {
        first_term_from(s, i + 1)
    }
}

/// Where the first sentence-ending mark lies: none before it, one at it
/// when it lies within the text.
pub proof fn lemma_first_term_from(s: Seq<char>, i: int)
    requires
        0 <= i <= s.len(),
    ensures
        i <= first_term_from(s, i) <= s.len(),
        forall|j: int| i <= j < first_term_from(s, i) ==> !is_term(s[j]),
        first_term_from(s, i) < s.len() ==> is_term(s[first_term_from(s, i)]),
    decreases s.len() - i,
{
    if i < s.len() && !is_term(s[i]) {
        lemma_first_term_from(s, i + 1);
    }
}

/// Index of the last sentence-ending punctuation mark, or `-1` if there is
/// none.
pub open spec fn last_term(s: Seq<char>) -> int
    decreases s.len(),
{
    if s.len() == 0 {
        -1
    } else if is_term(s[s.len() - 1]) {
        s.len() - 1
    } else {
        last_term(s.take(s.len() - 1))
    }
}

/// Where the last sentence-ending mark lies: one at it, none after it.
pub proof fn lemma_last_term(s: Seq<char>)
    ensures
        -1 <= last_term(s) < s.len(),
        forall|j: int| last_term(s) < j < s.len() ==> !is_term(s[j]),
        last_term(s) >= 0 ==> is_term(s[last_term(s)]),
        last_term(s) == -1 ==> forall|j: int| 0 <= j < s.len() ==> !is_term(s[j]),
    decreases s.len(),
{
    if s.len() > 0 && !is_term(s[s.len() - 1]) {
        let t = s.take(s.len() - 1);
        lemma_last_term(t);
        assert(forall|j: int| 0 <= j < s.len() - 1 ==> s[j] == t[j]);
    }
}

/// Length (0, 1 or 2) of the inverted-punctuation prefix at `i`: at most one
/// `¿`, then at most one `¡`.
pub open spec fn inv_prefix_len(s: Seq<char>, i: int) -> int {
    if i < s.len() && s[i] == '¿' {
        if i + 1 < s.len() && s[i + 1] == '¡' {
            2
        } else {
            1
        }
    } else if i < s.len() && s[i] == '¡' {
        1
    } else {
        0
    }
}

/// The whole text is one partial sentence: after the optional inverted
/// prefix a letter or digit, and no sentence-ending punctuation anywhere.
pub open spec fn spec_whole_partial(s: Seq<char>) -> bool {
    let k = inv_prefix_len(s, 0);
    k < s.len() && is_alnum(s[k]) && first_term_from(s, 0) == s.len()
}

/// The leading fragment: a lowercase-led span from the start of the text up
/// to and including the first sentence-ending punctuation mark, if the text
/// begins that way (after an optional inverted prefix).
pub open spec fn spec_leading(s: Seq<char>) -> Option<Seq<char>> {
    let k = inv_prefix_len(s, 0);
    let t = first_term_from(s, 0);
    if k < s.len() && is_lower(s[k]) && t < s.len() {
        Some(s.subrange(0, t + 1))
    } else {
        None
    }
}

/// The trailing fragment: a capital-led span after the last sentence-ending
/// punctuation mark (at most one whitespace character in between), running
/// to the end of the text.
pub open spec fn spec_trailing(s: Seq<char>) -> Option<Seq<char>> {
    let t = last_term(s);
    if t >= 0 {
        if t + 1 < s.len() && is_upper(s[t + 1]) {
            Some(s.subrange(t + 1, s.len() as int))
        } else if t + 2 < s.len() && is_space(s[t + 1]) && is_upper(s[t + 2]) {
            Some(s.subrange(t + 2, s.len() as int))
        } else {
            None
        }
    } else {
        None
    }
}

/// End of the optional ellipsis tail: up to two further periods after `e`.
pub open spec fn ellipsis_end(s: Seq<char>, e: int) -> int {
    if e < s.len() && s[e] == '.' {
        if e + 1 < s.len() && s[e + 1] == '.' {
            e + 2
        } else {
            e + 1
        }
    } else {
        e
    }
}

/// End (exclusive) of a complete sentence starting exactly at `i`, if one
/// starts there: the optional inverted prefix, a capital letter (or a digit,
/// when `digits` holds), a run free of sentence-ending punctuation, one such
/// mark, and, when `ellipsis` holds, up to two further periods.
pub open spec fn match_end_at(s: Seq<char>, i: int, digits: bool, ellipsis: bool) -> Option<int> {
    let q = i + inv_prefix_len(s, i);
    let lead_ok = if digits {
        is_upper_or_digit(s[q])
    } else {
        is_upper(s[q])
    };
    if 0 <= i && q < s.len() && lead_ok {
        let t = first_term_from(s, q + 1);
        if t < s.len() {
            if ellipsis {
                Some(ellipsis_end(s, t + 1))
            } else {
                Some(t + 1)
            }
        } else {
            None
        }
    } else {
        None
    }
}

/// A sentence match at `i` ends past `i` and within the text.
pub proof fn lemma_match_end_at(s: Seq<char>, i: int, digits: bool, ellipsis: bool)
    requires
        0 <= i <= s.len(),
        match_end_at(s, i, digits, ellipsis) is Some,
    ensures
        i < match_end_at(s, i, digits, ellipsis)->0 <= s.len(),
{
    let q = i + inv_prefix_len(s, i);
    lemma_first_term_from(s, q + 1);
}

/// All complete sentences found scanning left to right from `i`: at each
/// position the earliest match is taken whole and the scan resumes where it
/// ended, so matches never overlap.
pub open spec fn sentences_from(s: Seq<char>, i: int, digits: bool, ellipsis: bool) -> Seq<
    Seq<char>,
>
    decreases s.len() - i,
    when 0 <= i <= s.len()
    via sentences_from_dec
{
    if i >= s.len() {
        Seq::empty()
    } else {
        match match_end_at(s, i, digits, ellipsis) {
            Some(e) => seq![s.subrange(i, e)] + sentences_from(s, e, digits, ellipsis),
            None => sentences_from(s, i + 1, digits, ellipsis),
        }
    }
}

#[via_fn]
proof fn sentences_from_dec(s: Seq<char>, i: int, digits: bool, ellipsis: bool) {
    if i < s.len() && match_end_at(s, i, digits, ellipsis) is Some {
        lemma_match_end_at(s, i, digits, ellipsis);
    }
}

/// The complete sentences of the whole text, with digits accepted as
/// sentence leads and ellipsis tails taken along (the classifier's notion).
pub open spec fn spec_sentences(s: Seq<char>) -> Seq<Seq<char>> {
    sentences_from(s, 0, true, true)
}

/// The complete sentences in the narrower notion of the free-standing
/// extractor: capital leads only, no ellipsis tail.
pub open spec fn spec_sentences_plain(s: Seq<char>) -> Seq<Seq<char>> {
    sentences_from(s, 0, false, false)
}

/// Index of the first sentence-ending punctuation mark at or after `i`, or
/// the length if there is none.
pub fn find_first_term(v: &Vec<char>, i: usize) -> (r: usize)
    requires
        i <= v@.len(),
    ensures
        r == first_term_from(v@, i as int),
{
    let n = v.len();
    let mut j = i;
    while j < n && !term_char(v[j])
        invariant
            i <= j <= n,
            n == v@.len(),
            first_term_from(v@, i as int) == first_term_from(v@, j as int),
        decreases n - j,
    {
        j = j + 1;
    }
    j
}

/// Index of the last sentence-ending punctuation mark, if any.
pub fn find_last_term(v: &Vec<char>) -> (r: Option<usize>)
    ensures
        match r {
            Some(t) => last_term(v@) == t,
            None => last_term(v@) == -1,
        },
{
    let mut j = v.len();
    proof {
        assert(v@.take(v@.len() as int) =~= v@);
    }
    while j > 0
        invariant
            j <= v@.len(),
            last_term(v@) == last_term(v@.take(j as int)),
        decreases j,
    {
        proof {
            assert(v@.take(j as int).take(j - 1 as int) =~= v@.take(j - 1 as int));
        }
        if term_char(v[j - 1]) {
            proof {
                assert(v@.take(j as int)[j - 1] == v@[j - 1]);
            }
            return Some(j - 1);
        }
        j = j - 1;
    }
    proof {
        assert(v@.take(0) =~= Seq::<char>::empty());
    }
    None
}

/// Length of the inverted-punctuation prefix at `i`.
pub fn inv_prefix(v: &Vec<char>, i: usize) -> (k: usize)
    requires
        i <= v@.len(),
    ensures
        k == inv_prefix_len(v@, i as int),
        i + k <= v@.len(),
{
    if i < v.len() && v[i] == '¿' {
        if i + 1 < v.len() && v[i + 1] == '¡' {
            2
        } else {
            1
        }
    } else if i < v.len() && v[i] == '¡' {
        1
    } else {
        0
    }
}

/// The characters `v[a..b]` as a fresh vector.
pub fn sub_chars(v: &Vec<char>, a: usize, b: usize) -> (r: Vec<char>)
    requires
        a <= b <= v@.len(),
    ensures
        r@ == v@.subrange(a as int, b as int),
{
    let mut r: Vec<char> = Vec::new();
    let mut i = a;
    while i < b
        invariant
            a <= i <= b <= v@.len(),
            r@ == v@.subrange(a as int, i as int),
        decreases b - i,
    {
        r.push(v[i]);
        proof {
            assert(r@ =~= v@.subrange(a as int, i + 1 as int));
        }
        i = i + 1;
    }
    r
}

/// End of a complete sentence starting exactly at `i`, if one starts there.
pub fn match_end(v: &Vec<char>, i: usize, digits: bool, ellipsis: bool) -> (r: Option<usize>)
    requires
        i <= v@.len(),
    ensures
        match r {
            Some(e) => match_end_at(v@, i as int, digits, ellipsis) == Some(e as int) && i < e
                <= v@.len(),
            None => match_end_at(v@, i as int, digits, ellipsis) is None,
        },
{
    let n = v.len();
    let k = inv_prefix(v, i);
    let q = i + k;
    if q >= n {
        return None;
    }
    let lead_ok = if digits {
        upper_or_digit_char(v[q])
    } else {
        upper_char(v[q])
    };
    if !lead_ok {
        return None;
    }
    let t = find_first_term(v, q + 1);
    proof {
        lemma_first_term_from(v@, q + 1 as int);
    }
    if t == v.len() {
        return None;
    }
    let mut e = t + 1;
    if ellipsis {
        if e < v.len() && v[e] == '.' {
            if e + 1 < v.len() && v[e + 1] == '.' {
                e = e + 2;
            } else {
                e = e + 1;
            }
        }
    }
    Some(e)
}

/// The views of a sequence of character vectors.
pub open spec fn views_of(vs: Seq<Vec<char>>) -> Seq<Seq<char>> {
    Seq::new(vs.len(), |i: int| vs[i]@)
}

/// All complete sentences of the text, scanning left to right.
pub fn collect_sentences(v: &Vec<char>, digits: bool, ellipsis: bool) -> (r: Vec<Vec<char>>)
    ensures
        views_of(r@) == sentences_from(v@, 0, digits, ellipsis),
{
    let mut r: Vec<Vec<char>> = Vec::new();
    let mut p: usize = 0;
    while p < v.len()
        invariant
            p <= v@.len(),
            sentences_from(v@, 0, digits, ellipsis) =~= views_of(r@) + sentences_from(
                v@,
                p as int,
                digits,
                ellipsis,
            ),
        decreases v@.len() - p,
    {
        match match_end(v, p, digits, ellipsis) {
            Some(e) => {
                let piece = sub_chars(v, p, e);
                r.push(piece);
                proof {
                    assert(views_of(r@) =~= views_of(r@.drop_last()).push(v@.subrange(
                        p as int,
                        e as int,
                    )));
                }
                p = e;
            },
            None => {
                p = p + 1;
            },
        }
    }
    proof {
        assert(views_of(r@) =~= views_of(r@) + sentences_from(v@, p as int, digits, ellipsis));
    }
    r
}

/// The leading fragment of the text, if it begins with one.
pub fn find_leading(v: &Vec<char>) -> (r: Option<Vec<char>>)
    ensures
        match r {
            Some(f) => spec_leading(v@) == Some(f@),
            None => spec_leading(v@) is None,
        },
{
    let k = inv_prefix(v, 0);
    if k < v.len() && lower_char(v[k]) {
        let t = find_first_term(v, 0);
        proof {
            lemma_first_term_from(v@, 0);
        }
        if t < v.len() {
            return Some(sub_chars(v, 0, t + 1));
        }
    }
    None
}

/// The trailing fragment of the text, if it ends with one.
pub fn find_trailing(v: &Vec<char>) -> (r: Option<Vec<char>>)
    ensures
        match r {
            Some(f) => spec_trailing(v@) == Some(f@),
            None => spec_trailing(v@) is None,
        },
{
    match find_last_term(v) {
        Some(t) => {
            proof {
                lemma_last_term(v@);
            }
            let n = v.len();
            if t + 1 < n && upper_char(v[t + 1]) {
                Some(sub_chars(v, t + 1, n))
            } else if n - t > 2 && space_char(v[t + 1]) && upper_char(v[t + 2]) {
                Some(sub_chars(v, t + 2, n))
            } else {
                None
            }
        },
        None => None,
    }
}

/// What the classifier's whole-partial field holds.
pub open spec fn spec_partial_field(s: Seq<char>) -> Option<Seq<char>> {
    if spec_whole_partial(s) {
        Some(s)
    } else {
        None
    }
}

/// What the classifier's leading-fragment field holds.
pub open spec fn spec_ending_field(s: Seq<char>) -> Option<Seq<char>> {
    if spec_whole_partial(s) {
        None
    } else {
        spec_leading(s)
    }
}

/// What the classifier's trailing-fragment field holds.
pub open spec fn spec_beginning_field(s: Seq<char>) -> Option<Seq<char>> {
    if spec_whole_partial(s) {
        None
    } else {
        spec_trailing(s)
    }
}

/// What the classifier's sentence list holds: nothing at all for a
/// whole-partial text or when no complete sentence stands in the text.
pub open spec fn spec_sentences_field(s: Seq<char>) -> Option<Seq<Seq<char>>> {
    if spec_whole_partial(s) {
        None
    } else if spec_sentences(s).len() == 0 {
        None
    } else {
        Some(spec_sentences(s))
    }
}

/// The sentences the classifier hands the stitcher: the same list, an
/// absent one read as empty.
pub open spec fn spec_sentences_seq(s: Seq<char>) -> Seq<Seq<char>> {
    if spec_whole_partial(s) {
        Seq::empty()
    } else {
        spec_sentences(s)
    }
}

proof fn lemma_no_term_no_sentences(s: Seq<char>, i: int, digits: bool, ellipsis: bool)
    requires
        0 <= i <= s.len(),
        forall|j: int| 0 <= j < s.len() ==> !is_term(s[j]),
    ensures
        sentences_from(s, i, digits, ellipsis).len() == 0,
    decreases s.len() - i,
{
    if i < s.len() {
        let q = i + inv_prefix_len(s, i);
        if q < s.len() {
            lemma_first_term_from(s, q + 1);
        }
        assert(match_end_at(s, i, digits, ellipsis) is None);
        lemma_no_term_no_sentences(s, i + 1, digits, ellipsis);
    }
}

/// The classification outcomes exclude one another: a whole-partial text
/// has no leading fragment, no trailing fragment and no complete sentence.
pub proof fn lemma_classification_exclusive(s: Seq<char>)
    requires
        spec_whole_partial(s),
    ensures
        spec_leading(s) is None,
        spec_trailing(s) is None,
        spec_sentences(s).len() == 0,
        spec_sentences_plain(s).len() == 0,
{
    lemma_first_term_from(s, 0);
    assert(forall|j: int| 0 <= j < s.len() ==> !is_term(s[j]));
    lemma_last_term(s);
    if last_term(s) >= 0 {
        assert(is_term(s[last_term(s)]));
        assert(false);
    }
    lemma_no_term_no_sentences(s, 0, true, true);
    lemma_no_term_no_sentences(s, 0, false, false);
}

/// Classification is complete on texts that begin, after the optional
/// inverted prefix, with a letter or digit: such a text is whole-partial,
/// or it carries a leading fragment or at least one complete sentence.
pub proof fn lemma_classification_complete(s: Seq<char>)
    requires
        inv_prefix_len(s, 0) < s.len(),
        is_alnum(s[inv_prefix_len(s, 0)]),
    ensures
        spec_whole_partial(s) || spec_leading(s) is Some || spec_sentences(s).len() > 0,
{
    let k = inv_prefix_len(s, 0);
    let t = first_term_from(s, 0);
    lemma_first_term_from(s, 0);
    if t == s.len() {
        assert(spec_whole_partial(s));
    } else if is_lower(s[k]) {
        assert(spec_leading(s) is Some);
    } else {
        assert(is_upper_or_digit(s[k]));
        assert(!is_term(s[k]));
        lemma_first_term_from(s, k + 1);
        assert(first_term_from(s, k + 1) < s.len()) by {
            if first_term_from(s, k + 1) == s.len() {
                assert(forall|j: int| k + 1 <= j < s.len() ==> !is_term(s[j]));
                assert(is_term(s[t]));
                assert(t <= k);
                assert(false);
            }
        }
        assert(match_end_at(s, 0, true, true) is Some);
        assert(sentences_from(s, 0, true, true).len() > 0);
    }
}

/// Whether the whole text is one partial sentence.
pub fn whole_partial(v: &Vec<char>) -> (r: bool)
    ensures
        r == spec_whole_partial(v@),
{
    let k = inv_prefix(v, 0);
    if k < v.len() && alnum_char(v[k]) {
        let t = find_first_term(v, 0);
        t == v.len()
    } else {
        false
    }
}

} // verus!
