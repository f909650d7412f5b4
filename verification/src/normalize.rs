//! Text normalization: stripping presentation markup (color and italics
//! tags, stray quotes and dashes, short parenthetical stage directions) and
//! applying the fixed locale substitutions (dropping a leading interrogative
//! clause, turning an ellipsis into a dash-style pause). Both stages are
//! total; at worst the text comes back trimmed and otherwise unchanged.

use vstd::prelude::*;

use crate::chars::is_space;
use crate::chars::spec_trim;
use crate::chars::lemma_trim_trimmed;
use crate::chars::trim_chars;

verus! {

/// The literal occurs in `s` at position `i`.
pub open spec fn lit_at(s: Seq<char>, i: int, p: Seq<char>) -> bool {
    0 <= i && i + p.len() <= s.len() && s.subrange(i, i + p.len()) == p
}

/// `s` from position `i` on, with every occurrence of the literal removed,
/// scanning left to right and never rescanning removed ground.
pub open spec fn remove_lit_from(s: Seq<char>, i: int, p: Seq<char>) -> Seq<char>
    decreases s.len() - i,
    when 0 <= i && p.len() >= 1
{
    if i >= s.len() {
        Seq::empty()
    } else if lit_at(s, i, p) {
        remove_lit_from(s, i + p.len(), p)
    } else {
        seq![s[i]] + remove_lit_from(s, i + 1, p)
    }
}

/// End of the greedy middle of a bounded wildcard: the largest `m <= k`,
/// `m >= 1`, such that `m` characters other than a line break stand at `b`
/// and the closing literal follows them; the result is the end of that
/// closing literal.
pub open spec fn greedy_mid_end(s: Seq<char>, b: int, k: int, close: Seq<char>) -> Option<int>
    decreases k,
{
    if k < 1 {
        None
    } else if b + k + close.len() <= s.len() && (forall|j: int| b <= j < b + k ==> s[j] != '\n')
        && lit_at(s, b + k, close) {
        Some(b + k + close.len())
    } else {
        greedy_mid_end(s, b, k - 1, close)
    }
}

/// A found middle ends past at least one middle character and within the
/// text.
pub proof fn lemma_greedy_mid_end(s: Seq<char>, b: int, k: int, close: Seq<char>)
    requires
        greedy_mid_end(s, b, k, close) is Some,
    ensures
        b + 1 + close.len() <= greedy_mid_end(s, b, k, close)->0 <= s.len(),
    decreases k,
{
    if !(k >= 1 && b + k + close.len() <= s.len() && (forall|j: int|
        b <= j < b + k ==> s[j] != '\n') && lit_at(s, b + k, close)) {
        lemma_greedy_mid_end(s, b, k - 1, close);
    }
}

/// The opening of a color tag, up to its quoted value.
pub open spec fn font_prefix() -> Seq<char> {
    seq!['<', 'f', 'o', 'n', 't', ' ', 'c', 'o', 'l', 'o', 'r', '=', '"']
}

pub open spec fn font_close() -> Seq<char> {
    seq!['"', '>']
}

pub open spec fn lit_font_end() -> Seq<char> {
    seq!['<', '/', 'f', 'o', 'n', 't', '>']
}

pub open spec fn lit_italic_open() -> Seq<char> {
    seq!['<', 'i', '>']
}

pub open spec fn lit_italic_close() -> Seq<char> {
    seq!['<', '/', 'i', '>']
}

pub open spec fn lit_quote() -> Seq<char> {
    seq!['"']
}

pub open spec fn lit_dash() -> Seq<char> {
    seq!['-']
}

/// End of a whole color tag starting at `i`, if one starts there: the fixed
/// prefix, one to ten value characters (no line break), then `">`.
pub open spec fn font_match_end(s: Seq<char>, i: int) -> Option<int> {
    if lit_at(s, i, font_prefix()) {
        greedy_mid_end(s, i + font_prefix().len(), 10, font_close())
    } else {
        None
    }
}

/// End of a parenthetical stage direction starting at `i`, if one starts
/// there: `(`, one to thirty characters (no line break), then `)`.
pub open spec fn paren_match_end(s: Seq<char>, i: int) -> Option<int> {
    if 0 <= i < s.len() && s[i] == '(' {
        greedy_mid_end(s, i + 1, 30, seq![')'])
    } else {
        None
    }
}

/// A color tag found at `i` ends past `i` and within the text.
pub proof fn lemma_font_match_end(s: Seq<char>, i: int)
    requires
        font_match_end(s, i) is Some,
    ensures
        i < font_match_end(s, i)->0 <= s.len(),
{
    lemma_greedy_mid_end(s, i + font_prefix().len(), 10, font_close());
}

/// A parenthetical found at `i` ends past `i` and within the text.
pub proof fn lemma_paren_match_end(s: Seq<char>, i: int)
    requires
        paren_match_end(s, i) is Some,
    ensures
        i < paren_match_end(s, i)->0 <= s.len(),
{
    lemma_greedy_mid_end(s, i + 1, 30, seq![')']);
}

/// `s` from `i` on with every color tag removed.
pub open spec fn remove_font_from(s: Seq<char>, i: int) -> Seq<char>
    decreases s.len() - i,
    when 0 <= i
    via remove_font_from_dec
{
    if i >= s.len() {
        Seq::empty()
    } else {
        match font_match_end(s, i) {
            Some(e) => remove_font_from(s, e),
            None => seq![s[i]] + remove_font_from(s, i + 1),
        }
    }
}

#[via_fn]
proof fn remove_font_from_dec(s: Seq<char>, i: int) {
    if i < s.len() && font_match_end(s, i) is Some {
        lemma_font_match_end(s, i);
    }
}

/// `s` from `i` on with every short parenthetical removed.
pub open spec fn remove_paren_from(s: Seq<char>, i: int) -> Seq<char>
    decreases s.len() - i,
    when 0 <= i
    via remove_paren_from_dec
{
    if i >= s.len() {
        Seq::empty()
    } else {
        match paren_match_end(s, i) {
            Some(e) => remove_paren_from(s, e),
            None => seq![s[i]] + remove_paren_from(s, i + 1),
        }
    }
}

#[via_fn]
proof fn remove_paren_from_dec(s: Seq<char>, i: int) {
    if i < s.len() && paren_match_end(s, i) is Some {
        lemma_paren_match_end(s, i);
    }
}

/// The markup-stripping stage, its seven passes in their fixed order: color
/// tag openings, `</font>`, `<i>`, `</i>`, every double quote, every dash,
/// then short parentheticals.
pub open spec fn spec_clean(s: Seq<char>) -> Seq<char> {
    let s1 = remove_font_from(s, 0);
    let s2 = remove_lit_from(s1, 0, lit_font_end());
    let s3 = remove_lit_from(s2, 0, lit_italic_open());
    let s4 = remove_lit_from(s3, 0, lit_italic_close());
    let s5 = remove_lit_from(s4, 0, lit_quote());
    let s6 = remove_lit_from(s5, 0, lit_dash());
    remove_paren_from(s6, 0)
}

/// Index of the first `,` or `?` at or after `i`, or the length if none.
pub open spec fn first_comma_quest_from(s: Seq<char>, i: int) -> int
    decreases s.len() - i,
{
    if i < 0 || i >= s.len() {
        s.len() as int
    } else if s[i] == ',' || s[i] == '?' {
        i
    } else {
        first_comma_quest_from(s, i + 1)
    }
}

/// Where the first `,` or `?` lies: none before it, one at it when it
/// lies within the text.
pub proof fn lemma_first_comma_quest_from(s: Seq<char>, i: int)
    requires
        0 <= i <= s.len(),
    ensures
        i <= first_comma_quest_from(s, i) <= s.len(),
        forall|j: int|
            i <= j < first_comma_quest_from(s, i) ==> s[j] != ',' && s[j] != '?',
        first_comma_quest_from(s, i) < s.len() ==> (s[first_comma_quest_from(s, i)] == ','
            || s[first_comma_quest_from(s, i)] == '?'),
    decreases s.len() - i,
{
    if i < s.len() && !(s[i] == ',' || s[i] == '?') {
        lemma_first_comma_quest_from(s, i + 1);
    }
}

/// End of a leading interrogative clause starting at `p`, if one starts
/// there: `¿`, at least one character other than `,` or `?`, then `?, `.
pub open spec fn quest_match_end(s: Seq<char>, p: int) -> Option<int> {
    let r = first_comma_quest_from(s, p + 1);
    if 0 <= p < s.len() && s[p] == '¿' && r >= p + 2 && r + 2 < s.len() && s[r] == '?' && s[r + 1]
        == ',' && s[r + 2] == ' ' {
        Some(r + 3)
    } else {
        None
    }
}

/// First position at or after `i` where an interrogative clause starts, or
/// the length if none.
pub open spec fn first_quest_from(s: Seq<char>, i: int) -> int
    decreases s.len() - i,
{
    if i < 0 || i >= s.len() {
        s.len() as int
    } else if quest_match_end(s, i) is Some {
        i
    } else {
        first_quest_from(s, i + 1)
    }
}

/// Where the first interrogative clause starts: none before it, one at it
/// when it lies within the text.
pub proof fn lemma_first_quest_from(s: Seq<char>, i: int)
    requires
        0 <= i <= s.len(),
    ensures
        i <= first_quest_from(s, i) <= s.len(),
        forall|j: int| i <= j < first_quest_from(s, i) ==> quest_match_end(s, j) is None,
        first_quest_from(s, i) < s.len() ==> quest_match_end(s, first_quest_from(s, i)) is Some,
    decreases s.len() - i,
{
    if i < s.len() && quest_match_end(s, i) is None {
        lemma_first_quest_from(s, i + 1);
    }
}

/// The first locale rule: the first leading interrogative clause, `¿` up to
/// `?, `, is dropped; without one the text is unchanged.
pub open spec fn spec_rule_quest(s: Seq<char>) -> Seq<char> {
    let p = first_quest_from(s, 0);
    if p < s.len() {
        s.subrange(0, p) + s.subrange(quest_match_end(s, p)->0, s.len() as int)
    } else {
        s
    }
}

/// Three periods stand at `i`.
pub open spec fn triple_dot_at(s: Seq<char>, i: int) -> bool {
    0 <= i && i + 3 <= s.len() && s[i] == '.' && s[i + 1] == '.' && s[i + 2] == '.'
}

/// First position at or after `i` where three periods stand, or the length.
pub open spec fn first_triple_from(s: Seq<char>, i: int) -> int
    decreases s.len() - i,
{
    if i < 0 || i >= s.len() {
        s.len() as int
    } else if triple_dot_at(s, i) {
        i
    } else {
        first_triple_from(s, i + 1)
    }
}

/// Where the first three periods stand: none before them, three at them
/// when they lie within the text.
pub proof fn lemma_first_triple_from(s: Seq<char>, i: int)
    requires
        0 <= i <= s.len(),
    ensures
        i <= first_triple_from(s, i) <= s.len(),
        forall|j: int| i <= j < first_triple_from(s, i) ==> !triple_dot_at(s, j),
        first_triple_from(s, i) < s.len() ==> triple_dot_at(s, first_triple_from(s, i)),
    decreases s.len() - i,
{
    if i < s.len() && !triple_dot_at(s, i) {
        lemma_first_triple_from(s, i + 1);
    }
}

/// The second locale rule: the first ellipsis becomes a dash-style pause
/// marker; without one the text is unchanged.
pub open spec fn spec_rule_ellipsis(s: Seq<char>) -> Seq<char> {
    let p = first_triple_from(s, 0);
    if p < s.len() {
        s.subrange(0, p) + seq![' ', '-', ' '] + s.subrange(p + 3, s.len() as int)
    } else {
        s
    }
}

/// The locale-substitution stage: each rule in order, the text trimmed
/// after each.
pub open spec fn spec_special(s: Seq<char>) -> Seq<char> {
    spec_trim(spec_rule_ellipsis(spec_trim(spec_rule_quest(s))))
}

/// The whole normalization: markup stripped, the text trimmed, the locale
/// rules applied.
pub open spec fn spec_normalize(s: Seq<char>) -> Seq<char> {
    spec_special(spec_trim(spec_clean(s)))
}

/// No strip or substitution pattern occurs anywhere in the text.
pub open spec fn pattern_free(s: Seq<char>) -> bool {
    &&& forall|i: int| font_match_end(s, i) is None
    &&& forall|i: int| !lit_at(s, i, lit_font_end())
    &&& forall|i: int| !lit_at(s, i, lit_italic_open())
    &&& forall|i: int| !lit_at(s, i, lit_italic_close())
    &&& forall|i: int| !lit_at(s, i, lit_quote())
    &&& forall|i: int| !lit_at(s, i, lit_dash())
    &&& forall|i: int| paren_match_end(s, i) is None
    &&& forall|i: int| quest_match_end(s, i) is None
    &&& forall|i: int| !triple_dot_at(s, i)
}

proof fn lemma_remove_lit_noop(s: Seq<char>, i: int, p: Seq<char>)
    requires
        0 <= i <= s.len(),
        p.len() >= 1,
        forall|j: int| !lit_at(s, j, p),
    ensures
        remove_lit_from(s, i, p) == s.skip(i),
    decreases s.len() - i,
{
    if i >= s.len() {
        assert(remove_lit_from(s, i, p) =~= s.skip(i));
    } else {
        lemma_remove_lit_noop(s, i + 1, p);
        assert(remove_lit_from(s, i, p) =~= s.skip(i));
    }
}

proof fn lemma_remove_font_noop(s: Seq<char>, i: int)
    requires
        0 <= i <= s.len(),
        forall|j: int| font_match_end(s, j) is None,
    ensures
        remove_font_from(s, i) == s.skip(i),
    decreases s.len() - i,
{
    if i >= s.len() {
        assert(remove_font_from(s, i) =~= s.skip(i));
    } else {
        lemma_remove_font_noop(s, i + 1);
        assert(remove_font_from(s, i) =~= s.skip(i));
    }
}

proof fn lemma_remove_paren_noop(s: Seq<char>, i: int)
    requires
        0 <= i <= s.len(),
        forall|j: int| paren_match_end(s, j) is None,
    ensures
        remove_paren_from(s, i) == s.skip(i),
    decreases s.len() - i,
{
    if i >= s.len() {
        assert(remove_paren_from(s, i) =~= s.skip(i));
    } else {
        lemma_remove_paren_noop(s, i + 1);
        assert(remove_paren_from(s, i) =~= s.skip(i));
    }
}

/// On a pattern-free text the markup-stripping stage changes nothing.
proof fn lemma_clean_noop(s: Seq<char>)
    requires
        pattern_free(s),
    ensures
        spec_clean(s) == s,
{
    lemma_remove_font_noop(s, 0);
    assert(remove_font_from(s, 0) =~= s);
    lemma_remove_lit_noop(s, 0, lit_font_end());
    assert(remove_lit_from(s, 0, lit_font_end()) =~= s);
    lemma_remove_lit_noop(s, 0, lit_italic_open());
    assert(remove_lit_from(s, 0, lit_italic_open()) =~= s);
    lemma_remove_lit_noop(s, 0, lit_italic_close());
    assert(remove_lit_from(s, 0, lit_italic_close()) =~= s);
    lemma_remove_lit_noop(s, 0, lit_quote());
    assert(remove_lit_from(s, 0, lit_quote()) =~= s);
    lemma_remove_lit_noop(s, 0, lit_dash());
    assert(remove_lit_from(s, 0, lit_dash()) =~= s);
    lemma_remove_paren_noop(s, 0);
    assert(remove_paren_from(s, 0) =~= s);
}

/// On a pattern-free, already trimmed text the locale stage changes
/// nothing.
proof fn lemma_special_noop(s: Seq<char>)
    requires
        pattern_free(s),
        spec_trim(s) == s,
    ensures
        spec_special(s) == s,
{
    lemma_first_quest_from(s, 0);
    assert(first_quest_from(s, 0) == s.len());
    assert(spec_rule_quest(s) == s);
    lemma_first_triple_from(s, 0);
    assert(first_triple_from(s, 0) == s.len());
    assert(spec_rule_ellipsis(s) == s);
}

/// Normalization is idempotent on every text whose normalized form is free
/// of the strip and substitution patterns. (It is not idempotent on all
/// texts: a pause marker that the ellipsis rule inserts contains a dash,
/// which a second run of the dash pass would strip again.)
pub proof fn lemma_normalize_idempotent(s: Seq<char>)
    requires
        pattern_free(spec_normalize(s)),
    ensures
        spec_normalize(spec_normalize(s)) == spec_normalize(s),
{
    let n = spec_normalize(s);
    lemma_clean_noop(n);
    lemma_trim_trimmed(spec_rule_ellipsis(spec_trim(spec_rule_quest(spec_trim(spec_clean(s))))));
    assert(spec_trim(n) == n);
    lemma_special_noop(n);
}

fn font_prefix_vec() -> (r: Vec<char>)
    ensures
        r@ == font_prefix(),
{
    let mut r: Vec<char> = Vec::new();
    r.push('<');
    r.push('f');
    r.push('o');
    r.push('n');
    r.push('t');
    r.push(' ');
    r.push('c');
    r.push('o');
    r.push('l');
    r.push('o');
    r.push('r');
    r.push('=');
    r.push('"');
    proof {
        assert(r@ =~= font_prefix());
    }
    r
}

fn font_close_vec() -> (r: Vec<char>)
    ensures
        r@ == font_close(),
{
    let mut r: Vec<char> = Vec::new();
    r.push('"');
    r.push('>');
    proof {
        assert(r@ =~= font_close());
    }
    r
}

fn lit_font_end_vec() -> (r: Vec<char>)
    ensures
        r@ == lit_font_end(),
{
    let mut r: Vec<char> = Vec::new();
    r.push('<');
    r.push('/');
    r.push('f');
    r.push('o');
    r.push('n');
    r.push('t');
    r.push('>');
    proof {
        assert(r@ =~= lit_font_end());
    }
    r
}

fn lit_italic_open_vec() -> (r: Vec<char>)
    ensures
        r@ == lit_italic_open(),
{
    let mut r: Vec<char> = Vec::new();
    r.push('<');
    r.push('i');
    r.push('>');
    proof {
        assert(r@ =~= lit_italic_open());
    }
    r
}

fn lit_italic_close_vec() -> (r: Vec<char>)
    ensures
        r@ == lit_italic_close(),
{
    let mut r: Vec<char> = Vec::new();
    r.push('<');
    r.push('/');
    r.push('i');
    r.push('>');
    proof {
        assert(r@ =~= lit_italic_close());
    }
    r
}

fn one_char_vec(c: char) -> (r: Vec<char>)
    ensures
        r@ == seq![c],
{
    let mut r: Vec<char> = Vec::new();
    r.push(c);
    proof {
        assert(r@ =~= seq![c]);
    }
    r
}

/// The literal `p` stands in `v` at position `i`.
fn lit_eq_at(v: &Vec<char>, i: usize, p: &Vec<char>) -> (r: bool)
    ensures
        r == lit_at(v@, i as int, p@),
{
    let n = v.len();
    let m = p.len();
    if i > n || n - i < m {
        return false;
    }
    let mut j: usize = 0;
    while j < m
        invariant
            0 <= j <= m,
            m == p@.len(),
            i + m <= n == v@.len(),
            forall|t: int| 0 <= t < j ==> v@[i + t] == p@[t],
        decreases m - j,
    {
        if v[i + j] != p[j] {
            proof {
                assert(v@.subrange(i as int, i + m as int)[j as int] == v@[i + j]);
            }
            return false;
        }
        j = j + 1;
    }
    proof {
        assert(v@.subrange(i as int, i + m as int) =~= p@);
    }
    true
}

/// End of the greedy bounded middle at `b`, trying the longest length
/// first.
fn greedy_end(v: &Vec<char>, b: usize, kmax: usize, close: &Vec<char>) -> (r: Option<usize>)
    requires
        b <= v@.len(),
        kmax <= 30,
        close@.len() <= 2,
    ensures
        match r {
            Some(e) => greedy_mid_end(v@, b as int, kmax as int, close@) == Some(e as int),
            None => greedy_mid_end(v@, b as int, kmax as int, close@) is None,
        },
{
    let n = v.len();
    let mut k = kmax;
    while k >= 1
        invariant
            k <= kmax <= 30,
            b <= n == v@.len(),
            close@.len() <= 2,
            greedy_mid_end(v@, b as int, kmax as int, close@) == greedy_mid_end(
                v@,
                b as int,
                k as int,
                close@,
            ),
        decreases k,
    {
        if n - b >= k + close.len() {
            if no_newline_span(v, b, k) && lit_eq_at(v, b + k, close) {
                return Some(b + k + close.len());
            }
        }
        k = k - 1;
    }
    None
}

/// No line break stands among the `k` characters at `b`.
fn no_newline_span(v: &Vec<char>, b: usize, k: usize) -> (r: bool)
    requires
        b + k <= v@.len(),
    ensures
        r == forall|t: int| b <= t < b + k ==> v@[t] != '\n',
{
    let n = v.len();
    let mut j: usize = 0;
    while j < k
        invariant
            j <= k,
            b + k <= n == v@.len(),
            forall|t: int| b <= t < b + j ==> v@[t] != '\n',
        decreases k - j,
    {
        if v[b + j] == '\n' {
            return false;
        }
        j = j + 1;
    }
    true
}

/// `v` with every occurrence of the literal `p` removed.
fn remove_lit(v: &Vec<char>, p: &Vec<char>) -> (r: Vec<char>)
    requires
        p@.len() >= 1,
    ensures
        r@ == remove_lit_from(v@, 0, p@),
{
    let mut out: Vec<char> = Vec::new();
    let mut i: usize = 0;
    while i < v.len()
        invariant
            i <= v@.len(),
            p@.len() >= 1,
            remove_lit_from(v@, 0, p@) =~= out@ + remove_lit_from(v@, i as int, p@),
        decreases v@.len() - i,
    {
        if lit_eq_at(v, i, p) {
            i = i + p.len();
        } else {
            out.push(v[i]);
            proof {
                assert(out@ + remove_lit_from(v@, i + 1 as int, p@) =~= out@.drop_last() + (seq![
                    v@[i as int],
                ] + remove_lit_from(v@, i + 1 as int, p@)));
            }
            i = i + 1;
        }
    }
    proof {
        assert(out@ =~= out@ + remove_lit_from(v@, i as int, p@));
    }
    out
}

/// End of a whole color tag standing at `i`, if one starts there.
fn font_end(v: &Vec<char>, i: usize) -> (r: Option<usize>)
    requires
        i <= v@.len(),
    ensures
        match r {
            Some(e) => font_match_end(v@, i as int) == Some(e as int) && i < e <= v@.len(),
            None => font_match_end(v@, i as int) is None,
        },
{
    let pre = font_prefix_vec();
    if lit_eq_at(v, i, &pre) {
        let n = v.len();
        proof {
            assert(i + pre@.len() <= n);
        }
        let close = font_close_vec();
        let r = greedy_end(v, i + pre.len(), 10, &close);
        proof {
            if font_match_end(v@, i as int) is Some {
                lemma_font_match_end(v@, i as int);
            }
        }
        r
    } else {
        None
    }
}

fn paren_end(v: &Vec<char>, i: usize) -> (r: Option<usize>)
    requires
        i <= v@.len(),
    ensures
        match r {
            Some(e) => paren_match_end(v@, i as int) == Some(e as int) && i < e <= v@.len(),
            None => paren_match_end(v@, i as int) is None,
        },
{
    if i < v.len() && v[i] == '(' {
        let close = one_char_vec(')');
        let r = greedy_end(v, i + 1, 30, &close);
        proof {
            if paren_match_end(v@, i as int) is Some {
                lemma_paren_match_end(v@, i as int);
            }
        }
        r
    } else {
        None
    }
}

fn remove_font(v: &Vec<char>) -> (r: Vec<char>)
    ensures
        r@ == remove_font_from(v@, 0),
{
    let mut out: Vec<char> = Vec::new();
    let mut i: usize = 0;
    while i < v.len()
        invariant
            i <= v@.len(),
            remove_font_from(v@, 0) =~= out@ + remove_font_from(v@, i as int),
        decreases v@.len() - i,
    {
        match font_end(v, i) {
            Some(e) => {
                i = e;
            },
            None => {
                out.push(v[i]);
                proof {
                    assert(out@ + remove_font_from(v@, i + 1 as int) =~= out@.drop_last() + (seq![
                        v@[i as int],
                    ] + remove_font_from(v@, i + 1 as int)));
                }
                i = i + 1;
            },
        }
    }
    proof {
        assert(out@ =~= out@ + remove_font_from(v@, i as int));
    }
    out
}

fn remove_paren(v: &Vec<char>) -> (r: Vec<char>)
    ensures
        r@ == remove_paren_from(v@, 0),
{
    let mut out: Vec<char> = Vec::new();
    let mut i: usize = 0;
    while i < v.len()
        invariant
            i <= v@.len(),
            remove_paren_from(v@, 0) =~= out@ + remove_paren_from(v@, i as int),
        decreases v@.len() - i,
    {
        match paren_end(v, i) {
            Some(e) => {
                i = e;
            },
            None => {
                out.push(v[i]);
                proof {
                    assert(out@ + remove_paren_from(v@, i + 1 as int) =~= out@.drop_last() + (seq![
                        v@[i as int],
                    ] + remove_paren_from(v@, i + 1 as int)));
                }
                i = i + 1;
            },
        }
    }
    proof {
        assert(out@ =~= out@ + remove_paren_from(v@, i as int));
    }
    out
}

/// The markup-stripping stage on a character vector.
pub fn clean_chars(v: &Vec<char>) -> (r: Vec<char>)
    ensures
        r@ == spec_clean(v@),
{
    let s1 = remove_font(v);
    let s2 = remove_lit(&s1, &lit_font_end_vec());
    let s3 = remove_lit(&s2, &lit_italic_open_vec());
    let s4 = remove_lit(&s3, &lit_italic_close_vec());
    let s5 = remove_lit(&s4, &one_char_vec('"'));
    let s6 = remove_lit(&s5, &one_char_vec('-'));
    remove_paren(&s6)
}

/// End of a leading interrogative clause standing at `p`, if one starts
/// there.
fn quest_end(v: &Vec<char>, p: usize) -> (r: Option<usize>)
    requires
        p < v@.len(),
    ensures
        match r {
            Some(e) => quest_match_end(v@, p as int) == Some(e as int) && p < e <= v@.len(),
            None => quest_match_end(v@, p as int) is None,
        },
{
    let n = v.len();
    if v[p] != '¿' {
        return None;
    }
    let mut j = p + 1;
    while j < n && v[j] != ',' && v[j] != '?'
        invariant
            p + 1 <= j <= n,
            n == v@.len(),
            first_comma_quest_from(v@, p + 1 as int) == first_comma_quest_from(v@, j as int),
        decreases n - j,
    {
        j = j + 1;
    }
    proof {
        lemma_first_comma_quest_from(v@, p + 1 as int);
    }
    if j - p >= 2 && n - j >= 3 && v[j] == '?' && v[j + 1] == ',' && v[j + 2] == ' ' {
        Some(j + 3)
    } else {
        None
    }
}

/// The first locale rule on a character vector.
fn rule_quest_chars(v: &Vec<char>) -> (r: Vec<char>)
    ensures
        r@ == spec_rule_quest(v@),
{
    let n = v.len();
    let mut p: usize = 0;
    while p < n
        invariant
            p <= n,
            n == v@.len(),
            first_quest_from(v@, 0) == first_quest_from(v@, p as int),
        decreases n - p,
    {
        match quest_end(v, p) {
            Some(e) => {
                let mut out = crate::scan::sub_chars(v, 0, p);
                let tail = crate::scan::sub_chars(v, e, n);
                let mut t: usize = 0;
                while t < tail.len()
                    invariant
                        t <= tail@.len(),
                        out@ == v@.subrange(0, p as int) + tail@.subrange(0, t as int),
                    decreases tail@.len() - t,
                {
                    out.push(tail[t]);
                    proof {
                        assert(out@ =~= v@.subrange(0, p as int) + tail@.subrange(
                            0,
                            t + 1 as int,
                        ));
                    }
                    t = t + 1;
                }
                proof {
                    assert(tail@.subrange(0, tail@.len() as int) =~= tail@);
                    lemma_first_quest_from(v@, p as int);
                    assert(first_quest_from(v@, 0) == p);
                }
                return out;
            },
            None => {
                p = p + 1;
            },
        }
    }
    proof {
        lemma_first_quest_from(v@, 0);
    }
    let mut out: Vec<char> = Vec::new();
    let mut t: usize = 0;
    while t < n
        invariant
            t <= n,
            n == v@.len(),
            out@ == v@.subrange(0, t as int),
        decreases n - t,
    {
        out.push(v[t]);
        proof {
            assert(out@ =~= v@.subrange(0, t + 1 as int));
        }
        t = t + 1;
    }
    proof {
        assert(out@ =~= v@);
    }
    out
}

/// The second locale rule on a character vector.
fn rule_ellipsis_chars(v: &Vec<char>) -> (r: Vec<char>)
    ensures
        r@ == spec_rule_ellipsis(v@),
{
    let n = v.len();
    let mut p: usize = 0;
    while p < n
        invariant
            p <= n,
            n == v@.len(),
            first_triple_from(v@, 0) == first_triple_from(v@, p as int),
        decreases n - p,
    {
        let hit = n - p >= 3 && v[p] == '.' && v[p + 1] == '.' && v[p + 2] == '.';
        if hit {
            let mut out = crate::scan::sub_chars(v, 0, p);
            out.push(' ');
            out.push('-');
            out.push(' ');
            let tail = crate::scan::sub_chars(v, p + 3, n);
            let mut t: usize = 0;
            while t < tail.len()
                invariant
                    t <= tail@.len(),
                    out@ == v@.subrange(0, p as int) + seq![' ', '-', ' '] + tail@.subrange(
                        0,
                        t as int,
                    ),
                decreases tail@.len() - t,
            {
                out.push(tail[t]);
                proof {
                    assert(out@ =~= v@.subrange(0, p as int) + seq![' ', '-', ' ']
                        + tail@.subrange(0, t + 1 as int));
                }
                t = t + 1;
            }
            proof {
                assert(tail@.subrange(0, tail@.len() as int) =~= tail@);
                lemma_first_triple_from(v@, p as int);
                assert(first_triple_from(v@, 0) == p);
            }
            return out;
        }
        p = p + 1;
    }
    proof {
        lemma_first_triple_from(v@, 0);
    }
    let mut out: Vec<char> = Vec::new();
    let mut t: usize = 0;
    while t < n
        invariant
            t <= n,
            n == v@.len(),
            out@ == v@.subrange(0, t as int),
        decreases n - t,
    {
        out.push(v[t]);
        proof {
            assert(out@ =~= v@.subrange(0, t + 1 as int));
        }
        t = t + 1;
    }
    proof {
        assert(out@ =~= v@);
    }
    out
}

/// The locale-substitution stage on a character vector.
pub fn special_chars(v: &Vec<char>) -> (r: Vec<char>)
    ensures
        r@ == spec_special(v@),
{
    let a = rule_quest_chars(v);
    let b = trim_chars(&a);
    let c = rule_ellipsis_chars(&b);
    trim_chars(&c)
}

} // verus!
