//! Splitting raw subtitle file content into caption records: finding the
//! record-start markers (a line opening with a small ordinal), cutting the
//! spans between them, splitting a span into its lines, and reading the
//! ordinal. Decimal rendering for the display forms lives here too.

use vstd::prelude::*;

use crate::chars::is_digit;
use crate::chars::is_space;
use crate::chars::digit_char;
use crate::chars::space_char;
use crate::scan::sub_chars;
use crate::scan::views_of;
use crate::toolbox::dv;

verus! {

/// Index of the first `c` at or after `i`, or the length if none.
pub open spec fn first_char_from(s: Seq<char>, i: int, c: char) -> int
    decreases s.len() - i,
{
    if i < 0 || i >= s.len() {
        s.len() as int
    } else if s[i] == c {
        i
    } else {
        first_char_from(s, i + 1, c)
    }
}

/// Where the first `c` lies: none before it, one at it when it lies
/// within the text.
pub proof fn lemma_first_char_from(s: Seq<char>, i: int, c: char)
    requires
        0 <= i <= s.len(),
    ensures
        i <= first_char_from(s, i, c) <= s.len(),
        forall|j: int| i <= j < first_char_from(s, i, c) ==> s[j] != c,
        first_char_from(s, i, c) < s.len() ==> s[first_char_from(s, i, c)] == c,
    decreases s.len() - i,
{
    if i < s.len() && s[i] != c {
        lemma_first_char_from(s, i + 1, c);
    }
}

/// The text split at every `c`, each separator dropped; one piece more
/// than there are separators, so never empty.
pub open spec fn split_at_char(s: Seq<char>, c: char) -> Seq<Seq<char>>
    decreases s.len(),
    via split_at_char_dec
{
    let p = first_char_from(s, 0, c);
    if p == s.len() {
        seq![s]
    } else {
        seq![s.subrange(0, p)] + split_at_char(s.skip(p + 1), c)
    }
}

#[via_fn]
proof fn split_at_char_dec(s: Seq<char>, c: char) {
    lemma_first_char_from(s, 0, c);
}

/// The pieces of `v` split at every `c`.
pub fn split_chars(v: &Vec<char>, c: char) -> (r: Vec<Vec<char>>)
    ensures
        views_of(r@) == split_at_char(v@, c),
        r@.len() >= 1,
{
    let n = v.len();
    let mut r: Vec<Vec<char>> = Vec::new();
    let mut start: usize = 0;
    let mut i: usize = 0;
    proof {
        assert(v@.skip(0) =~= v@);
        assert(views_of(r@) + split_at_char(v@, c) =~= split_at_char(v@, c));
    }
    while i < n
        invariant
            start <= i <= n,
            n == v@.len(),
            split_at_char(v@, c) =~= views_of(r@) + split_at_char(v@.skip(start as int), c),
            forall|j: int| start <= j < i ==> v@[j] != c,
        decreases n - i,
    {
        if v[i] == c {
            let piece = sub_chars(v, start, i);
            r.push(piece);
            proof {
                let rest = v@.skip(start as int);
                lemma_first_char_piece(v@, start as int, i as int, c);
                assert(rest.subrange(0, i - start) =~= v@.subrange(start as int, i as int));
                assert(rest.skip(i - start + 1) =~= v@.skip(i + 1 as int));
                assert(views_of(r@) =~= views_of(r@.drop_last()) + seq![
                    v@.subrange(start as int, i as int),
                ]);
                assert(views_of(r@.drop_last()) + seq![v@.subrange(start as int, i as int)]
                    + split_at_char(v@.skip(i + 1 as int), c) =~= views_of(r@.drop_last()) + (seq![
                    v@.subrange(start as int, i as int),
                ] + split_at_char(v@.skip(i + 1 as int), c)));
            }
            start = i + 1;
        }
        i = i + 1;
    }
    let piece = sub_chars(v, start, n);
    r.push(piece);
    proof {
        let rest = v@.skip(start as int);
        lemma_first_char_piece(v@, start as int, n as int, c);
        assert(rest =~= v@.subrange(start as int, n as int));
        assert(split_at_char(rest, c) == seq![rest]);
        assert(views_of(r@) =~= views_of(r@.drop_last()) + seq![rest]);
    }
    r
}

/// When no `c` stands in `s[start..q]`, the first `c` of the tail
/// beginning at `start` lies at `q - start`, or past the tail's end.
proof fn lemma_first_char_piece(s: Seq<char>, start: int, q: int, c: char)
    requires
        0 <= start <= q <= s.len(),
        forall|j: int| start <= j < q ==> s[j] != c,
        q < s.len() ==> s[q] == c,
    ensures
        first_char_from(s.skip(start), 0, c) == q - start,
    decreases q - start,
{
    let rest = s.skip(start);
    if q == start {
        if q < s.len() {
            assert(rest[0] == s[start]);
        }
    } else {
        assert(rest[0] == s[start]);
        assert(rest.skip(1) =~= s.skip(start + 1));
        lemma_first_char_piece(s, start + 1, q, c);
        assert(first_char_from(rest, 0, c) == first_char_from(rest, 1, c)) by {
            assert(rest[0] != c);
        }
        lemma_first_char_shift(rest, c);
    }
}

/// Searching from one position further simply shifts by one on the tail.
proof fn lemma_first_char_shift(s: Seq<char>, c: char)
    requires
        s.len() >= 1,
    ensures
        first_char_from(s, 1, c) == 1 + first_char_from(s.skip(1), 0, c),
    decreases s.len(),
{
    lemma_first_char_shift_from(s, 1, c);
}

proof fn lemma_first_char_shift_from(s: Seq<char>, i: int, c: char)
    requires
        1 <= i <= s.len(),
    ensures
        first_char_from(s, i, c) == 1 + first_char_from(s.skip(1), i - 1, c),
    decreases s.len() - i,
{
    assert(s.skip(1).len() == s.len() - 1);
    if i < s.len() {
        assert(s.skip(1)[i - 1] == s[i]);
        if s[i] != c {
            lemma_first_char_shift_from(s, i + 1, c);
        }
    }
}

/// Every character is a decimal digit.
pub open spec fn all_digits(s: Seq<char>) -> bool {
    forall|i: int| 0 <= i < s.len() ==> is_digit(s[i])
}

/// The number a run of decimal digits denotes.
pub open spec fn digits_val(s: Seq<char>) -> int
    decreases s.len(),
{
    if s.len() == 0 {
        0
    } else {
        digits_val(s.drop_last()) * 10 + dv(s.last())
    }
}

/// A line that reads as a record ordinal: digits only, at least one, and
/// a value a machine word holds.
pub open spec fn spec_numeric(s: Seq<char>) -> bool {
    s.len() > 0 && all_digits(s) && digits_val(s) <= u64::MAX
}

proof fn lemma_digits_val_nonneg(s: Seq<char>)
    requires
        all_digits(s),
    ensures
        digits_val(s) >= 0,
    decreases s.len(),
{
    if s.len() > 0 {
        assert(all_digits(s.drop_last())) by {
            assert(forall|i: int| 0 <= i < s.len() - 1 ==> s.drop_last()[i] == s[i]);
        }
        lemma_digits_val_nonneg(s.drop_last());
    }
}

proof fn lemma_digits_val_prefix_le(s: Seq<char>, i: int)
    requires
        all_digits(s),
        0 <= i <= s.len(),
    ensures
        digits_val(s.subrange(0, i)) <= digits_val(s),
    decreases s.len() - i,
{
    if i < s.len() {
        lemma_digits_val_prefix_le(s, i + 1);
        let a = s.subrange(0, i);
        let b = s.subrange(0, i + 1);
        assert(b.drop_last() =~= a);
        assert(all_digits(a)) by {
            assert(forall|j: int| 0 <= j < i ==> a[j] == s[j]);
        }
        lemma_digits_val_nonneg(a);
        assert(digits_val(b) == digits_val(a) * 10 + dv(s[i]));
        assert(dv(s[i]) >= 0);
    } else {
        assert(s.subrange(0, i) =~= s);
    }
}

/// The ordinal a line denotes, when it is digits only and fits; otherwise
/// nothing.
pub fn parse_u64(v: &Vec<char>) -> (r: Option<u64>)
    ensures
        match r {
            Some(x) => spec_numeric(v@) && x == digits_val(v@),
            None => !spec_numeric(v@),
        },
{
    let n = v.len();
    if n == 0 {
        return None;
    }
    let mut value: u64 = 0;
    let mut i: usize = 0;
    while i < n
        invariant
            0 <= i <= n,
            n == v@.len(),
            all_digits(v@.subrange(0, i as int)),
            value == digits_val(v@.subrange(0, i as int)),
        decreases n - i,
    {
        if !digit_char(v[i]) {
            proof {
                assert(!all_digits(v@));
            }
            return None;
        }
        let d = (v[i] as u32 - 48) as u64;
        let next: u128 = (value as u128) * 10 + (d as u128);
        proof {
            assert(v@.subrange(0, i + 1 as int).drop_last() =~= v@.subrange(0, i as int));
            assert(all_digits(v@.subrange(0, i + 1 as int))) by {
                assert(forall|j: int|
                    0 <= j < i + 1 ==> v@.subrange(0, i + 1 as int)[j] == v@[j]);
            }
        }
        if next > 0xffff_ffff_ffff_ffffu128 {
            proof {
                if all_digits(v@) {
                    lemma_digits_val_prefix_le(v@, i + 1 as int);
                    assert(digits_val(v@) > u64::MAX);
                }
            }
            return None;
        }
        value = next as u64;
        i = i + 1;
    }
    proof {
        assert(v@.subrange(0, n as int) =~= v@);
    }
    Some(value)
}

/// Length of the run of decimal digits at `i`.
pub open spec fn digit_run_from(s: Seq<char>, i: int) -> int
    decreases s.len() - i,
{
    if i < 0 || i >= s.len() {
        0
    } else if is_digit(s[i]) {
        1 + digit_run_from(s, i + 1)
    } else {
        0
    }
}

/// End of the run of whitespace at `i`: the first position at or after it
/// that holds none, or the length.
pub open spec fn ws_run_end(s: Seq<char>, i: int) -> int
    decreases s.len() - i,
{
    if i < 0 || i >= s.len() {
        i
    } else if is_space(s[i]) {
        ws_run_end(s, i + 1)
    } else {
        i
    }
}

/// A line break stands somewhere in `s[a..b]`.
pub open spec fn newline_in(s: Seq<char>, a: int, b: int) -> bool {
    exists|j: int| a <= j < b && 0 <= j < s.len() && s[j] == '\n'
}

/// A record-start marker stands at `i`: a line start, one to four digits,
/// then whitespace that reaches a line break no earlier than its second
/// character.
pub open spec fn marker_at(s: Seq<char>, i: int) -> bool {
    &&& 0 <= i < s.len()
    &&& (i == 0 || s[i - 1] == '\n')
    &&& 1 <= digit_run_from(s, i) <= 4
    &&& newline_in(
        s,
        i + digit_run_from(s, i) + 1,
        ws_run_end(s, i + digit_run_from(s, i)),
    )
}

proof fn lemma_digit_run_exact(s: Seq<char>, i: int, q: int)
    requires
        0 <= i <= q <= s.len(),
        forall|j: int| i <= j < q ==> is_digit(s[j]),
        q < s.len() ==> !is_digit(s[q]),
    ensures
        digit_run_from(s, i) == q - i,
    decreases q - i,
{
    if i < q {
        lemma_digit_run_exact(s, i + 1, q);
    }
}

proof fn lemma_digit_run_nonneg(s: Seq<char>, i: int)
    ensures
        digit_run_from(s, i) >= 0,
    decreases s.len() - i,
{
    if 0 <= i && i < s.len() && is_digit(s[i]) {
        lemma_digit_run_nonneg(s, i + 1);
    }
}

proof fn lemma_digit_run_lb(s: Seq<char>, i: int, q: int)
    requires
        0 <= i <= q <= s.len(),
        forall|j: int| i <= j < q ==> is_digit(s[j]),
    ensures
        digit_run_from(s, i) >= q - i,
    decreases q - i,
{
    if i < q {
        lemma_digit_run_lb(s, i + 1, q);
    } else {
        lemma_digit_run_nonneg(s, i);
    }
}

proof fn lemma_ws_run_exact(s: Seq<char>, i: int, q: int)
    requires
        0 <= i <= q <= s.len(),
        forall|j: int| i <= j < q ==> is_space(s[j]),
        q < s.len() ==> !is_space(s[q]),
    ensures
        ws_run_end(s, i) == q,
    decreases q - i,
{
    if i < q {
        lemma_ws_run_exact(s, i + 1, q);
    }
}

/// Whether a record-start marker stands at `i`.
pub fn marker_check(v: &Vec<char>, i: usize) -> (r: bool)
    requires
        i < v@.len(),
    ensures
        r == marker_at(v@, i as int),
{
    let n = v.len();
    if i > 0 && v[i - 1] != '\n' {
        return false;
    }
    // Count the digits, up to one more than a marker may have.
    let mut j = i;
    while j < n && j - i <= 4 && digit_char(v[j])
        invariant
            i <= j <= n,
            n == v@.len(),
            j - i <= 5,
            forall|t: int| i <= t < j ==> is_digit(v@[t]),
        decreases n - j,
    {
        j = j + 1;
    }
    if j == i || j - i > 4 {
        proof {
            if j - i > 4 {
                lemma_digit_run_lb(v@, i as int, j as int);
            } else {
                lemma_digit_run_exact(v@, i as int, j as int);
            }
        }
        return false;
    }
    proof {
        lemma_digit_run_exact(v@, i as int, j as int);
    }
    // Walk the whitespace run after the digits and look for a line break
    // past the run's first character.
    let w = j;
    let mut e = w;
    while e < n && space_char(v[e])
        invariant
            w <= e <= n,
            n == v@.len(),
            forall|t: int| w <= t < e ==> is_space(v@[t]),
        decreases n - e,
    {
        e = e + 1;
    }
    proof {
        lemma_ws_run_exact(v@, w as int, e as int);
    }
    if e - w < 2 {
        proof {
            assert(!newline_in(v@, w + 1 as int, e as int));
        }
        return false;
    }
    let mut k = w + 1;
    while k < e && v[k] != '\n'
        invariant
            w + 1 <= k <= e,
            n == v@.len(),
            e <= n,
            forall|t: int| w + 1 <= t < k ==> v@[t] != '\n',
        decreases n - k,
    {
        k = k + 1;
    }
    if k < e {
        proof {
            assert(v@[k as int] == '\n');
            assert(newline_in(v@, w + 1 as int, e as int));
        }
        true
    } else {
        proof {
            assert(!newline_in(v@, w + 1 as int, e as int));
        }
        false
    }
}

/// All record-start marker positions, in order.
pub open spec fn markers_from(s: Seq<char>, i: int) -> Seq<int>
    decreases s.len() - i,
{
    if i < 0 || i >= s.len() {
        Seq::empty()
    } else if marker_at(s, i) {
        seq![i] + markers_from(s, i + 1)
    } else {
        markers_from(s, i + 1)
    }
}

/// The marker positions lie within the text, strictly increasing, and a
/// marker stands at each.
pub proof fn lemma_markers_from(s: Seq<char>, i: int)
    requires
        0 <= i <= s.len(),
    ensures
        forall|k: int|
            0 <= k < markers_from(s, i).len() ==> i <= #[trigger] markers_from(s, i)[k]
                < s.len() && marker_at(s, markers_from(s, i)[k]),
        forall|k: int, l: int|
            0 <= k < l < markers_from(s, i).len() ==> markers_from(s, i)[k] < markers_from(
                s,
                i,
            )[l],
    decreases s.len() - i,
{
    if i < s.len() {
        lemma_markers_from(s, i + 1);
        let ms = markers_from(s, i);
        let tail = markers_from(s, i + 1);
        if marker_at(s, i) {
            assert(ms == seq![i] + tail);
            assert forall|k: int| 0 <= k < ms.len() implies i <= ms[k] < s.len() && marker_at(
                s,
                ms[k],
            ) by {
                if k > 0 {
                    assert(ms[k] == tail[k - 1]);
                }
            }
            assert forall|k: int, l: int| 0 <= k < l < ms.len() implies ms[k] < ms[l] by {
                assert(ms[l] == tail[l - 1]);
                if k > 0 {
                    assert(ms[k] == tail[k - 1]);
                }
            }
        } else {
            assert(ms == tail);
            assert forall|k: int| 0 <= k < ms.len() implies i <= ms[k] < s.len() && marker_at(
                s,
                ms[k],
            ) by {
                assert(ms[k] == tail[k]);
            }
        }
    }
}

/// The positions as mathematical integers.
pub open spec fn ints_of(ms: Seq<usize>) -> Seq<int> {
    Seq::new(ms.len(), |i: int| ms[i] as int)
}

/// All record-start marker positions of the text.
pub fn find_markers(v: &Vec<char>) -> (r: Vec<usize>)
    ensures
        ints_of(r@) == markers_from(v@, 0),
{
    let n = v.len();
    let mut r: Vec<usize> = Vec::new();
    let mut i: usize = 0;
    while i < n
        invariant
            i <= n,
            n == v@.len(),
            markers_from(v@, 0) =~= ints_of(r@) + markers_from(v@, i as int),
        decreases n - i,
    {
        if marker_check(v, i) {
            r.push(i);
            proof {
                assert(ints_of(r@) =~= ints_of(r@.drop_last()).push(i as int));
                assert(ints_of(r@.drop_last()).push(i as int) + markers_from(v@, i + 1 as int)
                    =~= ints_of(r@.drop_last()) + (seq![i as int] + markers_from(
                    v@,
                    i + 1 as int,
                )));
            }
        }
        i = i + 1;
    }
    proof {
        assert(ints_of(r@) =~= ints_of(r@) + markers_from(v@, i as int));
    }
    r
}

/// The decimal digit character for a value below ten.
pub open spec fn digit_char_of(d: int) -> char {
    if d == 0 {
        '0'
    } else if d == 1 {
        '1'
    } else if d == 2 {
        '2'
    } else if d == 3 {
        '3'
    } else if d == 4 {
        '4'
    } else if d == 5 {
        '5'
    } else if d == 6 {
        '6'
    } else if d == 7 {
        '7'
    } else if d == 8 {
        '8'
    } else {
        '9'
    }
}

/// The usual decimal rendering of a nonnegative number.
pub open spec fn dec_str(n: int) -> Seq<char>
    decreases n,
{
    if n < 10 {
        seq![digit_char_of(n)]
    } else {
        dec_str(n / 10) + seq![digit_char_of(n % 10)]
    }
}

fn digit_char_exec(d: u128) -> (r: char)
    requires
        d < 10,
    ensures
        r == digit_char_of(d as int),
{
    if d == 0 {
        '0'
    } else if d == 1 {
        '1'
    } else if d == 2 {
        '2'
    } else if d == 3 {
        '3'
    } else if d == 4 {
        '4'
    } else if d == 5 {
        '5'
    } else if d == 6 {
        '6'
    } else if d == 7 {
        '7'
    } else if d == 8 {
        '8'
    } else {
        '9'
    }
}

/// The decimal rendering of `n`.
pub fn u128_to_chars(n: u128) -> (r: Vec<char>)
    ensures
        r@ == dec_str(n as int),
    decreases n,
{
    if n < 10 {
        let mut r: Vec<char> = Vec::new();
        r.push(digit_char_exec(n));
        proof {
            assert(r@ =~= seq![digit_char_of(n as int)]);
        }
        r
    } else {
        let mut r = u128_to_chars(n / 10);
        r.push(digit_char_exec(n % 10));
        proof {
            assert(r@ =~= dec_str(n as int / 10) + seq![digit_char_of(n as int % 10)]);
        }
        r
    }
}

/// The decimal rendering of `n`.
pub fn u64_to_chars(n: u64) -> (r: Vec<char>)
    ensures
        r@ == dec_str(n as int),
{
    u128_to_chars(n as u128)
}

} // verus!
