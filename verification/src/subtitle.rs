//! The subtitle pipeline's data model and its two central algorithms: the
//! per-caption sentence-shape classifier, and the stitcher that folds the
//! ordered classifications into a time-indexed collection of complete
//! sentences.

use vstd::prelude::*;

use std::collections::HashMap;

use crate::chars::chars_of;
use crate::chars::string_of;
use crate::scan;
use crate::scan::spec_partial_field;
use crate::scan::spec_ending_field;
use crate::scan::spec_beginning_field;
use crate::scan::spec_sentences_field;
use crate::stitch;
use crate::toolbox::views_of_strings;
use vstd::string::StringExecFns;

verus! {

broadcast use vstd::std_specs::hash::group_hash_axioms, vstd::seq_lib::group_seq_lib_default;

/// A failure that invalidates the whole file.
#[derive(Debug, PartialEq, Eq, Structural, Clone, Copy)]
pub enum SubtitleError {
    /// A record's first line does not read as a numeric ordinal.
    MalformedRecordId,
    /// A record's second line holds no time range.
    MalformedTimeRange,
}

/// The shape analysis of one caption's text: a leading fragment that ends
/// a sentence opened earlier, complete sentences of its own, a trailing
/// fragment that opens a sentence, or — exclusively — one whole partial
/// sentence.
#[derive(Eq, PartialEq, Debug)]
pub struct SentenceExtractionResult {
    pub end_of_a_sentence: Option<String>,
    pub sentences: Option<Vec<String>>,
    pub begin_of_a_sentence: Option<String>,
    pub partial: Option<String>,
}

/// One timestamped caption record, its text already normalized.
pub struct SubtitleSection {
    pub id: u64,
    /// Start of the caption's display, in milliseconds.
    pub from: u64,
    /// End of the caption's display, in milliseconds.
    pub to: u64,
    /// The millisecond the caption starts at, the stitcher's time key.
    pub time_index: u128,
    pub text: String,
}

/// One reconstructed sentence.
#[derive(Debug)]
pub struct SubtitleSentence {
    /// The millisecond the sentence started in.
    pub time_index: u128,
    /// The sentence.
    pub sentence: String,
}

/// A parsed subtitle collection: its captions in order, and the complete
/// sentences bucketed by the whole second they began in.
pub struct Subtitle {
    pub name: String,
    pub sentences: HashMap<u128, Vec<SubtitleSentence>>,
    pub sections: Vec<SubtitleSection>,
}

/// The view of an optional text.
pub open spec fn opt_text(o: Option<String>) -> Option<Seq<char>> {
    match o {
        Some(s) => Some(s@),
        None => None,
    }
}

/// The views of an optional list of texts.
pub open spec fn opt_texts(o: Option<Vec<String>>) -> Option<Seq<Seq<char>>> {
    match o {
        Some(v) => Some(views_of_strings(v@)),
        None => None,
    }
}

/// First position at or after `i` where the tag `@m` stands, or the
/// length if none.
pub open spec fn find_tag_from(s: Seq<char>, i: int, m: char) -> int
    decreases s.len() - i,
{
    if i < 0 || i + 2 > s.len() {
        s.len() as int
    } else if s[i] == '@' && s[i + 1] == m {
        i
    } else {
        find_tag_from(s, i + 1, m)
    }
}

/// Where the first `@m` tag lies: none before it, one at it when it lies
/// within the text.
pub proof fn lemma_find_tag_from(s: Seq<char>, i: int, m: char)
    requires
        0 <= i <= s.len(),
    ensures
        i <= find_tag_from(s, i, m) <= s.len(),
        find_tag_from(s, i, m) < s.len() ==> find_tag_from(s, i, m) + 2 <= s.len()
            && s[find_tag_from(s, i, m)] == '@' && s[find_tag_from(s, i, m) + 1] == m,
        forall|j: int|
            i <= j < find_tag_from(s, i, m) && j + 2 <= s.len() ==> !(#[trigger] s[j] == '@' && s[j
                + 1] == m),
    decreases s.len() - i,
{
    if !(i + 2 > s.len()) && !(s[i] == '@' && s[i + 1] == m) {
        lemma_find_tag_from(s, i + 1, m);
    }
}

/// Last position where the tag `@m` stands, or `-1` if none.
pub open spec fn rfind_tag(s: Seq<char>, m: char) -> int
    decreases s.len(),
{
    if s.len() < 2 {
        -1
    } else if s[s.len() - 2] == '@' && s[s.len() - 1] == m {
        s.len() - 2
    } else {
        rfind_tag(s.take(s.len() - 1), m)
    }
}

/// All positions where the tag `@m` stands, scanning left to right and
/// stepping past each tag found.
pub open spec fn tag_positions(s: Seq<char>, i: int, m: char) -> Seq<int>
    decreases s.len() - i,
{
    if i < 0 || i + 2 > s.len() {
        Seq::empty()
    } else if s[i] == '@' && s[i + 1] == m {
        seq![i] + tag_positions(s, i + 2, m)
    } else {
        tag_positions(s, i + 1, m)
    }
}

/// The tag positions lie within the text, two characters apart at least,
/// and start at the first tag.
pub proof fn lemma_tag_positions(s: Seq<char>, i: int, m: char)
    requires
        0 <= i <= s.len(),
    ensures
        forall|k: int|
            0 <= k < tag_positions(s, i, m).len() ==> i <= #[trigger] tag_positions(s, i, m)[k]
                && tag_positions(s, i, m)[k] + 2 <= s.len(),
        forall|k: int, l: int|
            0 <= k < l < tag_positions(s, i, m).len() ==> #[trigger] tag_positions(s, i, m)[k]
                + 2 <= #[trigger] tag_positions(s, i, m)[l],
        tag_positions(s, i, m).len() > 0 <==> find_tag_from(s, i, m) < s.len(),
        tag_positions(s, i, m).len() > 0 ==> tag_positions(s, i, m)[0] == find_tag_from(s, i, m),
    decreases s.len() - i,
{
    let ts = tag_positions(s, i, m);
    if i + 2 > s.len() {
    } else if s[i] == '@' && s[i + 1] == m {
        lemma_tag_positions(s, i + 2, m);
        let tail = tag_positions(s, i + 2, m);
        assert forall|k: int| 0 <= k < ts.len() implies i <= ts[k] && ts[k] + 2 <= s.len() by {
            if k > 0 {
                assert(ts[k] == tail[k - 1]);
            }
        }
        assert forall|k: int, l: int| 0 <= k < l < ts.len() implies ts[k] + 2 <= ts[l] by {
            assert(ts[l] == tail[l - 1]);
            if k > 0 {
                assert(ts[k] == tail[k - 1]);
            }
        }
    } else {
        lemma_tag_positions(s, i + 1, m);
    }
}

/// The tag `@m` stands somewhere in the text.
pub open spec fn has_tag(s: Seq<char>, m: char) -> bool {
    find_tag_from(s, 0, m) < s.len()
}

/// What the partial field of a marked expectation string denotes: for a
/// `@p` string, everything past the two leading marker characters,
/// trimmed.
pub open spec fn spec_marked_partial(s: Seq<char>) -> Option<Seq<char>> {
    if has_tag(s, 'p') {
        Some(crate::chars::spec_trim(s.skip(2)))
    } else {
        None
    }
}

/// What the leading-fragment field denotes: after a leading `@e`, the text
/// up to the first `@s`, else up to the first `@b`, else to the end.
pub open spec fn spec_marked_ending(s: Seq<char>) -> Option<Seq<char>> {
    if has_tag(s, 'p') {
        None
    } else if has_tag(s, 'e') {
        if has_tag(s, 's') {
            Some(crate::chars::spec_trim(s.subrange(2, find_tag_from(s, 0, 's'))))
        } else if has_tag(s, 'b') {
            Some(crate::chars::spec_trim(s.subrange(2, find_tag_from(s, 0, 'b'))))
        } else {
            Some(crate::chars::spec_trim(s.skip(2)))
        }
    } else {
        None
    }
}

/// What the sentence list denotes: one piece per `@s`, each running to the
/// next `@s`, the last to the first `@b` or to the end.
pub open spec fn spec_marked_sentences(s: Seq<char>) -> Option<Seq<Seq<char>>> {
    if has_tag(s, 'p') {
        None
    } else if has_tag(s, 's') {
        let ats = tag_positions(s, 0, 's');
        Some(
            Seq::new(
                ats.len(),
                |i: int|
                    if i < ats.len() - 1 {
                        crate::chars::spec_trim(s.subrange(ats[i] + 2, ats[i + 1]))
                    } else if has_tag(s, 'b') {
                        crate::chars::spec_trim(s.subrange(ats[i] + 2, find_tag_from(s, 0, 'b')))
                    } else {
                        crate::chars::spec_trim(s.subrange(ats[i] + 2, s.len() as int))
                    },
            ),
        )
    } else {
        None
    }
}

/// What the trailing-fragment field denotes: everything past the last
/// `@b`, trimmed.
pub open spec fn spec_marked_beginning(s: Seq<char>) -> Option<Seq<char>> {
    if has_tag(s, 'p') {
        None
    } else if rfind_tag(s, 'b') >= 0 {
        Some(crate::chars::spec_trim(s.skip(rfind_tag(s, 'b') + 2)))
    } else {
        None
    }
}

/// The markers stand in their intended order: `@e` first when present,
/// every `@s` before the `@b`. Strings whose markers stand otherwise are
/// not well-formed expectation strings.
pub open spec fn marked_wf(s: Seq<char>) -> bool {
    has_tag(s, 'p') || {
        let ats = tag_positions(s, 0, 's');
        &&& (has_tag(s, 'e') && has_tag(s, 's') ==> find_tag_from(s, 0, 's') >= 2)
        &&& (has_tag(s, 'e') && !has_tag(s, 's') && has_tag(s, 'b') ==> find_tag_from(s, 0, 'b')
            >= 2)
        &&& (has_tag(s, 's') && has_tag(s, 'b') ==> find_tag_from(s, 0, 'b') >= ats[ats.len()
            - 1] + 2)
    }
}

/// First position at or after `i` where the tag `@m` stands.
fn find_tag(v: &Vec<char>, m: char) -> (r: Option<usize>)
    ensures
        match r {
            Some(p) => find_tag_from(v@, 0, m) == p && p + 2 <= v@.len(),
            None => find_tag_from(v@, 0, m) == v@.len(),
        },
{
    let n = v.len();
    let mut j: usize = 0;
    while n - j >= 2 && !(v[j] == '@' && v[j + 1] == m)
        invariant
            j <= n,
            n == v@.len(),
            find_tag_from(v@, 0, m) == find_tag_from(v@, j as int, m),
        decreases n - j,
    {
        j = j + 1;
    }
    if n - j >= 2 {
        Some(j)
    } else {
        proof {
            lemma_find_tag_from(v@, j as int, m);
        }
        None
    }
}

/// Last position where the tag `@m` stands.
fn rfind_tag_pos(v: &Vec<char>, m: char) -> (r: Option<usize>)
    ensures
        match r {
            Some(p) => rfind_tag(v@, m) == p && p + 2 <= v@.len(),
            None => rfind_tag(v@, m) == -1,
        },
{
    let n = v.len();
    let mut j = n;
    proof {
        assert(v@.take(n as int) =~= v@);
    }
    while j >= 2
        invariant
            j <= n == v@.len(),
            rfind_tag(v@, m) == rfind_tag(v@.take(j as int), m),
        decreases j,
    {
        proof {
            assert(v@.take(j as int).take(j - 1 as int) =~= v@.take(j - 1 as int));
            assert(v@.take(j as int)[j - 1] == v@[j - 1]);
            assert(v@.take(j as int)[j - 2] == v@[j - 2]);
        }
        if v[j - 2] == '@' && v[j - 1] == m {
            return Some(j - 2);
        }
        j = j - 1;
    }
    None
}

/// All positions where the tag `@m` stands.
fn tag_pos_list(v: &Vec<char>, m: char) -> (r: Vec<usize>)
    ensures
        crate::segment::ints_of(r@) == tag_positions(v@, 0, m),
{
    let n = v.len();
    let mut r: Vec<usize> = Vec::new();
    let mut j: usize = 0;
    while n - j >= 2 || j < n
        invariant
            j <= n,
            n == v@.len(),
            tag_positions(v@, 0, m) =~= crate::segment::ints_of(r@) + tag_positions(
                v@,
                j as int,
                m,
            ),
        decreases n - j,
    {
        if n - j >= 2 && v[j] == '@' && v[j + 1] == m {
            r.push(j);
            proof {
                assert(crate::segment::ints_of(r@) =~= crate::segment::ints_of(
                    r@.drop_last(),
                ).push(j as int));
                assert(crate::segment::ints_of(r@.drop_last()).push(j as int) + tag_positions(
                    v@,
                    j + 2 as int,
                    m,
                ) =~= crate::segment::ints_of(r@.drop_last()) + (seq![j as int] + tag_positions(
                    v@,
                    j + 2 as int,
                    m,
                )));
            }
            j = j + 2;
        } else {
            j = j + 1;
        }
    }
    proof {
        assert(crate::segment::ints_of(r@) =~= crate::segment::ints_of(r@) + tag_positions(
            v@,
            j as int,
            m,
        ));
    }
    r
}

impl SentenceExtractionResult {
    /// The outcomes are mutually exclusive: a whole-partial result carries
    /// nothing else.
    pub open spec fn wf(self) -> bool {
        self.partial is Some ==> self.end_of_a_sentence is None && self.sentences is None
            && self.begin_of_a_sentence is None
    }

    /// Reads an expectation string written with `@p`, `@e`, `@s` and `@b`
    /// markers into a classification result: `@p` makes the whole rest the
    /// partial field; otherwise a leading `@e` span, the `@s` sentences and
    /// the final `@b` span fill their fields, each trimmed.
    pub fn from_string(input: &str) -> (r: SentenceExtractionResult)
        requires
            marked_wf(input@),
        ensures
            opt_text(r.partial) == spec_marked_partial(input@),
            opt_text(r.end_of_a_sentence) == spec_marked_ending(input@),
            opt_texts(r.sentences) == spec_marked_sentences(input@),
            opt_text(r.begin_of_a_sentence) == spec_marked_beginning(input@),
            r.wf(),
    {
        let v = chars_of(input);
        let n = v.len();
        if let Some(_) = find_tag(&v, 'p') {
            let piece = crate::chars::trim_chars(&crate::scan::sub_chars(&v, 2, n));
            proof {
                assert(v@.subrange(2, n as int) =~= v@.skip(2));
            }
            return SentenceExtractionResult {
                end_of_a_sentence: None,
                sentences: None,
                begin_of_a_sentence: None,
                partial: Some(string_of(&piece)),
            };
        }
        let s_first = find_tag(&v, 's');
        let b_first = find_tag(&v, 'b');
        let ending = match find_tag(&v, 'e') {
            Some(_) => {
                let cut = match s_first {
                    Some(x) => x,
                    None => match b_first {
                        Some(x) => x,
                        None => n,
                    },
                };
                let piece = crate::chars::trim_chars(&crate::scan::sub_chars(&v, 2, cut));
                proof {
                    if s_first is None && b_first is None {
                        assert(v@.subrange(2, n as int) =~= v@.skip(2));
                    }
                }
                Some(string_of(&piece))
            },
            None => None,
        };
        let sentences = match s_first {
            Some(_) => {
                let ats = tag_pos_list(&v, 's');
                proof {
                    lemma_tag_positions(v@, 0, 's');
                }
                let ghost model = spec_marked_sentences(v@)->0;
                let mut out: Vec<String> = Vec::new();
                let mut i: usize = 0;
                while i < ats.len()
                    invariant
                        i <= ats@.len(),
                        n == v@.len(),
                        marked_wf(v@),
                        !has_tag(v@, 'p'),
                        has_tag(v@, 's'),
                        crate::segment::ints_of(ats@) == tag_positions(v@, 0, 's'),
                        model == spec_marked_sentences(v@)->0,
                        match b_first {
                            Some(x) => find_tag_from(v@, 0, 'b') == x && x + 2 <= n,
                            None => find_tag_from(v@, 0, 'b') == n,
                        },
                        out@.len() == i,
                        forall|t: int| 0 <= t < i ==> out@[t]@ == model[t],
                    decreases ats@.len() - i,
                {
                    proof {
                        lemma_tag_positions(v@, 0, 's');
                        assert(crate::segment::ints_of(ats@)[i as int] == ats@[i as int] as int);
                    }
                    let lo = ats[i] + 2;
                    let hi = if i + 1 < ats.len() {
                        proof {
                            assert(crate::segment::ints_of(ats@)[i + 1 as int] == ats@[i
                                + 1 as int] as int);
                        }
                        ats[i + 1]
                    } else {
                        match b_first {
                            Some(x) => x,
                            None => n,
                        }
                    };
                    let piece = crate::chars::trim_chars(&crate::scan::sub_chars(&v, lo, hi));
                    out.push(string_of(&piece));
                    i = i + 1;
                }
                proof {
                    assert(views_of_strings(out@) =~= model);
                }
                Some(out)
            },
            None => None,
        };
        let beginning = match rfind_tag_pos(&v, 'b') {
            Some(x) => {
                let piece = crate::chars::trim_chars(&crate::scan::sub_chars(&v, x + 2, n));
                proof {
                    assert(v@.subrange(x + 2 as int, n as int) =~= v@.skip(x + 2 as int));
                }
                Some(string_of(&piece))
            },
            None => None,
        };
        SentenceExtractionResult {
            end_of_a_sentence: ending,
            sentences: sentences,
            begin_of_a_sentence: beginning,
            partial: None,
        }
    }
}

impl SubtitleSection {
    /// An empty record.
    pub fn new() -> (r: SubtitleSection)
        ensures
            r.id == 0,
            r.from == 0,
            r.to == 0,
            r.time_index == 0,
            r.text@ == Seq::<char>::empty(),
    {
        SubtitleSection { id: 0, from: 0, to: 0, time_index: 0, text: String::new() }
    }

    /// Appends to the record's text; everything else stays.
    pub fn add_text(&mut self, text: &str)
        ensures
            final(self).text@ == old(self).text@ + text@,
            final(self).id == old(self).id,
            final(self).from == old(self).from,
            final(self).to == old(self).to,
            final(self).time_index == old(self).time_index,
    {
        self.text.append(text);
    }

    /// The record's text with a closing line break.
    pub fn to_string(&self) -> (r: String)
        ensures
            r@ == self.text@.push('\n'),
    {
        let mut s = self.text.clone();
        s.append("\n");
        proof {
            reveal_strlit("\n");
            assert(s@ =~= self.text@.push('\n'));
        }
        s
    }

    /// Classifies one caption's text. A text that is one whole partial
    /// sentence yields only the partial field; otherwise the leading
    /// fragment, the complete sentences and the trailing fragment are
    /// reported independently, each empty where the text has none.
    pub fn extract_sentences(contents: &str) -> (r: SentenceExtractionResult)
        ensures
            opt_text(r.partial) == spec_partial_field(contents@),
            opt_text(r.end_of_a_sentence) == spec_ending_field(contents@),
            opt_text(r.begin_of_a_sentence) == spec_beginning_field(contents@),
            opt_texts(r.sentences) == spec_sentences_field(contents@),
            r.wf(),
    {
        let v = chars_of(contents);
        if scan::whole_partial(&v) {
            return SentenceExtractionResult {
                end_of_a_sentence: None,
                sentences: None,
                begin_of_a_sentence: None,
                partial: Some(string_of(&v)),
            };
        }
        let ending = match scan::find_leading(&v) {
            Some(f) => Some(string_of(&f)),
            None => None,
        };
        let beginning = match scan::find_trailing(&v) {
            Some(f) => Some(string_of(&f)),
            None => None,
        };
        let found = scan::collect_sentences(&v, true, true);
        let sentences = if found.len() == 0 {
            None
        } else {
            let mut ss: Vec<String> = Vec::new();
            let mut i: usize = 0;
            while i < found.len()
                invariant
                    i <= found@.len(),
                    ss@.len() == i,
                    forall|j: int| 0 <= j < i ==> ss@[j]@ == found@[j]@,
                decreases found@.len() - i,
            {
                ss.push(string_of(&found[i]));
                i = i + 1;
            }
            proof {
                assert(views_of_strings(ss@) =~= scan::views_of(found@));
            }
            Some(ss)
        };
        SentenceExtractionResult {
            end_of_a_sentence: ending,
            sentences: sentences,
            begin_of_a_sentence: beginning,
            partial: None,
        }
    }
}

/// The time keys and texts of a record list — what the stitcher folds
/// over.
pub open spec fn section_models(ss: Seq<SubtitleSection>) -> Seq<(u128, Seq<char>)> {
    Seq::new(ss.len(), |i: int| (ss[i].time_index, ss[i].text@))
}

/// The time keys and texts of the sentences in one bucket.
pub open spec fn sentence_models(vs: Seq<SubtitleSentence>) -> Seq<(u128, Seq<char>)> {
    Seq::new(vs.len(), |i: int| (vs[i].time_index, vs[i].sentence@))
}

/// The time index matches an emission list: a second appears as a key
/// exactly when a sentence starts in it, and its bucket holds exactly
/// those sentences, in emission order.
pub open spec fn index_matches(
    m: Map<u128, Vec<SubtitleSentence>>,
    es: Seq<(u128, Seq<char>)>,
) -> bool {
    &&& forall|k: u128| #[trigger] m.contains_key(k) <==> stitch::bucketed(es, k).len() > 0
    &&& forall|k: u128|
        #[trigger] m.contains_key(k) ==> sentence_models(m[k]@) == stitch::bucketed(es, k)
}

/// The exec stitching state mirrors the model's open fragment.
pub open spec fn state_matches(
    o: Option<(u128, String)>,
    st: Option<(u128, Seq<char>)>,
) -> bool {
    match (o, st) {
        (Some(p), Some(m)) => p.0 == m.0 && p.1@ == m.1,
        (None, None) => true,
        _ => false,
    }
}

/// Appends one sentence to the bucket of its second, creating the bucket
/// when it is new.
fn push_sentence(map: &mut HashMap<u128, Vec<SubtitleSentence>>, time_index: u128, sentence: String)
    ensures
        forall|es: Seq<(u128, Seq<char>)>|
            index_matches(old(map)@, es) ==> #[trigger] index_matches(
                final(map)@,
                es.push((time_index, sentence@)),
            ),
{
    let k = time_index / 1000;
    let ghost x = (time_index, sentence@);
    let prev = map.remove(&k);
    let mut bucket = match prev {
        Some(b) => b,
        None => Vec::new(),
    };
    bucket.push(SubtitleSentence { time_index, sentence });
    let ghost bview = bucket@;
    map.insert(k, bucket);
    proof {
        assert(map@ =~= old(map)@.insert(k, map@[k]));
        assert(map@[k]@ == bview);
        assert forall|es: Seq<(u128, Seq<char>)>| index_matches(old(map)@, es) implies
        #[trigger] index_matches(map@, es.push(x)) by {
            let es2 = es.push(x);
            assert forall|k2: u128| #[trigger] map@.contains_key(k2) <==> stitch::bucketed(
                es2,
                k2,
            ).len() > 0 by {
                stitch::lemma_bucket_push(es, x, k2);
                if k2 != k {
                    assert(map@.contains_key(k2) == old(map)@.contains_key(k2));
                }
            }
            assert forall|k2: u128| #[trigger] map@.contains_key(k2) implies sentence_models(
                map@[k2]@,
            ) == stitch::bucketed(es2, k2) by {
                stitch::lemma_bucket_push(es, x, k2);
                if k2 == k {
                    if old(map)@.contains_key(k) {
                        assert(sentence_models(bview) =~= sentence_models(old(map)@[k]@).push(
                            x,
                        ));
                    } else {
                        assert(stitch::bucketed(es, k).len() == 0);
                        assert(stitch::bucketed(es, k) =~= Seq::<(u128, Seq<char>)>::empty());
                        assert(sentence_models(bview) =~= stitch::bucketed(es, k).push(x));
                    }
                } else {
                    assert(map@[k2] == old(map)@[k2]);
                }
            }
        }
    }
}

/// The parsed form of one record block.
pub struct SectionModel {
    pub id: int,
    pub from: int,
    pub to: int,
    pub text: Seq<char>,
}

/// How one record block reads: its first line the numeric ordinal, its
/// second line a time range, its remaining lines joined and normalized.
/// An ordinal that does not read as a number or a missing time range is
/// fatal; a block whose text normalizes to nothing is dropped.
pub open spec fn spec_parse_section(block: Seq<char>) -> Result<
    Option<SectionModel>,
    SubtitleError,
> {
    let lines = crate::segment::split_at_char(block, '\r');
    if !crate::segment::spec_numeric(lines[0]) {
        Err(SubtitleError::MalformedRecordId)
    } else if lines.len() < 2 || crate::toolbox::first_time_range_from(lines[1], 0)
        == lines[1].len() {
        Err(SubtitleError::MalformedTimeRange)
    } else {
        let p = crate::toolbox::first_time_range_from(lines[1], 0);
        match crate::toolbox::spec_get_text(lines.skip(2)) {
            None => Ok(None),
            Some(joined) => {
                let text = crate::normalize::spec_normalize(joined);
                if text.len() == 0 {
                    Ok(None)
                } else {
                    Ok(
                        Some(
                            SectionModel {
                                id: crate::segment::digits_val(lines[0]),
                                from: crate::toolbox::stamp_millis(lines[1], p),
                                to: crate::toolbox::stamp_millis(lines[1], p + 17),
                                text: text,
                            },
                        ),
                    )
                }
            },
        }
    }
}

/// A record carries what its model says, its time key the millisecond it
/// starts at.
pub open spec fn section_matches(sec: SubtitleSection, m: SectionModel) -> bool {
    &&& sec.id == m.id
    &&& sec.from == m.from
    &&& sec.to == m.to
    &&& sec.time_index == m.from
    &&& sec.text@ == m.text
}

pub open spec fn sections_match(ss: Seq<SubtitleSection>, ms: Seq<SectionModel>) -> bool {
    ss.len() == ms.len() && forall|i: int| 0 <= i < ss.len() ==> section_matches(ss[i], ms[i])
}

/// The spans between consecutive record-start markers, each trimmed; the
/// last runs to the end of the file. The character before a following
/// marker (always a line break) is left out.
pub open spec fn spec_blocks(s: Seq<char>) -> Seq<Seq<char>> {
    let ms = crate::segment::markers_from(s, 0);
    Seq::new(
        ms.len(),
        |j: int|
            if j == ms.len() - 1 {
                crate::chars::spec_trim(s.skip(ms[j]))
            } else {
                crate::chars::spec_trim(s.subrange(ms[j], ms[j + 1] - 1))
            },
    )
}

/// The records the blocks from `j` on yield: dropped blocks contribute
/// nothing, and the first malformed block fails the whole file.
pub open spec fn build_sections(blocks: Seq<Seq<char>>, j: int) -> Result<
    Seq<SectionModel>,
    SubtitleError,
>
    decreases blocks.len() - j,
{
    if j < 0 || j >= blocks.len() {
        Ok(Seq::empty())
    } else {
        match spec_parse_section(blocks[j]) {
            Err(e) => Err(e),
            Ok(opt) => match build_sections(blocks, j + 1) {
                Err(e) => Err(e),
                Ok(rest) => Ok(
                    (match opt {
                        Some(m) => seq![m],
                        None => Seq::empty(),
                    }) + rest,
                ),
            },
        }
    }
}

/// What a whole file's content yields.
pub open spec fn spec_subtitle_sections(s: Seq<char>) -> Result<Seq<SectionModel>, SubtitleError> {
    build_sections(spec_blocks(s), 0)
}

/// The models of a record list.
pub open spec fn models_of_sections(ss: Seq<SubtitleSection>) -> Seq<SectionModel> {
    Seq::new(
        ss.len(),
        |i: int|
            SectionModel {
                id: ss[i].id as int,
                from: ss[i].from as int,
                to: ss[i].to as int,
                text: ss[i].text@,
            },
    )
}

impl SubtitleSection {
    /// Parses one record block, its lines split at carriage returns: the
    /// first line the ordinal, the second the time range, the remaining
    /// lines the caption's text, joined and normalized. A block whose
    /// text normalizes to nothing yields no record; a bad ordinal or time
    /// range is the file's fatal failure.
    pub fn from_string(block: &str) -> (r: Result<Option<SubtitleSection>, SubtitleError>)
        ensures
            match r {
                Ok(Some(sec)) => spec_parse_section(block@) is Ok && spec_parse_section(
                    block@,
                )->Ok_0 is Some && section_matches(sec, spec_parse_section(block@)->Ok_0->0),
                Ok(None) => spec_parse_section(block@) == Ok::<
                    Option<SectionModel>,
                    SubtitleError,
                >(None),
                Err(e) => spec_parse_section(block@) == Err::<
                    Option<SectionModel>,
                    SubtitleError,
                >(e),
            },
    {
        let v = chars_of(block);
        let lines = crate::segment::split_chars(&v, '\r');
        let ghost lmodel = crate::segment::split_at_char(v@, '\r');
        proof {
            assert(lines@[0]@ == lmodel[0]);
        }
        let id = match crate::segment::parse_u64(&lines[0]) {
            Some(x) => x,
            None => {
                return Err(SubtitleError::MalformedRecordId);
            },
        };
        if lines.len() < 2 {
            return Err(SubtitleError::MalformedTimeRange);
        }
        proof {
            assert(lines@[1]@ == lmodel[1]);
        }
        let line1 = string_of(&lines[1]);
        let times = match crate::toolbox::get_times(line1.as_str()) {
            Some(t) => t,
            None => {
                return Err(SubtitleError::MalformedTimeRange);
            },
        };
        let mut owned: Vec<String> = Vec::new();
        let mut t: usize = 2;
        while t < lines.len()
            invariant
                2 <= t <= lines@.len(),
                crate::scan::views_of(lines@) == lmodel,
                owned@.len() == t - 2,
                forall|q: int| 0 <= q < t - 2 ==> owned@[q]@ == lmodel[q + 2],
            decreases lines@.len() - t,
        {
            owned.push(string_of(&lines[t]));
            t = t + 1;
        }
        let mut borrowed: Vec<&str> = Vec::new();
        let mut t2: usize = 0;
        while t2 < owned.len()
            invariant
                t2 <= owned@.len(),
                borrowed@.len() == t2,
                forall|q: int| 0 <= q < t2 ==> borrowed@[q]@ == owned@[q]@,
            decreases owned@.len() - t2,
        {
            borrowed.push(owned[t2].as_str());
            t2 = t2 + 1;
        }
        proof {
            assert(crate::toolbox::views_of_strs(borrowed@) =~= lmodel.skip(2));
        }
        let joined = match crate::toolbox::get_text(borrowed) {
            Some(j) => j,
            None => {
                return Ok(None);
            },
        };
        let jv = chars_of(joined.as_str());
        let cleaned = crate::normalize::clean_chars(&jv);
        let trimmed = crate::chars::trim_chars(&cleaned);
        let text = crate::normalize::special_chars(&trimmed);
        if text.len() == 0 {
            return Ok(None);
        }
        Ok(
            Some(
                SubtitleSection {
                    id: id,
                    from: times.0,
                    to: times.1,
                    time_index: times.0 as u128,
                    text: string_of(&text),
                },
            ),
        )
    }
}

impl Subtitle {
    /// An empty collection under a display name.
    pub fn new(name: String) -> (r: Subtitle)
        ensures
            r.name@ == name@,
            r.sentences@ == Map::<u128, Vec<SubtitleSentence>>::empty(),
            r.sections@.len() == 0,
    {
        Subtitle { name, sentences: HashMap::new(), sections: Vec::new() }
    }

    /// Builds a whole collection from raw file content: the records cut
    /// at the record-start markers and parsed, and their sentences
    /// stitched and indexed by second. The first malformed record fails
    /// the whole file; no partial index is returned. Beside the
    /// collection come the stitcher's data-quality anomalies, for the
    /// caller to surface.
    pub fn from_content(name: &str, contents: &str) -> (r: Result<
        (Subtitle, Vec<SubtitleSentence>),
        SubtitleError,
    >)
        ensures
            match r {
                Ok(pair) => {
                    &&& pair.0.name@ == name@
                    &&& spec_subtitle_sections(contents@) is Ok
                    &&& sections_match(pair.0.sections@, spec_subtitle_sections(contents@)->Ok_0)
                    &&& index_matches(
                        pair.0.sentences@,
                        stitch::final_emits(section_models(pair.0.sections@)),
                    )
                    &&& sentence_models(pair.1@) == stitch::final_anomalies(
                        section_models(pair.0.sections@),
                    )
                },
                Err(e) => spec_subtitle_sections(contents@) == Err::<
                    Seq<SectionModel>,
                    SubtitleError,
                >(e),
            },
    {
        let v = chars_of(contents);
        let n = v.len();
        let marks = crate::segment::find_markers(&v);
        let ghost blocks = spec_blocks(v@);
        proof {
            crate::segment::lemma_markers_from(v@, 0);
            assert(blocks.len() == marks@.len());
        }
        let mut sections: Vec<SubtitleSection> = Vec::new();
        let mut j: usize = 0;
        while j < marks.len()
            invariant
                j <= marks@.len(),
                n == v@.len(),
                v@ == contents@,
                crate::segment::ints_of(marks@) == crate::segment::markers_from(v@, 0),
                blocks == spec_blocks(v@),
                blocks.len() == marks@.len(),
                forall|q: int|
                    0 <= q < sections@.len() ==> #[trigger] sections@[q].time_index
                        == sections@[q].from,
                match build_sections(blocks, j as int) {
                    Ok(rest) => build_sections(blocks, 0) == Ok::<
                        Seq<SectionModel>,
                        SubtitleError,
                    >(models_of_sections(sections@) + rest),
                    Err(e) => build_sections(blocks, 0) == Err::<
                        Seq<SectionModel>,
                        SubtitleError,
                    >(e),
                },
            decreases marks@.len() - j,
        {
            proof {
                crate::segment::lemma_markers_from(v@, 0);
                assert(crate::segment::ints_of(marks@)[j as int] == marks@[j as int] as int);
            }
            let start = marks[j];
            let block_v = if j + 1 < marks.len() {
                proof {
                    assert(crate::segment::ints_of(marks@)[j + 1 as int] == marks@[j
                        + 1 as int] as int);
                }
                crate::scan::sub_chars(&v, start, marks[j + 1] - 1)
            } else {
                crate::scan::sub_chars(&v, start, n)
            };
            let trimmed = crate::chars::trim_chars(&block_v);
            proof {
                if j + 1 >= marks@.len() {
                    assert(v@.subrange(start as int, n as int) =~= v@.skip(start as int));
                }
                assert(trimmed@ == blocks[j as int]);
            }
            let block_s = string_of(&trimmed);
            match SubtitleSection::from_string(block_s.as_str()) {
                Err(e) => {
                    return Err(e);
                },
                Ok(None) => {
                    proof {
                        match build_sections(blocks, j + 1) {
                            Ok(rest) => {
                                assert(build_sections(blocks, j as int) == Ok::<
                                    Seq<SectionModel>,
                                    SubtitleError,
                                >(Seq::<SectionModel>::empty() + rest));
                                assert(Seq::<SectionModel>::empty() + rest =~= rest);
                            },
                            Err(e) => {},
                        }
                    }
                },
                Ok(Some(sec)) => {
                    let ghost before = sections@;
                    sections.push(sec);
                    proof {
                        let m = spec_parse_section(blocks[j as int])->Ok_0->0;
                        match build_sections(blocks, j + 1) {
                            Ok(rest) => {
                                assert(build_sections(blocks, j as int) == Ok::<
                                    Seq<SectionModel>,
                                    SubtitleError,
                                >(seq![m] + rest));
                                assert(models_of_sections(before) + (seq![m] + rest)
                                    =~= models_of_sections(sections@) + rest);
                            },
                            Err(e) => {},
                        }
                    }
                },
            }
            j = j + 1;
        }
        proof {
            assert(models_of_sections(sections@) + Seq::<SectionModel>::empty()
                =~= models_of_sections(sections@));
        }
        let stitched = Self::extract_sentences_from_sections(&sections);
        Ok(
            (
                Subtitle {
                    name: String::from_str(name),
                    sentences: stitched.0,
                    sections: sections,
                },
                stitched.1,
            ),
        )
    }

    /// The stitcher: folds the ordered caption records into the time
    /// index. An open fragment grows through whole-partial captions, is
    /// closed by the next caption's leading fragment (or emitted as it
    /// stands when that caption has none), and one still open at the end
    /// of the stream is emitted best-effort rather than dropped. The
    /// second component reports the data-quality anomalies: each fragment
    /// that went out best-effort, in order.
    pub fn extract_sentences_from_sections(sections: &Vec<SubtitleSection>) -> (r: (
        HashMap<u128, Vec<SubtitleSentence>>,
        Vec<SubtitleSentence>,
    ))
        ensures
            index_matches(r.0@, stitch::final_emits(section_models(sections@))),
            sentence_models(r.1@) == stitch::final_anomalies(section_models(sections@)),
    {
        let ghost ms = section_models(sections@);
        let mut result: HashMap<u128, Vec<SubtitleSentence>> = HashMap::new();
        let mut anomalies: Vec<SubtitleSentence> = Vec::new();
        let mut unfinished: Option<(u128, String)> = None;
        let mut i: usize = 0;
        proof {
            assert forall|k: u128| #[trigger]
                result@.contains_key(k) <==> stitch::bucketed(
                stitch::fold_emits(ms, 0),
                k,
            ).len() > 0 by {
                assert(stitch::fold_emits(ms, 0).len() == 0);
                assert(stitch::bucketed(stitch::fold_emits(ms, 0), k).len() == 0);
            }
            assert(sentence_models(anomalies@) =~= stitch::fold_anomalies(ms, 0));
        }
        while i < sections.len()
            invariant
                i <= sections@.len(),
                ms == section_models(sections@),
                state_matches(unfinished, stitch::fold_state(ms, i as int)),
                index_matches(result@, stitch::fold_emits(ms, i as int)),
                sentence_models(anomalies@) == stitch::fold_anomalies(ms, i as int),
            decreases sections@.len() - i,
        {
            let sec = &sections[i];
            let ghost st = stitch::fold_state(ms, i as int);
            let ghost time = ms[i as int].0;
            let ghost text = ms[i as int].1;
            proof {
                assert(time == sec.time_index && text == sec.text@);
            }
            let ex = SubtitleSection::extract_sentences(sec.text.as_str());
            let prev = unfinished;
            match ex.partial {
                Some(p) => {
                    unfinished = match prev {
                        Some(open) => {
                            let mut s = open.1;
                            s.append(" ");
                            s.append(p.as_str());
                            proof {
                                reveal_strlit(" ");
                                assert(s@ =~= (st->0).1 + seq![' '] + text);
                            }
                            Some((open.0, s))
                        },
                        None => Some((sec.time_index, p)),
                    };
                    proof {
                        assert(stitch::step_emits(st, time, text) =~= Seq::<
                            (u128, Seq<char>),
                        >::empty());
                        assert(stitch::fold_emits(ms, i + 1) =~= stitch::fold_emits(
                            ms,
                            i as int,
                        ));
                        assert(stitch::step_anomalies(st, time, text) =~= Seq::<
                            (u128, Seq<char>),
                        >::empty());
                        assert(stitch::fold_anomalies(ms, i + 1) =~= stitch::fold_anomalies(
                            ms,
                            i as int,
                        ));
                    }
                },
                None => {
                    let ghost resolved_emits: Seq<(u128, Seq<char>)> = match st {
                        Some(pm) => match spec_ending_field(text) {
                            Some(e) => seq![(pm.0, pm.1 + seq![' '] + e)],
                            None => seq![(pm.0, pm.1)],
                        },
                        None => Seq::empty(),
                    };
                    match prev {
                        Some(open) => {
                            let resolved = match &ex.end_of_a_sentence {
                                Some(e) => {
                                    let mut s = open.1;
                                    s.append(" ");
                                    s.append(e.as_str());
                                    proof {
                                        reveal_strlit(" ");
                                        assert(s@ =~= (st->0).1 + seq![' ']
                                            + spec_ending_field(text)->0);
                                        assert(stitch::step_anomalies(st, time, text) =~= Seq::<
                                            (u128, Seq<char>),
                                        >::empty());
                                        assert(stitch::fold_anomalies(ms, i + 1)
                                            =~= sentence_models(anomalies@));
                                    }
                                    s
                                },
                                None => {
                                    anomalies.push(
                                        SubtitleSentence {
                                            time_index: open.0,
                                            sentence: open.1.clone(),
                                        },
                                    );
                                    proof {
                                        assert(stitch::step_anomalies(st, time, text) =~= seq![
                                            st->0,
                                        ]);
                                        assert(sentence_models(anomalies@)
                                            =~= stitch::fold_anomalies(ms, i as int) + seq![
                                            st->0,
                                        ]);
                                        assert(stitch::fold_anomalies(ms, i + 1)
                                            =~= sentence_models(anomalies@));
                                    }
                                    open.1
                                },
                            };
                            push_sentence(&mut result, open.0, resolved);
                            proof {
                                assert(stitch::fold_emits(ms, i as int) + resolved_emits
                                    =~= stitch::fold_emits(ms, i as int).push(
                                    resolved_emits[0],
                                ));
                            }
                        },
                        None => {
                            proof {
                                assert(stitch::fold_emits(ms, i as int) + resolved_emits
                                    =~= stitch::fold_emits(ms, i as int));
                                assert(stitch::step_anomalies(st, time, text) =~= Seq::<
                                    (u128, Seq<char>),
                                >::empty());
                                assert(stitch::fold_anomalies(ms, i + 1) =~= sentence_models(
                                    anomalies@,
                                ));
                            }
                        },
                    }
                    let ghost ss = scan::spec_sentences_seq(text);
                    let ghost base = stitch::fold_emits(ms, i as int) + resolved_emits;
                    match &ex.sentences {
                        Some(list) => {
                            let mut j: usize = 0;
                            proof {
                                assert(base + stitch::with_time(time, ss).take(0) =~= base);
                            }
                            while j < list.len()
                                invariant
                                    j <= list@.len(),
                                    views_of_strings(list@) == ss,
                                    time == sec.time_index,
                                    index_matches(
                                        result@,
                                        base + stitch::with_time(time, ss).take(j as int),
                                    ),
                                decreases list@.len() - j,
                            {
                                let s = list[j].clone();
                                let ghost sv = s@;
                                push_sentence(&mut result, sec.time_index, s);
                                proof {
                                    assert(index_matches(
                                        result@,
                                        (base + stitch::with_time(time, ss).take(j as int)).push(
                                            (sec.time_index, sv),
                                        ),
                                    ));
                                    assert((base + stitch::with_time(time, ss).take(
                                        j as int,
                                    )).push((time, sv)) =~= base + stitch::with_time(
                                        time,
                                        ss,
                                    ).take(j + 1 as int));
                                }
                                j = j + 1;
                            }
                            proof {
                                assert(base + stitch::with_time(time, ss).take(
                                    list@.len() as int,
                                ) =~= base + stitch::with_time(time, ss));
                            }
                        },
                        None => {
                            proof {
                                assert(ss.len() == 0);
                                assert(base + stitch::with_time(time, ss) =~= base);
                            }
                        },
                    }
                    proof {
                        assert(stitch::fold_emits(ms, i + 1) =~= base + stitch::with_time(
                            time,
                            ss,
                        ));
                    }
                    unfinished = match &ex.begin_of_a_sentence {
                        Some(b) => Some((sec.time_index, b.clone())),
                        None => None,
                    };
                },
            }
            i = i + 1;
        }
        match unfinished {
            Some(open) => {
                proof {
                    let st = stitch::fold_state(ms, ms.len() as int);
                    assert(stitch::fold_emits(ms, ms.len() as int).push((open.0, open.1@))
                        =~= stitch::final_emits(ms));
                }
                anomalies.push(
                    SubtitleSentence { time_index: open.0, sentence: open.1.clone() },
                );
                proof {
                    assert(sentence_models(anomalies@) =~= stitch::final_anomalies(ms));
                }
                push_sentence(&mut result, open.0, open.1);
            },
            None => {
                proof {
                    assert(stitch::final_emits(ms) =~= stitch::fold_emits(ms, ms.len() as int));
                    assert(stitch::final_anomalies(ms) =~= stitch::fold_anomalies(
                        ms,
                        ms.len() as int,
                    ));
                }
            },
        }
        (result, anomalies)
    }
}

/// The display form of one record: ordinal and time key, the display
/// span in whole seconds, then the text.
pub open spec fn spec_section_display(sec: SubtitleSection) -> Seq<char> {
    crate::segment::dec_str(sec.id as int) + seq!['-'] + crate::segment::dec_str(
        sec.time_index as int,
    ) + seq!['\n'] + crate::segment::dec_str(sec.from as int / 1000) + seq!['-', '-']
        + crate::segment::dec_str(sec.to as int / 1000) + seq!['\n'] + sec.text@
}

/// The display forms of the records from `j` on, concatenated.
pub open spec fn spec_sections_text(ss: Seq<SubtitleSection>, j: int) -> Seq<char>
    decreases ss.len() - j,
{
    if j < 0 || j >= ss.len() {
        Seq::empty()
    } else {
        spec_section_display(ss[j]) + spec_sections_text(ss, j + 1)
    }
}

/// The display form of a whole collection: its name between dashes, then
/// every record's display form.
pub open spec fn spec_subtitle_display(sub: Subtitle) -> Seq<char> {
    seq!['-', '-', '-', '-', '-', '-', '-', '-', '-'] + sub.name@ + seq![
        '-',
        '-',
        '-',
        '-',
        '-',
        '-',
        '-',
        '-',
        '-',
        '\n',
    ] + spec_sections_text(sub.sections@, 0)
}

impl SubtitleSection {
    /// The record's display form.
    pub fn display_string(&self) -> (r: String)
        ensures
            r@ == spec_section_display(*self),
    {
        let mut out: Vec<char> = Vec::new();
        crate::toolbox::append_chars(&mut out, &crate::segment::u64_to_chars(self.id));
        out.push('-');
        crate::toolbox::append_chars(&mut out, &crate::segment::u128_to_chars(self.time_index));
        out.push('\n');
        crate::toolbox::append_chars(&mut out, &crate::segment::u64_to_chars(self.from / 1000));
        out.push('-');
        out.push('-');
        crate::toolbox::append_chars(&mut out, &crate::segment::u64_to_chars(self.to / 1000));
        out.push('\n');
        crate::toolbox::append_chars(&mut out, &chars_of(self.text.as_str()));
        proof {
            assert(out@ =~= spec_section_display(*self));
        }
        string_of(&out)
    }
}

impl Subtitle {
    /// The collection's display form.
    pub fn to_string(&self) -> (r: String)
        ensures
            r@ == spec_subtitle_display(*self),
    {
        let mut out: Vec<char> = Vec::new();
        let mut d: usize = 0;
        while d < 9
            invariant
                d <= 9,
                out@ =~= seq!['-', '-', '-', '-', '-', '-', '-', '-', '-'].take(d as int),
            decreases 9 - d,
        {
            out.push('-');
            proof {
                assert(out@ =~= seq!['-', '-', '-', '-', '-', '-', '-', '-', '-'].take(d
                    + 1 as int));
            }
            d = d + 1;
        }
        crate::toolbox::append_chars(&mut out, &chars_of(self.name.as_str()));
        let ghost head = out@;
        let mut d2: usize = 0;
        while d2 < 9
            invariant
                d2 <= 9,
                out@ =~= head + seq!['-', '-', '-', '-', '-', '-', '-', '-', '-'].take(
                    d2 as int,
                ),
            decreases 9 - d2,
        {
            out.push('-');
            proof {
                assert(out@ =~= head + seq!['-', '-', '-', '-', '-', '-', '-', '-', '-'].take(d2
                    + 1 as int));
            }
            d2 = d2 + 1;
        }
        out.push('\n');
        let ghost pre = out@;
        proof {
            assert(pre =~= seq!['-', '-', '-', '-', '-', '-', '-', '-', '-'] + self.name@ + seq![
                '-',
                '-',
                '-',
                '-',
                '-',
                '-',
                '-',
                '-',
                '-',
                '\n',
            ]);
        }
        let mut j: usize = 0;
        while j < self.sections.len()
            invariant
                j <= self.sections@.len(),
                spec_sections_text(self.sections@, 0) =~= out@.skip(pre.len() as int)
                    + spec_sections_text(self.sections@, j as int),
                out@.len() >= pre.len(),
                out@.subrange(0, pre.len() as int) == pre,
            decreases self.sections@.len() - j,
        {
            let piece = self.sections[j].display_string();
            crate::toolbox::append_chars(&mut out, &chars_of(piece.as_str()));
            proof {
                assert(out@.skip(pre.len() as int) + spec_sections_text(
                    self.sections@,
                    j + 1 as int,
                ) =~= (out@.skip(pre.len() as int) + spec_sections_text(
                    self.sections@,
                    j + 1 as int,
                )));
                assert(out@.subrange(0, pre.len() as int) =~= pre);
                assert(spec_sections_text(self.sections@, 0) =~= out@.skip(pre.len() as int)
                    + spec_sections_text(self.sections@, j + 1 as int));
            }
            j = j + 1;
        }
        proof {
            assert(out@ =~= out@.subrange(0, pre.len() as int) + out@.skip(pre.len() as int));
            assert(out@.skip(pre.len() as int) =~= out@.skip(pre.len() as int) + Seq::<
                char,
            >::empty());
            assert(out@ =~= spec_subtitle_display(*self));
        }
        string_of(&out)
    }

    /// The sentences that begin in second `second`, in emission order;
    /// nothing when none does.
    pub fn lookup(&self, second: u128) -> (r: Option<&Vec<SubtitleSentence>>)
        ensures
            match r {
                Some(b) => self.sentences@.contains_key(second) && b == self.sentences@[second],
                None => !self.sentences@.contains_key(second),
            },
    {
        self.sentences.get(&second)
    }
}

/// Bucketing correctness: every sentence a bucket of the time index holds
/// begins in that bucket's second.
pub proof fn lemma_bucketing_correct(
    m: Map<u128, Vec<SubtitleSentence>>,
    es: Seq<(u128, Seq<char>)>,
    k: u128,
)
    requires
        index_matches(m, es),
        m.contains_key(k),
    ensures
        forall|j: int| 0 <= j < m[k]@.len() ==> (#[trigger] m[k]@[j]).time_index / 1000 == k,
{
    let b = stitch::bucketed(es, k);
    assert(sentence_models(m[k]@) == b);
    assert forall|j: int| 0 <= j < m[k]@.len() implies (#[trigger] m[k]@[j]).time_index / 1000
        == k by {
        assert(b[j] == sentence_models(m[k]@)[j]);
        assert(b[j].0 / 1000 == k);
        assert(sentence_models(m[k]@)[j].0 == m[k]@[j].time_index);
    }
}

} // verus!
