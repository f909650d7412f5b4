//! The cross-caption stitching state machine, as a fold over the ordered
//! classification results. The state is at most one open fragment, a pair
//! of the time its sentence began and the text gathered so far. Each step
//! either grows the open fragment (a whole-partial caption), or closes it
//! against the caption's leading fragment, emits the caption's own complete
//! sentences, and opens a new fragment from its trailing fragment.

use vstd::prelude::*;

use crate::scan::spec_partial_field;
use crate::scan::spec_ending_field;
use crate::scan::spec_beginning_field;
use crate::scan::spec_sentences_seq;

verus! {

/// The open fragment after one step, given the state before it and one
/// caption's start time and text.
pub open spec fn step_state(
    st: Option<(u128, Seq<char>)>,
    time: u128,
    text: Seq<char>,
) -> Option<(u128, Seq<char>)> {
    match spec_partial_field(text) {
        Some(p) => match st {
            Some(prev) => Some((prev.0, prev.1 + seq![' '] + p)),
            None => Some((time, p)),
        },
        None => match spec_beginning_field(text) {
            Some(b) => Some((time, b)),
            None => None,
        },
    }
}

/// Each sentence of the list stamped with one time.
pub open spec fn with_time(time: u128, ss: Seq<Seq<char>>) -> Seq<(u128, Seq<char>)> {
    Seq::new(ss.len(), |i: int| (time, ss[i]))
}

/// What one step emits, in order: the resolved previous fragment first
/// (closed by the caption's leading fragment when it has one, otherwise
/// emitted as it stands), then the caption's own complete sentences.
pub open spec fn step_emits(st: Option<(u128, Seq<char>)>, time: u128, text: Seq<char>) -> Seq<
    (u128, Seq<char>),
> {
    if spec_partial_field(text) is Some {
        Seq::empty()
    } else {
        let resolved: Seq<(u128, Seq<char>)> = match st {
            Some(prev) => match spec_ending_field(text) {
                Some(e) => seq![(prev.0, prev.1 + seq![' '] + e)],
                None => seq![(prev.0, prev.1)],
            },
            None => Seq::empty(),
        };
        resolved + with_time(time, spec_sentences_seq(text))
    }
}

/// The open fragment after the first `n` captions.
pub open spec fn fold_state(secs: Seq<(u128, Seq<char>)>, n: int) -> Option<(u128, Seq<char>)>
    decreases n,
{
    if n <= 0 {
        None
    } else {
        step_state(fold_state(secs, n - 1), secs[n - 1].0, secs[n - 1].1)
    }
}

/// Everything the first `n` captions emit, in emission order.
pub open spec fn fold_emits(secs: Seq<(u128, Seq<char>)>, n: int) -> Seq<(u128, Seq<char>)>
    decreases n,
{
    if n <= 0 {
        Seq::empty()
    } else {
        fold_emits(secs, n - 1) + step_emits(fold_state(secs, n - 1), secs[n - 1].0, secs[n - 1].1)
    }
}

/// An open fragment as an emission of its own, for the end of the stream.
pub open spec fn state_seq(st: Option<(u128, Seq<char>)>) -> Seq<(u128, Seq<char>)> {
    match st {
        Some(prev) => seq![prev],
        None => Seq::empty(),
    }
}

/// Everything the whole stream emits: the fold's emissions, and a fragment
/// still open at the end emitted best-effort after them.
pub open spec fn final_emits(secs: Seq<(u128, Seq<char>)>) -> Seq<(u128, Seq<char>)> {
    fold_emits(secs, secs.len() as int) + state_seq(fold_state(secs, secs.len() as int))
}

/// One bucket of the time index: the emissions whose start lies in second
/// `k`, in emission order.
pub open spec fn bucketed(es: Seq<(u128, Seq<char>)>, k: u128) -> Seq<(u128, Seq<char>)> {
    es.filter(|p: (u128, Seq<char>)| p.0 / 1000 == k)
}

/// What one step reports as a data-quality anomaly: the open fragment,
/// when the caption closes it without a leading fragment to resolve it.
/// The fragment is still emitted; the anomaly only records that it went
/// out best-effort.
pub open spec fn step_anomalies(
    st: Option<(u128, Seq<char>)>,
    time: u128,
    text: Seq<char>,
) -> Seq<(u128, Seq<char>)> {
    if spec_partial_field(text) is Some {
        Seq::empty()
    } else {
        match (st, spec_ending_field(text)) {
            (Some(prev), None) => seq![prev],
            _ => Seq::empty(),
        }
    }
}

/// The anomalies the first `n` captions report, in order.
pub open spec fn fold_anomalies(secs: Seq<(u128, Seq<char>)>, n: int) -> Seq<(u128, Seq<char>)>
    decreases n,
{
    if n <= 0 {
        Seq::empty()
    } else {
        fold_anomalies(secs, n - 1) + step_anomalies(
            fold_state(secs, n - 1),
            secs[n - 1].0,
            secs[n - 1].1,
        )
    }
}

/// All anomalies of the whole stream: the fold's, and a fragment still
/// open at the end of the stream, which goes out best-effort too.
pub open spec fn final_anomalies(secs: Seq<(u128, Seq<char>)>) -> Seq<(u128, Seq<char>)> {
    fold_anomalies(secs, secs.len() as int) + state_seq(fold_state(secs, secs.len() as int))
}

/// Appending one emission grows exactly the bucket of its second.
pub proof fn lemma_bucket_push(es: Seq<(u128, Seq<char>)>, x: (u128, Seq<char>), k: u128)
    ensures
        bucketed(es.push(x), k) == (if x.0 / 1000 == k {
            bucketed(es, k).push(x)
        } else {
            bucketed(es, k)
        }),
{
    reveal(Seq::filter);
    assert(es.push(x).drop_last() =~= es);
    assert(es.push(x).last() == x);
    if x.0 / 1000 == k {
        assert(bucketed(es.push(x), k) =~= bucketed(es, k).push(x));
    } else {
        assert(bucketed(es.push(x), k) =~= bucketed(es, k));
    }
}

/// Caption start times never decrease along the stream.
pub open spec fn times_sorted(secs: Seq<(u128, Seq<char>)>) -> bool {
    forall|i: int, j: int| 0 <= i < j < secs.len() ==> secs[i].0 <= secs[j].0
}

/// Emission times never decrease along the emission order.
pub open spec fn emits_sorted(es: Seq<(u128, Seq<char>)>) -> bool {
    forall|i: int, j: int| 0 <= i < j < es.len() ==> es[i].0 <= es[j].0
}

proof fn lemma_fold_ordered(secs: Seq<(u128, Seq<char>)>, n: int)
    requires
        times_sorted(secs),
        0 <= n <= secs.len(),
    ensures
        emits_sorted(fold_emits(secs, n) + state_seq(fold_state(secs, n))),
        forall|i: int|
            0 <= i < (fold_emits(secs, n) + state_seq(fold_state(secs, n))).len() && n > 0 ==> (
            fold_emits(secs, n) + state_seq(fold_state(secs, n)))[i].0 <= secs[n - 1].0,
    decreases n,
{
    if n > 0 {
        lemma_fold_ordered(secs, n - 1);
        let st = fold_state(secs, n - 1);
        let em = fold_emits(secs, n - 1);
        let prev_all = em + state_seq(st);
        let time = secs[n - 1].0;
        let text = secs[n - 1].1;
        let all = fold_emits(secs, n) + state_seq(fold_state(secs, n));
        assert(fold_emits(secs, n) == em + step_emits(st, time, text));
        if n - 1 > 0 {
            assert(secs[n - 2].0 <= time);
        }
        assert forall|i: int| 0 <= i < prev_all.len() implies prev_all[i].0 <= time by {
            if n - 1 > 0 {
            } else {
                assert(prev_all.len() == 0);
            }
        }
        // Where each part of the new emission list lies, and what time it
        // carries.
        assert(forall|i: int| 0 <= i < em.len() ==> all[i] == em[i] && em[i] == prev_all[i]);
        if spec_partial_field(text) is Some {
            assert(all.len() == em.len() + 1);
            assert(all[em.len() as int].0 == (match st {
                Some(prev) => prev.0,
                None => time,
            }));
            assert(st is Some ==> all[em.len() as int].0 == prev_all[em.len() as int].0);
        } else {
            assert forall|idx: int| em.len() <= idx < all.len() implies all[idx].0 == time || (
            st is Some && idx == em.len() && all[idx].0 == (st->0).0) by {
                let step = step_emits(st, time, text);
                let tail = with_time(time, spec_sentences_seq(text));
                if idx < em.len() + step.len() {
                    let w = idx - em.len();
                    match st {
                        Some(prev) => {
                            if w > 0 {
                                assert(step[w] == tail[w - 1]);
                            }
                        },
                        None => {
                            assert(step[w] == tail[w]);
                        },
                    }
                }
            }
        }
        assert forall|i: int, j: int| 0 <= i < j < all.len() implies all[i].0 <= all[j].0 by {
            if j < em.len() {
                assert(prev_all[i].0 <= prev_all[j].0);
            } else if i < em.len() {
                assert(all[i].0 == prev_all[i].0);
                assert(all[i].0 <= time);
                if st is Some {
                    assert(prev_all[i].0 <= prev_all[em.len() as int].0);
                }
            } else {
                // Both in this step's additions: at most the resolved
                // fragment at the front carries an older time.
                if st is Some {
                    assert(prev_all[em.len() as int].0 <= time);
                }
            }
        }
    }
}

/// Ordering across the whole fold: when the captions come in start-time
/// order, any sentence emitted before another carries a start time no
/// greater than the other's — the end-of-stream emission included.
pub proof fn lemma_stitch_ordered(secs: Seq<(u128, Seq<char>)>)
    requires
        times_sorted(secs),
    ensures
        emits_sorted(final_emits(secs)),
{
    lemma_fold_ordered(secs, secs.len() as int);
}

/// Total character count of a list of emissions.
pub open spec fn emitted_len(es: Seq<(u128, Seq<char>)>) -> int
    decreases es.len(),
{
    if es.len() == 0 {
        0
    } else {
        emitted_len(es.drop_last()) + es.last().1.len()
    }
}

/// Total character count of a list of texts.
pub open spec fn texts_len(ss: Seq<Seq<char>>) -> int
    decreases ss.len(),
{
    if ss.len() == 0 {
        0
    } else {
        texts_len(ss.drop_last()) + ss.last().len()
    }
}

proof fn lemma_emitted_len_one(p: (u128, Seq<char>))
    ensures
        emitted_len(seq![p]) == p.1.len(),
{
    assert(seq![p].drop_last() =~= Seq::<(u128, Seq<char>)>::empty());
    assert(emitted_len(Seq::<(u128, Seq<char>)>::empty()) == 0);
    assert(seq![p].last() == p);
}

proof fn lemma_emitted_len_add(a: Seq<(u128, Seq<char>)>, b: Seq<(u128, Seq<char>)>)
    ensures
        emitted_len(a + b) == emitted_len(a) + emitted_len(b),
    decreases b.len(),
{
    if b.len() == 0 {
        assert(a + b =~= a);
    } else {
        lemma_emitted_len_add(a, b.drop_last());
        assert((a + b).drop_last() =~= a + b.drop_last());
        assert((a + b).last() == b.last());
    }
}

proof fn lemma_emitted_len_with_time(time: u128, ss: Seq<Seq<char>>)
    ensures
        emitted_len(with_time(time, ss)) == texts_len(ss),
    decreases ss.len(),
{
    if ss.len() > 0 {
        lemma_emitted_len_with_time(time, ss.drop_last());
        assert(with_time(time, ss).drop_last() =~= with_time(time, ss.drop_last()));
    }
}

/// How many characters one step takes up, given the state before it: the
/// whole-partial text, or the caption's sentences and trailing fragment,
/// and its leading fragment only when an open fragment is there to close —
/// a leading fragment with no open fragment is passed over.
pub open spec fn step_consumed_len(st: Option<(u128, Seq<char>)>, text: Seq<char>) -> int {
    match spec_partial_field(text) {
        Some(p) => p.len() as int,
        None => {
            let e: int = match (st, spec_ending_field(text)) {
                (Some(prev), Some(f)) => f.len() as int,
                _ => 0,
            };
            let b: int = match spec_beginning_field(text) {
                Some(f) => f.len() as int,
                None => 0,
            };
            e + texts_len(spec_sentences_seq(text)) + b
        },
    }
}

/// How many separate pieces one step takes up: the whole-partial text as
/// one, otherwise each complete sentence, the trailing fragment, and the
/// leading fragment when an open fragment is there to close.
pub open spec fn step_consumed_pieces(st: Option<(u128, Seq<char>)>, text: Seq<char>) -> int {
    match spec_partial_field(text) {
        Some(p) => 1,
        None => {
            let e: int = match (st, spec_ending_field(text)) {
                (Some(prev), Some(f)) => 1,
                _ => 0,
            };
            let b: int = if spec_beginning_field(text) is Some {
                1
            } else {
                0
            };
            e + spec_sentences_seq(text).len() + b
        },
    }
}

/// Characters the first `n` captions hand the stitcher.
pub open spec fn total_consumed_len(secs: Seq<(u128, Seq<char>)>, n: int) -> int
    decreases n,
{
    if n <= 0 {
        0
    } else {
        total_consumed_len(secs, n - 1) + step_consumed_len(
            fold_state(secs, n - 1),
            secs[n - 1].1,
        )
    }
}

/// Pieces the first `n` captions hand the stitcher.
pub open spec fn total_pieces(secs: Seq<(u128, Seq<char>)>, n: int) -> int
    decreases n,
{
    if n <= 0 {
        0
    } else {
        total_pieces(secs, n - 1) + step_consumed_pieces(fold_state(secs, n - 1), secs[n - 1].1)
    }
}

pub open spec fn state_len(st: Option<(u128, Seq<char>)>) -> int {
    match st {
        Some(prev) => prev.1.len() as int,
        None => 0,
    }
}

pub open spec fn state_cnt(st: Option<(u128, Seq<char>)>) -> int {
    match st {
        Some(prev) => 1,
        None => 0,
    }
}

proof fn lemma_fold_conserves(secs: Seq<(u128, Seq<char>)>, n: int)
    requires
        0 <= n <= secs.len(),
    ensures
        emitted_len(fold_emits(secs, n)) + state_len(fold_state(secs, n)) == total_consumed_len(
            secs,
            n,
        ) + total_pieces(secs, n) - fold_emits(secs, n).len() - state_cnt(fold_state(secs, n)),
    decreases n,
{
    if n > 0 {
        lemma_fold_conserves(secs, n - 1);
        let st = fold_state(secs, n - 1);
        let time = secs[n - 1].0;
        let text = secs[n - 1].1;
        let step = step_emits(st, time, text);
        lemma_emitted_len_add(fold_emits(secs, n - 1), step);
        assert(fold_state(secs, n) == step_state(st, time, text));
        assert(fold_emits(secs, n) == fold_emits(secs, n - 1) + step);
        assert(total_consumed_len(secs, n) == total_consumed_len(secs, n - 1) + step_consumed_len(
            st,
            text,
        ));
        assert(total_pieces(secs, n) == total_pieces(secs, n - 1) + step_consumed_pieces(
            st,
            text,
        ));
        if spec_partial_field(text) is Some {
            assert(step =~= Seq::<(u128, Seq<char>)>::empty());
            assert(emitted_len(step) == 0);
            assert(step_consumed_len(st, text) == text.len());
            assert(step_consumed_pieces(st, text) == 1);
            assert(state_cnt(fold_state(secs, n)) == 1);
            assert(state_len(fold_state(secs, n)) == (match st {
                Some(prev) => prev.1.len() + 1 + text.len() as int,
                None => text.len() as int,
            }));
        } else {
            let resolved: Seq<(u128, Seq<char>)> = match st {
                Some(prev) => match spec_ending_field(text) {
                    Some(e) => seq![(prev.0, prev.1 + seq![' '] + e)],
                    None => seq![(prev.0, prev.1)],
                },
                None => Seq::<(u128, Seq<char>)>::empty(),
            };
            let tail = with_time(time, spec_sentences_seq(text));
            lemma_emitted_len_add(resolved, tail);
            lemma_emitted_len_with_time(time, spec_sentences_seq(text));
            assert(step == resolved + tail);
            assert(emitted_len(step) == emitted_len(resolved) + texts_len(
                spec_sentences_seq(text),
            ));
            assert(step.len() == resolved.len() + spec_sentences_seq(text).len());
            assert(emitted_len(fold_emits(secs, n)) == emitted_len(fold_emits(secs, n - 1))
                + emitted_len(step));
            assert(step_consumed_len(st, text) == (match (st, spec_ending_field(text)) {
                (Some(prev), Some(f)) => f.len() as int,
                _ => 0,
            }) + texts_len(spec_sentences_seq(text)) + (match spec_beginning_field(text) {
                Some(f) => f.len() as int,
                None => 0,
            }));
            match st {
                Some(prev) => {
                    match spec_ending_field(text) {
                        Some(e) => {
                            lemma_emitted_len_one((prev.0, prev.1 + seq![' '] + e));
                            assert(emitted_len(resolved) == prev.1.len() + 1 + e.len());
                        },
                        None => {
                            lemma_emitted_len_one((prev.0, prev.1));
                            assert(emitted_len(resolved) == prev.1.len());
                        },
                    }
                    assert(resolved.len() == 1);
                },
                None => {
                    assert(emitted_len(resolved) == 0);
                    assert(resolved.len() == 0);
                },
            }
            assert(state_len(fold_state(secs, n)) == (match spec_beginning_field(text) {
                Some(b) => b.len() as int,
                None => 0,
            }));
            assert(state_cnt(fold_state(secs, n)) == (match spec_beginning_field(text) {
                Some(b) => 1int,
                None => 0int,
            }));
            assert(step_consumed_pieces(st, text) == (match (st, spec_ending_field(text)) {
                (Some(prev), Some(e)) => 1int,
                _ => 0int,
            }) + spec_sentences_seq(text).len() + (match spec_beginning_field(text) {
                Some(b) => 1int,
                None => 0int,
            }));
        }
    }
}

/// Conservation across the whole fold: every character handed to the
/// stitcher reaches the output, and the output holds nothing else — the
/// total emitted character count exceeds the consumed one by exactly one
/// joining space per piece beyond the first in each emitted sentence.
pub proof fn lemma_stitch_conservation(secs: Seq<(u128, Seq<char>)>)
    ensures
        emitted_len(final_emits(secs)) == total_consumed_len(secs, secs.len() as int)
            + total_pieces(secs, secs.len() as int) - final_emits(secs).len(),
{
    let n = secs.len() as int;
    lemma_fold_conserves(secs, n);
    lemma_emitted_len_add(fold_emits(secs, n), state_seq(fold_state(secs, n)));
    match fold_state(secs, n) {
        Some(prev) => {
            lemma_emitted_len_one(prev);
            assert(emitted_len(state_seq(fold_state(secs, n))) == prev.1.len());
        },
        None => {},
    }
}

} // verus!
