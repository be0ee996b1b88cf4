//! The error counts do not depend on which optimal speaker matching is
//! chosen, nor on the names of the hypothesis speakers.
//!
//! Several one-to-one matchings may share the largest number of correctly
//! matched speaker-frames. Whichever of them the scorer picks, the missed,
//! falsely alarmed and confused speaker-frames come out the same, so the
//! counts are a function of the reference, the hypothesis, the collar, the
//! region and the scored ranges (and the word counts a function of the
//! words). Renaming the hypothesis speakers one to one changes no count.

use vstd::prelude::*;
use crate::assign::is_assignment;
use crate::attribution::{SpeakerTurn, WordAlignment};
use crate::der::{
    co_count, collar_mask, confusion_total, der_counts_of, der_witness, distinct, false_alarm_total,
    frame_correct, frame_ids, grid_len, hit, hits_upto, in_scored, latest_end, lemma_frame_ids,
    min_int, missed_total, optimal_for, ref_total, spans_of, DerCounts, FrameSpan, Region,
    SpeakerMapping,
};
use crate::matching::{
    correct_total, frames_distinct, lemma_correct_is_matched, lemma_matching_is_optimal,
    lemma_weight_counts_matched_frames, matched_at, witness_scored,
};
use crate::sums::{ind, lemma_reindex, lemma_total_ext, total};
use crate::time::TimeRange;
use crate::wder::{best_match, pair_errors, pair_frames, word_pairs, wder_witness, WderCounts};

verus! {

/// The reference ids that the hits among `hf[0..k]` are mapped to.
pub open spec fn hit_refs(m: SpeakerMapping, hf: Seq<u32>, rf: Seq<u32>, k: int) -> Set<u32>
    decreases k,
{
    if k <= 0 {
        Set::empty()
    } else {
        let s = hit_refs(m, hf, rf, k - 1);
        if hit(m, rf, hf[k - 1]) {
            s.insert(m.maps(hf[k - 1])->0)
        } else {
            s
        }
    }
}

/// Distinct hypothesis ids are never mapped to the same reference id.
pub(crate) proof fn lemma_maps_injective(m: SpeakerMapping, h1: u32, h2: u32)
    requires
        m.wf(),
        h1 != h2,
        m.maps(h1) is Some,
    ensures
        m.maps(h1) != m.maps(h2),
{
    if m.maps(h2) is Some {
        let a1 = choose|a: int| 0 <= a < m.hyps.len() && m.hyps@[a] == h1;
        let a2 = choose|a: int| 0 <= a < m.hyps.len() && m.hyps@[a] == h2;
        assert(a1 != a2);
        let b1 = m.assign@[a1]->0;
        let b2 = m.assign@[a2]->0;
        assert(b1 != b2);
        assert(m.refs@[b1 as int] != m.refs@[b2 as int]);
    }
}

proof fn lemma_hit_refs(m: SpeakerMapping, hf: Seq<u32>, rf: Seq<u32>, k: int)
    requires
        m.wf(),
        distinct(hf),
        0 <= k <= hf.len(),
    ensures
        hit_refs(m, hf, rf, k).finite(),
        hit_refs(m, hf, rf, k).len() == hits_upto(m, hf, rf, k),
        hit_refs(m, hf, rf, k).subset_of(rf.to_set()),
        forall|r: u32|
            #[trigger] hit_refs(m, hf, rf, k).contains(r) ==> exists|q: int|
                0 <= q < k && m.maps(hf[q]) == Some(r),
    decreases k,
{
    broadcast use vstd::set::group_set_axioms;

    if k > 0 {
        lemma_hit_refs(m, hf, rf, k - 1);
        let s = hit_refs(m, hf, rf, k - 1);
        if hit(m, rf, hf[k - 1]) {
            let r = m.maps(hf[k - 1])->0;
            assert(!s.contains(r)) by {
                if s.contains(r) {
                    let q = choose|q: int| 0 <= q < k - 1 && m.maps(hf[q]) == Some(r);
                    assert(hf[q] != hf[k - 1]);
                    lemma_maps_injective(m, hf[k - 1], hf[q]);
                }
            }
            assert(rf.contains(r));
            assert forall|x: u32| #[trigger] hit_refs(m, hf, rf, k).contains(x) implies exists|q: int|
                0 <= q < k && m.maps(hf[q]) == Some(x) by {
                if x == r {
                    assert(m.maps(hf[k - 1]) == Some(x));
                } else {
                    assert(s.contains(x));
                }
            }
        } else {
            assert forall|x: u32| #[trigger] hit_refs(m, hf, rf, k).contains(x) implies exists|q: int|
                0 <= q < k && m.maps(hf[q]) == Some(x) by {
                assert(s.contains(x));
            }
        }
    }
}

/// A frame never has more hits than reference speakers.
pub proof fn lemma_hits_le_reference(m: SpeakerMapping, hf: Seq<u32>, rf: Seq<u32>)
    requires
        m.wf(),
        distinct(hf),
    ensures
        hits_upto(m, hf, rf, hf.len() as int) <= rf.len(),
{
    lemma_hit_refs(m, hf, rf, hf.len() as int);
    vstd::seq_lib::seq_to_set_is_finite(rf);
    vstd::set_lib::lemma_len_subset(hit_refs(m, hf, rf, hf.len() as int), rf.to_set());
    rf.lemma_cardinality_of_set();
}

/// Over the scored frames among the first `n`, the speakers present on both
/// sides: `min(|rf|, |hf|)` per frame.
pub open spec fn shared_total(rf: Seq<Vec<u32>>, hf: Seq<Vec<u32>>, scored: Seq<bool>, n: int) -> int
    decreases n,
{
    if n <= 0 {
        0
    } else {
        shared_total(rf, hf, scored, n - 1) + if scored[n - 1] {
            min_int(rf[n - 1]@.len() as int, hf[n - 1]@.len() as int)
        } else {
            0
        }
    }
}

/// Confused speaker-frames are the shared ones minus the correct ones.
proof fn lemma_confusion_is_shared_minus_correct(
    rf: Seq<Vec<u32>>,
    hf: Seq<Vec<u32>>,
    scored: Seq<bool>,
    m: SpeakerMapping,
    n: int,
)
    requires
        m.wf(),
        0 <= n <= scored.len(),
        rf.len() == scored.len(),
        hf.len() == scored.len(),
        frames_distinct(hf),
    ensures
        confusion_total(rf, hf, scored, m, n) + total(
            n,
            |i: int|
                if scored[i] {
                    hits_upto(m, hf[i]@, rf[i]@, hf[i]@.len() as int)
                } else {
                    0
                },
        ) == shared_total(rf, hf, scored, n),
    decreases n,
{
    if n > 0 {
        lemma_confusion_is_shared_minus_correct(rf, hf, scored, m, n - 1);
        let i = n - 1;
        lemma_hits_le_reference(m, hf[i]@, rf[i]@);
        assert(frame_correct(m, hf[i]@, rf[i]@) == hits_upto(m, hf[i]@, rf[i]@, hf[i]@.len() as int));
    }
}

/// The position of `x` in `s`.
pub open spec fn index_of(s: Seq<u32>, x: u32) -> int {
    choose|i: int| 0 <= i < s.len() && s[i] == x
}

/// The matching `m2` written over the rows and columns of `m1`.
pub open spec fn transferred(m1: SpeakerMapping, m2: SpeakerMapping) -> Seq<Option<usize>> {
    Seq::new(
        m1.hyps.len() as nat,
        |a: int|
            match m2.maps(m1.hyps@[a]) {
                Some(r) => Some(index_of(m1.refs@, r) as usize),
                None => None,
            },
    )
}

/// The term a matching contributes for hypothesis `h` in frame `i`.
pub open spec fn hit_term(m: SpeakerMapping, rf: Seq<Vec<u32>>, hf: Seq<Vec<u32>>, scored: Seq<bool>, i: int, h: u32) -> int {
    ind(scored[i] && hf[i]@.contains(h) && m.maps(h) is Some && rf[i]@.contains(m.maps(h)->0))
}

proof fn lemma_maps_row(m: SpeakerMapping, a: int)
    requires
        m.wf(),
        0 <= a < m.hyps.len(),
    ensures
        m.maps(m.hyps@[a]) == match m.assign@[a] {
            Some(b) => Some(m.refs@[b as int]),
            None => None::<u32>,
        },
{
    let c = choose|c: int| 0 <= c < m.hyps.len() && m.hyps@[c] == m.hyps@[a];
    assert(c == a);
}

/// The hypothesis frames `hf2` are the frames `hf1` with every speaker id
/// `x` renamed `f(x)`, and `g` undoes the renaming on the ids of `hf1`.
pub open spec fn renamed_frames(
    hf1: Seq<Vec<u32>>,
    hf2: Seq<Vec<u32>>,
    f: spec_fn(u32) -> u32,
    g: spec_fn(u32) -> u32,
) -> bool {
    &&& hf1.len() == hf2.len()
    &&& forall|i: int| 0 <= i < hf1.len() ==> (#[trigger] hf2[i])@ == hf1[i]@.map_values(f)
    &&& forall|i: int, p: int| 0 <= i < hf1.len() && 0 <= p < hf1[i]@.len() ==> g(f(#[trigger] hf1[i]@[p])) == hf1[i]@[p]
}

proof fn lemma_renamed_contains(
    hf1: Seq<Vec<u32>>,
    hf2: Seq<Vec<u32>>,
    f: spec_fn(u32) -> u32,
    g: spec_fn(u32) -> u32,
    i: int,
    h: u32,
)
    requires
        renamed_frames(hf1, hf2, f, g),
        0 <= i < hf1.len(),
        g(f(h)) == h,
    ensures
        hf1[i]@.contains(h) <==> hf2[i]@.contains(f(h)),
{
    let x = hf1[i]@;
    assert(hf2[i]@ == x.map_values(f));
    if x.contains(h) {
        let p = choose|p: int| 0 <= p < x.len() && x[p] == h;
        assert(hf2[i]@[p] == f(h));
    }
    if hf2[i]@.contains(f(h)) {
        let p = choose|p: int| 0 <= p < hf2[i]@.len() && hf2[i]@[p] == f(h);
        assert(f(x[p]) == f(h));
        assert(g(f(x[p])) == x[p]);
    }
}

/// A matching optimal for renamed hypothesis frames gets no more
/// speaker-frames right than one optimal for the original frames.
proof fn lemma_renamed_correct_le(
    m1: SpeakerMapping,
    m2: SpeakerMapping,
    rf: Seq<Vec<u32>>,
    hf1: Seq<Vec<u32>>,
    hf2: Seq<Vec<u32>>,
    scored: Seq<bool>,
    f: spec_fn(u32) -> u32,
    g: spec_fn(u32) -> u32,
)
    requires
        rf.len() == scored.len(),
        hf1.len() == scored.len(),
        renamed_frames(hf1, hf2, f, g),
        frames_distinct(hf1),
        frames_distinct(hf2),
        optimal_for(m1, rf, hf1, scored),
        optimal_for(m2, rf, hf2, scored),
    ensures
        correct_total(m2, rf, hf2, scored) <= correct_total(m1, rf, hf1, scored),
{
    let h1 = m1.hyps@;
    let h2 = m2.hyps@;
    let r1 = m1.refs@;
    let n = scored.len() as int;
    // The rows of m1 are scored ids of hf1, so the renaming is undone on them.
    assert forall|a: int| 0 <= a < h1.len() implies g(f(#[trigger] h1[a])) == h1[a] && in_scored(
        hf2,
        scored,
        f(h1[a]),
    ) by {
        assert(h1.contains(h1[a]));
        assert(in_scored(hf1, scored, h1[a]));
        let i = choose|i: int| 0 <= i < hf1.len() && i < scored.len() && scored[i] && #[trigger] hf1[i]@.contains(h1[a]);
        let p = choose|p: int| 0 <= p < hf1[i]@.len() && hf1[i]@[p] == h1[a];
        assert(g(f(hf1[i]@[p])) == hf1[i]@[p]);
        lemma_renamed_contains(hf1, hf2, f, g, i, h1[a]);
    }
    let t = Seq::new(
        h1.len(),
        |a: int|
            match m2.maps(f(h1[a])) {
                Some(r) => Some(index_of(r1, r) as usize),
                None => None,
            },
    );
    assert forall|h: u32| #[trigger] m2.maps(h) is Some implies r1.contains(m2.maps(h)->0) by {
        let a = choose|a: int| 0 <= a < m2.hyps.len() && m2.hyps@[a] == h;
        let b = m2.assign@[a]->0;
        let r = m2.refs@[b as int];
        assert(m2.maps(h) == Some(r));
        assert(m2.refs@.contains(r));
        assert(in_scored(rf, scored, r));
        assert(r1.contains(r));
    }
    assert forall|a: int| 0 <= a < t.len() && (#[trigger] t[a]) is Some implies {
        &&& (t[a]->0 as int) < r1.len()
        &&& r1[t[a]->0 as int] == m2.maps(f(h1[a]))->0
    } by {
        let r = m2.maps(f(h1[a]))->0;
        assert(r1.contains(r));
    }
    assert(is_assignment(t, r1.len() as nat)) by {
        assert forall|a: int, k: int|
            0 <= a < t.len() && 0 <= k < t.len() && a != k && (#[trigger] t[a]) is Some && (
            #[trigger] t[k]) is Some implies t[a]->0 != t[k]->0 by {
            assert(h1[a] != h1[k]);
            assert(g(f(h1[a])) == h1[a] && g(f(h1[k])) == h1[k]);
            lemma_maps_injective(m2, f(h1[a]), f(h1[k]));
        }
    }
    // The renamed rows of m1 are the rows of m2.
    let x = h1.map_values(f);
    assert(distinct(x)) by {
        assert forall|a: int, b: int| 0 <= a < x.len() && 0 <= b < x.len() && a != b implies x[a] != x[b] by {
            assert(g(f(h1[a])) == h1[a] && g(f(h1[b])) == h1[b]);
        }
    }
    assert forall|k: int| 0 <= k < x.len() implies h2.contains(#[trigger] x[k]) by {
        assert(in_scored(hf2, scored, f(h1[k])));
    }
    assert forall|a: int| 0 <= a < h2.len() implies x.contains(#[trigger] h2[a]) by {
        assert(h2.contains(h2[a]));
        assert(in_scored(hf2, scored, h2[a]));
        let i = choose|i: int| 0 <= i < hf2.len() && i < scored.len() && scored[i] && #[trigger] hf2[i]@.contains(h2[a]);
        let p = choose|p: int| 0 <= p < hf2[i]@.len() && hf2[i]@[p] == h2[a];
        assert(hf2[i]@ == hf1[i]@.map_values(f));
        let h = hf1[i]@[p];
        assert(f(h) == h2[a]);
        assert(g(f(h)) == h);
        lemma_renamed_contains(hf1, hf2, f, g, i, h);
        assert(in_scored(hf1, scored, h));
        assert(h1.contains(h));
        let k = choose|k: int| 0 <= k < h1.len() && h1[k] == h;
        assert(x[k] == h2[a]);
    }
    // Frame by frame, the transferred matching gets right what m2 gets right.
    let g1 = |i: int| total(h1.len() as int, |a: int| matched_at(h1, r1, t, rf, hf1, scored, a, i));
    let g2 = |i: int| total(h2.len() as int, |a: int| matched_at(h2, m2.refs@, m2.assign@, rf, hf2, scored, a, i));
    assert forall|i: int| 0 <= i < n implies #[trigger] g1(i) == g2(i) by {
        let fi = |h: u32| hit_term(m2, rf, hf2, scored, i, h);
        assert forall|a: int| 0 <= a < h1.len() implies #[trigger] matched_at(h1, r1, t, rf, hf1, scored, a, i) == fi(x[a]) by {
            lemma_renamed_contains(hf1, hf2, f, g, i, h1[a]);
        }
        lemma_total_ext(h1.len() as int, |a: int| matched_at(h1, r1, t, rf, hf1, scored, a, i), |a: int| fi(x[a]));
        assert forall|a: int| 0 <= a < h2.len() implies #[trigger] matched_at(h2, m2.refs@, m2.assign@, rf, hf2, scored, a, i) == fi(h2[a]) by {
            lemma_maps_row(m2, a);
        }
        lemma_total_ext(h2.len() as int, |a: int| matched_at(h2, m2.refs@, m2.assign@, rf, hf2, scored, a, i), |a: int| fi(h2[a]));
        lemma_reindex(x, h2, fi);
        lemma_total_ext(
            h2.len() as int,
            |a: int|
                if x.contains(h2[a]) {
                    fi(h2[a])
                } else {
                    0
                },
            |a: int| fi(h2[a]),
        );
        lemma_total_ext(x.len() as int, |k: int| fi(x[k]), |a: int| fi(x[a]));
    }
    lemma_total_ext(n, g1, g2);
    lemma_weight_counts_matched_frames(m1, rf, hf1, scored, t);
    lemma_weight_counts_matched_frames(m2, rf, hf2, scored, m2.assign@);
    lemma_matching_is_optimal(m1, rf, hf1, scored, t);
    lemma_correct_is_matched(m2, rf, hf2, scored);
}

/// Every frame list is itself renamed by the identity.
proof fn lemma_renamed_identity(hf: Seq<Vec<u32>>)
    ensures
        renamed_frames(hf, hf, |x: u32| x, |x: u32| x),
{
    assert forall|i: int| 0 <= i < hf.len() implies (#[trigger] hf[i])@ == hf[i]@.map_values(|x: u32| x) by {
        assert(hf[i]@ =~= hf[i]@.map_values(|x: u32| x));
    }
}

/// Two matchings optimal for the same frames get equally many
/// speaker-frames right.
proof fn lemma_optimal_correct_le(
    m1: SpeakerMapping,
    m2: SpeakerMapping,
    rf: Seq<Vec<u32>>,
    hf: Seq<Vec<u32>>,
    scored: Seq<bool>,
)
    requires
        rf.len() == scored.len(),
        hf.len() == scored.len(),
        frames_distinct(hf),
        optimal_for(m1, rf, hf, scored),
        optimal_for(m2, rf, hf, scored),
    ensures
        correct_total(m2, rf, hf, scored) <= correct_total(m1, rf, hf, scored),
{
    lemma_renamed_identity(hf);
    lemma_renamed_correct_le(m1, m2, rf, hf, hf, scored, |x: u32| x, |x: u32| x);
}

/// Two matchings optimal for the same frames confuse equally many
/// speaker-frames.
pub proof fn lemma_optimal_confusion_agrees(
    m1: SpeakerMapping,
    m2: SpeakerMapping,
    rf: Seq<Vec<u32>>,
    hf: Seq<Vec<u32>>,
    scored: Seq<bool>,
)
    requires
        rf.len() == scored.len(),
        hf.len() == scored.len(),
        frames_distinct(hf),
        optimal_for(m1, rf, hf, scored),
        optimal_for(m2, rf, hf, scored),
    ensures
        confusion_total(rf, hf, scored, m1, scored.len() as int) == confusion_total(
            rf,
            hf,
            scored,
            m2,
            scored.len() as int,
        ),
{
    lemma_optimal_correct_le(m1, m2, rf, hf, scored);
    lemma_optimal_correct_le(m2, m1, rf, hf, scored);
    lemma_confusion_is_shared_minus_correct(rf, hf, scored, m1, scored.len() as int);
    lemma_confusion_is_shared_minus_correct(rf, hf, scored, m2, scored.len() as int);
}

/// The frames of `a` and `b` hold the same speakers, frame by frame.
pub open spec fn same_views(a: Seq<Vec<u32>>, b: Seq<Vec<u32>>) -> bool {
    a.len() == b.len() && forall|i: int| 0 <= i < a.len() ==> (#[trigger] a[i])@ == b[i]@
}

proof fn lemma_co_count_views(
    rfa: Seq<Vec<u32>>,
    hfa: Seq<Vec<u32>>,
    rfb: Seq<Vec<u32>>,
    hfb: Seq<Vec<u32>>,
    scored: Seq<bool>,
    h: u32,
    r: u32,
    n: int,
)
    requires
        same_views(rfa, rfb),
        same_views(hfa, hfb),
        n <= rfa.len(),
        n <= hfa.len(),
    ensures
        co_count(rfa, hfa, scored, h, r, n) == co_count(rfb, hfb, scored, h, r, n),
    decreases n,
{
    if n > 0 {
        lemma_co_count_views(rfa, hfa, rfb, hfb, scored, h, r, n - 1);
        assert(rfa[n - 1]@ == rfb[n - 1]@ && hfa[n - 1]@ == hfb[n - 1]@);
    }
}

pub(crate) proof fn lemma_totals_views(
    rfa: Seq<Vec<u32>>,
    hfa: Seq<Vec<u32>>,
    rfb: Seq<Vec<u32>>,
    hfb: Seq<Vec<u32>>,
    scored: Seq<bool>,
    m: SpeakerMapping,
    n: int,
)
    requires
        same_views(rfa, rfb),
        same_views(hfa, hfb),
        n <= rfa.len(),
        n <= hfa.len(),
    ensures
        ref_total(rfa, scored, n) == ref_total(rfb, scored, n),
        missed_total(rfa, hfa, scored, n) == missed_total(rfb, hfb, scored, n),
        false_alarm_total(rfa, hfa, scored, n) == false_alarm_total(rfb, hfb, scored, n),
        confusion_total(rfa, hfa, scored, m, n) == confusion_total(rfb, hfb, scored, m, n),
    decreases n,
{
    if n > 0 {
        lemma_totals_views(rfa, hfa, rfb, hfb, scored, m, n - 1);
        assert(rfa[n - 1]@ == rfb[n - 1]@ && hfa[n - 1]@ == hfb[n - 1]@);
    }
}

pub(crate) proof fn lemma_optimal_for_views(
    m: SpeakerMapping,
    rfa: Seq<Vec<u32>>,
    hfa: Seq<Vec<u32>>,
    rfb: Seq<Vec<u32>>,
    hfb: Seq<Vec<u32>>,
    scored: Seq<bool>,
)
    requires
        same_views(rfa, rfb),
        same_views(hfa, hfb),
        rfa.len() == scored.len(),
        hfa.len() == scored.len(),
        optimal_for(m, rfa, hfa, scored),
    ensures
        optimal_for(m, rfb, hfb, scored),
{
    assert forall|x: u32| in_scored(hfa, scored, x) <==> in_scored(hfb, scored, x) by {
        if in_scored(hfa, scored, x) {
            let i = choose|i: int| 0 <= i < hfa.len() && i < scored.len() && scored[i] && #[trigger] hfa[i]@.contains(x);
            assert(hfb[i]@.contains(x));
        }
        if in_scored(hfb, scored, x) {
            let i = choose|i: int| 0 <= i < hfb.len() && i < scored.len() && scored[i] && #[trigger] hfb[i]@.contains(x);
            assert(hfa[i]@ == hfb[i]@);
        }
    }
    assert forall|x: u32| in_scored(rfa, scored, x) <==> in_scored(rfb, scored, x) by {
        if in_scored(rfa, scored, x) {
            let i = choose|i: int| 0 <= i < rfa.len() && i < scored.len() && scored[i] && #[trigger] rfa[i]@.contains(x);
            assert(rfb[i]@.contains(x));
        }
        if in_scored(rfb, scored, x) {
            let i = choose|i: int| 0 <= i < rfb.len() && i < scored.len() && scored[i] && #[trigger] rfb[i]@.contains(x);
            assert(rfa[i]@ == rfb[i]@);
        }
    }
    assert forall|a: int, b: int|
        0 <= a < m.hyps@.len() && 0 <= b < m.refs@.len() implies #[trigger] m.weights@[a]@[b] == co_count(
            rfb,
            hfb,
            scored,
            m.hyps@[a],
            m.refs@[b],
            scored.len() as int,
        ) by {
        lemma_co_count_views(rfa, hfa, rfb, hfb, scored, m.hyps@[a], m.refs@[b], scored.len() as int);
    }
}

/// The error counts are determined by their inputs: whichever optimal
/// matching is chosen, any two counts of the same reference, hypothesis,
/// collar, region and scored ranges are equal.
pub proof fn lemma_der_counts_unique(
    reference: Seq<SpeakerTurn>,
    hypothesis: Seq<SpeakerTurn>,
    collar: int,
    region: Region,
    uem: Option<Seq<TimeRange>>,
    c1: DerCounts,
    c2: DerCounts,
)
    requires
        der_counts_of(reference, hypothesis, collar, region, uem, c1),
        der_counts_of(reference, hypothesis, collar, region, uem, c2),
    ensures
        c1 == c2,
{
    if !crate::der::scoring_refused(reference, hypothesis, collar) {
        let rs = spans_of(reference);
        let hs = spans_of(hypothesis);
        let ignore = collar_mask(reference, collar, grid_len(reference, hypothesis) as nat);
        let (rf1, hf1, m1) = choose|rf: Seq<Vec<u32>>, hf: Seq<Vec<u32>>, m: SpeakerMapping|
            #[trigger] der_witness(rs, hs, ignore, region, uem, rf, hf, m, c1);
        let (rf2, hf2, m2) = choose|rf: Seq<Vec<u32>>, hf: Seq<Vec<u32>>, m: SpeakerMapping|
            #[trigger] der_witness(rs, hs, ignore, region, uem, rf, hf, m, c2);
        let n = ignore.len() as int;
        assert(same_views(rf1, rf2));
        assert(same_views(hf1, hf2));
        let s1 = witness_scored(ignore, rf1, region, uem);
        let s2 = witness_scored(ignore, rf2, region, uem);
        assert(s1 =~= s2) by {
            assert forall|i: int| 0 <= i < n implies #[trigger] s1[i] == s2[i] by {
                assert(rf1[i]@ == rf2[i]@);
            }
        }
        assert(c1.counts(rf1, hf1, s1, m1));
        assert(c2.counts(rf2, hf2, s1, m2));
        assert(frames_distinct(hf1)) by {
            assert forall|i: int| 0 <= i < hf1.len() implies distinct(#[trigger] hf1[i]@) by {
                lemma_frame_ids(hs, i, hs.len() as int);
            }
        }
        assert(same_views(rf2, rf1));
        assert(same_views(hf2, hf1));
        lemma_optimal_for_views(m2, rf2, hf2, rf1, hf1, s1);
        lemma_optimal_confusion_agrees(m1, m2, rf1, hf1, s1);
        lemma_totals_views(rf1, hf1, rf2, hf2, s1, m2, n);
    }
}

proof fn lemma_pair_errors_are_misses(
    m: SpeakerMapping,
    pairs: Seq<(u32, Option<u32>)>,
    rf: Seq<Vec<u32>>,
    hf: Seq<Vec<u32>>,
    k: int,
)
    requires
        pair_frames(pairs, rf, hf),
        0 <= k <= pairs.len(),
    ensures
        pair_errors(m, pairs, k) + total(
            k,
            |i: int|
                if Seq::new(pairs.len(), |j: int| true)[i] {
                    hits_upto(m, hf[i]@, rf[i]@, hf[i]@.len() as int)
                } else {
                    0
                },
        ) == k,
    decreases k,
{
    if k > 0 {
        lemma_pair_errors_are_misses(m, pairs, rf, hf, k - 1);
        let i = k - 1;
        let x = hf[i]@;
        assert(rf[i]@ == seq![pairs[i].0]);
        match pairs[i].1 {
            Some(h) => {
                assert(x == seq![h]);
                assert(hits_upto(m, x, rf[i]@, 0) == 0);
                let r = pairs[i].0;
                assert(seq![r][0] == r);
                assert(x[0] == h);
                if m.maps(h) is Some {
                    let y = m.maps(h)->0;
                    if seq![r].contains(y) {
                        let j = choose|j: int| 0 <= j < 1 && seq![r][j] == y;
                        assert(j == 0);
                    }
                    assert(seq![r].contains(y) <==> y == r);
                }
            },
            None => {
                assert(x.len() == 0);
            },
        }
    }
}

/// The word error counts are determined by their inputs: whichever optimal
/// matching is chosen, any two counts of the same reference and hypothesis
/// words are equal.
pub proof fn lemma_wder_counts_unique(
    reference: Seq<WordAlignment>,
    hypothesis: Seq<WordAlignment>,
    c1: WderCounts,
    c2: WderCounts,
)
    requires
        exists|rf: Seq<Vec<u32>>, hf: Seq<Vec<u32>>, m: SpeakerMapping|
            #[trigger] wder_witness(word_pairs(reference, hypothesis, reference.len() as int), rf, hf, m, c1),
        exists|rf: Seq<Vec<u32>>, hf: Seq<Vec<u32>>, m: SpeakerMapping|
            #[trigger] wder_witness(word_pairs(reference, hypothesis, reference.len() as int), rf, hf, m, c2),
    ensures
        c1 == c2,
{
    let pairs = word_pairs(reference, hypothesis, reference.len() as int);
    let (rf1, hf1, m1) = choose|rf: Seq<Vec<u32>>, hf: Seq<Vec<u32>>, m: SpeakerMapping|
        #[trigger] wder_witness(pairs, rf, hf, m, c1);
    let (rf2, hf2, m2) = choose|rf: Seq<Vec<u32>>, hf: Seq<Vec<u32>>, m: SpeakerMapping|
        #[trigger] wder_witness(pairs, rf, hf, m, c2);
    let s = Seq::new(pairs.len(), |i: int| true);
    assert(same_views(rf2, rf1)) by {
        assert forall|i: int| 0 <= i < rf2.len() implies (#[trigger] rf2[i])@ == rf1[i]@ by {
            assert(rf1[i]@ == seq![pairs[i].0]);
        }
    }
    assert(same_views(hf2, hf1)) by {
        assert forall|i: int| 0 <= i < hf2.len() implies (#[trigger] hf2[i])@ == hf1[i]@ by {
            assert(hf1[i]@ == hf2[i]@);
        }
    }
    assert(frames_distinct(hf1)) by {
        assert forall|i: int| 0 <= i < hf1.len() implies distinct(#[trigger] hf1[i]@) by {
            match pairs[i].1 {
                Some(h) => assert(hf1[i]@ == seq![h]),
                None => assert(hf1[i]@.len() == 0),
            }
        }
    }
    lemma_optimal_for_views(m2, rf2, hf2, rf1, hf1, s);
    lemma_optimal_correct_le(m1, m2, rf1, hf1, s);
    lemma_optimal_correct_le(m2, m1, rf1, hf1, s);
    lemma_pair_errors_are_misses(m1, pairs, rf1, hf1, pairs.len() as int);
    lemma_pair_errors_are_misses(m2, pairs, rf1, hf1, pairs.len() as int);
}

/// `h2` is `h1` with every speaker id `x` renamed `f(x)`.
pub open spec fn renamed_turns(h1: Seq<SpeakerTurn>, h2: Seq<SpeakerTurn>, f: spec_fn(u32) -> u32) -> bool {
    &&& h1.len() == h2.len()
    &&& forall|k: int| 0 <= k < h1.len() ==> (#[trigger] h2[k]).time == h1[k].time && h2[k].speaker == f(h1[k].speaker)
}

proof fn lemma_latest_end_same_times(a1: Seq<SpeakerTurn>, a2: Seq<SpeakerTurn>, k: int)
    requires
        a1.len() == a2.len(),
        0 <= k <= a1.len(),
        forall|j: int| 0 <= j < a1.len() ==> (#[trigger] a1[j]).time == a2[j].time,
    ensures
        latest_end(a1, k) == latest_end(a2, k),
    decreases k,
{
    if k > 0 {
        lemma_latest_end_same_times(a1, a2, k - 1);
        assert(a1[k - 1].time == a2[k - 1].time);
    }
}

proof fn lemma_frame_ids_renamed(s1: Seq<FrameSpan>, s2: Seq<FrameSpan>, f: spec_fn(u32) -> u32, i: int, k: int)
    requires
        s1.len() == s2.len(),
        0 <= k <= s1.len(),
        forall|j: int| 0 <= j < s1.len() ==> (#[trigger] s2[j]) == (FrameSpan {
            speaker: f(s1[j].speaker),
            start: s1[j].start,
            end: s1[j].end,
        }),
        forall|a: u32, b: u32| #[trigger] f(a) == #[trigger] f(b) ==> a == b,
    ensures
        frame_ids(s2, i, k) == frame_ids(s1, i, k).map_values(f),
    decreases k,
{
    if k > 0 {
        lemma_frame_ids_renamed(s1, s2, f, i, k - 1);
        let p1 = frame_ids(s1, i, k - 1);
        let p2 = frame_ids(s2, i, k - 1);
        let t1 = s1[k - 1];
        assert(s2[k - 1].speaker == f(t1.speaker));
        assert(p2.contains(f(t1.speaker)) <==> p1.contains(t1.speaker)) by {
            if p2.contains(f(t1.speaker)) {
                let q = choose|q: int| 0 <= q < p2.len() && p2[q] == f(t1.speaker);
                assert(f(p1[q]) == f(t1.speaker));
            }
            if p1.contains(t1.speaker) {
                let q = choose|q: int| 0 <= q < p1.len() && p1[q] == t1.speaker;
                assert(p2[q] == f(t1.speaker));
            }
        }
        assert(p1.push(t1.speaker).map_values(f) =~= p2.push(f(t1.speaker)));
    }
}

proof fn lemma_lengths_totals(
    rf: Seq<Vec<u32>>,
    hfa: Seq<Vec<u32>>,
    hfb: Seq<Vec<u32>>,
    scored: Seq<bool>,
    n: int,
)
    requires
        n <= hfa.len(),
        hfa.len() == hfb.len(),
        forall|i: int| 0 <= i < hfa.len() ==> (#[trigger] hfa[i])@.len() == hfb[i]@.len(),
    ensures
        missed_total(rf, hfa, scored, n) == missed_total(rf, hfb, scored, n),
        false_alarm_total(rf, hfa, scored, n) == false_alarm_total(rf, hfb, scored, n),
        shared_total(rf, hfa, scored, n) == shared_total(rf, hfb, scored, n),
    decreases n,
{
    if n > 0 {
        lemma_lengths_totals(rf, hfa, hfb, scored, n - 1);
        assert(hfa[n - 1]@.len() == hfb[n - 1]@.len());
    }
}

/// Renaming the hypothesis speakers one to one changes no count: the
/// matching finds the renamed speakers as it found the original ones.
pub proof fn lemma_renaming_hypothesis_keeps_counts(
    reference: Seq<SpeakerTurn>,
    h1: Seq<SpeakerTurn>,
    h2: Seq<SpeakerTurn>,
    f: spec_fn(u32) -> u32,
    collar: int,
    region: Region,
    uem: Option<Seq<TimeRange>>,
    c1: DerCounts,
    c2: DerCounts,
)
    requires
        forall|a: u32, b: u32| #[trigger] f(a) == #[trigger] f(b) ==> a == b,
        renamed_turns(h1, h2, f),
        der_counts_of(reference, h1, collar, region, uem, c1),
        der_counts_of(reference, h2, collar, region, uem, c2),
    ensures
        c1 == c2,
{
    assert(crate::der::ends_before_zero(h1) == crate::der::ends_before_zero(h2)) by {
        if crate::der::ends_before_zero(h1) {
            let k = choose|k: int| 0 <= k < h1.len() && (#[trigger] h1[k]).time.end < 0;
            assert(h2[k].time == h1[k].time);
        }
        if crate::der::ends_before_zero(h2) {
            let k = choose|k: int| 0 <= k < h2.len() && (#[trigger] h2[k]).time.end < 0;
            assert(h2[k].time == h1[k].time);
        }
    }
    if !crate::der::scoring_refused(reference, h1, collar) {
        let rs = spans_of(reference);
        let s1 = spans_of(h1);
        let s2 = spans_of(h2);
        assert(grid_len(reference, h1) == grid_len(reference, h2)) by {
            assert forall|j: int| 0 <= j < (reference + h1).len() implies (#[trigger] (reference + h1)[j]).time
                == (reference + h2)[j].time by {
                if j >= reference.len() {
                    assert(h2[j - reference.len()].time == h1[j - reference.len()].time);
                }
            }
            lemma_latest_end_same_times(reference + h1, reference + h2, (reference + h1).len() as int);
        }
        let ignore = collar_mask(reference, collar, grid_len(reference, h1) as nat);
        let (rf1, hf1, m1) = choose|rf: Seq<Vec<u32>>, hf: Seq<Vec<u32>>, m: SpeakerMapping|
            #[trigger] der_witness(rs, s1, ignore, region, uem, rf, hf, m, c1);
        let (rf2, hf2, m2) = choose|rf: Seq<Vec<u32>>, hf: Seq<Vec<u32>>, m: SpeakerMapping|
            #[trigger] der_witness(rs, s2, ignore, region, uem, rf, hf, m, c2);
        let n = ignore.len() as int;
        let g = |y: u32| choose|x: u32| #[trigger] f(x) == y;
        assert forall|x: u32| #[trigger] g(f(x)) == x by {
            let x2 = choose|z: u32| #[trigger] f(z) == f(x);
            assert(f(x2) == f(x));
        }
        assert forall|j: int| 0 <= j < s1.len() implies (#[trigger] s2[j]) == (FrameSpan {
            speaker: f(s1[j].speaker),
            start: s1[j].start,
            end: s1[j].end,
        }) by {
            assert(h2[j].time == h1[j].time);
        }
        assert(renamed_frames(hf1, hf2, f, g)) by {
            assert forall|i: int| 0 <= i < hf1.len() implies (#[trigger] hf2[i])@ == hf1[i]@.map_values(f) by {
                lemma_frame_ids_renamed(s1, s2, f, i, s1.len() as int);
            }
            assert forall|i: int, p: int| 0 <= i < hf1.len() && 0 <= p < hf1[i]@.len() implies g(
                f(#[trigger] hf1[i]@[p]),
            ) == hf1[i]@[p] by {
                assert(g(f(hf1[i]@[p])) == hf1[i]@[p]);
            }
        }
        assert(renamed_frames(hf2, hf1, g, f)) by {
            assert forall|i: int| 0 <= i < hf2.len() implies (#[trigger] hf1[i])@ == hf2[i]@.map_values(g) by {
                assert(hf2[i]@ == hf1[i]@.map_values(f));
                assert(hf1[i]@ =~= hf2[i]@.map_values(g)) by {
                    assert forall|p: int| 0 <= p < hf1[i]@.len() implies hf1[i]@[p] == hf2[i]@.map_values(g)[p] by {
                        assert(g(f(hf1[i]@[p])) == hf1[i]@[p]);
                    }
                }
            }
            assert forall|i: int, p: int| 0 <= i < hf2.len() && 0 <= p < hf2[i]@.len() implies f(
                g(#[trigger] hf2[i]@[p]),
            ) == hf2[i]@[p] by {
                assert(hf2[i]@ == hf1[i]@.map_values(f));
                assert(hf2[i]@[p] == f(hf1[i]@[p]));
                assert(g(f(hf1[i]@[p])) == hf1[i]@[p]);
            }
        }
        assert(same_views(rf2, rf1));
        assert(same_views(hf2, hf2));
        let sc = witness_scored(ignore, rf1, region, uem);
        assert(witness_scored(ignore, rf2, region, uem) =~= sc) by {
            assert forall|i: int| 0 <= i < n implies #[trigger] sc[i] == witness_scored(ignore, rf2, region, uem)[i] by {
                assert(rf1[i]@ == rf2[i]@);
            }
        }
        assert(c1.counts(rf1, hf1, sc, m1));
        assert(c2.counts(rf2, hf2, sc, m2));
        assert(frames_distinct(hf1)) by {
            assert forall|i: int| 0 <= i < hf1.len() implies distinct(#[trigger] hf1[i]@) by {
                lemma_frame_ids(s1, i, s1.len() as int);
            }
        }
        assert(frames_distinct(hf2)) by {
            assert forall|i: int| 0 <= i < hf2.len() implies distinct(#[trigger] hf2[i]@) by {
                lemma_frame_ids(s2, i, s2.len() as int);
            }
        }
        lemma_optimal_for_views(m2, rf2, hf2, rf1, hf2, sc);
        lemma_renamed_correct_le(m1, m2, rf1, hf1, hf2, sc, f, g);
        lemma_renamed_correct_le(m2, m1, rf1, hf2, hf1, sc, g, f);
        lemma_confusion_is_shared_minus_correct(rf1, hf1, sc, m1, n);
        lemma_confusion_is_shared_minus_correct(rf1, hf2, sc, m2, n);
        lemma_totals_views(rf2, hf2, rf1, hf2, sc, m2, n);
        assert forall|i: int| 0 <= i < hf1.len() implies (#[trigger] hf1[i])@.len() == hf2[i]@.len() by {
            assert(hf2[i]@ == hf1[i]@.map_values(f));
        }
        lemma_lengths_totals(rf1, hf1, hf2, sc, n);
    }
}

/// `w2` is `w1` with every speaker id `x` renamed `f(x)`.
pub open spec fn renamed_words(w1: Seq<WordAlignment>, w2: Seq<WordAlignment>, f: spec_fn(u32) -> u32) -> bool {
    &&& w1.len() == w2.len()
    &&& forall|k: int|
        0 <= k < w1.len() ==> {
            &&& (#[trigger] w2[k]).word == w1[k].word
            &&& w2[k].time == w1[k].time
            &&& w2[k].speaker == match w1[k].speaker {
                Some(h) => Some(f(h)),
                None => None::<u32>,
            }
        }
}

proof fn lemma_best_match_renamed(r: WordAlignment, w1: Seq<WordAlignment>, w2: Seq<WordAlignment>, f: spec_fn(u32) -> u32, k: int)
    requires
        renamed_words(w1, w2, f),
        k <= w1.len(),
    ensures
        best_match(r, w2, k) == best_match(r, w1, k),
    decreases k,
{
    if k > 0 {
        lemma_best_match_renamed(r, w1, w2, f, k - 1);
        assert(w2[k - 1].word == w1[k - 1].word && w2[k - 1].time == w1[k - 1].time);
        if best_match(r, w1, k - 1) is Some {
            let b = best_match(r, w1, k - 1)->0;
            lemma_best_match_in_range(r, w1, k - 1);
            assert(w2[b].time == w1[b].time);
        }
    }
}

proof fn lemma_best_match_in_range(r: WordAlignment, w: Seq<WordAlignment>, k: int)
    requires
        best_match(r, w, k) is Some,
    ensures
        0 <= best_match(r, w, k)->0 < k,
    decreases k,
{
    if k > 0 && best_match(r, w, k) != Some(k - 1) {
        lemma_best_match_in_range(r, w, k - 1);
    }
}

proof fn lemma_word_pairs_renamed(
    reference: Seq<WordAlignment>,
    w1: Seq<WordAlignment>,
    w2: Seq<WordAlignment>,
    f: spec_fn(u32) -> u32,
    k: int,
)
    requires
        renamed_words(w1, w2, f),
        k <= reference.len(),
    ensures
        word_pairs(reference, w2, k).len() == word_pairs(reference, w1, k).len(),
        forall|i: int|
            0 <= i < word_pairs(reference, w1, k).len() ==> (#[trigger] word_pairs(reference, w2, k)[i])
                == (word_pairs(reference, w1, k)[i].0, match word_pairs(reference, w1, k)[i].1 {
                Some(h) => Some(f(h)),
                None => None::<u32>,
            }),
    decreases k,
{
    if k > 0 {
        lemma_word_pairs_renamed(reference, w1, w2, f, k - 1);
        let i = k - 1;
        if reference.len() != w1.len() {
            lemma_best_match_renamed(reference[i], w1, w2, f, w1.len() as int);
            if best_match(reference[i], w1, w1.len() as int) is Some {
                lemma_best_match_in_range(reference[i], w1, w1.len() as int);
            }
        }
    }
}

/// Renaming the hypothesis speakers one to one changes no word count.
pub proof fn lemma_renaming_hypothesis_keeps_word_counts(
    reference: Seq<WordAlignment>,
    w1: Seq<WordAlignment>,
    w2: Seq<WordAlignment>,
    f: spec_fn(u32) -> u32,
    c1: WderCounts,
    c2: WderCounts,
)
    requires
        forall|a: u32, b: u32| #[trigger] f(a) == #[trigger] f(b) ==> a == b,
        renamed_words(w1, w2, f),
        exists|rf: Seq<Vec<u32>>, hf: Seq<Vec<u32>>, m: SpeakerMapping|
            #[trigger] wder_witness(word_pairs(reference, w1, reference.len() as int), rf, hf, m, c1),
        exists|rf: Seq<Vec<u32>>, hf: Seq<Vec<u32>>, m: SpeakerMapping|
            #[trigger] wder_witness(word_pairs(reference, w2, reference.len() as int), rf, hf, m, c2),
    ensures
        c1 == c2,
{
    let p1 = word_pairs(reference, w1, reference.len() as int);
    let p2 = word_pairs(reference, w2, reference.len() as int);
    lemma_word_pairs_renamed(reference, w1, w2, f, reference.len() as int);
    let (rf1, hf1, m1) = choose|rf: Seq<Vec<u32>>, hf: Seq<Vec<u32>>, m: SpeakerMapping|
        #[trigger] wder_witness(p1, rf, hf, m, c1);
    let (rf2, hf2, m2) = choose|rf: Seq<Vec<u32>>, hf: Seq<Vec<u32>>, m: SpeakerMapping|
        #[trigger] wder_witness(p2, rf, hf, m, c2);
    let s = Seq::new(p1.len(), |i: int| true);
    assert(Seq::new(p2.len(), |i: int| true) =~= s);
    let g = |y: u32| choose|x: u32| #[trigger] f(x) == y;
    assert forall|x: u32| #[trigger] g(f(x)) == x by {
        let x2 = choose|z: u32| #[trigger] f(z) == f(x);
        assert(f(x2) == f(x));
    }
    assert(same_views(rf2, rf1)) by {
        assert forall|i: int| 0 <= i < rf2.len() implies (#[trigger] rf2[i])@ == rf1[i]@ by {
            assert(p2[i].0 == p1[i].0);
        }
    }
    assert(same_views(hf2, hf2));
    assert forall|i: int| 0 <= i < hf1.len() implies (#[trigger] hf2[i])@ == hf1[i]@.map_values(f) by {
        match p1[i].1 {
            Some(h) => {
                assert(hf1[i]@ == seq![h]);
                assert(hf2[i]@ == seq![f(h)]);
                assert(seq![h].map_values(f) =~= seq![f(h)]);
            },
            None => {
                assert(hf1[i]@.len() == 0);
                assert(hf2[i]@ =~= hf1[i]@.map_values(f));
            },
        }
    }
    assert(renamed_frames(hf1, hf2, f, g));
    assert(renamed_frames(hf2, hf1, g, f)) by {
        assert forall|i: int| 0 <= i < hf2.len() implies (#[trigger] hf1[i])@ == hf2[i]@.map_values(g) by {
            assert(hf2[i]@ == hf1[i]@.map_values(f));
            assert forall|q: int| 0 <= q < hf1[i]@.len() implies hf1[i]@[q] == hf2[i]@.map_values(g)[q] by {
                assert(g(f(hf1[i]@[q])) == hf1[i]@[q]);
            }
            assert(hf1[i]@ =~= hf2[i]@.map_values(g));
        }
        assert forall|i: int, q: int| 0 <= i < hf2.len() && 0 <= q < hf2[i]@.len() implies f(
            g(#[trigger] hf2[i]@[q]),
        ) == hf2[i]@[q] by {
            assert(hf2[i]@ == hf1[i]@.map_values(f));
            assert(g(f(hf1[i]@[q])) == hf1[i]@[q]);
        }
    }
    assert(frames_distinct(hf1)) by {
        assert forall|i: int| 0 <= i < hf1.len() implies distinct(#[trigger] hf1[i]@) by {
            match p1[i].1 {
                Some(h) => assert(hf1[i]@ == seq![h]),
                None => assert(hf1[i]@.len() == 0),
            }
        }
    }
    assert(frames_distinct(hf2)) by {
        assert forall|i: int| 0 <= i < hf2.len() implies distinct(#[trigger] hf2[i]@) by {
            match p2[i].1 {
                Some(h) => assert(hf2[i]@ == seq![h]),
                None => assert(hf2[i]@.len() == 0),
            }
        }
    }
    lemma_optimal_for_views(m2, rf2, hf2, rf1, hf2, s);
    lemma_renamed_correct_le(m1, m2, rf1, hf1, hf2, s, f, g);
    lemma_renamed_correct_le(m2, m1, rf1, hf2, hf1, s, g, f);
    lemma_pair_errors_are_misses(m1, p1, rf1, hf1, p1.len() as int);
    assert(pair_frames(p2, rf1, hf2)) by {
        assert forall|i: int| 0 <= i < p2.len() implies (#[trigger] rf1[i])@ == seq![p2[i].0] by {
            assert(p2[i].0 == p1[i].0);
        }
    }
    lemma_pair_errors_are_misses(m2, p2, rf1, hf2, p2.len() as int);
}

} // verus!
