//! What the speaker matching guarantees.
//!
//! A one-to-one matching of hypothesis speakers to reference speakers gets a
//! speaker-frame right when a hypothesis speaker active in a scored frame is
//! matched to a reference speaker active in the same frame. The matching the
//! scorer chooses gets at least as many speaker-frames right as any other,
//! and a hypothesis identical to the reference is scored without error.

use vstd::prelude::*;
use crate::time::{frame_center, TimeRange};
use crate::assign::{assignment_weight, cell_weight, is_assignment, weight_from};
use crate::attribution::SpeakerTurn;
use crate::der::{
    collar_mask, der_counts_of, der_witness, frame_scored, grid_len, in_some_range, spans_of,
    DerCounts, Region,
    co_count, distinct, excess, false_alarm_total, frame_correct, hit, hits_upto, in_scored,
    is_cooc_table, min_int, missed_total, confusion_total, optimal_for, ref_total, SpeakerMapping,
};
use crate::sums::{
    ind, lemma_col_sums_ext, lemma_reindex, lemma_row_sums_ext, lemma_sum_exchange, lemma_total_ext,
    lemma_total_from, lemma_total_zero, col_sums, row_sums, total, total_from,
};

verus! {

/// Row `a` of matching `asg` is right in frame `i`: the frame is scored, the
/// row's hypothesis speaker is active in it, and the reference speaker it is
/// matched to is active in it too.
pub open spec fn matched_at(
    hyps: Seq<u32>,
    refs: Seq<u32>,
    asg: Seq<Option<usize>>,
    rf: Seq<Vec<u32>>,
    hf: Seq<Vec<u32>>,
    scored: Seq<bool>,
    a: int,
    i: int,
) -> int {
    ind(
        scored[i] && hf[i]@.contains(hyps[a]) && asg[a] is Some && rf[i]@.contains(
            refs[asg[a]->0 as int],
        ),
    )
}

/// Speaker-frames that matching `asg` of `hyps` to `refs` gets right.
pub open spec fn matched_frames(
    hyps: Seq<u32>,
    refs: Seq<u32>,
    asg: Seq<Option<usize>>,
    rf: Seq<Vec<u32>>,
    hf: Seq<Vec<u32>>,
    scored: Seq<bool>,
) -> int {
    total(
        scored.len() as int,
        |i: int| total(hyps.len() as int, |a: int| matched_at(hyps, refs, asg, rf, hf, scored, a, i)),
    )
}

/// Speaker-frames the mapping `m` gets right, frame by frame.
pub open spec fn correct_total(m: SpeakerMapping, rf: Seq<Vec<u32>>, hf: Seq<Vec<u32>>, scored: Seq<bool>) -> int {
    total(
        scored.len() as int,
        |i: int|
            if scored[i] {
                hits_upto(m, hf[i]@, rf[i]@, hf[i]@.len() as int)
            } else {
                0
            },
    )
}

/// Frames with no repeated speaker.
pub open spec fn frames_distinct(frames: Seq<Vec<u32>>) -> bool {
    forall|i: int| 0 <= i < frames.len() ==> distinct(#[trigger] frames[i]@)
}

pub(crate) proof fn lemma_hits_total(m: SpeakerMapping, hf: Seq<u32>, rf: Seq<u32>, k: int)
    requires
        0 <= k <= hf.len(),
    ensures
        hits_upto(m, hf, rf, k) == total(k, |q: int| ind(hit(m, rf, hf[q]))),
    decreases k,
{
    if k > 0 {
        lemma_hits_total(m, hf, rf, k - 1);
    }
}

proof fn lemma_co_count_total(
    rf: Seq<Vec<u32>>,
    hf: Seq<Vec<u32>>,
    scored: Seq<bool>,
    h: u32,
    r: u32,
    n: int,
)
    ensures
        co_count(rf, hf, scored, h, r, n) == total(
            n,
            |i: int| ind(scored[i] && hf[i]@.contains(h) && rf[i]@.contains(r)),
        ),
    decreases n,
{
    if n > 0 {
        lemma_co_count_total(rf, hf, scored, h, r, n - 1);
    }
}

proof fn lemma_weight_from_total(w: Seq<Vec<u64>>, asg: Seq<Option<usize>>, i: int)
    requires
        0 <= i <= asg.len(),
    ensures
        weight_from(w, asg, i) == total_from(i, asg.len() as int, |a: int| cell_weight(w, a, asg[a])),
    decreases asg.len() - i,
{
    if i < asg.len() {
        lemma_weight_from_total(w, asg, i + 1);
    }
}

/// The weight of an assignment in the co-occurrence table is the number of
/// speaker-frames it gets right.
pub proof fn lemma_weight_counts_matched_frames(
    m: SpeakerMapping,
    rf: Seq<Vec<u32>>,
    hf: Seq<Vec<u32>>,
    scored: Seq<bool>,
    asg: Seq<Option<usize>>,
)
    requires
        rf.len() == scored.len(),
        hf.len() == scored.len(),
        is_cooc_table(rf, hf, scored, m.hyps@, m.refs@, m.weights@),
        asg.len() == m.hyps.len(),
        is_assignment(asg, m.refs.len() as nat),
    ensures
        assignment_weight(m.weights@, asg) == matched_frames(m.hyps@, m.refs@, asg, rf, hf, scored),
{
    let hyps = m.hyps@;
    let refs = m.refs@;
    let w = m.weights@;
    let na = hyps.len() as int;
    let n = scored.len() as int;
    let c = |a: int, i: int| matched_at(hyps, refs, asg, rf, hf, scored, a, i);
    let cw = |a: int| cell_weight(w, a, asg[a]);
    assert forall|a: int| 0 <= a < na implies #[trigger] cw(a) == total(n, |i: int| c(a, i)) by {
        match asg[a] {
            Some(b) => {
                assert(w[a]@[b as int] == co_count(rf, hf, scored, hyps[a], refs[b as int], n));
                lemma_co_count_total(rf, hf, scored, hyps[a], refs[b as int], n);
                lemma_total_ext(
                    n,
                    |i: int| ind(scored[i] && hf[i]@.contains(hyps[a]) && rf[i]@.contains(refs[b as int])),
                    |i: int| c(a, i),
                );
            },
            None => {
                lemma_total_zero(n, |i: int| c(a, i));
            },
        }
    }
    lemma_row_sums_ext(na, n, c, cw);
    lemma_sum_exchange(na, n, c);
    lemma_col_sums_ext(na, n, c, |i: int| total(na, |a: int| c(a, i)));
    lemma_weight_from_total(w, asg, 0);
    lemma_total_from(0, na, cw);
    let g1 = |i: int| total(na, |a: int| c(a, i));
    let g2 = |i: int| total(hyps.len() as int, |a: int| matched_at(hyps, refs, asg, rf, hf, scored, a, i));
    assert forall|i: int| 0 <= i < n implies #[trigger] g1(i) == g2(i) by {
        lemma_total_ext(na, |a: int| c(a, i), |a: int| matched_at(hyps, refs, asg, rf, hf, scored, a, i));
    }
    lemma_total_ext(n, g1, g2);
}

/// The speaker-frames the mapping gets right, counted frame by frame, are
/// those its assignment gets right.
pub proof fn lemma_correct_is_matched(
    m: SpeakerMapping,
    rf: Seq<Vec<u32>>,
    hf: Seq<Vec<u32>>,
    scored: Seq<bool>,
)
    requires
        rf.len() == scored.len(),
        hf.len() == scored.len(),
        frames_distinct(hf),
        optimal_for(m, rf, hf, scored),
    ensures
        correct_total(m, rf, hf, scored) == matched_frames(m.hyps@, m.refs@, m.assign@, rf, hf, scored),
{
    let hyps = m.hyps@;
    let refs = m.refs@;
    let asg = m.assign@;
    let na = hyps.len() as int;
    let n = scored.len() as int;
    let frame = |i: int|
        if scored[i] {
            hits_upto(m, hf[i]@, rf[i]@, hf[i]@.len() as int)
        } else {
            0
        };
    let rows = |i: int| total(na, |a: int| matched_at(hyps, refs, asg, rf, hf, scored, a, i));
    assert forall|i: int| 0 <= i < n implies #[trigger] frame(i) == rows(i) by {
        if scored[i] {
            let x = hf[i]@;
            let f = |h: u32| ind(hit(m, rf[i]@, h));
            lemma_hits_total(m, x, rf[i]@, x.len() as int);
            assert forall|k: int| 0 <= k < x.len() implies hyps.contains(#[trigger] x[k]) by {
                assert(hf[i]@.contains(x[k]));
                assert(in_scored(hf, scored, x[k]));
            }
            lemma_reindex(x, hyps, f);
            lemma_total_ext(x.len() as int, |q: int| ind(hit(m, rf[i]@, x[q])), |k: int| f(x[k]));
            assert forall|a: int| 0 <= a < na implies (if x.contains(#[trigger] hyps[a]) {
                f(hyps[a])
            } else {
                0
            }) == matched_at(hyps, refs, asg, rf, hf, scored, a, i) by {
                let c = choose|c: int| 0 <= c < m.hyps.len() && m.hyps@[c] == hyps[a];
                assert(hyps[c] == hyps[a]);
                assert(c == a);
            }
            lemma_total_ext(
                na,
                |a: int|
                    if x.contains(hyps[a]) {
                        f(hyps[a])
                    } else {
                        0
                    },
                |a: int| matched_at(hyps, refs, asg, rf, hf, scored, a, i),
            );
        } else {
            lemma_total_zero(na, |a: int| matched_at(hyps, refs, asg, rf, hf, scored, a, i));
        }
    }
    lemma_total_ext(n, frame, rows);
}

/// The speaker matching is optimal: the speaker-frames it gets right are the
/// weight of its assignment, and no other one-to-one matching of the same
/// speakers gets more speaker-frames right.
pub proof fn lemma_matching_is_optimal(
    m: SpeakerMapping,
    rf: Seq<Vec<u32>>,
    hf: Seq<Vec<u32>>,
    scored: Seq<bool>,
    other: Seq<Option<usize>>,
)
    requires
        rf.len() == scored.len(),
        hf.len() == scored.len(),
        frames_distinct(hf),
        optimal_for(m, rf, hf, scored),
        other.len() == m.hyps.len(),
        is_assignment(other, m.refs.len() as nat),
    ensures
        correct_total(m, rf, hf, scored) == assignment_weight(m.weights@, m.assign@),
        matched_frames(m.hyps@, m.refs@, other, rf, hf, scored) <= correct_total(m, rf, hf, scored),
{
    lemma_correct_is_matched(m, rf, hf, scored);
    lemma_weight_counts_matched_frames(m, rf, hf, scored, m.assign@);
    lemma_weight_counts_matched_frames(m, rf, hf, scored, other);
    assert(assignment_weight(m.weights@, other) <= assignment_weight(m.weights@, m.assign@));
}


proof fn lemma_hits_bound(m: SpeakerMapping, hf: Seq<u32>, rf: Seq<u32>, k: int)
    requires
        0 <= k,
    ensures
        0 <= hits_upto(m, hf, rf, k) <= k,
    decreases k,
{
    if k > 0 {
        lemma_hits_bound(m, hf, rf, k - 1);
    }
}

/// Every frame has the same speaker list in `rf` and `hf`.
pub open spec fn same_frames(rf: Seq<Vec<u32>>, hf: Seq<Vec<u32>>) -> bool {
    rf.len() == hf.len() && forall|i: int| 0 <= i < rf.len() ==> (#[trigger] rf[i])@ == hf[i]@
}

proof fn lemma_equal_frames_no_miss(rf: Seq<Vec<u32>>, hf: Seq<Vec<u32>>, scored: Seq<bool>, n: int)
    requires
        same_frames(rf, hf),
        n <= rf.len(),
    ensures
        missed_total(rf, hf, scored, n) == 0,
        false_alarm_total(rf, hf, scored, n) == 0,
    decreases n,
{
    if n > 0 {
        lemma_equal_frames_no_miss(rf, hf, scored, n - 1);
        assert(rf[n - 1]@ == hf[n - 1]@);
    }
}

proof fn lemma_full_hits_no_confusion(
    rf: Seq<Vec<u32>>,
    hf: Seq<Vec<u32>>,
    scored: Seq<bool>,
    m: SpeakerMapping,
    n: int,
)
    requires
        same_frames(rf, hf),
        n <= rf.len(),
        n <= scored.len(),
        forall|i: int| 0 <= i < n && scored[i] ==> #[trigger] hits_upto(m, hf[i]@, rf[i]@, hf[i]@.len() as int) >= rf[i]@.len(),
    ensures
        confusion_total(rf, hf, scored, m, n) == 0,
    decreases n,
{
    if n > 0 {
        lemma_full_hits_no_confusion(rf, hf, scored, m, n - 1);
        assert(rf[n - 1]@ == hf[n - 1]@);
        if scored[n - 1] {
            assert(hits_upto(m, hf[n - 1]@, rf[n - 1]@, hf[n - 1]@.len() as int) >= rf[n - 1]@.len());
        }
    }
}

/// The matching of a speaker list onto itself.
pub open spec fn identity_matching(hyps: Seq<u32>, refs: Seq<u32>) -> Seq<Option<usize>> {
    Seq::new(
        hyps.len(),
        |a: int| Some((choose|b: int| 0 <= b < refs.len() && refs[b] == hyps[a]) as usize),
    )
}

/// When the hypothesis frames are the reference frames, the chosen mapping
/// gets every scored reference speaker-frame right.
pub proof fn lemma_self_matching_is_exact(
    m: SpeakerMapping,
    rf: Seq<Vec<u32>>,
    hf: Seq<Vec<u32>>,
    scored: Seq<bool>,
)
    requires
        rf.len() == scored.len(),
        same_frames(rf, hf),
        frames_distinct(hf),
        optimal_for(m, rf, hf, scored),
    ensures
        forall|i: int| 0 <= i < scored.len() && scored[i] ==> #[trigger] hits_upto(m, hf[i]@, rf[i]@, hf[i]@.len() as int) == rf[i]@.len(),
{
    let hyps = m.hyps@;
    let refs = m.refs@;
    let na = hyps.len() as int;
    let n = scored.len() as int;
    assert forall|s: u32| refs.contains(s) <==> hyps.contains(s) by {
        if in_scored(rf, scored, s) {
            let i = choose|i: int| 0 <= i < rf.len() && i < scored.len() && scored[i] && #[trigger] rf[i]@.contains(s);
            assert(rf[i]@ == hf[i]@);
            assert(in_scored(hf, scored, s));
        }
        if in_scored(hf, scored, s) {
            let i = choose|i: int| 0 <= i < hf.len() && i < scored.len() && scored[i] && #[trigger] hf[i]@.contains(s);
            assert(rf[i]@ == hf[i]@);
            assert(in_scored(rf, scored, s));
        }
    }
    let id = identity_matching(hyps, refs);
    assert forall|a: int| 0 <= a < na implies {
        let b = (#[trigger] id[a])->0 as int;
        &&& id[a] is Some
        &&& 0 <= b < refs.len()
        &&& refs[b] == hyps[a]
    } by {
        assert(hyps.contains(hyps[a]));
        assert(refs.contains(hyps[a]));
    }
    assert(is_assignment(id, refs.len() as nat)) by {
        assert forall|a: int, k: int|
            0 <= a < id.len() && 0 <= k < id.len() && a != k && (#[trigger] id[a]) is Some && (
            #[trigger] id[k]) is Some implies id[a]->0 != id[k]->0 by {
            assert(hyps[a] != hyps[k]);
        }
    }
    lemma_matching_is_optimal(m, rf, hf, scored, id);
    // What the self-matching gets right: every scored reference speaker-frame.
    let per_frame = |i: int|
        if scored[i] {
            rf[i]@.len() as int
        } else {
            0
        };
    let rows = |i: int| total(na, |a: int| matched_at(hyps, refs, id, rf, hf, scored, a, i));
    assert forall|i: int| 0 <= i < n implies #[trigger] rows(i) == per_frame(i) by {
        if scored[i] {
            let x = rf[i]@;
            let one = |h: u32| 1int;
            assert forall|k: int| 0 <= k < x.len() implies hyps.contains(#[trigger] x[k]) by {
                assert(rf[i]@.contains(x[k]));
                assert(in_scored(rf, scored, x[k]));
                assert(refs.contains(x[k]));
            }
            lemma_reindex(x, hyps, one);
            lemma_total_ones(x.len() as int);
            lemma_total_ext(x.len() as int, |k: int| one(x[k]), |k: int| 1int);
            assert forall|a: int| 0 <= a < na implies (if x.contains(#[trigger] hyps[a]) {
                one(hyps[a])
            } else {
                0
            }) == matched_at(hyps, refs, id, rf, hf, scored, a, i) by {
                assert(rf[i]@ == hf[i]@);
            }
            lemma_total_ext(
                na,
                |a: int|
                    if x.contains(hyps[a]) {
                        one(hyps[a])
                    } else {
                        0
                    },
                |a: int| matched_at(hyps, refs, id, rf, hf, scored, a, i),
            );
        } else {
            lemma_total_zero(na, |a: int| matched_at(hyps, refs, id, rf, hf, scored, a, i));
        }
    }
    lemma_total_ext(n, rows, per_frame);
    // Frame by frame, the mapping gets at most the frame's speakers right.
    let got = |i: int|
        if scored[i] {
            hits_upto(m, hf[i]@, rf[i]@, hf[i]@.len() as int)
        } else {
            0
        };
    assert forall|i: int| 0 <= i < n implies #[trigger] got(i) <= per_frame(i) by {
        lemma_hits_bound(m, hf[i]@, rf[i]@, hf[i]@.len() as int);
        assert(rf[i]@ == hf[i]@);
    }
    assert forall|i: int| 0 <= i < n && scored[i] implies #[trigger] hits_upto(m, hf[i]@, rf[i]@, hf[i]@.len() as int) == rf[i]@.len() by {
        crate::sums::lemma_total_le_eq(n, got, per_frame, i);
    }
}

proof fn lemma_total_ones(n: int)
    requires
        n >= 0,
    ensures
        total(n, |k: int| 1int) == n,
    decreases n,
{
    if n > 0 {
        lemma_total_ones(n - 1);
    }
}

/// Scoring the reference against itself finds no error: no missed, falsely
/// alarmed or confused speaker-frame, whatever the collar, region or scored
/// ranges.
pub proof fn lemma_perfect_hypothesis_scores_zero(
    reference: Seq<crate::attribution::SpeakerTurn>,
    collar: int,
    region: crate::der::Region,
    uem: Option<Seq<crate::time::TimeRange>>,
    c: crate::der::DerCounts,
)
    requires
        crate::der::der_counts_of(reference, reference, collar, region, uem, c),
    ensures
        c.missed_frames == 0,
        c.false_alarm_frames == 0,
        c.confusion_frames == 0,
{
    if !crate::der::scoring_refused(reference, reference, collar) {
        let (rf, hf, m) = choose|rf: Seq<Vec<u32>>, hf: Seq<Vec<u32>>, m: SpeakerMapping|
            #[trigger] crate::der::der_witness(
                crate::der::spans_of(reference),
                crate::der::spans_of(reference),
                crate::der::collar_mask(
                    reference,
                    collar,
                    crate::der::grid_len(reference, reference) as nat,
                ),
                region,
                uem,
                rf,
                hf,
                m,
                c,
            );
        let ignore = crate::der::collar_mask(reference, collar, crate::der::grid_len(reference, reference) as nat);
        let scored = Seq::new(ignore.len(), |i: int| crate::der::frame_scored(ignore, rf, region, uem, i));
        assert(same_frames(rf, hf));
        assert(frames_distinct(hf)) by {
            assert forall|i: int| 0 <= i < hf.len() implies distinct(#[trigger] hf[i]@) by {
                crate::der::lemma_frame_ids(
                    crate::der::spans_of(reference),
                    i,
                    reference.len() as int,
                );
            }
        }
        lemma_self_matching_is_exact(m, rf, hf, scored);
        lemma_equal_frames_no_miss(rf, hf, scored, scored.len() as int);
        lemma_full_hits_no_confusion(rf, hf, scored, m, scored.len() as int);
    }
}


/// Missed minus falsely alarmed speaker-frames is the difference between
/// the reference and hypothesis speaker-frames over the scored frames.
pub proof fn lemma_miss_minus_false_alarm(rf: Seq<Vec<u32>>, hf: Seq<Vec<u32>>, scored: Seq<bool>, n: int)
    ensures
        missed_total(rf, hf, scored, n) - false_alarm_total(rf, hf, scored, n) == ref_total(rf, scored, n)
            - crate::der::hyp_total(hf, scored, n),
    decreases n,
{
    if n > 0 {
        lemma_miss_minus_false_alarm(rf, hf, scored, n - 1);
    }
}

/// Each scored speaker-frame of the reference is either missed, confused or
/// right: missed, confused and correctly matched frames add up to the
/// reference speaker-frames.
pub proof fn lemma_reference_frames_partition(
    rf: Seq<Vec<u32>>,
    hf: Seq<Vec<u32>>,
    scored: Seq<bool>,
    m: SpeakerMapping,
    n: int,
)
    ensures
        missed_total(rf, hf, scored, n) + confusion_total(rf, hf, scored, m, n) + correct_upto(
            rf,
            hf,
            scored,
            m,
            n,
        ) == ref_total(rf, scored, n),
    decreases n,
{
    if n > 0 {
        lemma_reference_frames_partition(rf, hf, scored, m, n - 1);
    }
}

/// Correctly matched speaker-frames (never more than the reference speakers
/// of a frame) over the scored frames among the first `n`.
pub open spec fn correct_upto(rf: Seq<Vec<u32>>, hf: Seq<Vec<u32>>, scored: Seq<bool>, m: SpeakerMapping, n: int) -> int
    decreases n,
{
    if n <= 0 {
        0
    } else {
        correct_upto(rf, hf, scored, m, n - 1) + if scored[n - 1] {
            frame_correct(m, hf[n - 1]@, rf[n - 1]@)
        } else {
            0
        }
    }
}

pub(crate) proof fn lemma_correct_upto_nonneg(rf: Seq<Vec<u32>>, hf: Seq<Vec<u32>>, scored: Seq<bool>, m: SpeakerMapping, n: int)
    ensures
        correct_upto(rf, hf, scored, m, n) >= 0,
    decreases n,
{
    if n > 0 {
        lemma_correct_upto_nonneg(rf, hf, scored, m, n - 1);
        lemma_hits_bound(m, hf[n - 1]@, rf[n - 1]@, hf[n - 1]@.len() as int);
    }
}

proof fn lemma_ref_total_unscored(rf: Seq<Vec<u32>>, scored: Seq<bool>, n: int)
    requires
        forall|i: int| 0 <= i < n ==> !#[trigger] scored[i],
    ensures
        ref_total(rf, scored, n) == 0,
    decreases n,
{
    if n > 0 {
        lemma_ref_total_unscored(rf, scored, n - 1);
    }
}

/// The frames scored by [`der_witness`].
pub open spec fn witness_scored(
    ignore: Seq<bool>,
    rf: Seq<Vec<u32>>,
    region: Region,
    uem: Option<Seq<TimeRange>>,
) -> Seq<bool> {
    Seq::new(ignore.len(), |i: int| frame_scored(ignore, rf, region, uem, i))
}

/// Missed and confused speaker-frames never outnumber the scored reference
/// speaker-frames, so the miss and confusion rates add up to at most one.
/// (False alarms are not bounded by the reference: a hypothesis may speak
/// where the reference is silent.)
pub proof fn lemma_miss_and_confusion_bounded(
    reference: Seq<SpeakerTurn>,
    hypothesis: Seq<SpeakerTurn>,
    collar: int,
    region: Region,
    uem: Option<Seq<TimeRange>>,
    c: DerCounts,
)
    requires
        der_counts_of(reference, hypothesis, collar, region, uem, c),
    ensures
        c.missed_frames + c.confusion_frames <= c.total_ref_frames,
{
    if !crate::der::scoring_refused(reference, hypothesis, collar) {
        let ignore = collar_mask(reference, collar, grid_len(reference, hypothesis) as nat);
        let (rf, hf, m) = choose|rf: Seq<Vec<u32>>, hf: Seq<Vec<u32>>, m: SpeakerMapping|
            #[trigger] der_witness(
                spans_of(reference),
                spans_of(hypothesis),
                ignore,
                region,
                uem,
                rf,
                hf,
                m,
                c,
            );
        let scored = witness_scored(ignore, rf, region, uem);
        assert(c.counts(rf, hf, scored, m));
        let n = scored.len() as int;
        lemma_reference_frames_partition(rf, hf, scored, m, n);
        lemma_correct_upto_nonneg(rf, hf, scored, m, n);
    }
}

/// The error frames never outnumber the scored reference speaker-frames, so
/// the diarization error rate lies in [0, 1].
pub proof fn lemma_der_at_most_one(
    reference: Seq<SpeakerTurn>,
    hypothesis: Seq<SpeakerTurn>,
    collar: int,
    region: Region,
    uem: Option<Seq<TimeRange>>,
    c: DerCounts,
)
    requires
        der_counts_of(reference, hypothesis, collar, region, uem, c),
    ensures
        c.error_frames() <= c.total_ref_frames,
{
    lemma_miss_and_confusion_bounded(reference, hypothesis, collar, region, uem, c);
}

/// Scoring against an empty list of scored regions scores nothing: every
/// count is zero.
pub proof fn lemma_empty_uem_scores_nothing(
    reference: Seq<SpeakerTurn>,
    hypothesis: Seq<SpeakerTurn>,
    collar: int,
    region: Region,
    c: DerCounts,
)
    requires
        der_counts_of(reference, hypothesis, collar, region, Some(Seq::<TimeRange>::empty()), c),
    ensures
        c.is_zero(),
{
    if !crate::der::scoring_refused(reference, hypothesis, collar) {
        let uem = Some(Seq::<TimeRange>::empty());
        let ignore = collar_mask(reference, collar, grid_len(reference, hypothesis) as nat);
        let (rf, hf, m) = choose|rf: Seq<Vec<u32>>, hf: Seq<Vec<u32>>, m: SpeakerMapping|
            #[trigger] der_witness(
                spans_of(reference),
                spans_of(hypothesis),
                ignore,
                region,
                uem,
                rf,
                hf,
                m,
                c,
            );
        let scored = witness_scored(ignore, rf, region, uem);
        assert(c.counts(rf, hf, scored, m));
        assert forall|i: int| 0 <= i < scored.len() implies !#[trigger] scored[i] by {
            assert(!in_some_range(Seq::<TimeRange>::empty(), frame_center(i)));
        }
        lemma_ref_total_unscored(rf, scored, scored.len() as int);
    }
}

} // verus!
