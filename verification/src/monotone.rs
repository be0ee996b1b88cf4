//! Scoring fewer frames never adds error.
//!
//! A wider forgiveness collar, a list of scored ranges, or a restriction to
//! single-speaker (or overlap) frames only takes frames out of scoring.
//! Whatever optimal matching is chosen on the frames that remain, the
//! missed, falsely alarmed and confused speaker-frames together do not grow,
//! and neither do the scored reference speaker-frames.

use vstd::prelude::*;
use crate::assign::is_assignment;
use crate::attribution::SpeakerTurn;
use crate::der::{
    collar_mask, confusion_total, frame_scored, in_some_range, der_counts_of, der_witness, false_alarm_total,
    frame_correct, grid_len, hit, hits_upto, in_collar, in_scored, lemma_frame_ids, max_i,
    missed_total, near_boundary, optimal_for, ref_total, region_keeps, spans_of,
    uem_keeps, DerCounts, FrameSpan, Region, SpeakerMapping,
};
use crate::matching::{
    lemma_correct_upto_nonneg, lemma_reference_frames_partition,
    correct_total, frames_distinct, lemma_hits_total, lemma_matching_is_optimal, matched_at,
    witness_scored,
};
use crate::sums::{ind, lemma_reindex, lemma_total_add, lemma_total_ext, lemma_total_le, total};
use crate::time::{frame_center, TimeRange, FRAME_NANOS};
use crate::uniqueness::{
    index_of, lemma_hits_le_reference, lemma_maps_injective, lemma_optimal_for_views,
    lemma_totals_views, same_views,
};

verus! {

/// The speaker-frames of frame `i` that mapping `m` gets wrong, when the
/// frame is scored: the larger side minus the correctly matched speakers.
pub open spec fn frame_error(
    rf: Seq<Vec<u32>>,
    hf: Seq<Vec<u32>>,
    scored: Seq<bool>,
    m: SpeakerMapping,
    i: int,
) -> int {
    if scored[i] {
        max_i(rf[i]@.len() as int, hf[i]@.len() as int) - hits_upto(
            m,
            hf[i]@,
            rf[i]@,
            hf[i]@.len() as int,
        )
    } else {
        0
    }
}

/// The larger side of frame `i`, when the frame is scored.
pub open spec fn frame_size(rf: Seq<Vec<u32>>, hf: Seq<Vec<u32>>, scored: Seq<bool>, i: int) -> int {
    if scored[i] {
        max_i(rf[i]@.len() as int, hf[i]@.len() as int)
    } else {
        0
    }
}

/// The speakers matching `m` gets right in frame `i`, when it is scored.
pub open spec fn frame_hits(rf: Seq<Vec<u32>>, hf: Seq<Vec<u32>>, scored: Seq<bool>, m: SpeakerMapping, i: int) -> int {
    if scored[i] {
        hits_upto(m, hf[i]@, rf[i]@, hf[i]@.len() as int)
    } else {
        0
    }
}

/// Missed, falsely alarmed and confused speaker-frames add up frame by frame.
proof fn lemma_errors_by_frame(rf: Seq<Vec<u32>>, hf: Seq<Vec<u32>>, scored: Seq<bool>, m: SpeakerMapping, n: int)
    requires
        m.wf(),
        0 <= n <= scored.len(),
        rf.len() == scored.len(),
        hf.len() == scored.len(),
        frames_distinct(hf),
    ensures
        missed_total(rf, hf, scored, n) + false_alarm_total(rf, hf, scored, n) + confusion_total(
            rf,
            hf,
            scored,
            m,
            n,
        ) == total(n, |i: int| frame_error(rf, hf, scored, m, i)),
    decreases n,
{
    if n > 0 {
        lemma_errors_by_frame(rf, hf, scored, m, n - 1);
        let i = n - 1;
        lemma_hits_le_reference(m, hf[i]@, rf[i]@);
        assert(frame_correct(m, hf[i]@, rf[i]@) == hits_upto(m, hf[i]@, rf[i]@, hf[i]@.len() as int));
    }
}

/// The reference speaker-frames of fewer scored frames are fewer.
proof fn lemma_ref_total_fewer(rf: Seq<Vec<u32>>, s1: Seq<bool>, s2: Seq<bool>, n: int)
    requires
        0 <= n <= s1.len(),
        s1.len() == s2.len(),
        forall|i: int| 0 <= i < n && #[trigger] s2[i] ==> s1[i],
    ensures
        ref_total(rf, s2, n) <= ref_total(rf, s1, n),
    decreases n,
{
    if n > 0 {
        lemma_ref_total_fewer(rf, s1, s2, n - 1);
        assert(s2[n - 1] ==> s1[n - 1]);
    }
}

/// With one matching, fewer scored frames hold no more wrong speaker-frames.
proof fn lemma_frame_errors_fewer(
    rf: Seq<Vec<u32>>,
    hf: Seq<Vec<u32>>,
    s1: Seq<bool>,
    s2: Seq<bool>,
    m: SpeakerMapping,
)
    requires
        m.wf(),
        rf.len() == s1.len(),
        hf.len() == s1.len(),
        s2.len() == s1.len(),
        frames_distinct(hf),
        forall|i: int| 0 <= i < s1.len() && #[trigger] s2[i] ==> s1[i],
    ensures
        total(s1.len() as int, |i: int| frame_error(rf, hf, s2, m, i)) <= total(
            s1.len() as int,
            |i: int| frame_error(rf, hf, s1, m, i),
        ),
{
    assert forall|i: int| 0 <= i < s1.len() implies #[trigger] frame_error(rf, hf, s2, m, i) <= frame_error(
        rf,
        hf,
        s1,
        m,
        i,
    ) by {
        lemma_hits_le_reference(m, hf[i]@, rf[i]@);
        assert(s2[i] ==> s1[i]);
    }
    lemma_total_le(
        s1.len() as int,
        |i: int| frame_error(rf, hf, s2, m, i),
        |i: int| frame_error(rf, hf, s1, m, i),
    );
}

/// The wrong speaker-frames are the frame sizes minus the right ones.
proof fn lemma_frame_errors_split(rf: Seq<Vec<u32>>, hf: Seq<Vec<u32>>, scored: Seq<bool>, m: SpeakerMapping)
    ensures
        total(scored.len() as int, |i: int| frame_error(rf, hf, scored, m, i)) + correct_total(
            m,
            rf,
            hf,
            scored,
        ) == total(scored.len() as int, |i: int| frame_size(rf, hf, scored, i)),
{
    let n = scored.len() as int;
    lemma_total_ext(
        n,
        |i: int|
            if scored[i] {
                hits_upto(m, hf[i]@, rf[i]@, hf[i]@.len() as int)
            } else {
                0
            },
        |i: int| frame_hits(rf, hf, scored, m, i),
    );
    lemma_total_add(
        n,
        |i: int| frame_error(rf, hf, scored, m, i),
        |i: int| frame_hits(rf, hf, scored, m, i),
        |i: int| frame_size(rf, hf, scored, i),
    );
}

/// On fewer scored frames, a matching optimal for them gets at least as many
/// speaker-frames right as one optimal for more frames.
proof fn lemma_fewer_frames_correct(
    m1: SpeakerMapping,
    m2: SpeakerMapping,
    rf: Seq<Vec<u32>>,
    hf: Seq<Vec<u32>>,
    s1: Seq<bool>,
    s2: Seq<bool>,
)
    requires
        rf.len() == s1.len(),
        hf.len() == s1.len(),
        s2.len() == s1.len(),
        frames_distinct(hf),
        forall|i: int| 0 <= i < s1.len() && #[trigger] s2[i] ==> s1[i],
        optimal_for(m1, rf, hf, s1),
        optimal_for(m2, rf, hf, s2),
    ensures
        correct_total(m1, rf, hf, s2) <= correct_total(m2, rf, hf, s2),
{
    let h2 = m2.hyps@;
    let r2 = m2.refs@;
    let n = s2.len() as int;
    // The rows of m2 written as m1 matches them, where m2 has the column.
    let t = Seq::new(
        h2.len(),
        |a: int|
            match m1.maps(h2[a]) {
                Some(r) => if r2.contains(r) {
                    Some(index_of(r2, r) as usize)
                } else {
                    None
                },
                None => None,
            },
    );
    assert forall|a: int| 0 <= a < t.len() && (#[trigger] t[a]) is Some implies {
        &&& (t[a]->0 as int) < r2.len()
        &&& r2[t[a]->0 as int] == m1.maps(h2[a])->0
    } by {
        let r = m1.maps(h2[a])->0;
        assert(r2.contains(r));
    }
    assert(is_assignment(t, r2.len() as nat)) by {
        assert forall|a: int, k: int|
            0 <= a < t.len() && 0 <= k < t.len() && a != k && (#[trigger] t[a]) is Some && (
            #[trigger] t[k]) is Some implies t[a]->0 != t[k]->0 by {
            assert(h2[a] != h2[k]);
            lemma_maps_injective(m1, h2[a], h2[k]);
        }
    }
    // Frame by frame, t gets right what m1 gets right on the frames of s2.
    let g1 = |i: int|
        if s2[i] {
            hits_upto(m1, hf[i]@, rf[i]@, hf[i]@.len() as int)
        } else {
            0
        };
    let g2 = |i: int| total(h2.len() as int, |a: int| matched_at(h2, r2, t, rf, hf, s2, a, i));
    assert forall|i: int| 0 <= i < n implies #[trigger] g1(i) == g2(i) by {
        if s2[i] {
            let x = hf[i]@;
            let f = |h: u32| ind(hit(m1, rf[i]@, h));
            lemma_hits_total(m1, x, rf[i]@, x.len() as int);
            assert forall|k: int| 0 <= k < x.len() implies h2.contains(#[trigger] x[k]) by {
                assert(hf[i]@.contains(x[k]));
                assert(in_scored(hf, s2, x[k]));
            }
            lemma_reindex(x, h2, f);
            lemma_total_ext(x.len() as int, |q: int| ind(hit(m1, rf[i]@, x[q])), |k: int| f(x[k]));
            assert forall|a: int| 0 <= a < h2.len() implies (if x.contains(#[trigger] h2[a]) {
                f(h2[a])
            } else {
                0
            }) == matched_at(h2, r2, t, rf, hf, s2, a, i) by {
                if x.contains(h2[a]) && m1.maps(h2[a]) is Some && rf[i]@.contains(m1.maps(h2[a])->0) {
                    let r = m1.maps(h2[a])->0;
                    assert(in_scored(rf, s2, r));
                    assert(r2.contains(r));
                }
            }
            lemma_total_ext(
                h2.len() as int,
                |a: int|
                    if x.contains(h2[a]) {
                        f(h2[a])
                    } else {
                        0
                    },
                |a: int| matched_at(h2, r2, t, rf, hf, s2, a, i),
            );
        } else {
            crate::sums::lemma_total_zero(h2.len() as int, |a: int| matched_at(h2, r2, t, rf, hf, s2, a, i));
        }
    }
    lemma_total_ext(n, g1, g2);
    lemma_matching_is_optimal(m2, rf, hf, s2, t);
}

/// Counts over fewer scored frames, each under a matching optimal for its
/// frames, hold no more error and no more reference speaker-frames.
proof fn lemma_fewer_frames_counts(
    rf: Seq<Vec<u32>>,
    hf: Seq<Vec<u32>>,
    s1: Seq<bool>,
    s2: Seq<bool>,
    m1: SpeakerMapping,
    m2: SpeakerMapping,
    d1: DerCounts,
    d2: DerCounts,
)
    requires
        rf.len() == s1.len(),
        hf.len() == s1.len(),
        s2.len() == s1.len(),
        frames_distinct(hf),
        forall|i: int| 0 <= i < s1.len() && #[trigger] s2[i] ==> s1[i],
        optimal_for(m1, rf, hf, s1),
        optimal_for(m2, rf, hf, s2),
        d1.counts(rf, hf, s1, m1),
        d2.counts(rf, hf, s2, m2),
    ensures
        d2.error_frames() <= d1.error_frames(),
        d2.total_ref_frames <= d1.total_ref_frames,
{
    let n = s1.len() as int;
    lemma_ref_total_fewer(rf, s1, s2, n);
    if ref_total(rf, s2, n) != 0 {
        lemma_reference_frames_partition(rf, hf, s1, m1, n);
        lemma_correct_upto_nonneg(rf, hf, s1, m1, n);
        lemma_reference_frames_partition(rf, hf, s2, m2, n);
        lemma_correct_upto_nonneg(rf, hf, s2, m2, n);
        lemma_errors_by_frame(rf, hf, s1, m1, n);
        lemma_errors_by_frame(rf, hf, s2, m2, n);
        lemma_frame_errors_fewer(rf, hf, s1, s2, m1);
        lemma_frame_errors_split(rf, hf, s2, m1);
        lemma_frame_errors_split(rf, hf, s2, m2);
        lemma_fewer_frames_correct(m1, m2, rf, hf, s1, s2);
    }
}

/// Two witnesses of the error counts, the second scoring no frame that the
/// first leaves out.
proof fn lemma_fewer_frames_witnesses(
    rs: Seq<FrameSpan>,
    hs: Seq<FrameSpan>,
    ig1: Seq<bool>,
    ig2: Seq<bool>,
    reg1: Region,
    reg2: Region,
    uem1: Option<Seq<TimeRange>>,
    uem2: Option<Seq<TimeRange>>,
    rf1: Seq<Vec<u32>>,
    hf1: Seq<Vec<u32>>,
    m1: SpeakerMapping,
    d1: DerCounts,
    rf2: Seq<Vec<u32>>,
    hf2: Seq<Vec<u32>>,
    m2: SpeakerMapping,
    d2: DerCounts,
)
    requires
        der_witness(rs, hs, ig1, reg1, uem1, rf1, hf1, m1, d1),
        der_witness(rs, hs, ig2, reg2, uem2, rf2, hf2, m2, d2),
        ig1.len() == ig2.len(),
        forall|i: int| 0 <= i < ig1.len() && #[trigger] ig1[i] ==> ig2[i],
        forall|k: int| #[trigger] region_keeps(reg2, k) ==> region_keeps(reg1, k),
        forall|i: int| #[trigger] uem_keeps(uem2, i) ==> uem_keeps(uem1, i),
    ensures
        d2.error_frames() <= d1.error_frames(),
        d2.total_ref_frames <= d1.total_ref_frames,
{
    let n = ig1.len() as int;
    assert(same_views(rf2, rf1));
    assert(same_views(hf2, hf1));
    let s1 = witness_scored(ig1, rf1, reg1, uem1);
    let s2 = witness_scored(ig2, rf2, reg2, uem2);
    assert forall|i: int| 0 <= i < n && #[trigger] s2[i] implies s1[i] by {
        assert(rf1[i]@ == rf2[i]@);
        assert(region_keeps(reg2, rf2[i]@.len() as int));
        assert(uem_keeps(uem2, i));
    }
    assert(d2.counts(rf2, hf2, s2, m2));
    assert(frames_distinct(hf1)) by {
        assert forall|i: int| 0 <= i < hf1.len() implies crate::der::distinct(#[trigger] hf1[i]@) by {
            lemma_frame_ids(hs, i, hs.len() as int);
        }
    }
    lemma_optimal_for_views(m2, rf2, hf2, rf1, hf1, s2);
    lemma_totals_views(rf2, hf2, rf1, hf1, s2, m2, n);
    assert(d2.counts(rf1, hf1, s2, m2));
    lemma_fewer_frames_counts(rf1, hf1, s1, s2, m1, m2, d1, d2);
}

/// A frame in the collar window around an instant stays in it when the
/// collar widens.
proof fn lemma_near_boundary_widens(b: int, narrow: int, wide: int, i: int)
    requires
        narrow <= wide,
        near_boundary(b, narrow, i),
    ensures
        near_boundary(b, wide, i),
{
    let f = FRAME_NANOS as int;
    vstd::arithmetic::div_mod::lemma_div_is_ordered(max_i(b - wide, 0), max_i(b - narrow, 0), f);
    vstd::arithmetic::div_mod::lemma_div_is_ordered(-(b + wide), -(b + narrow), f);
}

/// Widening the forgiveness collar never adds error: with a collar at least
/// as wide, the missed, falsely alarmed and confused speaker-frames together
/// are no more, and so are the scored reference speaker-frames.
pub proof fn lemma_wider_collar_never_adds_error(
    reference: Seq<SpeakerTurn>,
    hypothesis: Seq<SpeakerTurn>,
    narrow: int,
    wide: int,
    region: Region,
    uem: Option<Seq<TimeRange>>,
    d1: DerCounts,
    d2: DerCounts,
)
    requires
        0 <= narrow <= wide,
        der_counts_of(reference, hypothesis, narrow, region, uem, d1),
        der_counts_of(reference, hypothesis, wide, region, uem, d2),
    ensures
        d2.error_frames() <= d1.error_frames(),
        d2.total_ref_frames <= d1.total_ref_frames,
{
    if !crate::der::scoring_refused(reference, hypothesis, narrow) {
        let rs = spans_of(reference);
        let hs = spans_of(hypothesis);
        let len = grid_len(reference, hypothesis) as nat;
        let ig1 = collar_mask(reference, narrow, len);
        let ig2 = collar_mask(reference, wide, len);
        assert forall|i: int| 0 <= i < ig1.len() && #[trigger] ig1[i] implies ig2[i] by {
            assert(in_collar(reference, narrow, i));
            let k = choose|k: int|
                0 <= k < reference.len() && (near_boundary(
                    (#[trigger] reference[k]).time.start as int,
                    narrow,
                    i,
                ) || near_boundary(reference[k].time.end as int, narrow, i));
            if near_boundary(reference[k].time.start as int, narrow, i) {
                lemma_near_boundary_widens(reference[k].time.start as int, narrow, wide, i);
            } else {
                lemma_near_boundary_widens(reference[k].time.end as int, narrow, wide, i);
            }
        }
        let (rf1, hf1, m1) = choose|rf: Seq<Vec<u32>>, hf: Seq<Vec<u32>>, m: SpeakerMapping|
            #[trigger] der_witness(rs, hs, ig1, region, uem, rf, hf, m, d1);
        let (rf2, hf2, m2) = choose|rf: Seq<Vec<u32>>, hf: Seq<Vec<u32>>, m: SpeakerMapping|
            #[trigger] der_witness(rs, hs, ig2, region, uem, rf, hf, m, d2);
        lemma_fewer_frames_witnesses(rs, hs, ig1, ig2, region, region, uem, uem, rf1, hf1, m1, d1, rf2, hf2, m2, d2);
    }
}

/// Scoring only within given ranges never adds error: against scoring every
/// frame, the missed, falsely alarmed and confused speaker-frames together
/// are no more, and so are the scored reference speaker-frames.
pub proof fn lemma_scored_ranges_never_add_error(
    reference: Seq<SpeakerTurn>,
    hypothesis: Seq<SpeakerTurn>,
    collar: int,
    region: Region,
    ranges: Seq<TimeRange>,
    d1: DerCounts,
    d2: DerCounts,
)
    requires
        der_counts_of(reference, hypothesis, collar, region, None, d1),
        der_counts_of(reference, hypothesis, collar, region, Some(ranges), d2),
    ensures
        d2.error_frames() <= d1.error_frames(),
        d2.total_ref_frames <= d1.total_ref_frames,
{
    if !crate::der::scoring_refused(reference, hypothesis, collar) {
        let rs = spans_of(reference);
        let hs = spans_of(hypothesis);
        let ig = collar_mask(reference, collar, grid_len(reference, hypothesis) as nat);
        let (rf1, hf1, m1) = choose|rf: Seq<Vec<u32>>, hf: Seq<Vec<u32>>, m: SpeakerMapping|
            #[trigger] der_witness(rs, hs, ig, region, None, rf, hf, m, d1);
        let (rf2, hf2, m2) = choose|rf: Seq<Vec<u32>>, hf: Seq<Vec<u32>>, m: SpeakerMapping|
            #[trigger] der_witness(rs, hs, ig, region, Some(ranges), rf, hf, m, d2);
        lemma_fewer_frames_witnesses(rs, hs, ig, ig, region, region, None, Some(ranges), rf1, hf1, m1, d1, rf2, hf2, m2, d2);
    }
}

/// Scoring only the single-speaker (or only the overlapped) frames never
/// adds error: against scoring every frame, the missed, falsely alarmed and
/// confused speaker-frames together are no more, and so are the scored
/// reference speaker-frames.
pub proof fn lemma_region_never_adds_error(
    reference: Seq<SpeakerTurn>,
    hypothesis: Seq<SpeakerTurn>,
    collar: int,
    region: Region,
    uem: Option<Seq<TimeRange>>,
    d1: DerCounts,
    d2: DerCounts,
)
    requires
        der_counts_of(reference, hypothesis, collar, Region::All, uem, d1),
        der_counts_of(reference, hypothesis, collar, region, uem, d2),
    ensures
        d2.error_frames() <= d1.error_frames(),
        d2.total_ref_frames <= d1.total_ref_frames,
{
    if !crate::der::scoring_refused(reference, hypothesis, collar) {
        let rs = spans_of(reference);
        let hs = spans_of(hypothesis);
        let ig = collar_mask(reference, collar, grid_len(reference, hypothesis) as nat);
        let (rf1, hf1, m1) = choose|rf: Seq<Vec<u32>>, hf: Seq<Vec<u32>>, m: SpeakerMapping|
            #[trigger] der_witness(rs, hs, ig, Region::All, uem, rf, hf, m, d1);
        let (rf2, hf2, m2) = choose|rf: Seq<Vec<u32>>, hf: Seq<Vec<u32>>, m: SpeakerMapping|
            #[trigger] der_witness(rs, hs, ig, region, uem, rf, hf, m, d2);
        lemma_fewer_frames_witnesses(rs, hs, ig, ig, Region::All, region, uem, uem, rf1, hf1, m1, d1, rf2, hf2, m2, d2);
    }
}

/// Scored ranges that hold the centre of every frame of the scoring grid
/// change nothing: the counts are those without scored ranges.
pub proof fn lemma_covering_ranges_change_nothing(
    reference: Seq<SpeakerTurn>,
    hypothesis: Seq<SpeakerTurn>,
    collar: int,
    region: Region,
    ranges: Seq<TimeRange>,
    d1: DerCounts,
    d2: DerCounts,
)
    requires
        forall|i: int| 0 <= i < grid_len(reference, hypothesis) ==> #[trigger] in_some_range(ranges, frame_center(i)),
        der_counts_of(reference, hypothesis, collar, region, None, d1),
        der_counts_of(reference, hypothesis, collar, region, Some(ranges), d2),
    ensures
        d1 == d2,
{
    if !crate::der::scoring_refused(reference, hypothesis, collar) {
        let rs = spans_of(reference);
        let hs = spans_of(hypothesis);
        let ig = collar_mask(reference, collar, grid_len(reference, hypothesis) as nat);
        let (rf, hf, m) = choose|rf: Seq<Vec<u32>>, hf: Seq<Vec<u32>>, m: SpeakerMapping|
            #[trigger] der_witness(rs, hs, ig, region, Some(ranges), rf, hf, m, d2);
        let n = ig.len();
        assert(Seq::new(n, |i: int| frame_scored(ig, rf, region, Some(ranges), i)) =~= Seq::new(
            n,
            |i: int| frame_scored(ig, rf, region, None, i),
        )) by {
            assert forall|i: int| 0 <= i < n implies frame_scored(ig, rf, region, Some(ranges), i)
                == frame_scored(ig, rf, region, None, i) by {
                assert(in_some_range(ranges, frame_center(i)));
            }
        }
        assert(der_witness(rs, hs, ig, region, None, rf, hf, m, d2));
        crate::uniqueness::lemma_der_counts_unique(reference, hypothesis, collar, region, None, d1, d2);
    }
}

} // verus!
