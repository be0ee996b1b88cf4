//! Word-level diarization error rate: the share of reference words whose
//! speaker the hypothesis got wrong, after matching hypothesis speakers one
//! to one with reference speakers.

use vstd::prelude::*;
use crate::attribution::WordAlignment;
use crate::der::{distinct, hit, hits_upto, mapping_on_scored, optimal_for, SpeakerMapping};
use crate::matching::{frames_distinct, lemma_self_matching_is_exact, same_frames};
use crate::text::{eq_ignore_ascii_case, eq_ignoring_ascii_case};

verus! {

/// Twice the midpoint of a span.
pub open spec fn mid2(w: WordAlignment) -> int {
    w.time.start + w.time.end
}

/// Distance between the midpoints of two words, doubled.
pub open spec fn mid_dist(a: WordAlignment, b: WordAlignment) -> int {
    let d = mid2(a) - mid2(b);
    if d >= 0 {
        d
    } else {
        -d
    }
}

/// Among `hyp[0..k]`, the first word spelled like `r` (ignoring ASCII case)
/// whose midpoint is nearest to `r`'s.
pub open spec fn best_match(r: WordAlignment, hyp: Seq<WordAlignment>, k: int) -> Option<int>
    decreases k,
{
    if k <= 0 {
        None
    } else {
        let b = best_match(r, hyp, k - 1);
        if eq_ignoring_ascii_case(hyp[k - 1].word@, r.word@) && (b is None || mid_dist(r, hyp[k - 1])
            < mid_dist(r, hyp[b->0])) {
            Some(k - 1)
        } else {
            b
        }
    }
}

/// The hypothesis speaker paired with reference word `i`: the word at the
/// same position when both lists have the same length, else the best textual
/// and temporal match.
pub open spec fn paired_speaker(reference: Seq<WordAlignment>, hypothesis: Seq<WordAlignment>, i: int) -> Option<u32> {
    if reference.len() == hypothesis.len() {
        hypothesis[i].speaker
    } else {
        match best_match(reference[i], hypothesis, hypothesis.len() as int) {
            Some(j) => hypothesis[j].speaker,
            None => None,
        }
    }
}

/// The (reference speaker, hypothesis speaker) pairs of the labelled
/// reference words among the first `k`.
pub open spec fn word_pairs(reference: Seq<WordAlignment>, hypothesis: Seq<WordAlignment>, k: int) -> Seq<(u32, Option<u32>)>
    decreases k,
{
    if k <= 0 {
        Seq::empty()
    } else {
        let p = word_pairs(reference, hypothesis, k - 1);
        match reference[k - 1].speaker {
            None => p,
            Some(r) => p.push((r, paired_speaker(reference, hypothesis, k - 1))),
        }
    }
}

/// The pair is correct under `m`: the hypothesis speaker maps to the
/// reference speaker.
pub open spec fn pair_ok(m: SpeakerMapping, p: (u32, Option<u32>)) -> bool {
    match p.1 {
        Some(h) => m.maps(h) == Some(p.0),
        None => false,
    }
}

/// Wrong pairs among the first `k`.
pub open spec fn pair_errors(m: SpeakerMapping, pairs: Seq<(u32, Option<u32>)>, k: int) -> int
    decreases k,
{
    if k <= 0 {
        0
    } else {
        pair_errors(m, pairs, k - 1) + if pair_ok(m, pairs[k - 1]) {
            0int
        } else {
            1int
        }
    }
}

/// Pairs as frames: each pair is a frame with its reference speaker and
/// (when present) its hypothesis speaker, every frame scored.
pub open spec fn pair_frames(pairs: Seq<(u32, Option<u32>)>, rf: Seq<Vec<u32>>, hf: Seq<Vec<u32>>) -> bool {
    &&& rf.len() == pairs.len()
    &&& hf.len() == pairs.len()
    &&& forall|i: int| 0 <= i < pairs.len() ==> (#[trigger] rf[i])@ == seq![pairs[i].0]
    &&& forall|i: int| 0 <= i < pairs.len() ==> (#[trigger] hf[i])@ == match pairs[i].1 {
        Some(h) => seq![h],
        None => Seq::<u32>::empty(),
    }
}

/// Word counts behind the word-level diarization error rate.
#[derive(Clone, Copy, Debug, PartialEq, Eq)]
pub struct WderCounts {
    pub total_words: u64,
    pub speaker_errors: u64,
}

/// `c` are the counts for `pairs` under a mapping optimal for them.
pub open spec fn wder_witness(
    pairs: Seq<(u32, Option<u32>)>,
    rf: Seq<Vec<u32>>,
    hf: Seq<Vec<u32>>,
    m: SpeakerMapping,
    c: WderCounts,
) -> bool {
    &&& pair_frames(pairs, rf, hf)
    &&& optimal_for(m, rf, hf, Seq::new(pairs.len(), |i: int| true))
    &&& c.total_words == pairs.len()
    &&& c.speaker_errors == pair_errors(m, pairs, pairs.len() as int)
}

/// Hypothesis word `j` is spelled like reference word `r` (ignoring ASCII
/// case).
pub open spec fn spelled_alike(r: WordAlignment, hyp: Seq<WordAlignment>, j: int) -> bool {
    eq_ignoring_ascii_case(hyp[j].word@, r.word@)
}

/// The word paired with `r` is the nearest one spelled alike: among
/// `hyp[0..k]`, the match is spelled like `r`, no word spelled alike has a
/// midpoint strictly nearer to `r`'s, and every earlier word spelled alike
/// is strictly farther (the first of the nearest wins). There is no match
/// exactly when no word is spelled alike.
pub proof fn lemma_best_match_is_nearest(r: WordAlignment, hyp: Seq<WordAlignment>, k: int)
    requires
        0 <= k <= hyp.len(),
    ensures
        best_match(r, hyp, k) is None <==> forall|q: int| 0 <= q < k ==> !#[trigger] spelled_alike(r, hyp, q),
        best_match(r, hyp, k) matches Some(j) ==> {
            &&& 0 <= j < k
            &&& spelled_alike(r, hyp, j)
            &&& forall|q: int| 0 <= q < k && #[trigger] spelled_alike(r, hyp, q) ==> mid_dist(r, hyp[j]) <= mid_dist(r, hyp[q])
            &&& forall|q: int| 0 <= q < j && #[trigger] spelled_alike(r, hyp, q) ==> mid_dist(r, hyp[j]) < mid_dist(r, hyp[q])
        },
    decreases k,
{
    if k > 0 {
        lemma_best_match_is_nearest(r, hyp, k - 1);
        if best_match(r, hyp, k) is None {
            assert forall|q: int| 0 <= q < k implies !#[trigger] spelled_alike(r, hyp, q) by {
                if q == k - 1 {
                    assert(!spelled_alike(r, hyp, k - 1));
                }
            }
        } else if forall|q: int| 0 <= q < k ==> !#[trigger] spelled_alike(r, hyp, q) {
            assert(!spelled_alike(r, hyp, k - 1));
        }
    }
}

fn best_match_of(r: &WordAlignment, hypothesis: &Vec<WordAlignment>) -> (b: Option<usize>)
    ensures
        match b {
            Some(j) => best_match(*r, hypothesis@, hypothesis.len() as int) == Some(j as int),
            None => best_match(*r, hypothesis@, hypothesis.len() as int) is None,
        },
        b matches Some(j) ==> j < hypothesis.len(),
        b is None <==> forall|q: int| 0 <= q < hypothesis.len() ==> !#[trigger] spelled_alike(*r, hypothesis@, q),
        b matches Some(j) ==> {
            &&& spelled_alike(*r, hypothesis@, j as int)
            &&& forall|q: int| 0 <= q < hypothesis.len() && #[trigger] spelled_alike(*r, hypothesis@, q)
                ==> mid_dist(*r, hypothesis@[j as int]) <= mid_dist(*r, hypothesis@[q])
        },
{
    proof {
        lemma_best_match_is_nearest(*r, hypothesis@, hypothesis.len() as int);
    }
    let mut best: Option<usize> = None;
    let mut best_dist: i128 = 0;
    let r_mid: i128 = r.time.start as i128 + r.time.end as i128;
    let mut k: usize = 0;
    while k < hypothesis.len()
        invariant
            k <= hypothesis.len(),
            r_mid == mid2(*r),
            match best {
                Some(j) => best_match(*r, hypothesis@, k as int) == Some(j as int) && j < k && best_dist
                    == mid_dist(*r, hypothesis@[j as int]),
                None => best_match(*r, hypothesis@, k as int) is None,
            },
        decreases hypothesis.len() - k,
    {
        let h = &hypothesis[k];
        if eq_ignore_ascii_case(h.word.as_str(), r.word.as_str()) {
            let h_mid: i128 = h.time.start as i128 + h.time.end as i128;
            let d: i128 = if r_mid >= h_mid {
                r_mid - h_mid
            } else {
                h_mid - r_mid
            };
            let take = match best {
                None => true,
                Some(_) => d < best_dist,
            };
            if take {
                best = Some(k);
                best_dist = d;
            }
        }
        k += 1;
    }
    best
}

/// The (reference speaker, hypothesis speaker) pairs of the labelled
/// reference words, in order.
pub fn pair_words(reference: &Vec<WordAlignment>, hypothesis: &Vec<WordAlignment>) -> (pairs: Vec<(u32, Option<u32>)>)
    ensures
        pairs@ == word_pairs(reference@, hypothesis@, reference.len() as int),
{
    let mut pairs: Vec<(u32, Option<u32>)> = Vec::new();
    let same_len = reference.len() == hypothesis.len();
    let mut i: usize = 0;
    while i < reference.len()
        invariant
            i <= reference.len(),
            same_len == (reference.len() == hypothesis.len()),
            pairs@ == word_pairs(reference@, hypothesis@, i as int),
        decreases reference.len() - i,
    {
        let r = &reference[i];
        match r.speaker {
            None => {},
            Some(rs) => {
                let hs = if same_len {
                    hypothesis[i].speaker
                } else {
                    match best_match_of(r, hypothesis) {
                        Some(j) => hypothesis[j].speaker,
                        None => None,
                    }
                };
                pairs.push((rs, hs));
            },
        }
        i += 1;
    }
    pairs
}

/// Word-level speaker errors of `hypothesis` against `reference`.
///
/// Each labelled reference word is paired with a hypothesis word: the one at
/// the same position when both lists have the same length, else the first
/// word spelled the same (ignoring ASCII case) with the nearest midpoint.
/// Hypothesis speakers are matched one to one with reference speakers so
/// that matched pairs are as many as possible; a reference word is wrong
/// when its partner's speaker is not matched to its own. Unlabelled
/// reference words are not counted. The errors never outnumber the counted
/// words, so the rate lies in [0, 1].
pub fn compute_wder(reference: &Vec<WordAlignment>, hypothesis: &Vec<WordAlignment>) -> (c: WderCounts)
    ensures
        word_pairs(reference@, hypothesis@, reference.len() as int).len() == 0 ==> c
            == (WderCounts { total_words: 0, speaker_errors: 0 }),
        exists|rf: Seq<Vec<u32>>, hf: Seq<Vec<u32>>, m: SpeakerMapping|
            #[trigger] wder_witness(word_pairs(reference@, hypothesis@, reference.len() as int), rf, hf, m, c),
        c.speaker_errors <= c.total_words,
{
    let pairs = pair_words(reference, hypothesis);
    let mut rf: Vec<Vec<u32>> = Vec::new();
    let mut hf: Vec<Vec<u32>> = Vec::new();
    let mut scored: Vec<bool> = Vec::new();
    let mut i: usize = 0;
    while i < pairs.len()
        invariant
            i <= pairs.len(),
            rf.len() == i,
            hf.len() == i,
            scored.len() == i,
            forall|q: int| 0 <= q < i ==> scored@[q],
            forall|q: int| 0 <= q < i ==> (#[trigger] rf@[q])@ == seq![pairs@[q].0],
            forall|q: int| 0 <= q < i ==> (#[trigger] hf@[q])@ == match pairs@[q].1 {
                Some(h) => seq![h],
                None => Seq::<u32>::empty(),
            },
        decreases pairs.len() - i,
    {
        let (r, h) = pairs[i];
        let mut rv: Vec<u32> = Vec::new();
        rv.push(r);
        let mut hv: Vec<u32> = Vec::new();
        match h {
            Some(x) => hv.push(x),
            None => {},
        }
        assert(rv@ =~= seq![r]);
        rf.push(rv);
        hf.push(hv);
        scored.push(true);
        proof {
            match h {
                Some(x) => assert(hf@[i as int]@ =~= seq![x]),
                None => assert(hf@[i as int]@ =~= Seq::<u32>::empty()),
            }
        }
        i += 1;
    }
    let m = mapping_on_scored(&rf, &hf, &scored);
    let mut errors: u64 = 0;
    let mut k: usize = 0;
    while k < pairs.len()
        invariant
            m.wf(),
            k <= pairs.len(),
            errors == pair_errors(m, pairs@, k as int),
            errors <= k,
        decreases pairs.len() - k,
    {
        let (r, h) = pairs[k];
        let ok = match h {
            Some(x) => match m.get(x) {
                Some(mr) => mr == r,
                None => false,
            },
            None => false,
        };
        if !ok {
            errors += 1;
        }
        k += 1;
    }
    let c = WderCounts { total_words: pairs.len() as u64, speaker_errors: errors };
    proof {
        assert(scored@ =~= Seq::new(pairs@.len(), |i: int| true));
        assert(wder_witness(pairs@, rf@, hf@, m, c));
        if pairs@.len() == 0 {
            assert(errors == 0);
        }
    }
    c
}

proof fn lemma_self_pairs(words: Seq<WordAlignment>, k: int)
    requires
        0 <= k <= words.len(),
    ensures
        forall|i: int|
            0 <= i < word_pairs(words, words, k).len() ==> (#[trigger] word_pairs(words, words, k)[i]).1
                == Some(word_pairs(words, words, k)[i].0),
    decreases k,
{
    if k > 0 {
        lemma_self_pairs(words, k - 1);
    }
}

proof fn lemma_no_errors(m: SpeakerMapping, pairs: Seq<(u32, Option<u32>)>, k: int)
    requires
        0 <= k <= pairs.len(),
        forall|i: int| 0 <= i < pairs.len() ==> pair_ok(m, #[trigger] pairs[i]),
    ensures
        pair_errors(m, pairs, k) == 0,
    decreases k,
{
    if k > 0 {
        lemma_no_errors(m, pairs, k - 1);
    }
}

/// A hypothesis identical to the reference gets every labelled word's
/// speaker right: no word error.
pub proof fn lemma_self_wder_is_zero(words: Seq<WordAlignment>, c: WderCounts)
    requires
        exists|rf: Seq<Vec<u32>>, hf: Seq<Vec<u32>>, m: SpeakerMapping|
            #[trigger] wder_witness(word_pairs(words, words, words.len() as int), rf, hf, m, c),
    ensures
        c.speaker_errors == 0,
{
    let pairs = word_pairs(words, words, words.len() as int);
    let (rf, hf, m) = choose|rf: Seq<Vec<u32>>, hf: Seq<Vec<u32>>, m: SpeakerMapping|
        #[trigger] wder_witness(pairs, rf, hf, m, c);
    let scored = Seq::new(pairs.len(), |i: int| true);
    lemma_self_pairs(words, words.len() as int);
    assert(same_frames(rf, hf)) by {
        assert forall|i: int| 0 <= i < rf.len() implies (#[trigger] rf[i])@ == hf[i]@ by {
            assert(pairs[i].1 == Some(pairs[i].0));
        }
    }
    assert(frames_distinct(hf)) by {
        assert forall|i: int| 0 <= i < hf.len() implies distinct(#[trigger] hf[i]@) by {
            assert(pairs[i].1 == Some(pairs[i].0));
            assert(hf[i]@ == seq![pairs[i].0]);
        }
    }
    lemma_self_matching_is_exact(m, rf, hf, scored);
    assert forall|i: int| 0 <= i < pairs.len() implies pair_ok(m, #[trigger] pairs[i]) by {
        assert(pairs[i].1 == Some(pairs[i].0));
        assert(scored[i]);
        let x = hf[i]@;
        assert(x == seq![pairs[i].0]);
        assert(rf[i]@ == seq![pairs[i].0]);
        assert(hits_upto(m, x, rf[i]@, 1) == 1);
        assert(hits_upto(m, x, rf[i]@, 0) == 0);
        assert(hit(m, rf[i]@, x[0]));
    }
    lemma_no_errors(m, pairs, pairs.len() as int);
}

} // verus!
