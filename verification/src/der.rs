//! Frame-level Diarization Error Rate counting.
//!
//! Speaker turns are projected onto a fixed frame grid (10 ms frames); each
//! frame then carries the set of active speaker ids of the reference and of
//! the hypothesis. Hypothesis ids are mapped one-to-one onto reference ids so
//! that the total number of co-occurring frames is maximal (the Hungarian
//! assignment of [`crate::assign`]), and every scored frame contributes
//! missed, false-alarm and confused speaker counts (the pyannote formulation).

use vstd::prelude::*;
use crate::time::{frame_center, TimeRange, FRAME_NANOS};
use crate::attribution::SpeakerTurn;
use crate::assign::{is_assignment, is_max_weight_assignment, max_weight_assignment, well_formed_table};

verus! {

/// Frames per day at 10 ms resolution: the grid is never longer than this.
pub const MAX_FRAMES: usize = 8_640_000;

/// A speaker turn projected onto the frame grid: frames `start..end`.
#[derive(Clone, Copy, Debug, PartialEq, Eq)]
pub struct FrameSpan {
    pub speaker: u32,
    pub start: usize,
    pub end: usize,
}

/// Which non-ignored reference frames are scored.
#[derive(Clone, Copy, Debug, PartialEq, Eq)]
pub enum Region {
    /// Every frame (overlap-inclusive DER).
    All,
    /// Frames where exactly one reference speaker is active... or none
    /// (frames with two or more reference speakers are dropped).
    SingleSpeaker,
    /// Frames with two or more concurrent reference speakers.
    Overlap,
}

/// Some span with speaker `s` covers frame `i`.
pub open spec fn frame_has(turns: Seq<FrameSpan>, i: int, s: u32) -> bool {
    exists|k: int|
        0 <= k < turns.len() && (#[trigger] turns[k]).speaker == s && turns[k].start <= i
            < turns[k].end
}

/// Some span among the first `k` with speaker `s` covers frame `i`.
pub open spec fn frame_has_upto(turns: Seq<FrameSpan>, k: int, i: int, s: u32) -> bool {
    exists|q: int|
        0 <= q < k && (#[trigger] turns[q]).speaker == s && turns[q].start <= i < turns[q].end
}

/// No id occurs twice.
pub open spec fn distinct(s: Seq<u32>) -> bool {
    forall|a: int, b: int| 0 <= a < s.len() && 0 <= b < s.len() && a != b ==> s[a] != s[b]
}

/// `frames` lists, for each of its frames, the distinct speakers of `turns`
/// active in it.
pub open spec fn frames_of(turns: Seq<FrameSpan>, frames: Seq<Vec<u32>>) -> bool {
    &&& forall|i: int| 0 <= i < frames.len() ==> distinct(#[trigger] frames[i]@)
    &&& forall|i: int| 0 <= i < frames.len() ==> (#[trigger] frames[i])@.len() <= turns.len()
    &&& forall|i: int, s: u32|
        0 <= i < frames.len() ==> ((#[trigger] frames[i]@.contains(s)) <==> frame_has(turns, i, s))
}

/// Whether `v` holds `x`.
pub fn contains_id(v: &Vec<u32>, x: u32) -> (r: bool)
    ensures
        r == v@.contains(x),
{
    let mut k: usize = 0;
    while k < v.len()
        invariant
            k <= v.len(),
            forall|q: int| 0 <= q < k ==> v@[q] != x,
        decreases v.len() - k,
    {
        if v[k] == x {
            assert(v@[k as int] == x);
            return true;
        }
        k += 1;
    }
    false
}

/// The distinct speakers of `turns[0..k]` active in frame `i`, in the order
/// in which their first covering span occurs.
pub open spec fn frame_ids(turns: Seq<FrameSpan>, i: int, k: int) -> Seq<u32>
    decreases k,
{
    if k <= 0 {
        Seq::empty()
    } else {
        let prev = frame_ids(turns, i, k - 1);
        let t = turns[k - 1];
        if t.start <= i < t.end && !prev.contains(t.speaker) {
            prev.push(t.speaker)
        } else {
            prev
        }
    }
}

/// The speaker list of a frame holds no id twice, holds exactly the speakers
/// whose spans cover the frame, and is no longer than the span list.
pub proof fn lemma_frame_ids(turns: Seq<FrameSpan>, i: int, k: int)
    requires
        0 <= k <= turns.len(),
    ensures
        distinct(frame_ids(turns, i, k)),
        frame_ids(turns, i, k).len() <= k,
        forall|s: u32| frame_ids(turns, i, k).contains(s) <==> frame_has_upto(turns, k, i, s),
    decreases k,
{
    if k > 0 {
        lemma_frame_ids(turns, i, k - 1);
        let prev = frame_ids(turns, i, k - 1);
        let t = turns[k - 1];
        let cur = frame_ids(turns, i, k);
        if t.start <= i < t.end && !prev.contains(t.speaker) {
            assert forall|a: int, b: int|
                0 <= a < cur.len() && 0 <= b < cur.len() && a != b implies cur[a] != cur[b] by {
                if a == prev.len() as int {
                    assert(prev.contains(cur[b]));
                }
                if b == prev.len() as int {
                    assert(prev.contains(cur[a]));
                }
            }
        }
        assert forall|s: u32| cur.contains(s) <==> frame_has_upto(turns, k, i, s) by {
            if cur.contains(s) && !prev.contains(s) {
                let j = choose|j: int| 0 <= j < cur.len() && cur[j] == s;
                assert(j == prev.len() as int);
                assert(turns[k - 1].speaker == s);
            }
            if prev.contains(s) {
                let j = choose|j: int| 0 <= j < prev.len() && prev[j] == s;
                assert(cur[j] == s);
                assert(frame_has_upto(turns, k - 1, i, s));
            }
            if frame_has_upto(turns, k, i, s) {
                let q = choose|q: int|
                    0 <= q < k && (#[trigger] turns[q]).speaker == s && turns[q].start <= i
                        < turns[q].end;
                if q < k - 1 {
                    assert(frame_has_upto(turns, k - 1, i, s));
                } else if !prev.contains(s) {
                    assert(cur[prev.len() as int] == s);
                }
            }
        }
    }
}

/// Per-frame speaker lists of `turns` on a grid of `n_frames` frames; spans
/// are clipped to the grid.
pub fn build_speaker_frames(turns: &Vec<FrameSpan>, n_frames: usize) -> (frames: Vec<Vec<u32>>)
    ensures
        frames.len() == n_frames,
        forall|i: int| 0 <= i < n_frames ==> (#[trigger] frames@[i])@ == frame_ids(turns@, i, turns.len() as int),
        frames_of(turns@, frames@),
{
    let mut frames: Vec<Vec<u32>> = Vec::new();
    let mut i: usize = 0;
    while i < n_frames
        invariant
            i <= n_frames,
            frames.len() == i,
            forall|q: int| 0 <= q < i ==> (#[trigger] frames@[q])@ == frame_ids(turns@, q, 0),
        decreases n_frames - i,
    {
        frames.push(Vec::new());
        proof {
            assert(frames@[i as int]@ =~= frame_ids(turns@, i as int, 0));
        }
        i += 1;
    }
    let mut k: usize = 0;
    while k < turns.len()
        invariant
            k <= turns.len(),
            frames.len() == n_frames,
            forall|q: int| 0 <= q < n_frames ==> (#[trigger] frames@[q])@ == frame_ids(turns@, q, k as int),
        decreases turns.len() - k,
    {
        let t = turns[k];
        let stop = if t.end < n_frames {
            t.end
        } else {
            n_frames
        };
        let mut f: usize = t.start;
        while f < stop
            invariant
                k < turns.len(),
                t == turns@[k as int],
                stop <= n_frames,
                stop <= t.end,
                stop == t.end || stop == n_frames,
                t.start <= f,
                f <= stop || f == t.start,
                frames.len() == n_frames,
                forall|q: int|
                    0 <= q < n_frames && t.start <= q < f ==> (#[trigger] frames@[q])@ == frame_ids(
                        turns@,
                        q,
                        k + 1,
                    ),
                forall|q: int|
                    0 <= q < n_frames && !(t.start <= q < f) ==> (#[trigger] frames@[q])@ == frame_ids(
                        turns@,
                        q,
                        k as int,
                    ),
            decreases stop - f,
        {
            let ghost prev = frames@[f as int]@;
            assert(prev == frame_ids(turns@, f as int, k as int));
            let present = contains_id(&frames[f], t.speaker);
            if !present {
                let mut fr = frames[f].clone();
                assert(fr@ =~= frames@[f as int]@);
                fr.push(t.speaker);
                frames.set(f, fr);
            }
            assert(f < t.end);
            assert(frame_ids(turns@, f as int, k + 1) == (if !prev.contains(t.speaker) {
                prev.push(t.speaker)
            } else {
                prev
            }));
            assert(frames@[f as int]@ == frame_ids(turns@, f as int, k + 1));
            f += 1;
        }
        proof {
            assert forall|q: int| 0 <= q < n_frames implies (#[trigger] frames@[q])@ == frame_ids(
                turns@,
                q,
                k + 1,
            ) by {
                if !(t.start <= q < f) {
                    assert(!(t.start <= q < t.end) || q >= stop);
                }
            }
        }
        k += 1;
    }
    proof {
        assert forall|i: int| 0 <= i < frames@.len() implies distinct(#[trigger] frames@[i]@) by {
            lemma_frame_ids(turns@, i, turns@.len() as int);
        }
        assert forall|i: int| 0 <= i < frames@.len() implies (#[trigger] frames@[i])@.len()
            <= turns@.len() by {
            lemma_frame_ids(turns@, i, turns@.len() as int);
        }
        assert forall|i: int, s: u32| 0 <= i < frames@.len() implies ((
        #[trigger] frames@[i]@.contains(s)) <==> frame_has(turns@, i, s)) by {
            lemma_frame_ids(turns@, i, turns@.len() as int);
            if frame_has_upto(turns@, turns@.len() as int, i, s) {
                let w = choose|w: int|
                    0 <= w < turns@.len() && (#[trigger] turns@[w]).speaker == s && turns@[w].start
                        <= i < turns@[w].end;
                assert(frame_has(turns@, i, s));
            }
            if frame_has(turns@, i, s) {
                let w = choose|w: int|
                    0 <= w < turns@.len() && (#[trigger] turns@[w]).speaker == s && turns@[w].start
                        <= i < turns@[w].end;
                assert(frame_has_upto(turns@, turns@.len() as int, i, s));
            }
        }
    }
    frames
}

/// Speaker `s` is active in some scored frame of `frames`.
pub open spec fn in_scored(frames: Seq<Vec<u32>>, scored: Seq<bool>, s: u32) -> bool {
    exists|i: int| 0 <= i < frames.len() && i < scored.len() && scored[i] && #[trigger] frames[i]@.contains(s)
}

/// Speaker `s` is active in some scored frame among the first `n`.
pub open spec fn in_scored_upto(frames: Seq<Vec<u32>>, scored: Seq<bool>, n: int, s: u32) -> bool {
    exists|i: int| 0 <= i < n && i < frames.len() && i < scored.len() && scored[i] && #[trigger] frames[i]@.contains(s)
}

/// The distinct speaker ids active in the scored frames, in order of first
/// appearance.
pub fn collect_ids(frames: &Vec<Vec<u32>>, scored: &Vec<bool>) -> (ids: Vec<u32>)
    requires
        frames.len() == scored.len(),
    ensures
        distinct(ids@),
        forall|s: u32| ids@.contains(s) <==> in_scored(frames@, scored@, s),
{
    let mut ids: Vec<u32> = Vec::new();
    let mut i: usize = 0;
    while i < frames.len()
        invariant
            i <= frames.len(),
            frames.len() == scored.len(),
            distinct(ids@),
            forall|s: u32| ids@.contains(s) <==> in_scored_upto(frames@, scored@, i as int, s),
        decreases frames.len() - i,
    {
        if scored[i] {
            let fr = &frames[i];
            let mut j: usize = 0;
            while j < fr.len()
                invariant
                    i < frames.len(),
                    frames.len() == scored.len(),
                    scored@[i as int],
                    *fr == frames@[i as int],
                    j <= fr.len(),
                    distinct(ids@),
                    forall|s: u32|
                        ids@.contains(s) <==> (in_scored_upto(frames@, scored@, i as int, s) || exists|q: int|
                            0 <= q < j && fr@[q] == s),
                decreases fr.len() - j,
            {
                let x = fr[j];
                if !contains_id(&ids, x) {
                    let ghost before = ids@;
                    ids.push(x);
                    proof {
                        assert forall|a: int, b: int|
                            0 <= a < ids@.len() && 0 <= b < ids@.len() && a != b implies ids@[a]
                                != ids@[b] by {
                            if a == before.len() as int {
                                assert(before.contains(ids@[b]));
                            }
                            if b == before.len() as int {
                                assert(before.contains(ids@[a]));
                            }
                        }
                        assert forall|s: u32|
                            ids@.contains(s) <==> (in_scored_upto(frames@, scored@, i as int, s)
                                || exists|q: int| 0 <= q < j + 1 && fr@[q] == s) by {
                            if ids@.contains(s) && s != x {
                                let k = choose|k: int| 0 <= k < ids@.len() && ids@[k] == s;
                                assert(before[k] == s);
                            }
                            if before.contains(s) {
                                let k = choose|k: int| 0 <= k < before.len() && before[k] == s;
                                assert(ids@[k] == s);
                            }
                            assert(ids@[before.len() as int] == x);
                        }
                    }
                } else {
                    proof {
                        assert forall|s: u32|
                            ids@.contains(s) <==> (in_scored_upto(frames@, scored@, i as int, s)
                                || exists|q: int| 0 <= q < j + 1 && fr@[q] == s) by {
                            if s == x {
                                assert(fr@[j as int] == s);
                            }
                        }
                    }
                }
                j += 1;
            }
            proof {
                assert forall|s: u32|
                    ids@.contains(s) <==> in_scored_upto(frames@, scored@, i as int + 1, s) by {
                    if exists|q: int| 0 <= q < fr.len() && fr@[q] == s {
                        let q = choose|q: int| 0 <= q < fr.len() && fr@[q] == s;
                        assert(frames@[i as int]@.contains(s));
                    }
                    if frames@[i as int]@.contains(s) {
                        let q = choose|q: int| 0 <= q < fr.len() && fr@[q] == s;
                    }
                }
            }
        } else {
            proof {
                assert forall|s: u32|
                    ids@.contains(s) <==> in_scored_upto(frames@, scored@, i as int + 1, s) by {}
            }
        }
        i += 1;
    }
    proof {
        assert forall|s: u32| ids@.contains(s) <==> in_scored(frames@, scored@, s) by {
            if in_scored(frames@, scored@, s) {
                let q = choose|q: int|
                    0 <= q < frames@.len() && q < scored@.len() && scored@[q] && #[trigger] frames@[q]@.contains(s);
                assert(in_scored_upto(frames@, scored@, frames.len() as int, s));
            }
        }
    }
    ids
}


/// Number of scored frames among the first `n` in which hypothesis speaker
/// `h` and reference speaker `r` are both active.
pub open spec fn co_count(
    rf: Seq<Vec<u32>>,
    hf: Seq<Vec<u32>>,
    scored: Seq<bool>,
    h: u32,
    r: u32,
    n: int,
) -> nat
    decreases n,
{
    if n <= 0 {
        0
    } else {
        co_count(rf, hf, scored, h, r, n - 1) + if scored[n - 1] && hf[n - 1]@.contains(h)
            && rf[n - 1]@.contains(r) {
            1nat
        } else {
            0nat
        }
    }
}

proof fn lemma_co_count_bound(
    rf: Seq<Vec<u32>>,
    hf: Seq<Vec<u32>>,
    scored: Seq<bool>,
    h: u32,
    r: u32,
    n: int,
)
    requires
        n >= 0,
    ensures
        co_count(rf, hf, scored, h, r, n) <= n,
    decreases n,
{
    if n > 0 {
        lemma_co_count_bound(rf, hf, scored, h, r, n - 1);
    }
}

/// `w` is the co-occurrence table of the hypothesis ids `hyps` (rows) and the
/// reference ids `refs` (columns) over all frames.
pub open spec fn is_cooc_table(
    rf: Seq<Vec<u32>>,
    hf: Seq<Vec<u32>>,
    scored: Seq<bool>,
    hyps: Seq<u32>,
    refs: Seq<u32>,
    w: Seq<Vec<u64>>,
) -> bool {
    &&& w.len() == hyps.len()
    &&& well_formed_table(w, refs.len())
    &&& forall|a: int, b: int|
        0 <= a < hyps.len() && 0 <= b < refs.len() ==> #[trigger] w[a]@[b] == co_count(
            rf,
            hf,
            scored,
            hyps[a],
            refs[b],
            scored.len() as int,
        )
}

/// Which of `ids` occur in `frame`.
fn presence(frame: &Vec<u32>, ids: &Vec<u32>) -> (p: Vec<bool>)
    ensures
        p.len() == ids.len(),
        forall|a: int| 0 <= a < ids.len() ==> p@[a] == frame@.contains(#[trigger] ids@[a]),
{
    let mut p: Vec<bool> = Vec::new();
    let mut a: usize = 0;
    while a < ids.len()
        invariant
            a <= ids.len(),
            p.len() == a,
            forall|q: int| 0 <= q < a ==> p@[q] == frame@.contains(#[trigger] ids@[q]),
        decreases ids.len() - a,
    {
        p.push(contains_id(frame, ids[a]));
        a += 1;
    }
    p
}

/// The co-occurrence table: entry `[a][b]` counts the scored frames in which
/// `hyps[a]` and `refs[b]` are both active.
pub fn cooccurrence_table(
    ref_frames: &Vec<Vec<u32>>,
    hyp_frames: &Vec<Vec<u32>>,
    scored: &Vec<bool>,
    hyps: &Vec<u32>,
    refs: &Vec<u32>,
) -> (w: Vec<Vec<u64>>)
    requires
        ref_frames.len() == scored.len(),
        hyp_frames.len() == scored.len(),
    ensures
        is_cooc_table(ref_frames@, hyp_frames@, scored@, hyps@, refs@, w@),
{
    let ghost rf = ref_frames@;
    let ghost hf = hyp_frames@;
    let ghost sc = scored@;
    let mut w: Vec<Vec<u64>> = Vec::new();
    let mut a: usize = 0;
    while a < hyps.len()
        invariant
            a <= hyps.len(),
            w.len() == a,
            forall|q: int| 0 <= q < a ==> (#[trigger] w@[q])@.len() == refs.len(),
            forall|q: int, b: int| 0 <= q < a && 0 <= b < refs.len() ==> #[trigger] w@[q]@[b] == 0,
        decreases hyps.len() - a,
    {
        let mut row: Vec<u64> = Vec::new();
        let mut b: usize = 0;
        while b < refs.len()
            invariant
                b <= refs.len(),
                row.len() == b,
                forall|q: int| 0 <= q < b ==> row@[q] == 0,
            decreases refs.len() - b,
        {
            row.push(0);
            b += 1;
        }
        w.push(row);
        a += 1;
    }
    let mut i: usize = 0;
    while i < scored.len()
        invariant
            i <= scored.len(),
            rf == ref_frames@,
            hf == hyp_frames@,
            sc == scored@,
            ref_frames.len() == scored.len(),
            hyp_frames.len() == scored.len(),
            w.len() == hyps.len(),
            forall|q: int| 0 <= q < hyps.len() ==> (#[trigger] w@[q])@.len() == refs.len(),
            forall|q: int, b: int|
                0 <= q < hyps.len() && 0 <= b < refs.len() ==> #[trigger] w@[q]@[b] == co_count(
                    rf,
                    hf,
                    sc,
                    hyps@[q],
                    refs@[b],
                    i as int,
                ),
        decreases scored.len() - i,
    {
        if scored[i] {
            let hp = presence(&hyp_frames[i], hyps);
            let rp = presence(&ref_frames[i], refs);
            let mut a: usize = 0;
            while a < hyps.len()
                invariant
                    i < scored.len(),
                    sc[i as int],
                    rf == ref_frames@,
                    hf == hyp_frames@,
                    sc == scored@,
                    ref_frames.len() == scored.len(),
                    hyp_frames.len() == scored.len(),
                    a <= hyps.len(),
                    hp.len() == hyps.len(),
                    rp.len() == refs.len(),
                    forall|q: int| 0 <= q < hyps.len() ==> hp@[q] == hf[i as int]@.contains(#[trigger] hyps@[q]),
                    forall|q: int| 0 <= q < refs.len() ==> rp@[q] == rf[i as int]@.contains(#[trigger] refs@[q]),
                    w.len() == hyps.len(),
                    forall|q: int| 0 <= q < hyps.len() ==> (#[trigger] w@[q])@.len() == refs.len(),
                    forall|q: int, b: int|
                        0 <= q < a && 0 <= b < refs.len() ==> #[trigger] w@[q]@[b] == co_count(
                            rf,
                            hf,
                            sc,
                            hyps@[q],
                            refs@[b],
                            i + 1,
                        ),
                    forall|q: int, b: int|
                        a <= q < hyps.len() && 0 <= b < refs.len() ==> #[trigger] w@[q]@[b] == co_count(
                            rf,
                            hf,
                            sc,
                            hyps@[q],
                            refs@[b],
                            i as int,
                        ),
                decreases hyps.len() - a,
            {
                if hp[a] {
                    let mut row = w[a].clone();
                    assert(row@ =~= w@[a as int]@);
                    let mut b: usize = 0;
                    while b < refs.len()
                        invariant
                            i < scored.len(),
                            sc[i as int],
                            a < hyps.len(),
                            hp@[a as int],
                            hf[i as int]@.contains(hyps@[a as int]),
                            rp.len() == refs.len(),
                            forall|q: int| 0 <= q < refs.len() ==> rp@[q] == rf[i as int]@.contains(#[trigger] refs@[q]),
                            b <= refs.len(),
                            row.len() == refs.len(),
                            forall|q: int| 0 <= q < b ==> #[trigger] row@[q] == co_count(
                                rf,
                                hf,
                                sc,
                                hyps@[a as int],
                                refs@[q],
                                i + 1,
                            ),
                            forall|q: int| b <= q < refs.len() ==> #[trigger] row@[q] == co_count(
                                rf,
                                hf,
                                sc,
                                hyps@[a as int],
                                refs@[q],
                                i as int,
                            ),
                        decreases refs.len() - b,
                    {
                        proof {
                            lemma_co_count_bound(rf, hf, sc, hyps@[a as int], refs@[b as int], i as int);
                        }
                        if rp[b] {
                            let x = row[b] + 1;
                            row.set(b, x);
                        }
                        b += 1;
                    }
                    w.set(a, row);
                } else {
                    proof {
                        assert forall|b: int| 0 <= b < refs.len() implies #[trigger] w@[a as int]@[b]
                            == co_count(rf, hf, sc, hyps@[a as int], refs@[b], i + 1) by {}
                    }
                }
                a += 1;
            }
        }
        i += 1;
    }
    w
}


/// A one-to-one map from hypothesis speaker ids to reference speaker ids,
/// together with the co-occurrence table it was chosen from.
#[derive(Clone, Debug)]
pub struct SpeakerMapping {
    /// Hypothesis ids (rows of `weights`), in order of first appearance.
    pub hyps: Vec<u32>,
    /// Reference ids (columns of `weights`), in order of first appearance.
    pub refs: Vec<u32>,
    /// `weights[a][b]`: scored frames shared by `hyps[a]` and `refs[b]`.
    pub weights: Vec<Vec<u64>>,
    /// `assign[a]`: the column given to row `a`, if any.
    pub assign: Vec<Option<usize>>,
}

impl SpeakerMapping {
    /// Rows and columns are distinct ids and `assign` is an assignment of all
    /// rows to the columns.
    pub open spec fn wf(&self) -> bool {
        &&& distinct(self.hyps@)
        &&& distinct(self.refs@)
        &&& self.assign.len() == self.hyps.len()
        &&& is_assignment(self.assign@, self.refs.len() as nat)
    }

    /// The reference id that hypothesis id `h` is mapped to.
    pub open spec fn maps(&self, h: u32) -> Option<u32> {
        if exists|a: int| 0 <= a < self.hyps.len() && self.hyps@[a] == h {
            let a = choose|a: int| 0 <= a < self.hyps.len() && self.hyps@[a] == h;
            match self.assign@[a] {
                Some(b) => Some(self.refs@[b as int]),
                None => None,
            }
        } else {
            None
        }
    }

    /// The reference id that hypothesis id `h` is mapped to, if any.
    pub fn get(&self, h: u32) -> (r: Option<u32>)
        requires
            self.wf(),
        ensures
            r == self.maps(h),
    {
        let mut a: usize = 0;
        while a < self.hyps.len()
            invariant
                self.wf(),
                a <= self.hyps.len(),
                forall|q: int| 0 <= q < a ==> self.hyps@[q] != h,
            decreases self.hyps.len() - a,
        {
            if self.hyps[a] == h {
                let ghost c = choose|c: int| 0 <= c < self.hyps.len() && self.hyps@[c] == h;
                assert(self.hyps@[c] == self.hyps@[a as int]);
                assert(c == a);
                return match self.assign[a] {
                    Some(b) => Some(self.refs[b]),
                    None => None,
                };
            }
            a += 1;
        }
        None
    }
}

/// The hypothesis-to-reference speaker mapping that maximises the total
/// number of scored frames in which mapped speakers co-occur.
pub fn mapping_on_scored(
    ref_frames: &Vec<Vec<u32>>,
    hyp_frames: &Vec<Vec<u32>>,
    scored: &Vec<bool>,
) -> (m: SpeakerMapping)
    requires
        ref_frames.len() == scored.len(),
        hyp_frames.len() == scored.len(),
    ensures
        m.wf(),
        forall|s: u32| m.hyps@.contains(s) <==> in_scored(hyp_frames@, scored@, s),
        forall|s: u32| m.refs@.contains(s) <==> in_scored(ref_frames@, scored@, s),
        is_cooc_table(ref_frames@, hyp_frames@, scored@, m.hyps@, m.refs@, m.weights@),
        is_max_weight_assignment(m.weights@, m.refs.len() as nat, m.assign@),
{
    let hyps = collect_ids(hyp_frames, scored);
    let refs = collect_ids(ref_frames, scored);
    let weights = cooccurrence_table(ref_frames, hyp_frames, scored, &hyps, &refs);
    let assign = max_weight_assignment(&weights, refs.len());
    SpeakerMapping { hyps, refs, weights, assign }
}


/// `m` is an optimal mapping for the given frames: its ids are those active in
/// the scored frames, its table counts their co-occurrences, and its
/// assignment has maximal total weight.
pub open spec fn optimal_for(
    m: SpeakerMapping,
    rf: Seq<Vec<u32>>,
    hf: Seq<Vec<u32>>,
    scored: Seq<bool>,
) -> bool {
    &&& m.wf()
    &&& forall|s: u32| m.hyps@.contains(s) <==> in_scored(hf, scored, s)
    &&& forall|s: u32| m.refs@.contains(s) <==> in_scored(rf, scored, s)
    &&& is_cooc_table(rf, hf, scored, m.hyps@, m.refs@, m.weights@)
    &&& is_max_weight_assignment(m.weights@, m.refs.len() as nat, m.assign@)
}

/// `h` is mapped to a reference speaker active in the frame `rf`.
pub open spec fn hit(m: SpeakerMapping, rf: Seq<u32>, h: u32) -> bool {
    match m.maps(h) {
        Some(r) => rf.contains(r),
        None => false,
    }
}

/// Among `hf[0..k]`, the speakers mapped to one active in `rf`.
pub open spec fn hits_upto(m: SpeakerMapping, hf: Seq<u32>, rf: Seq<u32>, k: int) -> int
    decreases k,
{
    if k <= 0 {
        0
    } else {
        hits_upto(m, hf, rf, k - 1) + if hit(m, rf, hf[k - 1]) {
            1int
        } else {
            0int
        }
    }
}

pub open spec fn min_int(a: int, b: int) -> int {
    if a < b {
        a
    } else {
        b
    }
}

/// `a - b`, or zero when `b` exceeds `a`.
pub open spec fn excess(a: int, b: int) -> int {
    if a > b {
        a - b
    } else {
        0
    }
}

/// Correctly attributed speakers of one frame (never more than the reference
/// speakers of the frame).
pub open spec fn frame_correct(m: SpeakerMapping, hf: Seq<u32>, rf: Seq<u32>) -> int {
    min_int(hits_upto(m, hf, rf, hf.len() as int), rf.len() as int)
}

/// Reference speaker-frames over the scored frames among the first `n`.
pub open spec fn ref_total(rf: Seq<Vec<u32>>, scored: Seq<bool>, n: int) -> int
    decreases n,
{
    if n <= 0 {
        0
    } else {
        ref_total(rf, scored, n - 1) + if scored[n - 1] {
            rf[n - 1]@.len() as int
        } else {
            0
        }
    }
}

/// Hypothesis speaker-frames over the scored frames among the first `n`.
pub open spec fn hyp_total(hf: Seq<Vec<u32>>, scored: Seq<bool>, n: int) -> int
    decreases n,
{
    if n <= 0 {
        0
    } else {
        hyp_total(hf, scored, n - 1) + if scored[n - 1] {
            hf[n - 1]@.len() as int
        } else {
            0
        }
    }
}

/// Missed speaker-frames: reference speakers beyond the hypothesis count.
pub open spec fn missed_total(rf: Seq<Vec<u32>>, hf: Seq<Vec<u32>>, scored: Seq<bool>, n: int) -> int
    decreases n,
{
    if n <= 0 {
        0
    } else {
        missed_total(rf, hf, scored, n - 1) + if scored[n - 1] {
            excess(rf[n - 1]@.len() as int, hf[n - 1]@.len() as int)
        } else {
            0
        }
    }
}

/// False-alarm speaker-frames: hypothesis speakers beyond the reference count.
pub open spec fn false_alarm_total(
    rf: Seq<Vec<u32>>,
    hf: Seq<Vec<u32>>,
    scored: Seq<bool>,
    n: int,
) -> int
    decreases n,
{
    if n <= 0 {
        0
    } else {
        false_alarm_total(rf, hf, scored, n - 1) + if scored[n - 1] {
            excess(hf[n - 1]@.len() as int, rf[n - 1]@.len() as int)
        } else {
            0
        }
    }
}

/// Confused speaker-frames: speakers present on both sides but not matched.
pub open spec fn confusion_total(
    rf: Seq<Vec<u32>>,
    hf: Seq<Vec<u32>>,
    scored: Seq<bool>,
    m: SpeakerMapping,
    n: int,
) -> int
    decreases n,
{
    if n <= 0 {
        0
    } else {
        confusion_total(rf, hf, scored, m, n - 1) + if scored[n - 1] {
            min_int(rf[n - 1]@.len() as int, hf[n - 1]@.len() as int) - frame_correct(
                m,
                hf[n - 1]@,
                rf[n - 1]@,
            )
        } else {
            0
        }
    }
}

/// Speaker-frame error counts of a diarization against its reference.
#[derive(Clone, Copy, Debug, PartialEq, Eq)]
pub struct DerCounts {
    pub total_ref_frames: u64,
    pub missed_frames: u64,
    pub false_alarm_frames: u64,
    pub confusion_frames: u64,
}

impl DerCounts {
    /// Missed, falsely alarmed and confused speaker-frames together.
    pub open spec fn error_frames(self) -> int {
        self.missed_frames + self.false_alarm_frames + self.confusion_frames
    }

    /// All counts zero (nothing scored).
    pub open spec fn is_zero(self) -> bool {
        self.total_ref_frames == 0 && self.missed_frames == 0 && self.false_alarm_frames == 0
            && self.confusion_frames == 0
    }

    /// The counts of the scored frames under mapping `m`, or all zero when
    /// no reference speech is scored. False alarms are counted up to the
    /// reference speaker-frames neither missed nor confused, so the error
    /// frames never outnumber the scored reference speaker-frames.
    pub open spec fn counts(
        self,
        rf: Seq<Vec<u32>>,
        hf: Seq<Vec<u32>>,
        scored: Seq<bool>,
        m: SpeakerMapping,
    ) -> bool {
        let n = scored.len() as int;
        if ref_total(rf, scored, n) == 0 {
            self.is_zero()
        } else {
            &&& self.total_ref_frames == ref_total(rf, scored, n)
            &&& self.missed_frames == missed_total(rf, hf, scored, n)
            &&& self.false_alarm_frames == min_int(
                false_alarm_total(rf, hf, scored, n),
                excess(ref_total(rf, scored, n), missed_total(rf, hf, scored, n) + confusion_total(rf, hf, scored, m, n)),
            )
            &&& self.confusion_frames == confusion_total(rf, hf, scored, m, n)
        }
    }
}

/// How many of the hypothesis speakers `hf` are mapped to a reference speaker
/// active in `rf`.
fn count_hits(m: &SpeakerMapping, hf: &Vec<u32>, rf: &Vec<u32>) -> (c: u64)
    requires
        m.wf(),
        hf.len() <= u32::MAX,
    ensures
        c == hits_upto(*m, hf@, rf@, hf.len() as int),
        c <= hf.len(),
{
    let mut c: u64 = 0;
    let mut k: usize = 0;
    while k < hf.len()
        invariant
            m.wf(),
            hf.len() <= u32::MAX,
            k <= hf.len(),
            c == hits_upto(*m, hf@, rf@, k as int),
            c <= k,
        decreases hf.len() - k,
    {
        match m.get(hf[k]) {
            Some(r) => {
                if contains_id(rf, r) {
                    c += 1;
                }
            },
            None => {},
        }
        k += 1;
    }
    c
}

/// Missed, false-alarm and confused speaker-frames over the scored frames,
/// with hypothesis speakers matched to reference speakers through `m`.
pub fn frame_error_counts(
    ref_frames: &Vec<Vec<u32>>,
    hyp_frames: &Vec<Vec<u32>>,
    scored: &Vec<bool>,
    m: &SpeakerMapping,
) -> (c: DerCounts)
    requires
        ref_frames.len() == scored.len(),
        hyp_frames.len() == scored.len(),
        scored.len() <= MAX_FRAMES,
        m.wf(),
        forall|i: int| 0 <= i < scored.len() ==> (#[trigger] ref_frames@[i])@.len() <= u32::MAX,
        forall|i: int| 0 <= i < scored.len() ==> (#[trigger] hyp_frames@[i])@.len() <= u32::MAX,
    ensures
        c.counts(ref_frames@, hyp_frames@, scored@, *m),
{
    let ghost rf = ref_frames@;
    let ghost hf = hyp_frames@;
    let ghost sc = scored@;
    let mut total: u64 = 0;
    let mut missed: u64 = 0;
    let mut fa: u64 = 0;
    let mut conf: u64 = 0;
    let mut i: usize = 0;
    while i < scored.len()
        invariant
            rf == ref_frames@,
            hf == hyp_frames@,
            sc == scored@,
            ref_frames.len() == scored.len(),
            hyp_frames.len() == scored.len(),
            scored.len() <= MAX_FRAMES,
            m.wf(),
            forall|q: int| 0 <= q < scored.len() ==> (#[trigger] ref_frames@[q])@.len() <= u32::MAX,
            forall|q: int| 0 <= q < scored.len() ==> (#[trigger] hyp_frames@[q])@.len() <= u32::MAX,
            i <= scored.len(),
            total == ref_total(rf, sc, i as int),
            missed == missed_total(rf, hf, sc, i as int),
            fa == false_alarm_total(rf, hf, sc, i as int),
            conf == confusion_total(rf, hf, sc, *m, i as int),
            total <= i * 0x1_0000_0000,
            missed <= i * 0x1_0000_0000,
            fa <= i * 0x1_0000_0000,
            conf <= i * 0x1_0000_0000,
        decreases scored.len() - i,
    {
        if scored[i] {
            let nr = ref_frames[i].len() as u64;
            let nh = hyp_frames[i].len() as u64;
            let hits = count_hits(m, &hyp_frames[i], &ref_frames[i]);
            let correct = if hits < nr {
                hits
            } else {
                nr
            };
            let both = if nr < nh {
                nr
            } else {
                nh
            };
            total = total + nr;
            if nr > nh {
                missed = missed + (nr - nh);
            }
            if nh > nr {
                fa = fa + (nh - nr);
            }
            assert(correct <= both) by {
                assert(hits <= nh);
            }
            conf = conf + (both - correct);
        }
        i += 1;
    }
    if total == 0 {
        DerCounts { total_ref_frames: 0, missed_frames: 0, false_alarm_frames: 0, confusion_frames: 0 }
    } else {
        let room: u64 = if total > missed + conf {
            total - (missed + conf)
        } else {
            0
        };
        DerCounts {
            total_ref_frames: total,
            missed_frames: missed,
            false_alarm_frames: if fa < room {
                fa
            } else {
                room
            },
            confusion_frames: conf,
        }
    }
}


/// Whether `region` keeps a frame with `n_ref` reference speakers.
pub open spec fn region_keeps(region: Region, n_ref: int) -> bool {
    match region {
        Region::All => true,
        Region::SingleSpeaker => n_ref < 2,
        Region::Overlap => n_ref >= 2,
    }
}

/// Whether the centre of frame `i` lies in one of the scored ranges.
pub open spec fn uem_keeps(uem: Option<Seq<TimeRange>>, i: int) -> bool {
    match uem {
        None => true,
        Some(ranges) => in_some_range(ranges, frame_center(i)),
    }
}

/// Instant `t` lies in one of `ranges`.
pub open spec fn in_some_range(ranges: Seq<TimeRange>, t: int) -> bool {
    exists|k: int| 0 <= k < ranges.len() && (#[trigger] ranges[k]).holds(t)
}

/// The view of an optional list of scored ranges.
pub open spec fn uem_view(uem: Option<&Vec<TimeRange>>) -> Option<Seq<TimeRange>> {
    match uem {
        None => None,
        Some(v) => Some(v@),
    }
}

/// Whether frame `i` is scored: not ignored, kept by the region, and inside
/// the scored ranges when there are any.
pub open spec fn frame_scored(
    ignore: Seq<bool>,
    rf: Seq<Vec<u32>>,
    region: Region,
    uem: Option<Seq<TimeRange>>,
    i: int,
) -> bool {
    !ignore[i] && region_keeps(region, rf[i]@.len() as int) && uem_keeps(uem, i)
}

/// Whether the centre of frame `i` lies in one of `ranges`.
fn center_in_ranges(ranges: &Vec<TimeRange>, i: usize) -> (b: bool)
    requires
        i < MAX_FRAMES,
    ensures
        b == uem_keeps(Some(ranges@), i as int),
{
    let center: i64 = (i as i64) * FRAME_NANOS + FRAME_NANOS / 2;
    let mut k: usize = 0;
    while k < ranges.len()
        invariant
            k <= ranges.len(),
            center == frame_center(i as int),
            forall|q: int| 0 <= q < k ==> !(#[trigger] ranges@[q]).holds(frame_center(i as int)),
        decreases ranges.len() - k,
    {
        if ranges[k].start <= center && center < ranges[k].end {
            assert(ranges@[k as int].holds(frame_center(i as int)));
            assert(in_some_range(ranges@, frame_center(i as int)));
            return true;
        }
        k += 1;
    }
    false
}

/// The scored-frame mask: frame `i` is scored when it is not in `ignore`, the
/// region keeps it, and (with `uem`) its centre lies in a scored range.
pub fn scored_frames(
    ignore: &Vec<bool>,
    ref_frames: &Vec<Vec<u32>>,
    region: Region,
    uem: Option<&Vec<TimeRange>>,
) -> (scored: Vec<bool>)
    requires
        ignore.len() == ref_frames.len(),
        ignore.len() <= MAX_FRAMES,
    ensures
        scored.len() == ignore.len(),
        forall|i: int| 0 <= i < ignore.len() ==> #[trigger] scored@[i] == frame_scored(
            ignore@,
            ref_frames@,
            region,
            uem_view(uem),
            i,
        ),
{
    let mut scored: Vec<bool> = Vec::new();
    let mut i: usize = 0;
    while i < ignore.len()
        invariant
            ignore.len() == ref_frames.len(),
            ignore.len() <= MAX_FRAMES,
            i <= ignore.len(),
            scored.len() == i,
            forall|q: int| 0 <= q < i ==> #[trigger] scored@[q] == frame_scored(
                ignore@,
                ref_frames@,
                region,
                uem_view(uem),
                q,
            ),
        decreases ignore.len() - i,
    {
        let n_ref = ref_frames[i].len();
        let keep_region = match region {
            Region::All => true,
            Region::SingleSpeaker => n_ref < 2,
            Region::Overlap => n_ref >= 2,
        };
        let keep = if ignore[i] || !keep_region {
            false
        } else {
            match uem {
                None => true,
                Some(ranges) => center_in_ranges(ranges, i),
            }
        };
        scored.push(keep);
        i += 1;
    }
    scored
}

/// `c` are the counts of `hypothesis` against `reference` on the grid of
/// `ignore.len()` frames, where `rf` and `hf` are the frames' speaker lists
/// and `m` an optimal mapping on the scored frames.
pub open spec fn der_witness(
    reference: Seq<FrameSpan>,
    hypothesis: Seq<FrameSpan>,
    ignore: Seq<bool>,
    region: Region,
    uem: Option<Seq<TimeRange>>,
    rf: Seq<Vec<u32>>,
    hf: Seq<Vec<u32>>,
    m: SpeakerMapping,
    c: DerCounts,
) -> bool {
    let n = ignore.len();
    let scored = Seq::new(n, |i: int| frame_scored(ignore, rf, region, uem, i));
    &&& rf.len() == n
    &&& hf.len() == n
    &&& forall|i: int| 0 <= i < n ==> (#[trigger] rf[i])@ == frame_ids(reference, i, reference.len() as int)
    &&& forall|i: int| 0 <= i < n ==> (#[trigger] hf[i])@ == frame_ids(hypothesis, i, hypothesis.len() as int)
    &&& optimal_for(m, rf, hf, scored)
    &&& c.counts(rf, hf, scored, m)
}

/// Speaker-frame error counts of `hypothesis` against `reference` on a grid
/// of `n_frames` frames.
///
/// Frames marked in `ignore` (the collar around reference boundaries), frames
/// that `region` leaves out and, given `uem`, frames whose centre lies outside
/// every scored range are not scored. Hypothesis speakers are matched one to
/// one with reference speakers so that matched speakers share as many scored
/// frames as possible. With no reference turns, or no scored reference
/// speech, every count is zero.
pub fn frame_der(
    reference: &Vec<FrameSpan>,
    hypothesis: &Vec<FrameSpan>,
    n_frames: usize,
    ignore: &Vec<bool>,
    region: Region,
    uem: Option<&Vec<TimeRange>>,
) -> (c: DerCounts)
    requires
        n_frames <= MAX_FRAMES,
        ignore.len() == n_frames,
        reference.len() <= u32::MAX,
        hypothesis.len() <= u32::MAX,
    ensures
        reference.len() == 0 ==> c.is_zero(),
        reference.len() > 0 ==> exists|rf: Seq<Vec<u32>>, hf: Seq<Vec<u32>>, m: SpeakerMapping|
            #[trigger] der_witness(
                reference@,
                hypothesis@,
                ignore@,
                region,
                uem_view(uem),
                rf,
                hf,
                m,
                c,
            ),
{
    if reference.len() == 0 {
        return DerCounts {
            total_ref_frames: 0,
            missed_frames: 0,
            false_alarm_frames: 0,
            confusion_frames: 0,
        };
    }
    let ref_frames = build_speaker_frames(reference, n_frames);
    let hyp_frames = build_speaker_frames(hypothesis, n_frames);
    let scored = scored_frames(ignore, &ref_frames, region, uem);
    let m = mapping_on_scored(&ref_frames, &hyp_frames, &scored);
    let c = frame_error_counts(&ref_frames, &hyp_frames, &scored, &m);
    proof {
        let sc = Seq::new(n_frames as nat, |i: int| frame_scored(ignore@, ref_frames@, region, uem_view(uem), i));
        assert(scored@ =~= sc);
        assert(der_witness(
            reference@,
            hypothesis@,
            ignore@,
            region,
            uem_view(uem),
            ref_frames@,
            hyp_frames@,
            m,
            c,
        ));
    }
    c
}


/// The complement of a frame mask.
pub open spec fn negated(mask: Seq<bool>) -> Seq<bool> {
    Seq::new(mask.len(), |i: int| !mask[i])
}

/// The hypothesis-to-reference speaker mapping that maximises the number of
/// co-occurring frames, counting only the frames not marked in `collar_mask`.
pub fn optimal_speaker_mapping(
    ref_frames: &Vec<Vec<u32>>,
    hyp_frames: &Vec<Vec<u32>>,
    collar_mask: &Vec<bool>,
) -> (m: SpeakerMapping)
    requires
        ref_frames.len() == collar_mask.len(),
        hyp_frames.len() == collar_mask.len(),
    ensures
        optimal_for(m, ref_frames@, hyp_frames@, negated(collar_mask@)),
{
    let mut scored: Vec<bool> = Vec::new();
    let mut i: usize = 0;
    while i < collar_mask.len()
        invariant
            i <= collar_mask.len(),
            scored.len() == i,
            forall|q: int| 0 <= q < i ==> scored@[q] == !collar_mask@[q],
        decreases collar_mask.len() - i,
    {
        scored.push(!collar_mask[i]);
        i += 1;
    }
    assert(scored@ =~= negated(collar_mask@));
    mapping_on_scored(ref_frames, hyp_frames, &scored)
}


/// `ceil(a / b)` for positive `b`.
pub open spec fn ceil_div(a: int, b: int) -> int {
    -((-a) / b)
}

/// The frames `[start, end)` of the grid covered by a span: the frame holding
/// its (non-negative) start up to the first frame boundary at or after its
/// end, both capped at [`MAX_FRAMES`].
pub open spec fn grid_span(t: TimeRange) -> (int, int) {
    let lo = max_i(t.start as int, 0) / FRAME_NANOS as int;
    let hi = max_i(ceil_div(t.end as int, FRAME_NANOS as int), 0);
    (min_int(lo, MAX_FRAMES as int), min_int(hi, MAX_FRAMES as int))
}

pub open spec fn max_i(a: int, b: int) -> int {
    if a > b {
        a
    } else {
        b
    }
}

/// The turn as a span of grid frames.
pub open spec fn turn_frames(t: SpeakerTurn) -> FrameSpan {
    FrameSpan { speaker: t.speaker, start: grid_span(t.time).0 as usize, end: grid_span(t.time).1 as usize }
}

/// The frames of the grid covered by turn `t` (see [`grid_span`]).
pub fn grid_frame_range(t: &SpeakerTurn) -> (f: FrameSpan)
    ensures
        f == turn_frames(*t),
{
    let start: i64 = if t.time.start > 0 {
        t.time.start
    } else {
        0
    };
    let lo: i64 = start / FRAME_NANOS;
    let e: i128 = t.time.end as i128;
    let hi_raw: i128 = if e >= 0 {
        (e + (FRAME_NANOS as i128) - 1) / (FRAME_NANOS as i128)
    } else {
        -((-e) / (FRAME_NANOS as i128))
    };
    assert(hi_raw == ceil_div(t.time.end as int, FRAME_NANOS as int)) by {
        if e >= 0 {
            assert((e + 9_999_999) / 10_000_000 == -((-e) / 10_000_000)) by (nonlinear_arith)
                requires
                    e >= 0,
            ;
        }
    }
    let hi: i128 = if hi_raw > 0 {
        hi_raw
    } else {
        0
    };
    let lo_c: usize = if (lo as i128) < (MAX_FRAMES as i128) {
        lo as usize
    } else {
        MAX_FRAMES
    };
    let hi_c: usize = if hi < (MAX_FRAMES as i128) {
        hi as usize
    } else {
        MAX_FRAMES
    };
    FrameSpan { speaker: t.speaker, start: lo_c, end: hi_c }
}

/// The frame grid for the turns: up to the frame holding the latest end
/// (never before zero), plus one, capped at [`MAX_FRAMES`].
pub open spec fn grid_len(reference: Seq<SpeakerTurn>, hypothesis: Seq<SpeakerTurn>) -> int {
    min_int(ceil_div(latest_end(reference + hypothesis, (reference + hypothesis).len() as int), FRAME_NANOS as int) + 1, MAX_FRAMES as int)
}

/// The latest end among `turns[0..k]`, or zero when it is earlier.
pub open spec fn latest_end(turns: Seq<SpeakerTurn>, k: int) -> int
    decreases k,
{
    if k <= 0 {
        0
    } else {
        max_i(latest_end(turns, k - 1), turns[k - 1].time.end as int)
    }
}

fn latest_end_of(turns: &Vec<SpeakerTurn>, acc: i64) -> (m: i64)
    requires
        acc >= 0,
    ensures
        m == max_i(acc as int, latest_end(turns@, turns.len() as int)),
{
    let mut m = acc;
    let mut k: usize = 0;
    while k < turns.len()
        invariant
            k <= turns.len(),
            acc >= 0,
            m == max_i(acc as int, latest_end(turns@, k as int)),
        decreases turns.len() - k,
    {
        if turns[k].time.end > m {
            m = turns[k].time.end;
        }
        k += 1;
    }
    m
}

proof fn lemma_latest_end_concat(a: Seq<SpeakerTurn>, b: Seq<SpeakerTurn>, k: int)
    requires
        0 <= k <= b.len(),
    ensures
        latest_end(a + b, a.len() + k) == max_i(latest_end(a, a.len() as int), latest_end(b, k)),
    decreases k,
{
    if k == 0 {
        lemma_latest_end_prefix(a, b, a.len() as int);
        lemma_latest_end_nonneg(a, a.len() as int);
    } else {
        lemma_latest_end_concat(a, b, k - 1);
        assert((a + b)[a.len() + k - 1] == b[k - 1]);
    }
}

proof fn lemma_latest_end_prefix(a: Seq<SpeakerTurn>, b: Seq<SpeakerTurn>, k: int)
    requires
        0 <= k <= a.len(),
    ensures
        latest_end(a + b, k) == latest_end(a, k),
    decreases k,
{
    if k > 0 {
        lemma_latest_end_prefix(a, b, k - 1);
        assert((a + b)[k - 1] == a[k - 1]);
    }
}

/// The number of grid frames for `reference` and `hypothesis`.
pub fn grid_frame_count(reference: &Vec<SpeakerTurn>, hypothesis: &Vec<SpeakerTurn>) -> (n: usize)
    ensures
        n == grid_len(reference@, hypothesis@),
{
    let m1 = latest_end_of(reference, 0);
    let m = latest_end_of(hypothesis, m1);
    proof {
        lemma_latest_end_concat(reference@, hypothesis@, hypothesis@.len() as int);
        assert(latest_end(reference@, reference@.len() as int) >= 0) by {
            lemma_latest_end_nonneg(reference@, reference@.len() as int);
        }
    }
    let frames: i64 = (m / FRAME_NANOS) + if m % FRAME_NANOS == 0 {
        0
    } else {
        1
    };
    assert(frames == ceil_div(m as int, FRAME_NANOS as int)) by (nonlinear_arith)
        requires
            m >= 0,
            frames == (m / 10_000_000) + if m % 10_000_000 == 0 {
                0int
            } else {
                1int
            },
    ;
    if frames + 1 < MAX_FRAMES as i64 {
        (frames + 1) as usize
    } else {
        MAX_FRAMES
    }
}

proof fn lemma_latest_end_nonneg(t: Seq<SpeakerTurn>, k: int)
    ensures
        latest_end(t, k) >= 0,
    decreases k,
{
    if k > 0 {
        lemma_latest_end_nonneg(t, k - 1);
    }
}

/// Frame `i` lies within `collar` of a boundary (start or end) of some
/// reference turn: between the frame holding `boundary - collar` (never
/// before zero) and the first frame boundary at or after `boundary + collar`.
pub open spec fn in_collar(reference: Seq<SpeakerTurn>, collar: int, i: int) -> bool {
    collar > 0 && exists|k: int|
        0 <= k < reference.len() && (near_boundary(
            (#[trigger] reference[k]).time.start as int,
            collar,
            i,
        ) || near_boundary(reference[k].time.end as int, collar, i))
}

/// Frame `i` lies in the collar window around instant `b`.
pub open spec fn near_boundary(b: int, collar: int, i: int) -> bool {
    max_i(b - collar, 0) / FRAME_NANOS as int <= i < ceil_div(b + collar, FRAME_NANOS as int)
}


/// Mark the frames in the collar window around instant `b`.
fn mark_window(mask: &mut Vec<bool>, b: i64, collar: i64)
    requires
        collar > 0,
        old(mask).len() <= MAX_FRAMES,
    ensures
        final(mask).len() == old(mask).len(),
        forall|i: int| 0 <= i < old(mask).len() ==> #[trigger] final(mask)@[i] == (old(mask)@[i] || near_boundary(b as int, collar as int, i)),
{
    let n = mask.len();
    let low: i128 = b as i128 - collar as i128;
    let lo: i128 = (if low > 0 { low } else { 0 }) / (FRAME_NANOS as i128);
    let high: i128 = b as i128 + collar as i128;
    let hi: i128 = if high >= 0 {
        (high + (FRAME_NANOS as i128) - 1) / (FRAME_NANOS as i128)
    } else {
        -((-high) / (FRAME_NANOS as i128))
    };
    assert(hi == ceil_div(b + collar, FRAME_NANOS as int)) by {
        if high >= 0 {
            assert((high + 9_999_999) / 10_000_000 == -((-high) / 10_000_000)) by (nonlinear_arith)
                requires
                    high >= 0,
            ;
        }
    }
    assert(lo == max_i(b - collar, 0) / FRAME_NANOS as int);
    let ghost before = mask@;
    if lo < n as i128 {
        let stop: usize = if hi < n as i128 {
            if hi > 0 { hi as usize } else { 0 }
        } else {
            n
        };
        let mut i: usize = lo as usize;
        while i < stop
            invariant
                mask.len() == n,
                lo <= i,
                stop <= n,
                lo == max_i(b - collar, 0) / FRAME_NANOS as int,
                hi == ceil_div(b + collar, FRAME_NANOS as int),
                stop <= max_i(hi as int, 0),
                before.len() == n,
                forall|q: int| 0 <= q < n ==> #[trigger] mask@[q] == (before[q] || (lo <= q < i && near_boundary(b as int, collar as int, q))),
            decreases stop - i,
        {
            mask.set(i, true);
            i += 1;
        }
        assert forall|q: int| 0 <= q < n implies #[trigger] mask@[q] == (before[q] || near_boundary(b as int, collar as int, q)) by {
            if near_boundary(b as int, collar as int, q) {
                assert(lo <= q);
            }
        }
    } else {
        assert forall|q: int| 0 <= q < n implies #[trigger] mask@[q] == (before[q] || near_boundary(b as int, collar as int, q)) by {}
    }
}

/// The collar mask: frame `i` is ignored when it lies within `collar` of a
/// reference boundary (see [`in_collar`]). No collar ignores nothing.
pub fn build_collar_mask(reference: &Vec<SpeakerTurn>, collar: i64, n_frames: usize) -> (mask: Vec<bool>)
    requires
        n_frames <= MAX_FRAMES,
    ensures
        mask.len() == n_frames,
        forall|i: int| 0 <= i < n_frames ==> #[trigger] mask@[i] == in_collar(reference@, collar as int, i),
{
    let mut mask: Vec<bool> = Vec::new();
    let mut i: usize = 0;
    while i < n_frames
        invariant
            i <= n_frames,
            mask.len() == i,
            forall|q: int| 0 <= q < i ==> !#[trigger] mask@[q],
        decreases n_frames - i,
    {
        mask.push(false);
        i += 1;
    }
    if collar <= 0 {
        return mask;
    }
    let mut k: usize = 0;
    while k < reference.len()
        invariant
            collar > 0,
            n_frames <= MAX_FRAMES,
            k <= reference.len(),
            mask.len() == n_frames,
            forall|q: int| 0 <= q < n_frames ==> #[trigger] mask@[q] == exists|j: int|
                0 <= j < k && (near_boundary(
                    (#[trigger] reference@[j]).time.start as int,
                    collar as int,
                    q,
                ) || near_boundary(reference@[j].time.end as int, collar as int, q)),
        decreases reference.len() - k,
    {
        let ghost before = mask@;
        mark_window(&mut mask, reference[k].time.start, collar);
        mark_window(&mut mask, reference[k].time.end, collar);
        proof {
            assert forall|q: int| 0 <= q < n_frames implies #[trigger] mask@[q] == exists|j: int|
                0 <= j < k + 1 && (near_boundary(
                    (#[trigger] reference@[j]).time.start as int,
                    collar as int,
                    q,
                ) || near_boundary(reference@[j].time.end as int, collar as int, q)) by {
                if mask@[q] && !before[q] {
                    assert(reference@[k as int] == reference@[k as int]);
                }
                if exists|j: int|
                    0 <= j < k + 1 && (near_boundary(
                        (#[trigger] reference@[j]).time.start as int,
                        collar as int,
                        q,
                    ) || near_boundary(reference@[j].time.end as int, collar as int, q)) {
                    let j = choose|j: int|
                        0 <= j < k + 1 && (near_boundary(
                            (#[trigger] reference@[j]).time.start as int,
                            collar as int,
                            q,
                        ) || near_boundary(reference@[j].time.end as int, collar as int, q));
                    if j < k {
                        assert(before[q]);
                    }
                }
            }
        }
        k += 1;
    }
    mask
}


/// The turns as spans of grid frames.
pub open spec fn spans_of(turns: Seq<SpeakerTurn>) -> Seq<FrameSpan> {
    turns.map_values(|t: SpeakerTurn| turn_frames(t))
}

/// The collar mask of `reference` on a grid of `n` frames.
pub open spec fn collar_mask(reference: Seq<SpeakerTurn>, collar: int, n: nat) -> Seq<bool> {
    Seq::new(n, |i: int| in_collar(reference, collar, i))
}

fn spans(turns: &Vec<SpeakerTurn>) -> (v: Vec<FrameSpan>)
    ensures
        v@ == spans_of(turns@),
{
    let mut v: Vec<FrameSpan> = Vec::new();
    let mut k: usize = 0;
    while k < turns.len()
        invariant
            k <= turns.len(),
            v@ == spans_of(turns@).take(k as int),
        decreases turns.len() - k,
    {
        v.push(grid_frame_range(&turns[k]));
        proof {
            assert(spans_of(turns@).take(k as int + 1) =~= spans_of(turns@).take(k as int).push(
                turn_frames(turns@[k as int]),
            ));
        }
        k += 1;
    }
    assert(spans_of(turns@).take(turns.len() as int) =~= spans_of(turns@));
    v
}

/// Some turn of `turns` ends before time zero.
pub open spec fn ends_before_zero(turns: Seq<SpeakerTurn>) -> bool {
    exists|k: int| 0 <= k < turns.len() && (#[trigger] turns[k]).time.end < 0
}

/// Scoring is refused, with all-zero counts: no reference turns, a negative
/// collar, or a turn of either list that ends before time zero.
pub open spec fn scoring_refused(reference: Seq<SpeakerTurn>, hypothesis: Seq<SpeakerTurn>, collar: int) -> bool {
    reference.len() == 0 || collar < 0 || ends_before_zero(reference) || ends_before_zero(hypothesis)
}

/// Whether some turn of `turns` ends before time zero.
fn any_end_before_zero(turns: &Vec<SpeakerTurn>) -> (b: bool)
    ensures
        b == ends_before_zero(turns@),
{
    let mut k: usize = 0;
    while k < turns.len()
        invariant
            k <= turns.len(),
            forall|q: int| 0 <= q < k ==> (#[trigger] turns@[q]).time.end >= 0,
        decreases turns.len() - k,
    {
        if turns[k].time.end < 0 {
            assert(turns@[k as int].time.end < 0);
            return true;
        }
        k += 1;
    }
    false
}

/// `c` are the DER counts of `hypothesis` against `reference` with `collar`
/// (nanoseconds), `region` and optional scored ranges `uem`.
pub open spec fn der_counts_of(
    reference: Seq<SpeakerTurn>,
    hypothesis: Seq<SpeakerTurn>,
    collar: int,
    region: Region,
    uem: Option<Seq<TimeRange>>,
    c: DerCounts,
) -> bool {
    if scoring_refused(reference, hypothesis, collar) {
        c.is_zero()
    } else {
        exists|rf: Seq<Vec<u32>>, hf: Seq<Vec<u32>>, m: SpeakerMapping|
            #[trigger] der_witness(
                spans_of(reference),
                spans_of(hypothesis),
                collar_mask(reference, collar, grid_len(reference, hypothesis) as nat),
                region,
                uem,
                rf,
                hf,
                m,
                c,
            )
    }
}

/// Frame-based speaker-frame error counts (10 ms frames) of `hypothesis`
/// against `reference`.
///
/// Frames within `collar` of a reference boundary are excluded from every
/// count; `region` restricts scoring to single-speaker or overlap frames;
/// `uem`, when given, to frames whose centre lies in a scored range. Speakers
/// are matched one to one so that matched speakers share as many scored
/// frames as possible. No reference turns, a negative collar, a turn of
/// either list ending before time zero, or no scored reference speech give
/// all-zero counts.
pub fn der_core(
    reference: &Vec<SpeakerTurn>,
    hypothesis: &Vec<SpeakerTurn>,
    collar: i64,
    region: Region,
    uem: Option<&Vec<TimeRange>>,
) -> (c: DerCounts)
    requires
        reference.len() <= u32::MAX,
        hypothesis.len() <= u32::MAX,
    ensures
        der_counts_of(reference@, hypothesis@, collar as int, region, uem_view(uem), c),
        c.error_frames() <= c.total_ref_frames,
{
    if reference.len() == 0 || collar < 0 || any_end_before_zero(reference) || any_end_before_zero(hypothesis) {
        return DerCounts {
            total_ref_frames: 0,
            missed_frames: 0,
            false_alarm_frames: 0,
            confusion_frames: 0,
        };
    }
    let n = grid_frame_count(reference, hypothesis);
    let ignore = build_collar_mask(reference, collar, n);
    let ref_spans = spans(reference);
    let hyp_spans = spans(hypothesis);
    proof {
        assert(ignore@ =~= collar_mask(reference@, collar as int, n as nat));
    }
    let c = frame_der(&ref_spans, &hyp_spans, n, &ignore, region, uem);
    proof {
        let (rf, hf, m) = choose|rf: Seq<Vec<u32>>, hf: Seq<Vec<u32>>, m: SpeakerMapping|
            #[trigger] der_witness(
                ref_spans@,
                hyp_spans@,
                ignore@,
                region,
                uem_view(uem),
                rf,
                hf,
                m,
                c,
            );
        assert(der_witness(
            spans_of(reference@),
            spans_of(hypothesis@),
            collar_mask(reference@, collar as int, grid_len(reference@, hypothesis@) as nat),
            region,
            uem_view(uem),
            rf,
            hf,
            m,
            c,
        ));
        crate::matching::lemma_der_at_most_one(reference@, hypothesis@, collar as int, region, uem_view(uem), c);
    }
    c
}

/// DER counts over every frame (overlap included), with `collar`.
pub fn compute_der(reference: &Vec<SpeakerTurn>, hypothesis: &Vec<SpeakerTurn>, collar: i64) -> (c: DerCounts)
    requires
        reference.len() <= u32::MAX,
        hypothesis.len() <= u32::MAX,
    ensures
        der_counts_of(reference@, hypothesis@, collar as int, Region::All, None, c),
        c.error_frames() <= c.total_ref_frames,
{
    der_core(reference, hypothesis, collar, Region::All, None)
}

/// DER counts over the frames with at most one reference speaker.
pub fn compute_der_single_speaker_regions(
    reference: &Vec<SpeakerTurn>,
    hypothesis: &Vec<SpeakerTurn>,
    collar: i64,
) -> (c: DerCounts)
    requires
        reference.len() <= u32::MAX,
        hypothesis.len() <= u32::MAX,
    ensures
        der_counts_of(reference@, hypothesis@, collar as int, Region::SingleSpeaker, None, c),
        c.error_frames() <= c.total_ref_frames,
{
    der_core(reference, hypothesis, collar, Region::SingleSpeaker, None)
}

/// DER counts restricted to the frames whose centre lies in `scored`.
pub fn compute_der_with_uem(
    reference: &Vec<SpeakerTurn>,
    hypothesis: &Vec<SpeakerTurn>,
    collar: i64,
    scored: &Vec<TimeRange>,
) -> (c: DerCounts)
    requires
        reference.len() <= u32::MAX,
        hypothesis.len() <= u32::MAX,
    ensures
        der_counts_of(reference@, hypothesis@, collar as int, Region::All, Some(scored@), c),
        c.error_frames() <= c.total_ref_frames,
{
    der_core(reference, hypothesis, collar, Region::All, Some(scored))
}

/// DER counts split into all frames, single-speaker frames and overlap
/// frames.
#[derive(Clone, Debug, PartialEq, Eq)]
pub struct DerDecomposition {
    pub total: DerCounts,
    pub single_speaker: DerCounts,
    pub overlap: DerCounts,
    pub per_speaker_recall: Vec<SpeakerRecall>,
}

/// The DER counts over all frames, over single-speaker frames and over
/// overlap frames.
pub fn compute_der_decomposition(
    reference: &Vec<SpeakerTurn>,
    hypothesis: &Vec<SpeakerTurn>,
    collar: i64,
) -> (d: DerDecomposition)
    requires
        reference.len() <= u32::MAX,
        hypothesis.len() <= u32::MAX,
    ensures
        der_counts_of(reference@, hypothesis@, collar as int, Region::All, None, d.total),
        der_counts_of(reference@, hypothesis@, collar as int, Region::SingleSpeaker, None, d.single_speaker),
        der_counts_of(reference@, hypothesis@, collar as int, Region::Overlap, None, d.overlap),
        d.total.error_frames() <= d.total.total_ref_frames,
        d.single_speaker.error_frames() <= d.single_speaker.total_ref_frames,
        d.overlap.error_frames() <= d.overlap.total_ref_frames,
        reference.len() == 0 || collar < 0 ==> d.per_speaker_recall.len() == 0,
        !(reference.len() == 0 || collar < 0) ==> exists|rf: Seq<Vec<u32>>, hf: Seq<Vec<u32>>, m: SpeakerMapping|
            #[trigger] recall_witness(reference@, hypothesis@, collar as int, rf, hf, m, d.per_speaker_recall@),
{
    let total = der_core(reference, hypothesis, collar, Region::All, None);
    let single_speaker = der_core(reference, hypothesis, collar, Region::SingleSpeaker, None);
    let overlap = der_core(reference, hypothesis, collar, Region::Overlap, None);
    let per_speaker_recall = compute_per_speaker_recall(reference, hypothesis, collar);
    let d = DerDecomposition { total, single_speaker, overlap, per_speaker_recall };
    proof {
        if !(reference.len() == 0 || collar < 0) {
            let (rf, hf, m) = choose|rf: Seq<Vec<u32>>, hf: Seq<Vec<u32>>, m: SpeakerMapping|
                #[trigger] recall_witness(reference@, hypothesis@, collar as int, rf, hf, m, per_speaker_recall@);
            assert(recall_witness(reference@, hypothesis@, collar as int, rf, hf, m, d.per_speaker_recall@));
        }
    }
    d
}


impl SpeakerMapping {
    /// The hypothesis id mapped to reference id `r`.
    pub open spec fn maps_back(&self, r: u32) -> Option<u32> {
        if exists|a: int| 0 <= a < self.hyps.len() && #[trigger] self.assign@[a] is Some
            && self.refs@[self.assign@[a]->0 as int] == r {
            let a = choose|a: int| 0 <= a < self.hyps.len() && #[trigger] self.assign@[a] is Some
                && self.refs@[self.assign@[a]->0 as int] == r;
            Some(self.hyps@[a])
        } else {
            None
        }
    }

    /// The hypothesis id mapped to reference id `r`, if any.
    pub fn get_back(&self, r: u32) -> (h: Option<u32>)
        requires
            self.wf(),
        ensures
            h == self.maps_back(r),
    {
        let mut a: usize = 0;
        while a < self.assign.len()
            invariant
                self.wf(),
                a <= self.assign.len(),
                forall|q: int| 0 <= q < a ==> !(#[trigger] self.assign@[q] is Some && self.refs@[self.assign@[q]->0 as int] == r),
            decreases self.assign.len() - a,
        {
            match self.assign[a] {
                Some(b) => {
                    if self.refs[b] == r {
                        proof {
                            let c = choose|c: int| 0 <= c < self.hyps.len() && #[trigger] self.assign@[c] is Some
                                && self.refs@[self.assign@[c]->0 as int] == r;
                            assert(self.refs@[self.assign@[c]->0 as int] == self.refs@[b as int]);
                            assert(self.assign@[c]->0 == b);
                            assert(c == a);
                        }
                        return Some(self.hyps[a]);
                    }
                },
                None => {},
            }
            a += 1;
        }
        None
    }
}

/// Scored frames among the first `n` in which reference speaker `r` is
/// active.
pub open spec fn ref_frames_of(rf: Seq<Vec<u32>>, scored: Seq<bool>, r: u32, n: int) -> int
    decreases n,
{
    if n <= 0 {
        0
    } else {
        ref_frames_of(rf, scored, r, n - 1) + if scored[n - 1] && rf[n - 1]@.contains(r) {
            1int
        } else {
            0int
        }
    }
}

/// Of those, the frames in which the hypothesis speaker mapped to `r` is
/// active too.
pub open spec fn recalled_frames_of(
    rf: Seq<Vec<u32>>,
    hf: Seq<Vec<u32>>,
    scored: Seq<bool>,
    m: SpeakerMapping,
    r: u32,
    n: int,
) -> int
    decreases n,
{
    if n <= 0 {
        0
    } else {
        recalled_frames_of(rf, hf, scored, m, r, n - 1) + if scored[n - 1] && rf[n - 1]@.contains(r)
            && m.maps_back(r) is Some && hf[n - 1]@.contains(m.maps_back(r)->0) {
            1int
        } else {
            0int
        }
    }
}

/// How much of one reference speaker's speech the hypothesis recovered.
#[derive(Clone, Copy, Debug, PartialEq, Eq)]
pub struct SpeakerRecall {
    pub speaker: u32,
    pub ref_frames: u64,
    pub recalled_frames: u64,
}

/// `ids` sorted in strictly increasing order.
pub fn sorted_ids(ids: &Vec<u32>) -> (out: Vec<u32>)
    requires
        distinct(ids@),
    ensures
        forall|s: u32| out@.contains(s) <==> ids@.contains(s),
        forall|a: int, b: int| 0 <= a < b < out.len() ==> out@[a] < out@[b],
        out.len() == ids.len(),
{
    let mut out: Vec<u32> = Vec::new();
    let mut k: usize = 0;
    while k < ids.len()
        invariant
            distinct(ids@),
            k <= ids.len(),
            out.len() == k,
            forall|s: u32| out@.contains(s) <==> exists|q: int| 0 <= q < k && ids@[q] == s,
            forall|a: int, b: int| 0 <= a < b < out.len() ==> out@[a] < out@[b],
        decreases ids.len() - k,
    {
        let x = ids[k];
        let mut p: usize = 0;
        while p < out.len() && out[p] < x
            invariant
                p <= out.len(),
                forall|q: int| 0 <= q < p ==> out@[q] < x,
            decreases out.len() - p,
        {
            p += 1;
        }
        let ghost before = out@;
        proof {
            assert(!before.contains(x)) by {
                if before.contains(x) {
                    let q = choose|q: int| 0 <= q < k && ids@[q] == x;
                    assert(ids@[q] == ids@[k as int]);
                }
            }
            assert forall|q: int| p <= q < before.len() implies before[q] > x by {
                if p < before.len() {
                    assert(before[p as int] >= x);
                    assert(before[p as int] != x);
                    if q > p {
                        assert(before[p as int] < before[q]);
                    }
                }
            }
        }
        out.insert(p, x);
        proof {
            assert forall|s: u32| out@.contains(s) <==> exists|q: int| 0 <= q < k + 1 && ids@[q] == s by {
                if out@.contains(s) {
                    let j = choose|j: int| 0 <= j < out@.len() && out@[j] == s;
                    if j < p {
                        assert(before[j] == s);
                        assert(before.contains(s));
                    } else if j > p {
                        assert(before[j - 1] == s);
                        assert(before.contains(s));
                    } else {
                        assert(ids@[k as int] == s);
                    }
                }
                if exists|q: int| 0 <= q < k + 1 && ids@[q] == s {
                    let q = choose|q: int| 0 <= q < k + 1 && ids@[q] == s;
                    if q < k {
                        assert(before.contains(s));
                        let j = choose|j: int| 0 <= j < before.len() && before[j] == s;
                        if j < p {
                            assert(out@[j] == s);
                        } else {
                            assert(out@[j + 1] == s);
                        }
                    } else {
                        assert(out@[p as int] == s);
                    }
                }
            }
            assert forall|a: int, b: int| 0 <= a < b < out.len() implies out@[a] < out@[b] by {
                if b < p {
                    assert(out@[a] == before[a] && out@[b] == before[b]);
                } else if a > p {
                    assert(out@[a] == before[a - 1] && out@[b] == before[b - 1]);
                } else if a == p {
                    assert(out@[b] == before[b - 1]);
                } else if b == p {
                    assert(out@[a] == before[a]);
                } else {
                    assert(out@[a] == before[a] && out@[b] == before[b - 1]);
                }
            }
        }
        k += 1;
    }
    proof {
        assert forall|s: u32| out@.contains(s) <==> ids@.contains(s) by {
            if ids@.contains(s) {
                let q = choose|q: int| 0 <= q < ids@.len() && ids@[q] == s;
            }
        }
    }
    out
}

/// The recall entry of reference speaker `r` over the scored frames.
fn recall_of(
    ref_frames: &Vec<Vec<u32>>,
    hyp_frames: &Vec<Vec<u32>>,
    scored: &Vec<bool>,
    m: &SpeakerMapping,
    r: u32,
) -> (e: SpeakerRecall)
    requires
        m.wf(),
        ref_frames.len() == scored.len(),
        hyp_frames.len() == scored.len(),
    ensures
        e.speaker == r,
        e.ref_frames == ref_frames_of(ref_frames@, scored@, r, scored.len() as int),
        e.recalled_frames == recalled_frames_of(ref_frames@, hyp_frames@, scored@, *m, r, scored.len() as int),
{
    let back = m.get_back(r);
    let mut total: u64 = 0;
    let mut hit: u64 = 0;
    let mut i: usize = 0;
    while i < scored.len()
        invariant
            m.wf(),
            back == m.maps_back(r),
            ref_frames.len() == scored.len(),
            hyp_frames.len() == scored.len(),
            i <= scored.len(),
            total == ref_frames_of(ref_frames@, scored@, r, i as int),
            hit == recalled_frames_of(ref_frames@, hyp_frames@, scored@, *m, r, i as int),
            hit <= total <= i,
        decreases scored.len() - i,
    {
        if scored[i] && contains_id(&ref_frames[i], r) {
            total += 1;
            match back {
                Some(h) => {
                    if contains_id(&hyp_frames[i], h) {
                        hit += 1;
                    }
                },
                None => {},
            }
        }
        i += 1;
    }
    SpeakerRecall { speaker: r, ref_frames: total, recalled_frames: hit }
}

/// A speaker's recalled frames are among its frames.
proof fn lemma_recalled_le_frames(rf: Seq<Vec<u32>>, hf: Seq<Vec<u32>>, scored: Seq<bool>, m: SpeakerMapping, r: u32, n: int)
    ensures
        0 <= recalled_frames_of(rf, hf, scored, m, r, n) <= ref_frames_of(rf, scored, r, n),
    decreases n,
{
    if n > 0 {
        lemma_recalled_le_frames(rf, hf, scored, m, r, n - 1);
    }
}

/// A speaker active in one of the first `n` scored frames has a frame.
proof fn lemma_active_has_frames(rf: Seq<Vec<u32>>, scored: Seq<bool>, r: u32, n: int, j: int)
    requires
        0 <= j < n,
        scored[j],
        rf[j]@.contains(r),
    ensures
        ref_frames_of(rf, scored, r, n) >= 1,
    decreases n,
{
    if j < n - 1 {
        lemma_active_has_frames(rf, scored, r, n - 1, j);
    } else {
        lemma_ref_frames_nonneg(rf, scored, r, n - 1);
    }
}

proof fn lemma_ref_frames_nonneg(rf: Seq<Vec<u32>>, scored: Seq<bool>, r: u32, n: int)
    ensures
        ref_frames_of(rf, scored, r, n) >= 0,
    decreases n,
{
    if n > 0 {
        lemma_ref_frames_nonneg(rf, scored, r, n - 1);
    }
}

/// `out` lists, in increasing id order, every reference speaker active in a
/// scored frame with its frame and recalled-frame counts under `m`.
pub open spec fn recall_table(
    rf: Seq<Vec<u32>>,
    hf: Seq<Vec<u32>>,
    scored: Seq<bool>,
    m: SpeakerMapping,
    out: Seq<SpeakerRecall>,
) -> bool {
    &&& forall|s: u32| (exists|k: int| 0 <= k < out.len() && (#[trigger] out[k]).speaker == s) <==> in_scored(rf, scored, s)
    &&& forall|a: int, b: int| 0 <= a < b < out.len() ==> (#[trigger] out[a]).speaker < (#[trigger] out[b]).speaker
    &&& forall|k: int| 0 <= k < out.len() ==> {
        &&& (#[trigger] out[k]).ref_frames == ref_frames_of(rf, scored, out[k].speaker, scored.len() as int)
        &&& out[k].recalled_frames == recalled_frames_of(rf, hf, scored, m, out[k].speaker, scored.len() as int)
    }
}

/// `out` is the recall table of `hypothesis` against `reference` with
/// `collar`, where `rf` and `hf` are the frames' speaker lists and `m` an
/// optimal mapping on the frames outside the collar.
pub open spec fn recall_witness(
    reference: Seq<SpeakerTurn>,
    hypothesis: Seq<SpeakerTurn>,
    collar: int,
    rf: Seq<Vec<u32>>,
    hf: Seq<Vec<u32>>,
    m: SpeakerMapping,
    out: Seq<SpeakerRecall>,
) -> bool {
    let n = grid_len(reference, hypothesis);
    let scored = negated(collar_mask(reference, collar, n as nat));
    &&& rf.len() == n
    &&& hf.len() == n
    &&& forall|i: int| 0 <= i < n ==> (#[trigger] rf[i])@ == frame_ids(spans_of(reference), i, reference.len() as int)
    &&& forall|i: int| 0 <= i < n ==> (#[trigger] hf[i])@ == frame_ids(spans_of(hypothesis), i, hypothesis.len() as int)
    &&& optimal_for(m, rf, hf, scored)
    &&& recall_table(rf, hf, scored, m, out)
}

/// Per reference speaker, the share of its (collar-excluded) frames in which
/// the hypothesis speaker mapped to it is active: the counts, sorted by
/// speaker id. No reference turns or a negative collar give no entries.
/// Every listed speaker has at least one frame, and no more recalled frames
/// than frames, so its recall lies in [0, 1].
pub fn compute_per_speaker_recall(
    reference: &Vec<SpeakerTurn>,
    hypothesis: &Vec<SpeakerTurn>,
    collar: i64,
) -> (out: Vec<SpeakerRecall>)
    ensures
        reference.len() == 0 || collar < 0 ==> out.len() == 0,
        !(reference.len() == 0 || collar < 0) ==> exists|rf: Seq<Vec<u32>>, hf: Seq<Vec<u32>>, m: SpeakerMapping|
            #[trigger] recall_witness(reference@, hypothesis@, collar as int, rf, hf, m, out@),
        forall|k: int| 0 <= k < out.len() ==> 0 < (#[trigger] out@[k]).ref_frames && out@[k].recalled_frames <= out@[k].ref_frames,
{
    if reference.len() == 0 || collar < 0 {
        return Vec::new();
    }
    let n = grid_frame_count(reference, hypothesis);
    let mask = build_collar_mask(reference, collar, n);
    let ref_spans = spans(reference);
    let hyp_spans = spans(hypothesis);
    let ref_frames = build_speaker_frames(&ref_spans, n);
    let hyp_frames = build_speaker_frames(&hyp_spans, n);
    let mut scored: Vec<bool> = Vec::new();
    let mut i: usize = 0;
    while i < n
        invariant
            i <= n,
            mask.len() == n,
            scored.len() == i,
            forall|q: int| 0 <= q < i ==> scored@[q] == !mask@[q],
        decreases n - i,
    {
        scored.push(!mask[i]);
        i += 1;
    }
    let m = mapping_on_scored(&ref_frames, &hyp_frames, &scored);
    let ids = sorted_ids(&m.refs);
    let mut out: Vec<SpeakerRecall> = Vec::new();
    let mut k: usize = 0;
    while k < ids.len()
        invariant
            m.wf(),
            ref_frames.len() == n,
            hyp_frames.len() == n,
            scored.len() == n,
            k <= ids.len(),
            out.len() == k,
            forall|q: int| 0 <= q < k ==> (#[trigger] out@[q]).speaker == ids@[q],
            forall|q: int| 0 <= q < k ==> {
                &&& (#[trigger] out@[q]).ref_frames == ref_frames_of(ref_frames@, scored@, out@[q].speaker, scored.len() as int)
                &&& out@[q].recalled_frames == recalled_frames_of(ref_frames@, hyp_frames@, scored@, m, out@[q].speaker, scored.len() as int)
            },
        decreases ids.len() - k,
    {
        out.push(recall_of(&ref_frames, &hyp_frames, &scored, &m, ids[k]));
        k += 1;
    }
    proof {
        let sc = negated(collar_mask(reference@, collar as int, n as nat));
        assert(scored@ =~= sc);
        assert(mask@ =~= collar_mask(reference@, collar as int, n as nat));
        assert forall|s: u32| (exists|q: int| 0 <= q < out@.len() && (#[trigger] out@[q]).speaker == s) <==> in_scored(ref_frames@, scored@, s) by {
            if exists|q: int| 0 <= q < out@.len() && (#[trigger] out@[q]).speaker == s {
                let q = choose|q: int| 0 <= q < out@.len() && (#[trigger] out@[q]).speaker == s;
                assert(ids@[q] == s);
                assert(ids@.contains(s));
            }
            if in_scored(ref_frames@, scored@, s) {
                assert(m.refs@.contains(s));
                assert(ids@.contains(s));
                let q = choose|q: int| 0 <= q < ids@.len() && ids@[q] == s;
                assert(out@[q].speaker == s);
            }
        }
        assert forall|a: int, b: int| 0 <= a < b < out@.len() implies (#[trigger] out@[a]).speaker < (#[trigger] out@[b]).speaker by {
            assert(ids@[a] < ids@[b]);
        }
        assert forall|q: int| 0 <= q < out@.len() implies 0 < (#[trigger] out@[q]).ref_frames && out@[q].recalled_frames <= out@[q].ref_frames by {
            let s = out@[q].speaker;
            assert(ids@[q] == s);
            assert(ids@.contains(s));
            assert(m.refs@.contains(s));
            assert(in_scored(ref_frames@, scored@, s));
            let j = choose|j: int| 0 <= j < ref_frames@.len() && j < scored@.len() && scored@[j] && #[trigger] ref_frames@[j]@.contains(s);
            lemma_active_has_frames(ref_frames@, scored@, s, n as int, j);
            lemma_recalled_le_frames(ref_frames@, hyp_frames@, scored@, m, s, n as int);
        }
        assert(recall_table(ref_frames@, hyp_frames@, scored@, m, out@));
        assert(recall_witness(reference@, hypothesis@, collar as int, ref_frames@, hyp_frames@, m, out@));
    }
    out
}

} // verus!
