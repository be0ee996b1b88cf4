//! Word-to-speaker attribution: join ASR words to diarization turns.
//!
//! Each word is tagged with the speaker of the turn it overlaps most; a word
//! that overlaps no turn goes to the nearest turn by interval gap. Ties are
//! broken by the smaller speaker id, then by the earlier turn. Words whose
//! timestamps are unusable (no positive duration) can first be given
//! timestamps taken from their neighbours, and mid-sentence speaker flips can
//! be smoothed out. Turn texts are then assembled from the tagged words.
//!
//! All times are integer nanoseconds ([`TimeRange`]); the confidence of a word
//! is left to the caller, which scales it by the returned overlap.

use vstd::prelude::*;
use crate::time::TimeRange;
use crate::text::{chars_of, push_char};
use vstd::string::StringExecFns;
use crate::sweep::{ordered, attribute_words_sweep};

verus! {

/// Duration given to a word whose neighbours leave it no room: 1 ms.
pub const INTERP_EPS: i64 = 1_000_000;

/// Bound on the magnitude of the times that word attribution takes: 2^61
/// nanoseconds, about 73 years either side of zero. Within it, every sum and
/// difference of two times that attribution forms fits in an `i64`; the
/// attribution functions require their word and turn times to lie in it.
pub const TIME_LIMIT: i64 = 0x2000_0000_0000_0000;

/// An ASR word with its time span.
#[derive(Clone, Debug, PartialEq, Eq)]
pub struct Word {
    pub word: String,
    pub time: TimeRange,
}

/// A diarization turn: one speaker over one time span, with the text spoken
/// in it once that is known.
#[derive(Clone, Debug, PartialEq, Eq)]
pub struct SpeakerTurn {
    pub speaker: u32,
    pub time: TimeRange,
    pub text: Option<String>,
    pub stable: bool,
}

/// A word tagged with a speaker.
///
/// `overlap` is the time the word shares with the turn it was attributed to
/// by overlap, and zero when it went to the nearest turn or to no speaker.
#[derive(Clone, Debug, PartialEq, Eq)]
pub struct WordAlignment {
    pub word: String,
    pub time: TimeRange,
    pub speaker: Option<u32>,
    pub overlap: i64,
    pub interpolated: bool,
}

/// Both ends of `t` lie within `bound` of zero.
pub open spec fn within(t: TimeRange, bound: int) -> bool {
    -bound <= t.start <= bound && -bound <= t.end <= bound
}

/// A span with positive duration: usable for the interval join.
pub open spec fn usable(t: TimeRange) -> bool {
    t.end > t.start
}

pub open spec fn max_int(a: int, b: int) -> int {
    if a > b {
        a
    } else {
        b
    }
}

pub open spec fn min_int(a: int, b: int) -> int {
    if a < b {
        a
    } else {
        b
    }
}

/// Time shared by two spans (zero when they are disjoint).
pub open spec fn overlap(a: TimeRange, b: TimeRange) -> int {
    max_int(min_int(a.end as int, b.end as int) - max_int(a.start as int, b.start as int), 0)
}

/// Gap between two spans (zero when they overlap or touch).
pub open spec fn gap(a: TimeRange, b: TimeRange) -> int {
    if a.end <= b.start {
        b.start - a.end
    } else if b.end <= a.start {
        a.start - b.end
    } else {
        0
    }
}

/// Whether a word's timestamps are unusable for the interval join.
pub fn needs_timestamp_interpolation(w: &Word) -> (b: bool)
    ensures
        b == !usable(w.time),
{
    !(w.time.end > w.time.start)
}

/// The last word before `i` with usable timestamps.
pub open spec fn prev_valid(ws: Seq<Word>, i: int) -> Option<int>
    decreases i,
{
    if i <= 0 {
        None
    } else if usable(ws[i - 1].time) {
        Some(i - 1)
    } else {
        prev_valid(ws, i - 1)
    }
}

/// The first word after `i` with usable timestamps.
pub open spec fn next_valid(ws: Seq<Word>, i: int) -> Option<int>
    decreases ws.len() - i,
{
    if i + 1 >= ws.len() {
        None
    } else if usable(ws[i + 1].time) {
        Some(i + 1)
    } else {
        next_valid(ws, i + 1)
    }
}

/// Start and end taken from the neighbours of word `i`: the previous usable
/// word's end and the next usable word's start, one edge alone when there is
/// one neighbour, `[0, 1 ms)` when there is none.
pub open spec fn neighbour_bounds(ws: Seq<Word>, i: int) -> (int, int) {
    match (prev_valid(ws, i), next_valid(ws, i)) {
        (Some(p), Some(n)) => (ws[p].time.end as int, ws[n].time.start as int),
        (Some(p), None) => (ws[p].time.end as int, ws[p].time.end + INTERP_EPS),
        (None, Some(n)) => (max_int(ws[n].time.start - INTERP_EPS, 0), ws[n].time.start as int),
        (None, None) => (0, INTERP_EPS as int),
    }
}

/// The span given to an unusable word `i`: its neighbour bounds, or a 1 ms
/// span at the (non-negative) start when those meet or cross.
pub open spec fn interpolated_bounds(ws: Seq<Word>, i: int) -> (int, int) {
    let (s, e) = neighbour_bounds(ws, i);
    if e > s {
        (s, e)
    } else {
        (max_int(s, 0), max_int(s, 0) + INTERP_EPS)
    }
}

fn find_prev_valid(words: &Vec<Word>, i: usize) -> (r: Option<usize>)
    requires
        i <= words.len(),
    ensures
        match r {
            Some(p) => prev_valid(words@, i as int) == Some(p as int),
            None => prev_valid(words@, i as int) is None,
        },
{
    let mut j: usize = i;
    while j > 0
        invariant
            j <= i <= words.len(),
            prev_valid(words@, i as int) == prev_valid(words@, j as int),
        decreases j,
    {
        if words[j - 1].time.end > words[j - 1].time.start {
            return Some(j - 1);
        }
        j -= 1;
    }
    None
}

fn find_next_valid(words: &Vec<Word>, i: usize) -> (r: Option<usize>)
    requires
        i < words.len(),
    ensures
        match r {
            Some(p) => next_valid(words@, i as int) == Some(p as int),
            None => next_valid(words@, i as int) is None,
        },
{
    let mut j: usize = i;
    while j + 1 < words.len()
        invariant
            i <= j < words.len(),
            next_valid(words@, i as int) == next_valid(words@, j as int),
        decreases words.len() - j,
    {
        if words[j + 1].time.end > words[j + 1].time.start {
            return Some(j + 1);
        }
        j += 1;
    }
    None
}

proof fn lemma_prev_valid_usable(ws: Seq<Word>, i: int)
    ensures
        match prev_valid(ws, i) {
            Some(p) => 0 <= p < i && usable(ws[p].time),
            None => true,
        },
    decreases i,
{
    if i > 0 && !usable(ws[i - 1].time) {
        lemma_prev_valid_usable(ws, i - 1);
    }
}

proof fn lemma_next_valid_usable(ws: Seq<Word>, i: int)
    ensures
        match next_valid(ws, i) {
            Some(n) => i < n < ws.len() && usable(ws[n].time),
            None => true,
        },
    decreases ws.len() - i,
{
    if i + 1 < ws.len() && !usable(ws[i + 1].time) {
        lemma_next_valid_usable(ws, i + 1);
    }
}

/// Fill unusable word timestamps from the neighbouring words.
///
/// Returns the words, same length and order, with every unusable span
/// replaced by [`interpolated_bounds`], and a flag per word telling whether
/// it was rewritten. Every returned span has positive duration.
pub fn interpolate_word_timestamps(words: &Vec<Word>) -> (r: (Vec<Word>, Vec<bool>))
    requires
        forall|i: int| 0 <= i < words.len() ==> within(#[trigger] words@[i].time, TIME_LIMIT as int),
    ensures
        r.0.len() == words.len(),
        r.1.len() == words.len(),
        forall|i: int|
            0 <= i < words.len() ==> {
                &&& (#[trigger] r.1@[i]) == !usable(words@[i].time)
                &&& r.0@[i].word == words@[i].word
                &&& usable(r.0@[i].time)
                &&& within(r.0@[i].time, 2 * TIME_LIMIT)
                &&& usable(words@[i].time) ==> r.0@[i].time == words@[i].time
                &&& !usable(words@[i].time) ==> (r.0@[i].time.start as int, r.0@[i].time.end as int)
                    == interpolated_bounds(words@, i)
            },
{
    let mut out: Vec<Word> = Vec::new();
    let mut flags: Vec<bool> = Vec::new();
    let n = words.len();
    let mut i: usize = 0;
    while i < n
        invariant
            n == words.len(),
            forall|q: int| 0 <= q < words.len() ==> within(#[trigger] words@[q].time, TIME_LIMIT as int),
            i <= n,
            out.len() == i,
            flags.len() == i,
            forall|q: int|
                0 <= q < i ==> {
                    &&& (#[trigger] flags@[q]) == !usable(words@[q].time)
                    &&& out@[q].word == words@[q].word
                    &&& usable(out@[q].time)
                    &&& within(out@[q].time, 2 * TIME_LIMIT)
                    &&& usable(words@[q].time) ==> out@[q].time == words@[q].time
                    &&& !usable(words@[q].time) ==> (out@[q].time.start as int, out@[q].time.end as int)
                        == interpolated_bounds(words@, q)
                },
        decreases n - i,
    {
        let w = &words[i];
        if !needs_timestamp_interpolation(w) {
            out.push(Word { word: w.word.clone(), time: w.time });
            flags.push(false);
        } else {
            proof {
                lemma_prev_valid_usable(words@, i as int);
                lemma_next_valid_usable(words@, i as int);
            }
            let prev = find_prev_valid(words, i);
            let next = find_next_valid(words, i);
            let (mut start, mut end): (i64, i64) = match (prev, next) {
                (Some(p), Some(nx)) => (words[p].time.end, words[nx].time.start),
                (Some(p), None) => {
                    let s = words[p].time.end;
                    (s, s + INTERP_EPS)
                },
                (None, Some(nx)) => {
                    let e = words[nx].time.start;
                    let s = if e - INTERP_EPS > 0 {
                        e - INTERP_EPS
                    } else {
                        0
                    };
                    (s, e)
                },
                (None, None) => (0, INTERP_EPS),
            };
            assert((start as int, end as int) == neighbour_bounds(words@, i as int));
            if !(end > start) {
                if start < 0 {
                    start = 0;
                }
                end = start + INTERP_EPS;
            }
            let nw = Word { word: w.word.clone(), time: TimeRange { start, end } };
            assert(usable(nw.time));
            assert(within(nw.time, 2 * TIME_LIMIT));
            assert(nw.word == words@[i as int].word);
            assert((nw.time.start as int, nw.time.end as int) == interpolated_bounds(words@, i as int));
            out.push(nw);
            flags.push(true);
        }
        assert(within(words@[i as int].time, TIME_LIMIT as int));
        assert(flags@[i as int] == !usable(words@[i as int].time));
        assert(out@[i as int].word == words@[i as int].word);
        assert(usable(out@[i as int].time));
        assert(within(out@[i as int].time, 2 * TIME_LIMIT));
        i += 1;
    }
    (out, flags)
}


/// Turn `cand` beats turn `cur` on a tie: smaller speaker id, then earlier
/// turn.
pub open spec fn beats(turns: Seq<SpeakerTurn>, cand: int, cur: int) -> bool {
    turns[cand].speaker < turns[cur].speaker || (turns[cand].speaker == turns[cur].speaker
        && cand < cur)
}

/// Whether turn `cand` beats turn `cur` under the tie-break: smaller speaker
/// id, then earlier turn.
pub fn better_turn(cand: usize, cur: usize, turns: &Vec<SpeakerTurn>) -> (b: bool)
    requires
        cand < turns.len(),
        cur < turns.len(),
    ensures
        b == beats(turns@, cand as int, cur as int),
{
    let cs = turns[cand].speaker;
    let us = turns[cur].speaker;
    cs < us || (cs == us && cand < cur)
}

/// Among `turns[0..k]`, the turn overlapping `w` most (ties: [`beats`]).
pub open spec fn best_overlap_turn(w: TimeRange, turns: Seq<SpeakerTurn>, k: int) -> int
    decreases k,
{
    if k <= 1 {
        0
    } else {
        let b = best_overlap_turn(w, turns, k - 1);
        let i = k - 1;
        if overlap(w, turns[i].time) > overlap(w, turns[b].time) || (overlap(w, turns[i].time)
            == overlap(w, turns[b].time) && beats(turns, i, b)) {
            i
        } else {
            b
        }
    }
}

/// Among `turns[0..k]`, the turn nearest to `w` by gap (ties: [`beats`]).
pub open spec fn nearest_turn(w: TimeRange, turns: Seq<SpeakerTurn>, k: int) -> int
    decreases k,
{
    if k <= 1 {
        0
    } else {
        let b = nearest_turn(w, turns, k - 1);
        let i = k - 1;
        if gap(w, turns[i].time) < gap(w, turns[b].time) || (gap(w, turns[i].time) == gap(
            w,
            turns[b].time,
        ) && beats(turns, i, b)) {
            i
        } else {
            b
        }
    }
}

/// The speaker a word spanning `w` is attributed to, with the overlap that
/// decided it: the turn of greatest overlap when some turn overlaps the word,
/// else the nearest turn (overlap zero), else no speaker.
pub open spec fn attribution_of(w: TimeRange, turns: Seq<SpeakerTurn>) -> (Option<u32>, int) {
    if turns.len() == 0 {
        (None, 0)
    } else {
        let b = best_overlap_turn(w, turns, turns.len() as int);
        if overlap(w, turns[b].time) > 0 {
            (Some(turns[b].speaker), overlap(w, turns[b].time))
        } else {
            (Some(turns[nearest_turn(w, turns, turns.len() as int)].speaker), 0)
        }
    }
}

/// The time two spans share ([`overlap`]).
pub(crate) fn overlap_of(a: TimeRange, b: TimeRange) -> (o: i64)
    requires
        within(a, 2 * TIME_LIMIT),
        within(b, TIME_LIMIT as int),
    ensures
        o == overlap(a, b),
{
    let hi = if a.end < b.end {
        a.end
    } else {
        b.end
    };
    let lo = if a.start > b.start {
        a.start
    } else {
        b.start
    };
    if hi > lo {
        hi - lo
    } else {
        0
    }
}

/// The gap between two spans, zero when they overlap or touch ([`gap`]).
pub fn gap_of(a: TimeRange, b: TimeRange) -> (g: i64)
    requires
        within(a, 2 * TIME_LIMIT),
        within(b, TIME_LIMIT as int),
    ensures
        g == gap(a, b),
{
    if a.end <= b.start {
        b.start - a.end
    } else if b.end <= a.start {
        a.start - b.end
    } else {
        0
    }
}

/// Attribute one word span to a speaker: see [`attribution_of`].
pub fn attribute_one_reference(w: TimeRange, turns: &Vec<SpeakerTurn>) -> (r: (Option<u32>, i64))
    requires
        within(w, 2 * TIME_LIMIT),
        forall|i: int| 0 <= i < turns.len() ==> within(#[trigger] turns@[i].time, TIME_LIMIT as int),
    ensures
        (r.0, r.1 as int) == attribution_of(w, turns@),
{
    if turns.len() == 0 {
        return (None, 0);
    }
    let mut bi: usize = 0;
    let mut bov: i64 = overlap_of(w, turns[0].time);
    let mut i: usize = 1;
    while i < turns.len()
        invariant
            within(w, 2 * TIME_LIMIT),
            forall|q: int| 0 <= q < turns.len() ==> within(#[trigger] turns@[q].time, TIME_LIMIT as int),
            1 <= i <= turns.len(),
            bi == best_overlap_turn(w, turns@, i as int),
            bi < i,
            bov == overlap(w, turns@[bi as int].time),
        decreases turns.len() - i,
    {
        let ov = overlap_of(w, turns[i].time);
        if ov > bov || (ov == bov && better_turn(i, bi, turns)) {
            bi = i;
            bov = ov;
        }
        i += 1;
    }
    if bov > 0 {
        return (Some(turns[bi].speaker), bov);
    }
    let mut nearest: usize = 0;
    let mut min_gap: i64 = gap_of(w, turns[0].time);
    let mut i: usize = 1;
    while i < turns.len()
        invariant
            within(w, 2 * TIME_LIMIT),
            forall|q: int| 0 <= q < turns.len() ==> within(#[trigger] turns@[q].time, TIME_LIMIT as int),
            1 <= i <= turns.len(),
            nearest == nearest_turn(w, turns@, i as int),
            nearest < i,
            min_gap == gap(w, turns@[nearest as int].time),
        decreases turns.len() - i,
    {
        let g = gap_of(w, turns[i].time);
        if g < min_gap || (g == min_gap && better_turn(i, nearest, turns)) {
            nearest = i;
            min_gap = g;
        }
        i += 1;
    }
    (Some(turns[nearest].speaker), 0)
}

/// Whether every span starts no later than it ends.
fn spans_ordered(words: &Vec<Word>, turns: &Vec<SpeakerTurn>) -> (b: bool)
    ensures
        b == ((forall|i: int| 0 <= i < words.len() ==> ordered(#[trigger] words@[i].time)) && (forall|
            i: int,
        | 0 <= i < turns.len() ==> ordered(#[trigger] turns@[i].time))),
{
    let mut i: usize = 0;
    while i < words.len()
        invariant
            i <= words.len(),
            forall|q: int| 0 <= q < i ==> ordered(#[trigger] words@[q].time),
        decreases words.len() - i,
    {
        if words[i].time.start > words[i].time.end {
            return false;
        }
        i += 1;
    }
    let mut j: usize = 0;
    while j < turns.len()
        invariant
            j <= turns.len(),
            forall|q: int| 0 <= q < j ==> ordered(#[trigger] turns@[q].time),
        decreases turns.len() - j,
    {
        if turns[j].time.start > turns[j].time.end {
            return false;
        }
        j += 1;
    }
    true
}

/// Tag each word with a speaker by a scan over all turns.
fn tag_words_by_scan(words: &Vec<Word>, turns: &Vec<SpeakerTurn>, flags: &Vec<bool>) -> (out: Vec<
    WordAlignment,
>)
    requires
        flags.len() == words.len(),
        forall|i: int| 0 <= i < words.len() ==> within(#[trigger] words@[i].time, 2 * TIME_LIMIT),
        forall|i: int| 0 <= i < turns.len() ==> within(#[trigger] turns@[i].time, TIME_LIMIT as int),
    ensures
        out.len() == words.len(),
        forall|i: int|
            0 <= i < words.len() ==> {
                &&& (#[trigger] out@[i]).word == words@[i].word
                &&& out@[i].time == words@[i].time
                &&& out@[i].interpolated == flags@[i]
                &&& (out@[i].speaker, out@[i].overlap as int) == attribution_of(words@[i].time, turns@)
            },
{
    let mut out: Vec<WordAlignment> = Vec::new();
    let mut i: usize = 0;
    while i < words.len()
        invariant
            flags.len() == words.len(),
            forall|q: int| 0 <= q < words.len() ==> within(#[trigger] words@[q].time, 2 * TIME_LIMIT),
            forall|q: int| 0 <= q < turns.len() ==> within(#[trigger] turns@[q].time, TIME_LIMIT as int),
            i <= words.len(),
            out.len() == i,
            forall|q: int|
                0 <= q < i ==> {
                    &&& (#[trigger] out@[q]).word == words@[q].word
                    &&& out@[q].time == words@[q].time
                    &&& out@[q].interpolated == flags@[q]
                    &&& (out@[q].speaker, out@[q].overlap as int) == attribution_of(words@[q].time, turns@)
                },
        decreases words.len() - i,
    {
        let w = &words[i];
        let (speaker, ov) = attribute_one_reference(w.time, turns);
        out.push(
            WordAlignment {
                word: w.word.clone(),
                time: w.time,
                speaker,
                overlap: ov,
                interpolated: flags[i],
            },
        );
        i += 1;
    }
    out
}

/// Tag each word (already interpolated or not) with a speaker; `flags` marks
/// the words whose timestamps were interpolated.
///
/// Words and turns are joined in one sweep in start order
/// ([`attribute_words_sweep`]); where some span ends before it starts, each word is
/// instead checked against every turn. Either way each word gets
/// [`attribution_of`] its span.
pub fn tag_words(words: &Vec<Word>, turns: &Vec<SpeakerTurn>, flags: &Vec<bool>) -> (out: Vec<
    WordAlignment,
>)
    requires
        flags.len() == words.len(),
        forall|i: int| 0 <= i < words.len() ==> within(#[trigger] words@[i].time, 2 * TIME_LIMIT),
        forall|i: int| 0 <= i < turns.len() ==> within(#[trigger] turns@[i].time, TIME_LIMIT as int),
    ensures
        out.len() == words.len(),
        forall|i: int|
            0 <= i < words.len() ==> {
                &&& (#[trigger] out@[i]).word == words@[i].word
                &&& out@[i].time == words@[i].time
                &&& out@[i].interpolated == flags@[i]
                &&& (out@[i].speaker, out@[i].overlap as int) == attribution_of(words@[i].time, turns@)
            },
{
    if spans_ordered(words, turns) {
        attribute_words_sweep(words, turns, flags)
    } else {
        tag_words_by_scan(words, turns, flags)
    }
}

/// Attribute each ASR word to a diarization speaker, returning one alignment
/// per word, in the same order.
///
/// Unusable word timestamps are first interpolated from the neighbours; then
/// each word goes to the turn it overlaps most, or to the nearest turn when
/// it overlaps none (see [`attribution_of`]). With no turns every word keeps
/// no speaker.
pub fn attribute_words(words: &Vec<Word>, turns: &Vec<SpeakerTurn>) -> (out: Vec<WordAlignment>)
    requires
        forall|i: int| 0 <= i < words.len() ==> within(#[trigger] words@[i].time, TIME_LIMIT as int),
        forall|i: int| 0 <= i < turns.len() ==> within(#[trigger] turns@[i].time, TIME_LIMIT as int),
    ensures
        out.len() == words.len(),
        forall|i: int|
            0 <= i < words.len() ==> {
                &&& (#[trigger] out@[i]).word == words@[i].word
                &&& out@[i].interpolated == !usable(words@[i].time)
                &&& usable(out@[i].time)
                &&& usable(words@[i].time) ==> out@[i].time == words@[i].time
                &&& !usable(words@[i].time) ==> (out@[i].time.start as int, out@[i].time.end as int)
                    == interpolated_bounds(words@, i)
                &&& (out@[i].speaker, out@[i].overlap as int) == attribution_of(out@[i].time, turns@)
            },
{
    let (fixed, flags) = interpolate_word_timestamps(words);
    assert forall|i: int| 0 <= i < fixed.len() implies within(#[trigger] fixed@[i].time, 2 * TIME_LIMIT) by {
        assert(flags@[i] == !usable(words@[i].time));
    }
    tag_words(&fixed, turns, &flags)
}


/// Which point of a word is tested for membership in a turn when turn texts
/// are assembled. Tagging itself always uses the whole word span.
#[derive(Clone, Copy, Debug, PartialEq, Eq)]
pub enum WordAnchor {
    /// The word's start.
    Start,
    /// The word's midpoint `(start + end) / 2`.
    Mid,
    /// The word's end.
    End,
}

/// The anchor point of `w` lies in `[t.start, t.end)`.
pub open spec fn anchor_in(anchor: WordAnchor, w: TimeRange, t: TimeRange) -> bool {
    match anchor {
        WordAnchor::Start => t.start <= w.start < t.end,
        WordAnchor::Mid => 2 * t.start <= w.start + w.end < 2 * t.end,
        WordAnchor::End => t.start <= w.end < t.end,
    }
}

/// Word `w` belongs to turn `t`: attributed to its speaker, anchor inside it.
pub open spec fn member(anchor: WordAnchor, w: WordAlignment, t: SpeakerTurn) -> bool {
    w.speaker == Some(t.speaker) && anchor_in(anchor, w.time, t.time)
}

/// Word `a` comes before word `b` in time order (ties: input order).
pub open spec fn before(al: Seq<WordAlignment>, a: int, b: int) -> bool {
    al[a].time.start < al[b].time.start || (al[a].time.start == al[b].time.start && a < b)
}

/// `idx` lists exactly the words of turn `t`, in time order.
pub open spec fn turn_words(
    al: Seq<WordAlignment>,
    t: SpeakerTurn,
    anchor: WordAnchor,
    idx: Seq<usize>,
) -> bool {
    &&& forall|k: int| 0 <= k < idx.len() ==> (#[trigger] idx[k]) < al.len() && member(anchor, al[idx[k] as int], t)
    &&& forall|j: int| 0 <= j < al.len() && member(anchor, #[trigger] al[j], t) ==> idx.contains(j as usize)
    &&& forall|k1: int, k2: int| 0 <= k1 < k2 < idx.len() ==> before(al, #[trigger] idx[k1] as int, #[trigger] idx[k2] as int)
}

/// The words `al[idx[0]], al[idx[1]], ...` joined with single spaces.
pub open spec fn joined(al: Seq<WordAlignment>, idx: Seq<usize>) -> Seq<char>
    decreases idx.len(),
{
    if idx.len() == 0 {
        Seq::empty()
    } else if idx.len() == 1 {
        al[idx[0] as int].word@
    } else {
        joined(al, idx.drop_last()).push(' ') + al[idx.last() as int].word@
    }
}

/// The text of turn `t` (given its word list `idx`): `None` without words,
/// else the words joined in time order.
pub open spec fn turn_text_is(al: Seq<WordAlignment>, idx: Seq<usize>, text: Option<String>) -> bool {
    if idx.len() == 0 {
        text is None
    } else {
        text is Some && text->0@ == joined(al, idx)
    }
}

fn anchor_holds(anchor: WordAnchor, w: TimeRange, t: TimeRange) -> (b: bool)
    ensures
        b == anchor_in(anchor, w, t),
{
    match anchor {
        WordAnchor::Start => t.start <= w.start && w.start < t.end,
        WordAnchor::Mid => {
            let m: i128 = w.start as i128 + w.end as i128;
            2 * (t.start as i128) <= m && m < 2 * (t.end as i128)
        },
        WordAnchor::End => t.start <= w.end && w.end < t.end,
    }
}

proof fn lemma_insert_in_order(
    al: Seq<WordAlignment>,
    t: SpeakerTurn,
    anchor: WordAnchor,
    old_idx: Seq<usize>,
    idx: Seq<usize>,
    p: int,
    j: int,
)
    requires
        0 <= p <= old_idx.len(),
        0 <= j < al.len(),
        j <= usize::MAX,
        member(anchor, al[j], t),
        idx == old_idx.insert(p, j as usize),
        forall|k: int| 0 <= k < old_idx.len() ==> (#[trigger] old_idx[k]) < j && member(anchor, al[old_idx[k] as int], t),
        forall|q: int| 0 <= q < j && member(anchor, #[trigger] al[q], t) ==> old_idx.contains(q as usize),
        forall|k1: int, k2: int| 0 <= k1 < k2 < old_idx.len() ==> before(al, #[trigger] old_idx[k1] as int, #[trigger] old_idx[k2] as int),
        forall|k: int| 0 <= k < p ==> al[(#[trigger] old_idx[k]) as int].time.start <= al[j].time.start,
        forall|k: int| p <= k < old_idx.len() ==> al[(#[trigger] old_idx[k]) as int].time.start > al[j].time.start,
    ensures
        forall|k: int| 0 <= k < idx.len() ==> (#[trigger] idx[k]) < j + 1 && member(anchor, al[idx[k] as int], t),
        forall|q: int| 0 <= q < j + 1 && member(anchor, #[trigger] al[q], t) ==> idx.contains(q as usize),
        forall|k1: int, k2: int| 0 <= k1 < k2 < idx.len() ==> before(al, #[trigger] idx[k1] as int, #[trigger] idx[k2] as int),
{
    assert forall|k: int| 0 <= k < idx.len() implies (#[trigger] idx[k]) < j + 1 && member(anchor, al[idx[k] as int], t) by {
        if k < p {
            assert(idx[k] == old_idx[k]);
        } else if k > p {
            assert(idx[k] == old_idx[k - 1]);
        }
    }
    assert forall|q: int| 0 <= q < j + 1 && member(anchor, #[trigger] al[q], t) implies idx.contains(q as usize) by {
        if q < j {
            let k = choose|k: int| 0 <= k < old_idx.len() && old_idx[k] == q as usize;
            if k < p {
                assert(idx[k] == q as usize);
            } else {
                assert(idx[k + 1] == q as usize);
            }
        } else {
            assert(idx[p] == j as usize);
        }
    }
    assert forall|k1: int, k2: int| 0 <= k1 < k2 < idx.len() implies before(al, #[trigger] idx[k1] as int, #[trigger] idx[k2] as int) by {
        if k2 < p {
            assert(idx[k1] == old_idx[k1] && idx[k2] == old_idx[k2]);
        } else if k1 > p {
            assert(idx[k1] == old_idx[k1 - 1] && idx[k2] == old_idx[k2 - 1]);
        } else if k1 == p {
            assert(idx[k2] == old_idx[k2 - 1]);
        } else if k2 == p {
            assert(idx[k1] == old_idx[k1]);
        } else {
            assert(idx[k1] == old_idx[k1] && idx[k2] == old_idx[k2 - 1]);
        }
    }
}

/// The words of turn `t`, in time order.
fn words_of_turn(t: &SpeakerTurn, aligned: &Vec<WordAlignment>, anchor: WordAnchor) -> (idx: Vec<usize>)
    ensures
        turn_words(aligned@, *t, anchor, idx@),
{
    let mut idx: Vec<usize> = Vec::new();
    let mut j: usize = 0;
    while j < aligned.len()
        invariant
            j <= aligned.len(),
            forall|k: int| 0 <= k < idx.len() ==> (#[trigger] idx@[k]) < j && member(anchor, aligned@[idx@[k] as int], *t),
            forall|q: int| 0 <= q < j && member(anchor, #[trigger] aligned@[q], *t) ==> idx@.contains(q as usize),
            forall|k1: int, k2: int| 0 <= k1 < k2 < idx.len() ==> before(aligned@, #[trigger] idx@[k1] as int, #[trigger] idx@[k2] as int),
        decreases aligned.len() - j,
    {
        let w = &aligned[j];
        let is_member = match w.speaker {
            Some(s) => s == t.speaker && anchor_holds(anchor, w.time, t.time),
            None => false,
        };
        if is_member {
            let start = w.time.start;
            let mut p: usize = 0;
            while p < idx.len() && aligned[idx[p]].time.start <= start
                invariant
                    p <= idx.len(),
                    j < aligned.len(),
                    start == aligned@[j as int].time.start,
                    forall|k: int| 0 <= k < idx.len() ==> (#[trigger] idx@[k]) < j,
                    forall|k: int| 0 <= k < p ==> aligned@[(#[trigger] idx@[k]) as int].time.start <= start,
                decreases idx.len() - p,
            {
                p += 1;
            }
            let ghost old_idx = idx@;
            proof {
                assert forall|k: int| p <= k < old_idx.len() implies aligned@[(#[trigger] old_idx[k]) as int].time.start > start by {
                    if p < old_idx.len() {
                        assert(aligned@[old_idx[p as int] as int].time.start > start);
                        if k > p {
                            assert(before(aligned@, old_idx[p as int] as int, old_idx[k] as int));
                        }
                    }
                }
            }
            idx.insert(p, j);
            proof {
                lemma_insert_in_order(aligned@, *t, anchor, old_idx, idx@, p as int, j as int);
            }
        } else {
            proof {
                assert forall|q: int| 0 <= q < j + 1 && member(anchor, #[trigger] aligned@[q], *t) implies idx@.contains(q as usize) by {}
            }
        }
        j += 1;
    }
    idx
}

/// The words `aligned[idx[..]]` joined with single spaces.
fn join_words(aligned: &Vec<WordAlignment>, idx: &Vec<usize>) -> (text: String)
    requires
        forall|k: int| 0 <= k < idx.len() ==> (#[trigger] idx@[k]) < aligned.len(),
    ensures
        text@ == joined(aligned@, idx@),
{
    let mut text = String::new();
    let mut k: usize = 0;
    while k < idx.len()
        invariant
            k <= idx.len(),
            forall|q: int| 0 <= q < idx.len() ==> (#[trigger] idx@[q]) < aligned.len(),
            text@ == joined(aligned@, idx@.subrange(0, k as int)),
        decreases idx.len() - k,
    {
        let ghost pre = idx@.subrange(0, k as int);
        let ghost next = idx@.subrange(0, k as int + 1);
        assert(next.drop_last() =~= pre);
        if k > 0 {
            push_char(&mut text, ' ');
        }
        text.append(aligned[idx[k]].word.as_str());
        k += 1;
    }
    assert(idx@.subrange(0, idx.len() as int) =~= idx@);
    text
}

/// Assemble the text of each turn from the tagged words, testing the word
/// point chosen by `anchor` for membership.
///
/// A word belongs to a turn when it is attributed to the turn's speaker and
/// its anchor point lies in the turn's span; the turn's words are joined with
/// spaces in time order. A turn without words keeps no text.
pub fn fill_turn_text_with_anchor(
    turns: &Vec<SpeakerTurn>,
    aligned: &Vec<WordAlignment>,
    anchor: WordAnchor,
) -> (out: Vec<SpeakerTurn>)
    ensures
        out.len() == turns.len(),
        forall|i: int|
            0 <= i < turns.len() ==> {
                &&& (#[trigger] out@[i]).speaker == turns@[i].speaker
                &&& out@[i].time == turns@[i].time
                &&& out@[i].stable == turns@[i].stable
                &&& exists|idx: Seq<usize>|
                    turn_words(aligned@, turns@[i], anchor, idx) && #[trigger] turn_text_is(
                        aligned@,
                        idx,
                        out@[i].text,
                    )
            },
{
    let mut out: Vec<SpeakerTurn> = Vec::new();
    let mut i: usize = 0;
    while i < turns.len()
        invariant
            i <= turns.len(),
            out.len() == i,
            forall|q: int|
                0 <= q < i ==> {
                    &&& (#[trigger] out@[q]).speaker == turns@[q].speaker
                    &&& out@[q].time == turns@[q].time
                    &&& out@[q].stable == turns@[q].stable
                    &&& exists|idx: Seq<usize>|
                        turn_words(aligned@, turns@[q], anchor, idx) && #[trigger] turn_text_is(
                            aligned@,
                            idx,
                            out@[q].text,
                        )
                },
        decreases turns.len() - i,
    {
        let t = &turns[i];
        let idx = words_of_turn(t, aligned, anchor);
        let text = if idx.len() == 0 {
            None
        } else {
            Some(join_words(aligned, &idx))
        };
        let nt = SpeakerTurn { speaker: t.speaker, time: t.time, text, stable: t.stable };
        assert(turn_text_is(aligned@, idx@, nt.text));
        out.push(nt);
        i += 1;
    }
    out
}

/// Assemble turn texts with the midpoint anchor: a word belongs to a turn
/// when it is attributed to the turn's speaker and its midpoint lies in the
/// turn's span.
pub fn fill_turn_text(turns: &Vec<SpeakerTurn>, aligned: &Vec<WordAlignment>) -> (out: Vec<
    SpeakerTurn,
>)
    ensures
        out.len() == turns.len(),
        forall|i: int|
            0 <= i < turns.len() ==> {
                &&& (#[trigger] out@[i]).speaker == turns@[i].speaker
                &&& out@[i].time == turns@[i].time
                &&& out@[i].stable == turns@[i].stable
                &&& exists|idx: Seq<usize>|
                    turn_words(aligned@, turns@[i], WordAnchor::Mid, idx) && #[trigger] turn_text_is(
                        aligned@,
                        idx,
                        out@[i].text,
                    )
            },
{
    fill_turn_text_with_anchor(turns, aligned, WordAnchor::Mid)
}


/// A closing quote or bracket that may follow a sentence-ending mark.
pub open spec fn is_closer(c: char) -> bool {
    c == '"' || c == '\'' || c == '\u{201D}' || c == '\u{2019}' || c == ')' || c == ']' || c
        == '\u{00BB}'
}

/// Length of `s[0..n]` once trailing closers are removed.
pub open spec fn trimmed_len(s: Seq<char>, n: int) -> int
    decreases n,
{
    if n <= 0 {
        0
    } else if is_closer(s[n - 1]) {
        trimmed_len(s, n - 1)
    } else {
        n
    }
}

/// A token ends a sentence when, after trailing closing quotes and brackets,
/// its last character is `.`, `?` or `!`.
pub open spec fn ends_sentence_spec(s: Seq<char>) -> bool {
    let n = trimmed_len(s, s.len() as int);
    n > 0 && (s[n - 1] == '.' || s[n - 1] == '?' || s[n - 1] == '!')
}

/// Whether `token` ends a sentence: its last character, after trailing
/// closing quotes and brackets, is `.`, `?` or `!`.
pub fn ends_sentence(token: &str) -> (b: bool)
    ensures
        b == ends_sentence_spec(token@),
{
    let cs = chars_of(token);
    let mut n: usize = cs.len();
    while n > 0
        invariant
            n <= cs.len(),
            cs@ == token@,
            trimmed_len(cs@, cs.len() as int) == trimmed_len(cs@, n as int),
        ensures
            trimmed_len(cs@, cs.len() as int) == n as int,
        decreases n,
    {
        let c = cs[n - 1];
        if !(c == '"' || c == '\'' || c == '\u{201D}' || c == '\u{2019}' || c == ')' || c == ']'
            || c == '\u{00BB}') {
            break;
        }
        n -= 1;
    }
    n > 0 && (cs[n - 1] == '.' || cs[n - 1] == '?' || cs[n - 1] == '!')
}

/// Start of the sentence holding word `i`: just after the last earlier
/// sentence-ending word.
pub open spec fn sentence_start(ws: Seq<WordAlignment>, i: int) -> int
    decreases i,
{
    if i <= 0 {
        0
    } else if ends_sentence_spec(ws[i - 1].word@) {
        i
    } else {
        sentence_start(ws, i - 1)
    }
}

/// End (exclusive) of the sentence holding word `i`: just after the first
/// sentence-ending word at or after `i`, or the end of the words.
pub open spec fn sentence_end(ws: Seq<WordAlignment>, i: int) -> int
    decreases ws.len() - i,
{
    if i >= ws.len() {
        ws.len() as int
    } else if ends_sentence_spec(ws[i].word@) {
        i + 1
    } else {
        sentence_end(ws, i + 1)
    }
}

/// Words of `ws[s..e]` attributed to speaker `spk`.
pub open spec fn count_speaker(ws: Seq<WordAlignment>, s: int, e: int, spk: u32) -> int
    decreases e - s,
{
    if e <= s {
        0
    } else {
        count_speaker(ws, s, e - 1, spk) + if ws[e - 1].speaker == Some(spk) {
            1int
        } else {
            0int
        }
    }
}

/// Words of `ws[s..e]` attributed to some speaker.
pub open spec fn count_attributed(ws: Seq<WordAlignment>, s: int, e: int) -> int
    decreases e - s,
{
    if e <= s {
        0
    } else {
        count_attributed(ws, s, e - 1) + if ws[e - 1].speaker is Some {
            1int
        } else {
            0int
        }
    }
}

/// Among the speakers of `ws[s..k]`, the one with most words in `ws[s..e]`
/// (ties: smaller id).
pub open spec fn dominant_upto(ws: Seq<WordAlignment>, s: int, e: int, k: int) -> Option<u32>
    decreases k - s,
{
    if k <= s {
        None
    } else {
        let b = dominant_upto(ws, s, e, k - 1);
        match ws[k - 1].speaker {
            None => b,
            Some(c) => match b {
                None => Some(c),
                Some(d) => if count_speaker(ws, s, e, c) > count_speaker(ws, s, e, d) || (
                count_speaker(ws, s, e, c) == count_speaker(ws, s, e, d) && c < d) {
                    Some(c)
                } else {
                    Some(d)
                },
            },
        }
    }
}

/// The sentence `ws[s..e]` is relabelled: at least two words, some of them
/// attributed, and the dominant speaker holds more than `num / den` of the
/// attributed words.
pub open spec fn smooths(ws: Seq<WordAlignment>, s: int, e: int, num: u64, den: u64) -> bool {
    &&& e - s >= 2
    &&& count_attributed(ws, s, e) > 0
    &&& dominant_upto(ws, s, e, e) is Some
    &&& count_speaker(ws, s, e, dominant_upto(ws, s, e, e)->0) * den > num * count_attributed(ws, s, e)
}

/// The speaker of word `i` after sentence smoothing.
pub open spec fn smoothed_speaker(ws: Seq<WordAlignment>, i: int, num: u64, den: u64) -> Option<u32> {
    let s = sentence_start(ws, i);
    let e = sentence_end(ws, i);
    if smooths(ws, s, e, num, den) && ws[i].speaker is Some {
        dominant_upto(ws, s, e, e)
    } else {
        ws[i].speaker
    }
}

proof fn lemma_count_bounds(ws: Seq<WordAlignment>, s: int, e: int, spk: u32)
    ensures
        0 <= count_speaker(ws, s, e, spk) <= count_attributed(ws, s, e),
        count_attributed(ws, s, e) <= if e > s {
            e - s
        } else {
            0
        },
    decreases e - s,
{
    if e > s {
        lemma_count_bounds(ws, s, e - 1, spk);
    }
}

proof fn lemma_sentence_bounds(ws: Seq<WordAlignment>, start: int, end: int, i: int)
    requires
        0 <= start <= i < end <= ws.len(),
        start == 0 || ends_sentence_spec(ws[start - 1].word@),
        end == ws.len() || ends_sentence_spec(ws[end - 1].word@),
        forall|q: int| start <= q < end - 1 ==> !ends_sentence_spec(#[trigger] ws[q].word@),
    ensures
        sentence_start(ws, i) == start,
        sentence_end(ws, i) == end,
{
    lemma_sentence_start(ws, start, end, i);
    lemma_sentence_end(ws, start, end, i);
}

proof fn lemma_sentence_start(ws: Seq<WordAlignment>, start: int, end: int, i: int)
    requires
        0 <= start <= i < end <= ws.len(),
        start == 0 || ends_sentence_spec(ws[start - 1].word@),
        forall|q: int| start <= q < end - 1 ==> !ends_sentence_spec(#[trigger] ws[q].word@),
    ensures
        sentence_start(ws, i) == start,
    decreases i,
{
    if i > start {
        assert(!ends_sentence_spec(ws[i - 1].word@));
        lemma_sentence_start(ws, start, end, i - 1);
    }
}

proof fn lemma_sentence_end(ws: Seq<WordAlignment>, start: int, end: int, i: int)
    requires
        0 <= start <= i < end <= ws.len(),
        end == ws.len() || ends_sentence_spec(ws[end - 1].word@),
        forall|q: int| start <= q < end - 1 ==> !ends_sentence_spec(#[trigger] ws[q].word@),
    ensures
        sentence_end(ws, i) == end,
    decreases end - i,
{
    if i < end - 1 {
        assert(!ends_sentence_spec(ws[i].word@));
        lemma_sentence_end(ws, start, end, i + 1);
    } else if !ends_sentence_spec(ws[i].word@) {
        assert(sentence_end(ws, i + 1) == ws.len());
    }
}

/// Words of `ws[s..e]` attributed to `spk`, counted.
fn count_speaker_in(ws: &Vec<WordAlignment>, s: usize, e: usize, spk: u32) -> (c: u64)
    requires
        s <= e <= ws.len(),
    ensures
        c == count_speaker(ws@, s as int, e as int, spk),
{
    let mut c: u64 = 0;
    let mut k: usize = s;
    while k < e
        invariant
            s <= k <= e <= ws.len(),
            c == count_speaker(ws@, s as int, k as int, spk),
            c <= k - s,
        decreases e - k,
    {
        proof {
            lemma_count_bounds(ws@, s as int, k as int, spk);
        }
        if ws[k].speaker == Some(spk) {
            c += 1;
        }
        k += 1;
    }
    c
}

/// Relabel the attributed words of the sentence `ws[s..e]` when it smooths.
fn smooth_sentence_range(ws: &mut Vec<WordAlignment>, s: usize, e: usize, num: u64, den: u64)
    requires
        s <= e <= old(ws).len(),
    ensures
        final(ws).len() == old(ws).len(),
        forall|i: int|
            0 <= i < old(ws).len() ==> {
                &&& (#[trigger] final(ws)@[i]).word == old(ws)@[i].word
                &&& final(ws)@[i].time == old(ws)@[i].time
                &&& final(ws)@[i].overlap == old(ws)@[i].overlap
                &&& final(ws)@[i].interpolated == old(ws)@[i].interpolated
                &&& final(ws)@[i].speaker == if s <= i < e && smooths(
                    old(ws)@,
                    s as int,
                    e as int,
                    num,
                    den,
                ) && old(ws)@[i].speaker is Some {
                    dominant_upto(old(ws)@, s as int, e as int, e as int)
                } else {
                    old(ws)@[i].speaker
                }
            },
{
    let ghost ws0 = ws@;
    if e - s < 2 {
        return;
    }
    let mut attributed: u64 = 0;
    let mut dom: Option<u32> = None;
    let mut dom_count: u64 = 0;
    let mut k: usize = s;
    while k < e
        invariant
            ws@ == ws0,
            s <= k <= e <= ws.len(),
            attributed == count_attributed(ws0, s as int, k as int),
            attributed <= k - s,
            dom == dominant_upto(ws0, s as int, e as int, k as int),
            dom is Some ==> dom_count == count_speaker(ws0, s as int, e as int, dom->0),
        decreases e - k,
    {
        match ws[k].speaker {
            Some(c) => {
                attributed += 1;
                let cc = count_speaker_in(ws, s, e, c);
                match dom {
                    None => {
                        dom = Some(c);
                        dom_count = cc;
                    },
                    Some(d) => {
                        if cc > dom_count || (cc == dom_count && c < d) {
                            dom = Some(c);
                            dom_count = cc;
                        }
                    },
                }
            },
            None => {},
        }
        k += 1;
    }
    proof {
        lemma_count_bounds(ws0, s as int, e as int, 0);
    }
    match dom {
        None => {},
        Some(d) => {
            proof {
                lemma_count_bounds(ws0, s as int, e as int, d);
            }
            assert((dom_count as u128) * (den as u128) <= 0xFFFF_FFFF_FFFF_FFFFu128 * 0xFFFF_FFFF_FFFF_FFFFu128) by (nonlinear_arith);
            assert((num as u128) * (attributed as u128) <= 0xFFFF_FFFF_FFFF_FFFFu128 * 0xFFFF_FFFF_FFFF_FFFFu128) by (nonlinear_arith);
            let lhs: u128 = (dom_count as u128) * (den as u128);
            let rhs: u128 = (num as u128) * (attributed as u128);
            if attributed > 0 && lhs > rhs {
                let mut j: usize = s;
                while j < e
                    invariant
                        s <= j <= e <= ws.len(),
                        ws.len() == ws0.len(),
                        smooths(ws0, s as int, e as int, num, den),
                        dom == dominant_upto(ws0, s as int, e as int, e as int),
                        dom == Some(d),
                        forall|i: int|
                            0 <= i < ws0.len() ==> {
                                &&& (#[trigger] ws@[i]).word == ws0[i].word
                                &&& ws@[i].time == ws0[i].time
                                &&& ws@[i].overlap == ws0[i].overlap
                                &&& ws@[i].interpolated == ws0[i].interpolated
                                &&& ws@[i].speaker == if s <= i < j && ws0[i].speaker is Some {
                                    Some(d)
                                } else {
                                    ws0[i].speaker
                                }
                            },
                    decreases e - j,
                {
                    if ws[j].speaker.is_some() {
                        let nw = WordAlignment {
                            word: ws[j].word.clone(),
                            time: ws[j].time,
                            speaker: Some(d),
                            overlap: ws[j].overlap,
                            interpolated: ws[j].interpolated,
                        };
                        ws.set(j, nw);
                    }
                    j += 1;
                }
            }
        },
    }
}

proof fn lemma_count_same(a: Seq<WordAlignment>, b: Seq<WordAlignment>, s: int, e: int, k: int, spk: u32)
    requires
        0 <= s,
        k <= e <= a.len(),
        e <= b.len(),
        forall|i: int| s <= i < e ==> #[trigger] a[i] == b[i],
    ensures
        count_speaker(a, s, k, spk) == count_speaker(b, s, k, spk),
        count_attributed(a, s, k) == count_attributed(b, s, k),
    decreases k - s,
{
    if k > s {
        lemma_count_same(a, b, s, e, k - 1, spk);
        assert(a[k - 1] == b[k - 1]);
    }
}

proof fn lemma_dominant_same(a: Seq<WordAlignment>, b: Seq<WordAlignment>, s: int, e: int, k: int)
    requires
        0 <= s,
        k <= e <= a.len(),
        e <= b.len(),
        forall|i: int| s <= i < e ==> #[trigger] a[i] == b[i],
    ensures
        dominant_upto(a, s, e, k) == dominant_upto(b, s, e, k),
    decreases k - s,
{
    if k > s {
        lemma_dominant_same(a, b, s, e, k - 1);
        assert(a[k - 1] == b[k - 1]);
        match a[k - 1].speaker {
            Some(c) => {
                lemma_count_same(a, b, s, e, e, c);
                match dominant_upto(a, s, e, k - 1) {
                    Some(d) => {
                        lemma_count_same(a, b, s, e, e, d);
                    },
                    None => {},
                }
            },
            None => {},
        }
    }
}

/// Smoothing a sentence looks at the words of that sentence only.
proof fn lemma_range_views(
    a: Seq<WordAlignment>,
    b: Seq<WordAlignment>,
    s: int,
    e: int,
    num: u64,
    den: u64,
)
    requires
        0 <= s <= e <= a.len(),
        e <= b.len(),
        forall|i: int| s <= i < e ==> #[trigger] a[i] == b[i],
    ensures
        smooths(a, s, e, num, den) == smooths(b, s, e, num, den),
        dominant_upto(a, s, e, e) == dominant_upto(b, s, e, e),
{
    lemma_dominant_same(a, b, s, e, e);
    lemma_count_same(a, b, s, e, e, 0);
    match dominant_upto(a, s, e, e) {
        Some(d) => {
            lemma_count_same(a, b, s, e, e, d);
        },
        None => {},
    }
}

/// Relabel mid-sentence speaker changes: in each sentence of at least two
/// words whose dominant speaker holds more than `num / den` of the attributed
/// words, every attributed word goes to that speaker.
pub fn apply_sentence_smoothing(ws: &mut Vec<WordAlignment>, num: u64, den: u64)
    ensures
        final(ws).len() == old(ws).len(),
        forall|i: int|
            0 <= i < old(ws).len() ==> {
                &&& (#[trigger] final(ws)@[i]).word == old(ws)@[i].word
                &&& final(ws)@[i].time == old(ws)@[i].time
                &&& final(ws)@[i].overlap == old(ws)@[i].overlap
                &&& final(ws)@[i].interpolated == old(ws)@[i].interpolated
                &&& final(ws)@[i].speaker == smoothed_speaker(old(ws)@, i, num, den)
            },
{
    let ghost ws0 = ws@;
    let n = ws.len();
    let mut start: usize = 0;
    while start < n
        invariant
            n == ws.len(),
            ws.len() == ws0.len(),
            start <= n,
            start == 0 || start == n || ends_sentence_spec(ws0[start - 1].word@),
            forall|i: int|
                0 <= i < ws0.len() ==> {
                    &&& (#[trigger] ws@[i]).word == ws0[i].word
                    &&& ws@[i].time == ws0[i].time
                    &&& ws@[i].overlap == ws0[i].overlap
                    &&& ws@[i].interpolated == ws0[i].interpolated
                    &&& ws@[i].speaker == if i < start {
                        smoothed_speaker(ws0, i, num, den)
                    } else {
                        ws0[i].speaker
                    }
                },
        decreases n - start,
    {
        let mut end: usize = start;
        loop
            invariant_except_break
                forall|q: int| start <= q < end ==> !ends_sentence_spec(#[trigger] ws0[q].word@),
            invariant
                n == ws.len(),
                ws.len() == ws0.len(),
                start <= end <= n,
                start < n,
                forall|i: int| 0 <= i < ws0.len() ==> (#[trigger] ws@[i]).word == ws0[i].word,
            ensures
                start < end <= n,
                end == n || ends_sentence_spec(ws0[end - 1].word@),
                forall|q: int| start <= q < end - 1 ==> !ends_sentence_spec(#[trigger] ws0[q].word@),
            decreases n - end,
        {
            if end >= n {
                break;
            }
            let boundary = ends_sentence(ws[end].word.as_str());
            end += 1;
            if boundary {
                break;
            }
        }
        let ghost before = ws@;
        proof {
            assert forall|i: int| start <= i < end implies #[trigger] before[i] == ws0[i] by {
                assert(before[i].word == ws0[i].word);
            }
            lemma_range_views(before, ws0, start as int, end as int, num, den);
        }
        smooth_sentence_range(ws, start, end, num, den);
        proof {
            assert forall|i: int| 0 <= i < ws0.len() implies (#[trigger] ws@[i]).speaker == if i < end {
                smoothed_speaker(ws0, i, num, den)
            } else {
                ws0[i].speaker
            } by {
                if start <= i < end {
                    lemma_sentence_bounds(ws0, start as int, end as int, i);
                }
            }
        }
        start = end;
    }
}


/// A non-negative fraction `num / den`.
#[derive(Clone, Copy, Debug, PartialEq, Eq)]
pub struct Ratio {
    pub num: u64,
    pub den: u64,
}

/// Configuration of the word-to-speaker join.
#[derive(Clone, Copy, Debug, PartialEq, Eq)]
pub struct AttributionConfig {
    /// Point of each word tested when turn texts are assembled.
    pub word_anchor: WordAnchor,
    /// Apply sentence-level speaker smoothing after tagging.
    pub sentence_smoothing: bool,
    /// Dominant-speaker share a sentence must exceed (strictly) to be
    /// relabelled.
    pub smoothing_threshold: Ratio,
    /// Interpolate unusable word timestamps before tagging.
    pub interpolate_timestamps: bool,
}

impl Default for AttributionConfig {
    /// Midpoint anchor, no smoothing (threshold one half), interpolation on.
    fn default() -> (c: Self)
        ensures
            c.word_anchor == WordAnchor::Mid,
            !c.sentence_smoothing,
            c.smoothing_threshold == (Ratio { num: 1, den: 2 }),
            c.interpolate_timestamps,
    {
        AttributionConfig {
            word_anchor: WordAnchor::Mid,
            sentence_smoothing: false,
            smoothing_threshold: Ratio { num: 1, den: 2 },
            interpolate_timestamps: true,
        }
    }
}

/// `tagged` is the tagging of `words` against `turns`, with or without the
/// interpolation of unusable timestamps first.
pub open spec fn tagging(
    words: Seq<Word>,
    turns: Seq<SpeakerTurn>,
    interpolate: bool,
    tagged: Seq<WordAlignment>,
) -> bool {
    &&& tagged.len() == words.len()
    &&& forall|i: int|
        0 <= i < words.len() ==> {
            &&& (#[trigger] tagged[i]).word == words[i].word
            &&& (tagged[i].speaker, tagged[i].overlap as int) == attribution_of(tagged[i].time, turns)
            &&& if interpolate {
                &&& tagged[i].interpolated == !usable(words[i].time)
                &&& usable(words[i].time) ==> tagged[i].time == words[i].time
                &&& !usable(words[i].time) ==> (tagged[i].time.start as int, tagged[i].time.end as int)
                    == interpolated_bounds(words, i)
            } else {
                &&& !tagged[i].interpolated
                &&& tagged[i].time == words[i].time
            }
        }
}

/// `out` is `tagged` with, when `smoothing`, every speaker replaced by its
/// smoothed speaker.
pub open spec fn smoothed_as(
    tagged: Seq<WordAlignment>,
    smoothing: bool,
    threshold: Ratio,
    out: Seq<WordAlignment>,
) -> bool {
    &&& out.len() == tagged.len()
    &&& forall|i: int|
        0 <= i < tagged.len() ==> {
            &&& (#[trigger] out[i]).word == tagged[i].word
            &&& out[i].time == tagged[i].time
            &&& out[i].overlap == tagged[i].overlap
            &&& out[i].interpolated == tagged[i].interpolated
            &&& out[i].speaker == if smoothing {
                smoothed_speaker(tagged, i, threshold.num, threshold.den)
            } else {
                tagged[i].speaker
            }
        }
}

/// Attribute each word to a speaker under `config`: interpolate unusable
/// timestamps (when enabled), tag each word (see [`attribution_of`]), then
/// smooth mid-sentence speaker flips (when enabled).
pub fn attribute_words_with_config(
    words: &Vec<Word>,
    turns: &Vec<SpeakerTurn>,
    config: &AttributionConfig,
) -> (out: Vec<WordAlignment>)
    requires
        forall|i: int| 0 <= i < words.len() ==> within(#[trigger] words@[i].time, TIME_LIMIT as int),
        forall|i: int| 0 <= i < turns.len() ==> within(#[trigger] turns@[i].time, TIME_LIMIT as int),
    ensures
        exists|tagged: Seq<WordAlignment>|
            tagging(words@, turns@, config.interpolate_timestamps, tagged) && #[trigger] smoothed_as(
                tagged,
                config.sentence_smoothing,
                config.smoothing_threshold,
                out@,
            ),
{
    let mut aligned = if config.interpolate_timestamps {
        attribute_words(words, turns)
    } else {
        let mut flags: Vec<bool> = Vec::new();
        let mut i: usize = 0;
        while i < words.len()
            invariant
                i <= words.len(),
                flags.len() == i,
                forall|q: int| 0 <= q < i ==> !(#[trigger] flags@[q]),
            decreases words.len() - i,
        {
            flags.push(false);
            i += 1;
        }
        assert forall|q: int| 0 <= q < words.len() implies within(#[trigger] words@[q].time, 2 * TIME_LIMIT) by {}
        tag_words(words, turns, &flags)
    };
    let ghost tagged = aligned@;
    assert(tagging(words@, turns@, config.interpolate_timestamps, tagged));
    if config.sentence_smoothing {
        apply_sentence_smoothing(&mut aligned, config.smoothing_threshold.num, config.smoothing_threshold.den);
    }
    assert(smoothed_as(tagged, config.sentence_smoothing, config.smoothing_threshold, aligned@));
    aligned
}

/// Assemble turn texts with the word point chosen by `config.word_anchor`.
pub fn fill_turn_text_with_config(
    turns: &Vec<SpeakerTurn>,
    aligned: &Vec<WordAlignment>,
    config: &AttributionConfig,
) -> (out: Vec<SpeakerTurn>)
    ensures
        out.len() == turns.len(),
        forall|i: int|
            0 <= i < turns.len() ==> {
                &&& (#[trigger] out@[i]).speaker == turns@[i].speaker
                &&& out@[i].time == turns@[i].time
                &&& out@[i].stable == turns@[i].stable
                &&& exists|idx: Seq<usize>|
                    turn_words(aligned@, turns@[i], config.word_anchor, idx) && #[trigger] turn_text_is(
                        aligned@,
                        idx,
                        out@[i].text,
                    )
            },
{
    fill_turn_text_with_anchor(turns, aligned, config.word_anchor)
}

/// Words tagged with speakers, and the turns with their texts filled in.
#[derive(Clone, Debug, PartialEq, Eq)]
pub struct WhoSaidWhat {
    /// Every word with its attributed speaker, in input order.
    pub words: Vec<WordAlignment>,
    /// The diarization turns with the text of their words.
    pub turns: Vec<SpeakerTurn>,
}

/// Join words to turns under `config`: attribute each word, then fill each
/// turn's text from the attributed words.
pub fn attribute_and_fill_with_config(
    words: &Vec<Word>,
    turns: &Vec<SpeakerTurn>,
    config: &AttributionConfig,
) -> (r: WhoSaidWhat)
    requires
        forall|i: int| 0 <= i < words.len() ==> within(#[trigger] words@[i].time, TIME_LIMIT as int),
        forall|i: int| 0 <= i < turns.len() ==> within(#[trigger] turns@[i].time, TIME_LIMIT as int),
    ensures
        exists|tagged: Seq<WordAlignment>|
            tagging(words@, turns@, config.interpolate_timestamps, tagged) && #[trigger] smoothed_as(
                tagged,
                config.sentence_smoothing,
                config.smoothing_threshold,
                r.words@,
            ),
        r.turns.len() == turns.len(),
        forall|i: int|
            0 <= i < turns.len() ==> {
                &&& (#[trigger] r.turns@[i]).speaker == turns@[i].speaker
                &&& r.turns@[i].time == turns@[i].time
                &&& r.turns@[i].stable == turns@[i].stable
                &&& exists|idx: Seq<usize>|
                    turn_words(r.words@, turns@[i], config.word_anchor, idx) && #[trigger] turn_text_is(
                        r.words@,
                        idx,
                        r.turns@[i].text,
                    )
            },
{
    let aligned = attribute_words_with_config(words, turns, config);
    let filled = fill_turn_text_with_config(turns, &aligned, config);
    let r = WhoSaidWhat { words: aligned, turns: filled };
    proof {
        let tagged = choose|tagged: Seq<WordAlignment>|
            tagging(words@, turns@, config.interpolate_timestamps, tagged) && #[trigger] smoothed_as(
                tagged,
                config.sentence_smoothing,
                config.smoothing_threshold,
                aligned@,
            );
        assert(r.words@ == aligned@);
        assert(smoothed_as(tagged, config.sentence_smoothing, config.smoothing_threshold, r.words@));
        assert forall|i: int| 0 <= i < turns.len() implies {
            &&& (#[trigger] r.turns@[i]).speaker == turns@[i].speaker
            &&& r.turns@[i].time == turns@[i].time
            &&& r.turns@[i].stable == turns@[i].stable
            &&& exists|idx: Seq<usize>|
                turn_words(r.words@, turns@[i], config.word_anchor, idx) && #[trigger] turn_text_is(
                    r.words@,
                    idx,
                    r.turns@[i].text,
                )
        } by {
            assert(filled@[i] == r.turns@[i]);
            let idx = choose|idx: Seq<usize>|
                turn_words(aligned@, turns@[i], config.word_anchor, idx) && #[trigger] turn_text_is(
                    aligned@,
                    idx,
                    filled@[i].text,
                );
            assert(turn_text_is(r.words@, idx, r.turns@[i].text));
        }
    }
    r
}

/// Join words to turns with the default configuration: interpolation on,
/// no smoothing, midpoint anchor.
pub fn attribute_and_fill(words: &Vec<Word>, turns: &Vec<SpeakerTurn>) -> (r: WhoSaidWhat)
    requires
        forall|i: int| 0 <= i < words.len() ==> within(#[trigger] words@[i].time, TIME_LIMIT as int),
        forall|i: int| 0 <= i < turns.len() ==> within(#[trigger] turns@[i].time, TIME_LIMIT as int),
    ensures
        exists|tagged: Seq<WordAlignment>|
            tagging(words@, turns@, true, tagged) && #[trigger] smoothed_as(
                tagged,
                false,
                Ratio { num: 1, den: 2 },
                r.words@,
            ),
        r.turns.len() == turns.len(),
        forall|i: int|
            0 <= i < turns.len() ==> {
                &&& (#[trigger] r.turns@[i]).speaker == turns@[i].speaker
                &&& r.turns@[i].time == turns@[i].time
                &&& r.turns@[i].stable == turns@[i].stable
                &&& exists|idx: Seq<usize>|
                    turn_words(r.words@, turns@[i], WordAnchor::Mid, idx) && #[trigger] turn_text_is(
                        r.words@,
                        idx,
                        r.turns@[i].text,
                    )
            },
{
    let config = AttributionConfig::default();
    attribute_and_fill_with_config(words, turns, &config)
}


/// A word goes to a turn it overlaps most: no turn overlaps it more than the
/// chosen one.
pub proof fn lemma_best_overlap_is_maximal(w: TimeRange, turns: Seq<SpeakerTurn>, k: int)
    requires
        1 <= k <= turns.len(),
    ensures
        0 <= best_overlap_turn(w, turns, k) < k,
        forall|j: int| 0 <= j < k ==> overlap(w, (#[trigger] turns[j]).time) <= overlap(
            w,
            turns[best_overlap_turn(w, turns, k)].time,
        ),
    decreases k,
{
    if k > 1 {
        lemma_best_overlap_is_maximal(w, turns, k - 1);
    }
}

/// A word that overlaps no turn goes to a nearest turn: no turn is closer
/// than the chosen one.
pub proof fn lemma_nearest_is_minimal(w: TimeRange, turns: Seq<SpeakerTurn>, k: int)
    requires
        1 <= k <= turns.len(),
    ensures
        0 <= nearest_turn(w, turns, k) < k,
        forall|j: int| 0 <= j < k ==> gap(w, turns[nearest_turn(w, turns, k)].time) <= gap(
            w,
            (#[trigger] turns[j]).time,
        ),
    decreases k,
{
    if k > 1 {
        lemma_nearest_is_minimal(w, turns, k - 1);
    }
}

/// Attribution is total: with at least one turn every word gets a speaker,
/// one of the turns' speakers; the speaker's turn overlaps the word at least
/// as much as any other turn, and when no turn overlaps the word it is at
/// least as near as any other.
pub proof fn lemma_attribution_total(w: TimeRange, turns: Seq<SpeakerTurn>)
    ensures
        turns.len() == 0 <==> attribution_of(w, turns).0 is None,
        turns.len() > 0 ==> exists|b: int|
            0 <= b < turns.len() && (#[trigger] turns[b]).speaker == attribution_of(w, turns).0->0
                && if attribution_of(w, turns).1 > 0 {
                attribution_of(w, turns).1 == overlap(w, turns[b].time) && forall|j: int|
                    0 <= j < turns.len() ==> overlap(w, (#[trigger] turns[j]).time) <= overlap(
                        w,
                        turns[b].time,
                    )
            } else {
                (forall|j: int| 0 <= j < turns.len() ==> overlap(w, (#[trigger] turns[j]).time) == 0)
                    && forall|j: int|
                    0 <= j < turns.len() ==> gap(w, turns[b].time) <= gap(w, (#[trigger] turns[j]).time)
            },
{
    if turns.len() > 0 {
        let n = turns.len() as int;
        lemma_best_overlap_is_maximal(w, turns, n);
        lemma_nearest_is_minimal(w, turns, n);
        let b = best_overlap_turn(w, turns, n);
        if overlap(w, turns[b].time) > 0 {
            assert(turns[b].speaker == attribution_of(w, turns).0->0);
        } else {
            let c = nearest_turn(w, turns, n);
            assert(turns[c].speaker == attribution_of(w, turns).0->0);
            assert forall|j: int| 0 <= j < turns.len() implies overlap(w, (#[trigger] turns[j]).time) == 0 by {
                assert(overlap(w, turns[j].time) <= overlap(w, turns[b].time));
            }
        }
    }
}

/// Smoothing only relabels: an attributed word stays attributed (possibly
/// to another speaker of its sentence) and an unattributed word stays
/// unattributed.
pub proof fn lemma_smoothing_keeps_attribution(ws: Seq<WordAlignment>, i: int, num: u64, den: u64)
    requires
        0 <= i < ws.len(),
    ensures
        (smoothed_speaker(ws, i, num, den) is Some) == (ws[i].speaker is Some),
{
}


/// The tagging of words against turns is determined by them.
proof fn lemma_tagging_unique(
    words: Seq<Word>,
    turns: Seq<SpeakerTurn>,
    interpolate: bool,
    t1: Seq<WordAlignment>,
    t2: Seq<WordAlignment>,
)
    requires
        tagging(words, turns, interpolate, t1),
        tagging(words, turns, interpolate, t2),
    ensures
        t1 == t2,
{
    assert forall|i: int| 0 <= i < t1.len() implies #[trigger] t1[i] == t2[i] by {
        assert(t1[i].time == t2[i].time);
        assert((t1[i].speaker, t1[i].overlap as int) == (t2[i].speaker, t2[i].overlap as int));
    }
    assert(t1 =~= t2);
}

/// Sentence smoothing relabels the unsmoothed attribution and changes
/// nothing else: run with smoothing on (`out1`) and off (`out2`), other
/// settings equal, the words, times, overlaps and interpolation flags agree,
/// and each speaker of `out1` is the smoothed speaker of `out2` at that word.
pub proof fn lemma_smoothing_relabels_unsmoothed(
    words: Seq<Word>,
    turns: Seq<SpeakerTurn>,
    interpolate: bool,
    threshold: Ratio,
    out1: Seq<WordAlignment>,
    out2: Seq<WordAlignment>,
)
    requires
        exists|tagged: Seq<WordAlignment>|
            tagging(words, turns, interpolate, tagged) && #[trigger] smoothed_as(tagged, true, threshold, out1),
        exists|tagged: Seq<WordAlignment>|
            tagging(words, turns, interpolate, tagged) && #[trigger] smoothed_as(tagged, false, threshold, out2),
    ensures
        out1.len() == out2.len(),
        forall|i: int|
            0 <= i < out1.len() ==> {
                &&& (#[trigger] out1[i]).word == out2[i].word
                &&& out1[i].time == out2[i].time
                &&& out1[i].overlap == out2[i].overlap
                &&& out1[i].interpolated == out2[i].interpolated
                &&& out1[i].speaker == smoothed_speaker(out2, i, threshold.num, threshold.den)
            },
{
    let t1 = choose|tagged: Seq<WordAlignment>|
        tagging(words, turns, interpolate, tagged) && #[trigger] smoothed_as(tagged, true, threshold, out1);
    let t2 = choose|tagged: Seq<WordAlignment>|
        tagging(words, turns, interpolate, tagged) && #[trigger] smoothed_as(tagged, false, threshold, out2);
    lemma_tagging_unique(words, turns, interpolate, t1, t2);
    assert forall|i: int| 0 <= i < out2.len() implies #[trigger] out2[i] == t2[i] by {}
    assert(out2 =~= t2);
}

} // verus!
