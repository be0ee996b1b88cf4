//! The linear sweep behind word tagging.
//!
//! Turns and words are each visited in start-time order. A pointer into the
//! turns skips every turn that ends before the current word starts (no later
//! word can overlap it either), remembering the latest-ending one as the
//! nearest turn on the left. Each word then only looks at the turns from the
//! pointer until the first that starts after the word ends. When no span
//! ends before it starts, the result is the same as scanning every turn for
//! every word ([`attribution_of`]).

use vstd::prelude::*;
use crate::attribution::{
    attribution_of, beats, best_overlap_turn, better_turn, gap, gap_of, nearest_turn, overlap,
    overlap_of, within, SpeakerTurn, Word, WordAlignment, TIME_LIMIT,
};
use crate::time::TimeRange;

verus! {

/// Index `a` comes before index `b`: smaller key, ties by index.
pub open spec fn key_before(keys: Seq<i64>, a: int, b: int) -> bool {
    keys[a] < keys[b] || (keys[a] == keys[b] && a < b)
}

/// `order` lists the indices of `keys` sorted by key, ties by index.
pub open spec fn sorted_order(keys: Seq<i64>, order: Seq<usize>) -> bool {
    &&& order.len() == keys.len()
    &&& forall|p: int| 0 <= p < order.len() ==> (#[trigger] order[p] as int) < keys.len()
    &&& forall|i: usize| (i as int) < keys.len() ==> #[trigger] order.contains(i)
    &&& forall|p: int, q: int|
        0 <= p < q < order.len() ==> key_before(keys, #[trigger] order[p] as int, #[trigger] order[q] as int)
}

proof fn lemma_insert_sorted(keys: Seq<i64>, old_order: Seq<usize>, order: Seq<usize>, pos: int, j: int)
    requires
        0 <= pos <= old_order.len(),
        0 <= j < keys.len(),
        j <= usize::MAX,
        order == old_order.insert(pos, j as usize),
        forall|p: int| 0 <= p < old_order.len() ==> (#[trigger] old_order[p] as int) < j,
        forall|i: usize| (i as int) < j ==> #[trigger] old_order.contains(i),
        forall|p: int, q: int|
            0 <= p < q < old_order.len() ==> key_before(keys, #[trigger] old_order[p] as int, #[trigger] old_order[q] as int),
        forall|p: int| 0 <= p < pos ==> keys[(#[trigger] old_order[p]) as int] <= keys[j],
        forall|p: int| pos <= p < old_order.len() ==> keys[(#[trigger] old_order[p]) as int] > keys[j],
    ensures
        forall|p: int| 0 <= p < order.len() ==> (#[trigger] order[p] as int) < j + 1,
        forall|i: usize| (i as int) < j + 1 ==> #[trigger] order.contains(i),
        forall|p: int, q: int|
            0 <= p < q < order.len() ==> key_before(keys, #[trigger] order[p] as int, #[trigger] order[q] as int),
{
    assert forall|p: int| 0 <= p < order.len() implies (#[trigger] order[p] as int) < j + 1 by {
        if p < pos {
            assert(order[p] == old_order[p]);
        } else if p > pos {
            assert(order[p] == old_order[p - 1]);
        }
    }
    assert forall|i: usize| (i as int) < j + 1 implies #[trigger] order.contains(i) by {
        if (i as int) < j {
            assert(old_order.contains(i));
            let q = choose|q: int| 0 <= q < old_order.len() && old_order[q] == i;
            if q < pos {
                assert(order[q] == i);
            } else {
                assert(order[q + 1] == i);
            }
        } else {
            assert(order[pos] == j as usize);
        }
    }
    assert forall|p: int, q: int|
        0 <= p < q < order.len() implies key_before(keys, #[trigger] order[p] as int, #[trigger] order[q] as int) by {
        if q < pos {
            assert(order[p] == old_order[p] && order[q] == old_order[q]);
        } else if p > pos {
            assert(order[p] == old_order[p - 1] && order[q] == old_order[q - 1]);
        } else if p == pos {
            assert(order[q] == old_order[q - 1]);
        } else if q == pos {
            assert(order[p] == old_order[p]);
        } else {
            assert(order[p] == old_order[p] && order[q] == old_order[q - 1]);
        }
    }
}

/// The indices of `keys` sorted by key, ties by index (a stable sort).
pub fn order_by_key(keys: &Vec<i64>) -> (order: Vec<usize>)
    ensures
        sorted_order(keys@, order@),
{
    let mut order: Vec<usize> = Vec::new();
    let mut j: usize = 0;
    while j < keys.len()
        invariant
            j <= keys.len(),
            order.len() == j,
            forall|p: int| 0 <= p < order.len() ==> (#[trigger] order@[p] as int) < j,
            forall|i: usize| (i as int) < j ==> #[trigger] order@.contains(i),
            forall|p: int, q: int|
                0 <= p < q < order.len() ==> key_before(keys@, #[trigger] order@[p] as int, #[trigger] order@[q] as int),
        decreases keys.len() - j,
    {
        let kj = keys[j];
        let mut pos: usize = order.len();
        while pos > 0 && keys[order[pos - 1]] > kj
            invariant
                pos <= order.len(),
                j < keys.len(),
                kj == keys@[j as int],
                forall|p: int| 0 <= p < order.len() ==> (#[trigger] order@[p] as int) < j,
                forall|p: int| pos <= p < order.len() ==> keys@[(#[trigger] order@[p]) as int] > kj,
            decreases pos,
        {
            pos -= 1;
        }
        let ghost old_order = order@;
        proof {
            assert forall|p: int| 0 <= p < pos implies keys@[(#[trigger] old_order[p]) as int] <= kj by {
                if pos > 0 {
                    assert(keys@[old_order[pos - 1] as int] <= kj);
                    if p < pos - 1 {
                        assert(key_before(keys@, old_order[p] as int, old_order[pos - 1] as int));
                    }
                }
            }
        }
        order.insert(pos, j);
        proof {
            lemma_insert_sorted(keys@, old_order, order@, pos as int, j as int);
        }
        j += 1;
    }
    order
}

/// Turn `a` overlaps `w` more than turn `b`, or as much and beats it.
pub open spec fn ov_better(w: TimeRange, turns: Seq<SpeakerTurn>, a: int, b: int) -> bool {
    overlap(w, turns[a].time) > overlap(w, turns[b].time) || (overlap(w, turns[a].time) == overlap(
        w,
        turns[b].time,
    ) && beats(turns, a, b))
}

/// Turn `a` is nearer to `w` than turn `b`, or as near and beats it.
pub open spec fn gap_better(w: TimeRange, turns: Seq<SpeakerTurn>, a: int, b: int) -> bool {
    gap(w, turns[a].time) < gap(w, turns[b].time) || (gap(w, turns[a].time) == gap(w, turns[b].time)
        && beats(turns, a, b))
}

/// Turn `a` ends later than turn `b`, or as late and beats it.
pub open spec fn end_better(turns: Seq<SpeakerTurn>, a: int, b: int) -> bool {
    turns[a].time.end > turns[b].time.end || (turns[a].time.end == turns[b].time.end && beats(
        turns,
        a,
        b,
    ))
}

proof fn lemma_best_overlap_is_best(w: TimeRange, turns: Seq<SpeakerTurn>, k: int)
    requires
        1 <= k <= turns.len(),
    ensures
        0 <= best_overlap_turn(w, turns, k) < k,
        forall|j: int| 0 <= j < k && j != best_overlap_turn(w, turns, k) ==> #[trigger] ov_better(
            w,
            turns,
            best_overlap_turn(w, turns, k),
            j,
        ),
    decreases k,
{
    if k > 1 {
        lemma_best_overlap_is_best(w, turns, k - 1);
        let b = best_overlap_turn(w, turns, k - 1);
        let i = k - 1;
        let r = best_overlap_turn(w, turns, k);
        assert forall|j: int| 0 <= j < k && j != r implies #[trigger] ov_better(w, turns, r, j) by {
            if r == i {
                if j != b {
                    assert(ov_better(w, turns, b, j));
                }
            } else {
                if j == i {
                    assert(!ov_better(w, turns, i, b));
                }
            }
        }
    }
}

proof fn lemma_nearest_is_best(w: TimeRange, turns: Seq<SpeakerTurn>, k: int)
    requires
        1 <= k <= turns.len(),
    ensures
        0 <= nearest_turn(w, turns, k) < k,
        forall|j: int| 0 <= j < k && j != nearest_turn(w, turns, k) ==> #[trigger] gap_better(
            w,
            turns,
            nearest_turn(w, turns, k),
            j,
        ),
    decreases k,
{
    if k > 1 {
        lemma_nearest_is_best(w, turns, k - 1);
        let b = nearest_turn(w, turns, k - 1);
        let i = k - 1;
        let r = nearest_turn(w, turns, k);
        assert forall|j: int| 0 <= j < k && j != r implies #[trigger] gap_better(w, turns, r, j) by {
            if r == i {
                if j != b {
                    assert(gap_better(w, turns, b, j));
                }
            } else {
                if j == i {
                    assert(!gap_better(w, turns, i, b));
                }
            }
        }
    }
}


/// The start times of the turns, in turn order.
pub open spec fn turn_starts(turns: Seq<SpeakerTurn>) -> Seq<i64> {
    Seq::new(turns.len(), |i: int| turns[i].time.start)
}

/// Every span starts no later than it ends.
pub open spec fn ordered(t: TimeRange) -> bool {
    t.start <= t.end
}

/// What the sweep knows of the turns skipped before word `w`: the first
/// `left` turns in start order all end by the word's start, and `best_left`
/// is the one of them ending last (ties: [`beats`]).
pub open spec fn skipped_ok(
    w: TimeRange,
    turns: Seq<SpeakerTurn>,
    order: Seq<usize>,
    left: int,
    best_left: Option<usize>,
) -> bool {
    &&& 0 <= left <= order.len()
    &&& forall|p: int| 0 <= p < left ==> turns[(#[trigger] order[p]) as int].time.end <= w.start
    &&& left > 0 ==> best_left is Some
    &&& best_left matches Some(b) ==> {
        &&& (b as int) < turns.len()
        &&& turns[b as int].time.end <= w.start
        &&& forall|p: int|
            0 <= p < left && #[trigger] order[p] != b ==> end_better(turns, b as int, order[p] as int)
    }
}

/// The turns are well placed for the sweep: bounded, ordered spans, listed by
/// `order` in start order.
pub open spec fn turns_ready(turns: Seq<SpeakerTurn>, order: Seq<usize>) -> bool {
    &&& forall|i: int|
        0 <= i < turns.len() ==> within(#[trigger] turns[i].time, TIME_LIMIT as int) && ordered(
            turns[i].time,
        )
    &&& sorted_order(turn_starts(turns), order)
}

proof fn lemma_order_covers(keys: Seq<i64>, order: Seq<usize>, i: int) -> (p: int)
    requires
        sorted_order(keys, order),
        0 <= i < keys.len(),
        i <= usize::MAX,
    ensures
        0 <= p < order.len(),
        order[p] as int == i,
{
    assert(order.contains(i as usize));
    choose|p: int| 0 <= p < order.len() && order[p] == i as usize
}

proof fn lemma_best_unique_overlap(w: TimeRange, turns: Seq<SpeakerTurn>, b: int)
    requires
        0 <= b < turns.len(),
        forall|i: int| 0 <= i < turns.len() && i != b ==> #[trigger] ov_better(w, turns, b, i),
    ensures
        best_overlap_turn(w, turns, turns.len() as int) == b,
{
    lemma_best_overlap_is_best(w, turns, turns.len() as int);
    let r = best_overlap_turn(w, turns, turns.len() as int);
    if r != b {
        assert(ov_better(w, turns, b, r));
        assert(ov_better(w, turns, r, b));
    }
}

proof fn lemma_best_unique_gap(w: TimeRange, turns: Seq<SpeakerTurn>, s: int)
    requires
        0 <= s < turns.len(),
        forall|i: int| 0 <= i < turns.len() && i != s ==> #[trigger] gap_better(w, turns, s, i),
    ensures
        nearest_turn(w, turns, turns.len() as int) == s,
{
    lemma_nearest_is_best(w, turns, turns.len() as int);
    let r = nearest_turn(w, turns, turns.len() as int);
    if r != s {
        assert(gap_better(w, turns, s, r));
        assert(gap_better(w, turns, r, s));
    }
}

/// Attribute one word by looking only at the turns from `left` on, and at
/// `best_left` for the nearest turn on the left.
fn attribute_one_sweep(
    w: TimeRange,
    turns: &Vec<SpeakerTurn>,
    order: &Vec<usize>,
    left: usize,
    best_left: Option<usize>,
) -> (r: (Option<u32>, i64))
    requires
        within(w, 2 * TIME_LIMIT),
        ordered(w),
        turns.len() > 0,
        turns_ready(turns@, order@),
        skipped_ok(w, turns@, order@, left as int, best_left),
    ensures
        (r.0, r.1 as int) == attribution_of(w, turns@),
{
    let ghost ts = turns@;
    let ghost keys = turn_starts(ts);
    let mut bi: Option<usize> = None;
    let mut bov: i64 = 0;
    let mut j: usize = left;
    while j < order.len() && turns[order[j]].time.start < w.end
        invariant
            within(w, 2 * TIME_LIMIT),
            ts == turns@,
            turns_ready(ts, order@),
            left <= j <= order.len(),
            bi is None ==> forall|p: int|
                left <= p < j ==> overlap(w, ts[(#[trigger] order@[p]) as int].time) == 0,
            bi matches Some(b) ==> {
                &&& (b as int) < ts.len()
                &&& bov == overlap(w, ts[b as int].time)
                &&& bov > 0
                &&& forall|p: int|
                    left <= p < j && #[trigger] order@[p] != b ==> ov_better(w, ts, b as int, order@[p] as int)
            },
        decreases order.len() - j,
    {
        let ti = order[j];
        let ov = overlap_of(w, turns[ti].time);
        if ov > 0 {
            let take = match bi {
                None => true,
                Some(cur) => ov > bov || (ov == bov && better_turn(ti, cur, turns)),
            };
            if take {
                bi = Some(ti);
                bov = ov;
            }
        }
        j += 1;
    }
    proof {
        // Every turn outside the window overlaps the word by nothing.
        assert forall|p: int| 0 <= p < order.len() && !(left <= p < j) implies overlap(
            w,
            ts[(#[trigger] order@[p]) as int].time,
        ) == 0 by {
            if p >= j {
                let jj = j as int;
                assert(jj < order.len());
                if p > jj {
                    assert(key_before(keys, order@[jj] as int, order@[p] as int));
                }
                assert(ts[order@[p] as int].time.start >= w.end);
            }
        }
    }
    if let Some(b) = bi {
        proof {
            assert forall|i: int| 0 <= i < ts.len() && i != b implies #[trigger] ov_better(
                w,
                ts,
                b as int,
                i,
            ) by {
                let p = lemma_order_covers(keys, order@, i);
                assert(order@[p] as int == i);
            }
            lemma_best_unique_overlap(w, ts, b as int);
        }
        return (Some(turns[b].speaker), bov);
    }
    proof {
        lemma_best_overlap_is_best(w, ts, ts.len() as int);
        let r = best_overlap_turn(w, ts, ts.len() as int);
        let p = lemma_order_covers(keys, order@, r);
        assert(order@[p] as int == r);
    }
    let mut nearest: Option<usize> = best_left;
    let mut min_gap: i64 = match best_left {
        Some(b) => gap_of(w, turns[b].time),
        None => 0,
    };
    let mut p: usize = left;
    while p < order.len()
        invariant
            within(w, 2 * TIME_LIMIT),
            ts == turns@,
            turns_ready(ts, order@),
            left <= p <= order.len(),
            nearest is None ==> best_left is None && p == left,
            nearest matches Some(s) ==> {
                &&& (s as int) < ts.len()
                &&& min_gap == gap(w, ts[s as int].time)
                &&& (best_left matches Some(b) ==> (b != s ==> gap_better(w, ts, s as int, b as int)))
                &&& forall|q: int|
                    left <= q < p && #[trigger] order@[q] != s ==> gap_better(w, ts, s as int, order@[q] as int)
            },
        decreases order.len() - p,
    {
        let ti = order[p];
        let g = gap_of(w, turns[ti].time);
        let take = match nearest {
            None => true,
            Some(cur) => g < min_gap || (g == min_gap && better_turn(ti, cur, turns)),
        };
        if take {
            nearest = Some(ti);
            min_gap = g;
        }
        p += 1;
    }
    let s = match nearest {
        Some(s) => s,
        None => 0,
    };
    proof {
        assert(nearest is Some);
        assert forall|i: int| 0 <= i < ts.len() && i != s implies #[trigger] gap_better(
            w,
            ts,
            s as int,
            i,
        ) by {
            let q = lemma_order_covers(keys, order@, i);
            assert(order@[q] as int == i);
            if q < left {
                let b = best_left->0;
                if i != b {
                    assert(end_better(ts, b as int, i));
                    assert(gap_better(w, ts, b as int, i));
                }
            }
        }
        lemma_best_unique_gap(w, ts, s as int);
    }
    (Some(turns[s].speaker), 0)
}

/// The start times of the words, in word order.
pub open spec fn word_starts(words: Seq<Word>) -> Seq<i64> {
    Seq::new(words.len(), |i: int| words[i].time.start)
}

fn turn_start_keys(turns: &Vec<SpeakerTurn>) -> (keys: Vec<i64>)
    ensures
        keys@ == turn_starts(turns@),
{
    let mut keys: Vec<i64> = Vec::new();
    let mut i: usize = 0;
    while i < turns.len()
        invariant
            i <= turns.len(),
            keys@ == turn_starts(turns@).take(i as int),
        decreases turns.len() - i,
    {
        keys.push(turns[i].time.start);
        i += 1;
    }
    keys
}

fn word_start_keys(words: &Vec<Word>) -> (keys: Vec<i64>)
    ensures
        keys@ == word_starts(words@),
{
    let mut keys: Vec<i64> = Vec::new();
    let mut i: usize = 0;
    while i < words.len()
        invariant
            i <= words.len(),
            keys@ == word_starts(words@).take(i as int),
        decreases words.len() - i,
    {
        keys.push(words[i].time.start);
        i += 1;
    }
    keys
}

/// Tag each word with a speaker in one sweep over words and turns taken in
/// start order.
///
/// The result is the same as tagging each word by a scan over all turns
/// ([`attribution_of`]), for every input whose spans all start no later than
/// they end.
pub fn attribute_words_sweep(words: &Vec<Word>, turns: &Vec<SpeakerTurn>, flags: &Vec<bool>) -> (out: Vec<
    WordAlignment,
>)
    requires
        flags.len() == words.len(),
        forall|i: int|
            0 <= i < words.len() ==> within(#[trigger] words@[i].time, 2 * TIME_LIMIT) && ordered(
                words@[i].time,
            ),
        forall|i: int|
            0 <= i < turns.len() ==> within(#[trigger] turns@[i].time, TIME_LIMIT as int) && ordered(
                turns@[i].time,
            ),
    ensures
        out.len() == words.len(),
        forall|i: int|
            0 <= i < words.len() ==> {
                &&& (#[trigger] out@[i]).word == words@[i].word
                &&& out@[i].time == words@[i].time
                &&& out@[i].interpolated == flags@[i]
                &&& (out@[i].speaker, out@[i].overlap as int) == attribution_of(words@[i].time, turns@)
            },
{
    let mut out: Vec<WordAlignment> = Vec::new();
    let mut i: usize = 0;
    while i < words.len()
        invariant
            flags.len() == words.len(),
            i <= words.len(),
            out.len() == i,
            forall|q: int|
                0 <= q < i ==> {
                    &&& (#[trigger] out@[q]).word == words@[q].word
                    &&& out@[q].time == words@[q].time
                    &&& out@[q].interpolated == flags@[q]
                    &&& out@[q].speaker is None
                    &&& out@[q].overlap == 0
                },
        decreases words.len() - i,
    {
        out.push(
            WordAlignment {
                word: words[i].word.clone(),
                time: words[i].time,
                speaker: None,
                overlap: 0,
                interpolated: flags[i],
            },
        );
        i += 1;
    }
    if turns.len() == 0 {
        return out;
    }
    let turn_order = order_by_key(&turn_start_keys(turns));
    let word_order = order_by_key(&word_start_keys(words));
    let ghost wkeys = word_starts(words@);
    let ghost ts = turns@;
    let mut left: usize = 0;
    let mut best_left: Option<usize> = None;
    let ghost mut prev: int = 0;
    let mut k: usize = 0;
    while k < word_order.len()
        invariant
            flags.len() == words.len(),
            ts == turns@,
            ts.len() > 0,
            forall|q: int|
                0 <= q < words.len() ==> within(#[trigger] words@[q].time, 2 * TIME_LIMIT) && ordered(
                    words@[q].time,
                ),
            turns_ready(ts, turn_order@),
            sorted_order(wkeys, word_order@),
            wkeys == word_starts(words@),
            k <= word_order.len(),
            out.len() == words.len(),
            forall|q: int|
                0 <= q < words.len() ==> {
                    &&& (#[trigger] out@[q]).word == words@[q].word
                    &&& out@[q].time == words@[q].time
                    &&& out@[q].interpolated == flags@[q]
                },
            forall|m: int|
                0 <= m < k ==> (out@[(#[trigger] word_order@[m]) as int].speaker, out@[word_order@[m] as int].overlap as int)
                    == attribution_of(words@[word_order@[m] as int].time, ts),
            left <= turn_order.len(),
            k == 0 ==> left == 0 && best_left is None,
            k > 0 ==> prev == words@[word_order@[k - 1] as int].time.start,
            k > 0 ==> forall|p: int| 0 <= p < left ==> ts[(#[trigger] turn_order@[p]) as int].time.end <= prev,
            left > 0 ==> best_left is Some,
            best_left matches Some(b) ==> {
                &&& (b as int) < ts.len()
                &&& ts[b as int].time.end <= prev
                &&& forall|p: int|
                    0 <= p < left && #[trigger] turn_order@[p] != b ==> end_better(ts, b as int, turn_order@[p] as int)
            },
        decreases word_order.len() - k,
    {
        let wi = word_order[k];
        let w = words[wi].time;
        proof {
            if k > 0 {
                assert(key_before(wkeys, word_order@[k - 1] as int, word_order@[k as int] as int));
            }
            assert(skipped_ok(w, ts, turn_order@, left as int, best_left));
        }
        while left < turn_order.len() && turns[turn_order[left]].time.end <= w.start
            invariant
                ts == turns@,
                turns_ready(ts, turn_order@),
                skipped_ok(w, ts, turn_order@, left as int, best_left),
            decreases turn_order.len() - left,
        {
            let ti = turn_order[left];
            let take = match best_left {
                None => true,
                Some(cur) => {
                    let te = turns[ti].time.end;
                    let ce = turns[cur].time.end;
                    te > ce || (te == ce && better_turn(ti, cur, turns))
                },
            };
            if take {
                best_left = Some(ti);
            }
            left += 1;
        }
        let (speaker, ov) = attribute_one_sweep(w, turns, &turn_order, left, best_left);
        out.set(
            wi,
            WordAlignment {
                word: words[wi].word.clone(),
                time: w,
                speaker,
                overlap: ov,
                interpolated: flags[wi],
            },
        );
        proof {
            prev = w.start as int;
        }
        k += 1;
    }
    proof {
        assert forall|i: int| 0 <= i < words.len() implies (out@[i].speaker, out@[i].overlap as int)
            == attribution_of(words@[i].time, turns@) by {
            let m = lemma_order_covers(wkeys, word_order@, i);
            assert(word_order@[m] as int == i);
        }
    }
    out
}

} // verus!
