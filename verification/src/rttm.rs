//! RTTM speaker segments: parsing, selecting a recording's segments, and
//! turning named reference speakers into numbered turns.

use vstd::prelude::*;
use crate::attribution::SpeakerTurn;
use crate::der::{compute_der, der_counts_of, DerCounts, Region};
use crate::text::{chars_of, str_eq};
use crate::time::TimeRange;
use crate::decimal::{parse_seconds, parse_seconds_of};
use crate::uem::{split_lines, split_on, string_of, tokenize, tokens, views};

verus! {

/// One `SPEAKER` line of an RTTM file.
#[derive(Clone, Debug, PartialEq, Eq)]
pub struct RttmSegment {
    pub file: String,
    pub start: i64,
    pub duration: i64,
    pub speaker: String,
}

/// The segment a line declares: a `SPEAKER` record with at least eight
/// fields, a start and a non-negative duration in seconds.
pub open spec fn rttm_line(line: Seq<char>) -> Option<(Seq<char>, int, int, Seq<char>)> {
    let t = tokens(line);
    if t.len() >= 8 && t[0] == "SPEAKER"@ {
        match (parse_seconds(t[3]), parse_seconds(t[4])) {
            (Some(s), Some(d)) => if d >= 0 {
                Some((t[1], s, d, t[7]))
            } else {
                None
            },
            _ => None,
        }
    } else {
        None
    }
}

/// The segments declared by the first `k` lines, in order.
pub open spec fn rttm_entries(lines: Seq<Seq<char>>, k: int) -> Seq<(Seq<char>, int, int, Seq<char>)>
    decreases k,
{
    if k <= 0 {
        Seq::empty()
    } else {
        let e = rttm_entries(lines, k - 1);
        match rttm_line(lines[k - 1]) {
            Some(x) => e.push(x),
            None => e,
        }
    }
}

/// The view of a segment.
pub open spec fn seg_view(s: RttmSegment) -> (Seq<char>, int, int, Seq<char>) {
    (s.file@, s.start as int, s.duration as int, s.speaker@)
}

fn rttm_line_of(line: &Vec<char>) -> (r: Option<RttmSegment>)
    ensures
        match r {
            Some(s) => rttm_line(line@) == Some(seg_view(s)),
            None => rttm_line(line@) is None,
        },
{
    let toks = tokenize(line);
    proof {
        assert(views(toks@).len() == toks@.len());
    }
    if toks.len() < 8 {
        return None;
    }
    proof {
        assert(views(toks@)[0] == toks@[0]@);
        assert(views(toks@)[1] == toks@[1]@);
        assert(views(toks@)[3] == toks@[3]@);
        assert(views(toks@)[4] == toks@[4]@);
        assert(views(toks@)[7] == toks@[7]@);
    }
    let head = string_of(&toks[0]);
    if !str_eq(head.as_str(), "SPEAKER") {
        return None;
    }
    let start = match parse_seconds_of(&toks[3]) {
        Some(v) => v,
        None => {
            return None;
        },
    };
    let duration = match parse_seconds_of(&toks[4]) {
        Some(v) => v,
        None => {
            return None;
        },
    };
    if duration < 0 {
        return None;
    }
    Some(RttmSegment { file: string_of(&toks[1]), start, duration, speaker: string_of(&toks[7]) })
}

/// The `SPEAKER` segments of an RTTM file, in file order; other and
/// malformed lines are skipped.
pub fn parse_rttm(text: &str) -> (segs: Vec<RttmSegment>)
    ensures
        segs@.map_values(|s: RttmSegment| seg_view(s)) == rttm_entries(
            split_on(text@, '\n'),
            split_on(text@, '\n').len() as int,
        ),
{
    let cs = chars_of(text);
    let lines = split_lines(&cs);
    let ghost ls = views(lines@);
    let mut segs: Vec<RttmSegment> = Vec::new();
    let mut i: usize = 0;
    while i < lines.len()
        invariant
            ls == views(lines@),
            ls == split_on(text@, '\n'),
            i <= lines.len(),
            segs@.map_values(|s: RttmSegment| seg_view(s)) == rttm_entries(ls, i as int),
        decreases lines.len() - i,
    {
        assert(ls[i as int] == lines@[i as int]@);
        match rttm_line_of(&lines[i]) {
            Some(s) => {
                let ghost before = segs@;
                segs.push(s);
                assert(segs@.map_values(|s: RttmSegment| seg_view(s)) =~= before.map_values(
                    |s: RttmSegment| seg_view(s),
                ).push(seg_view(s)));
            },
            None => {},
        }
        i += 1;
    }
    segs
}

/// The part of `stem` before its first `.` (all of it without one).
pub open spec fn prefix_before_dot(stem: Seq<char>, i: int) -> Seq<char>
    decreases stem.len() - i,
{
    if i >= stem.len() {
        stem
    } else if stem[i] == '.' {
        stem.take(i)
    } else {
        prefix_before_dot(stem, i + 1)
    }
}

/// The segments of `segs` whose file is `f`, in order.
pub open spec fn segments_of(segs: Seq<RttmSegment>, f: Seq<char>) -> Seq<RttmSegment>
    decreases segs.len(),
{
    if segs.len() == 0 {
        Seq::empty()
    } else {
        let r = segments_of(segs.drop_last(), f);
        if segs.last().file@ == f {
            r.push(segs.last())
        } else {
            r
        }
    }
}

fn segments_named(segs: &Vec<RttmSegment>, f: &str) -> (out: Vec<RttmSegment>)
    ensures
        out@ == segments_of(segs@, f@),
{
    let mut out: Vec<RttmSegment> = Vec::new();
    let mut k: usize = 0;
    while k < segs.len()
        invariant
            k <= segs.len(),
            out@ == segments_of(segs@.take(k as int), f@),
        decreases segs.len() - k,
    {
        proof {
            assert(segs@.take(k as int + 1).drop_last() =~= segs@.take(k as int));
        }
        if str_eq(segs[k].file.as_str(), f) {
            let s = RttmSegment {
                file: segs[k].file.clone(),
                start: segs[k].start,
                duration: segs[k].duration,
                speaker: segs[k].speaker.clone(),
            };
            out.push(s);
        }
        k += 1;
    }
    assert(segs@.take(segs.len() as int) =~= segs@);
    out
}

fn prefix_of(stem: &str) -> (p: String)
    ensures
        p@ == prefix_before_dot(stem@, 0),
{
    let cs = chars_of(stem);
    let mut i: usize = 0;
    while i < cs.len()
        invariant
            i <= cs.len(),
            cs@ == stem@,
            prefix_before_dot(stem@, 0) == prefix_before_dot(stem@, i as int),
        decreases cs.len() - i,
    {
        if cs[i] == '.' {
            let mut head: Vec<char> = Vec::new();
            let mut j: usize = 0;
            while j < i
                invariant
                    j <= i < cs.len(),
                    head@ == cs@.take(j as int),
                decreases i - j,
            {
                head.push(cs[j]);
                assert(cs@.take(j as int + 1) =~= cs@.take(j as int).push(cs@[j as int]));
                j += 1;
            }
            return string_of(&head);
        }
        i += 1;
    }
    string_of(&cs)
}

/// The segments of recording `stem`: those whose file id is `stem`, or, when
/// there are none, those whose file id is the part of `stem` before its
/// first dot (`EN2002a.Mix-Headset` falls back to `EN2002a`).
pub fn segments_for_stem(segs: &Vec<RttmSegment>, stem: &str) -> (out: Vec<RttmSegment>)
    ensures
        segments_of(segs@, stem@).len() > 0 ==> out@ == segments_of(segs@, stem@),
        segments_of(segs@, stem@).len() == 0 ==> out@ == segments_of(segs@, prefix_before_dot(stem@, 0)),
{
    let exact = segments_named(segs, stem);
    if exact.len() > 0 {
        return exact;
    }
    let prefix = prefix_of(stem);
    segments_named(segs, prefix.as_str())
}

/// The distinct speaker names of `speakers[0..k]`, in order of first
/// appearance.
pub open spec fn first_names(speakers: Seq<Seq<char>>, k: int) -> Seq<Seq<char>>
    decreases k,
{
    if k <= 0 {
        Seq::empty()
    } else {
        let n = first_names(speakers, k - 1);
        if n.contains(speakers[k - 1]) {
            n
        } else {
            n.push(speakers[k - 1])
        }
    }
}

/// The views of a list of strings.
pub open spec fn string_views(v: Seq<String>) -> Seq<Seq<char>> {
    v.map_values(|s: String| s@)
}

/// The speaker names of named reference segments.
pub open spec fn segment_names(reference: Seq<(i64, i64, String)>) -> Seq<Seq<char>> {
    reference.map_values(|r: (i64, i64, String)| r.2@)
}

/// Turns from named segments `(start, end, speaker)`: the `k`-th distinct
/// name, in order of first appearance, gets the id `base + k`; the names,
/// in that order, come back too.
fn numbered_turns(reference: &Vec<(i64, i64, String)>, base: u32) -> (r: (Vec<SpeakerTurn>, Vec<String>))
    requires
        reference.len() + base < 0x1_0000_0000,
    ensures
        r.0.len() == reference.len(),
        string_views(r.1@) == first_names(segment_names(reference@), reference.len() as int),
        forall|i: int| 0 <= i < reference.len() ==> {
            let names = first_names(segment_names(reference@), reference.len() as int);
            &&& (#[trigger] r.0@[i]).time == (TimeRange { start: reference@[i].0, end: reference@[i].1 })
            &&& base <= r.0@[i].speaker < base + names.len()
            &&& names[r.0@[i].speaker - base] == reference@[i].2@
            &&& r.0@[i].text is None
            &&& r.0@[i].stable
        },
{
    let ghost sp = segment_names(reference@);
    let mut names: Vec<String> = Vec::new();
    let mut turns: Vec<SpeakerTurn> = Vec::new();
    let mut i: usize = 0;
    while i < reference.len()
        invariant
            reference.len() + base < 0x1_0000_0000,
            sp == segment_names(reference@),
            i <= reference.len(),
            turns.len() == i,
            names.len() <= i,
            string_views(names@) == first_names(sp, i as int),
            forall|q: int| 0 <= q < i ==> {
                &&& (#[trigger] turns@[q]).time == (TimeRange { start: reference@[q].0, end: reference@[q].1 })
                &&& base <= turns@[q].speaker < base + names.len()
                &&& string_views(names@)[turns@[q].speaker - base] == sp[q]
                &&& turns@[q].text is None
                &&& turns@[q].stable
            },
        decreases reference.len() - i,
    {
        let ghost before = names@;
        let r = &reference[i];
        assert(sp[i as int] == r.2@);
        let mut k: usize = 0;
        let mut found = false;
        while k < names.len() && !found
            invariant
                k <= names.len(),
                names@ == before,
                found ==> k < names.len() && names@[k as int]@ == r.2@,
                !found ==> forall|q: int| 0 <= q < k ==> names@[q]@ != r.2@,
            decreases names.len() - k, (if found { 0int } else { 1int }),
        {
            if str_eq(names[k].as_str(), r.2.as_str()) {
                found = true;
            } else {
                k += 1;
            }
        }
        let id_index: usize = if found {
            proof {
                assert(string_views(before)[k as int] == r.2@);
                assert(first_names(sp, i as int).contains(sp[i as int]));
            }
            k
        } else {
            proof {
                assert(!first_names(sp, i as int).contains(sp[i as int])) by {
                    if first_names(sp, i as int).contains(sp[i as int]) {
                        let q = choose|q: int| 0 <= q < first_names(sp, i as int).len() && first_names(sp, i as int)[q] == sp[i as int];
                        assert(names@[q]@ == r.2@);
                    }
                }
            }
            names.push(r.2.clone());
            proof {
                assert(string_views(names@) =~= string_views(before).push(r.2@));
            }
            names.len() - 1
        };
        let speaker: u32 = base + id_index as u32;
        turns.push(SpeakerTurn { speaker, time: TimeRange { start: r.0, end: r.1 }, text: None, stable: true });
        proof {
            assert forall|q: int| 0 <= q < i + 1 implies {
                &&& (#[trigger] turns@[q]).time == (TimeRange { start: reference@[q].0, end: reference@[q].1 })
                &&& base <= turns@[q].speaker < base + names.len()
                &&& string_views(names@)[turns@[q].speaker - base] == sp[q]
                &&& turns@[q].text is None
                &&& turns@[q].stable
            } by {
                if q < i {
                    assert(string_views(names@)[turns@[q].speaker - base] == string_views(before)[turns@[q].speaker - base]);
                }
            }
        }
        i += 1;
    }
    (turns, names)
}

/// Reference turns from named segments `(start, end, speaker)`: the `k`-th
/// distinct name, in order of first appearance, gets the id `1000 + k`, so
/// the ids never collide with small hypothesis ids.
pub fn reference_turns(reference: &Vec<(i64, i64, String)>) -> (turns: Vec<SpeakerTurn>)
    requires
        reference.len() < 0x1_0000_0000 - 1000,
    ensures
        turns.len() == reference.len(),
        forall|i: int| 0 <= i < reference.len() ==> {
            let names = first_names(segment_names(reference@), reference.len() as int);
            &&& (#[trigger] turns@[i]).time == (TimeRange { start: reference@[i].0, end: reference@[i].1 })
            &&& 1000 <= turns@[i].speaker < 1000 + names.len()
            &&& names[turns@[i].speaker - 1000] == reference@[i].2@
            &&& turns@[i].text is None
            &&& turns@[i].stable
        },
{
    numbered_turns(reference, 1000).0
}

/// `a + b`, held within the range of `i64`.
pub open spec fn saturating_sum(a: i64, b: i64) -> i64 {
    if a + b > i64::MAX {
        i64::MAX
    } else if a + b < i64::MIN {
        i64::MIN
    } else {
        (a + b) as i64
    }
}

/// The named spans of RTTM segments: each ends at its start plus its
/// duration (held within `i64`).
pub open spec fn segment_spans(segs: Seq<RttmSegment>) -> Seq<(i64, i64, String)> {
    segs.map_values(|s: RttmSegment| (s.start, saturating_sum(s.start, s.duration), s.speaker))
}

/// A recording's speaker turns from its RTTM segments, with the speaker
/// names: the `k`-th distinct name, in order of first appearance, gets the
/// id `k`. Each turn runs from the segment's start for its duration.
pub fn to_speaker_turns(segs: &Vec<RttmSegment>) -> (r: (Vec<SpeakerTurn>, Vec<String>))
    requires
        segs.len() < 0x1_0000_0000,
    ensures
        r.0.len() == segs.len(),
        string_views(r.1@) == first_names(segment_names(segment_spans(segs@)), segs.len() as int),
        forall|i: int| 0 <= i < segs.len() ==> {
            &&& (#[trigger] r.0@[i]).time == (TimeRange {
                start: segs@[i].start,
                end: saturating_sum(segs@[i].start, segs@[i].duration),
            })
            &&& r.0@[i].speaker < r.1.len()
            &&& r.1@[r.0@[i].speaker as int]@ == segs@[i].speaker@
            &&& r.0@[i].text is None
            &&& r.0@[i].stable
        },
{
    let mut spans: Vec<(i64, i64, String)> = Vec::new();
    let mut i: usize = 0;
    while i < segs.len()
        invariant
            i <= segs.len(),
            spans@ =~= segment_spans(segs@).take(i as int),
        decreases segs.len() - i,
    {
        let s = &segs[i];
        let sum: i128 = s.start as i128 + s.duration as i128;
        let end: i64 = if sum > i64::MAX as i128 {
            i64::MAX
        } else if sum < i64::MIN as i128 {
            i64::MIN
        } else {
            sum as i64
        };
        spans.push((s.start, end, s.speaker.clone()));
        proof {
            assert(segment_spans(segs@)[i as int].2 == s.speaker);
        }
        i += 1;
    }
    let r = numbered_turns(&spans, 0);
    proof {
        assert(spans@ =~= segment_spans(segs@));
        let names = first_names(segment_names(spans@), spans@.len() as int);
        assert forall|q: int| 0 <= q < segs.len() implies r.1@[r.0@[q].speaker as int]@ == segs@[q].speaker@ by {
            assert(names[r.0@[q].speaker as int] == spans@[q].2@);
            assert(string_views(r.1@)[r.0@[q].speaker as int] == r.1@[r.0@[q].speaker as int]@);
        }
    }
    r
}

/// DER counts against a reference given as named segments
/// `(start, end, speaker)` (see [`reference_turns`] for the speaker ids).
pub fn compute_der_from_rttm(reference: &Vec<(i64, i64, String)>, hypothesis: &Vec<SpeakerTurn>, collar: i64) -> (c: DerCounts)
    requires
        reference.len() < 0x1_0000_0000 - 1000,
        hypothesis.len() <= u32::MAX,
    ensures
        exists|turns: Seq<SpeakerTurn>| {
            &&& turns.len() == reference.len()
            &&& forall|i: int| 0 <= i < reference.len() ==> {
                let names = first_names(segment_names(reference@), reference.len() as int);
                &&& (#[trigger] turns[i]).time == (TimeRange { start: reference@[i].0, end: reference@[i].1 })
                &&& 1000 <= turns[i].speaker < 1000 + names.len()
                &&& names[turns[i].speaker - 1000] == reference@[i].2@
            }
            &&& #[trigger] der_counts_of(turns, hypothesis@, collar as int, Region::All, None, c)
        },
        c.error_frames() <= c.total_ref_frames,
{
    let turns = reference_turns(reference);
    let c = compute_der(&turns, hypothesis, collar);
    assert(der_counts_of(turns@, hypothesis@, collar as int, Region::All, None, c));
    c
}

} // verus!
