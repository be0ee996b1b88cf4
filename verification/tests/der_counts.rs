use polyvoice::der::{
    build_speaker_frames, frame_der, optimal_speaker_mapping, DerCounts, FrameSpan, Region,
};
use polyvoice::time::TimeRange;

fn fs(speaker: u32, start: usize, end: usize) -> FrameSpan {
    FrameSpan { speaker, start, end }
}

fn counts(r: &[FrameSpan], h: &[FrameSpan], n: usize, region: Region) -> DerCounts {
    frame_der(&r.to_vec(), &h.to_vec(), n, &vec![false; n], region, None)
}

#[test]
fn speaker_frames_list_each_speaker_once() {
    let frames = build_speaker_frames(&vec![fs(1, 0, 3), fs(2, 2, 5), fs(1, 1, 2), fs(9, 4, 99)], 6);
    assert_eq!(frames.len(), 6);
    assert_eq!(frames[0], vec![1]);
    assert_eq!(frames[1], vec![1]);
    assert_eq!(frames[2], vec![1, 2]);
    assert_eq!(frames[3], vec![2]);
    assert_eq!(frames[4], vec![2, 9]);
    assert_eq!(frames[5], vec![9]);
}

#[test]
fn frames_perfect_match() {
    let r = [fs(0, 0, 100), fs(1, 100, 200)];
    let c = counts(&r, &r, 200, Region::All);
    assert_eq!(
        c,
        DerCounts { total_ref_frames: 200, missed_frames: 0, false_alarm_frames: 0, confusion_frames: 0 }
    );
}

#[test]
fn frames_swapped_ids_still_maps() {
    let r = [fs(0, 0, 100), fs(1, 100, 200)];
    let h = [fs(7, 0, 100), fs(3, 100, 200)];
    let c = counts(&r, &h, 200, Region::All);
    assert_eq!(c.confusion_frames, 0);
    assert_eq!(c.missed_frames + c.false_alarm_frames, 0);
}

#[test]
fn frames_full_miss() {
    let r = [fs(0, 0, 100), fs(1, 100, 200)];
    let c = counts(&r, &[], 200, Region::All);
    assert_eq!(c.total_ref_frames, 200);
    assert_eq!(c.missed_frames, 200);
    assert_eq!(c.false_alarm_frames, 0);
    assert_eq!(c.confusion_frames, 0);
}

#[test]
fn frames_full_false_alarm() {
    let r = [fs(0, 0, 100)];
    let h = [fs(0, 0, 100), fs(1, 0, 100), fs(2, 100, 150)];
    let c = counts(&r, &h, 150, Region::All);
    assert_eq!(c.total_ref_frames, 100);
    // 150 extra hypothesis speaker-frames, counted up to the 100 reference
    // speaker-frames that are neither missed nor confused.
    assert_eq!(c.false_alarm_frames, 100);
    assert_eq!(c.missed_frames, 0);
    assert_eq!(c.confusion_frames, 0);
}

#[test]
fn frames_speaker_confusion() {
    let r = [fs(0, 0, 100), fs(1, 100, 200)];
    let h = [fs(5, 0, 200)];
    let c = counts(&r, &h, 200, Region::All);
    assert_eq!(c.total_ref_frames, 200);
    assert_eq!(c.confusion_frames, 100);
    assert_eq!(c.missed_frames, 0);
    assert_eq!(c.false_alarm_frames, 0);
}

#[test]
fn frames_empty_reference() {
    let c = counts(&[], &[fs(0, 0, 10)], 10, Region::All);
    assert_eq!(c, DerCounts { total_ref_frames: 0, missed_frames: 0, false_alarm_frames: 0, confusion_frames: 0 });
}

#[test]
fn ignored_frames_are_not_scored() {
    let r = [fs(0, 0, 10)];
    let h = [fs(1, 0, 5)];
    let mut ignore = vec![false; 10];
    for slot in ignore.iter_mut().skip(5) {
        *slot = true;
    }
    let c = frame_der(&r.to_vec(), &h.to_vec(), 10, &ignore, Region::All, None);
    assert_eq!(c, DerCounts { total_ref_frames: 5, missed_frames: 0, false_alarm_frames: 0, confusion_frames: 0 });
}

#[test]
fn all_frames_ignored_scores_nothing() {
    let r = [fs(0, 0, 10)];
    let h = [fs(1, 0, 10), fs(2, 0, 10)];
    let c = frame_der(&r.to_vec(), &h.to_vec(), 10, &vec![true; 10], Region::All, None);
    assert_eq!(c, DerCounts { total_ref_frames: 0, missed_frames: 0, false_alarm_frames: 0, confusion_frames: 0 });
}

#[test]
fn frames_single_speaker_der_excludes_overlap_frames() {
    // Reference speakers 0 and 1 overlap on frames 50..100.
    let r = [fs(0, 0, 100), fs(1, 50, 150)];
    let h = [fs(0, 0, 50), fs(1, 100, 150)];
    let all = counts(&r, &h, 150, Region::All);
    assert_eq!(all.total_ref_frames, 200);
    assert_eq!(all.missed_frames, 100);
    let single = counts(&r, &h, 150, Region::SingleSpeaker);
    assert_eq!(single, DerCounts { total_ref_frames: 100, missed_frames: 0, false_alarm_frames: 0, confusion_frames: 0 });
    let overlap = counts(&r, &h, 150, Region::Overlap);
    assert_eq!(overlap.total_ref_frames, 100);
    assert_eq!(overlap.missed_frames, 100);
}

#[test]
fn frames_uem_excludes_out_of_scope_frames() {
    let r = [fs(0, 0, 100)];
    // The hypothesis misses everything; only frames 0..50 are in scope
    // (their centres lie before 0.5 s).
    let scope = vec![TimeRange { start: 0, end: 500_000_000 }];
    let scoped = frame_der(&r.to_vec(), &vec![], 100, &vec![false; 100], Region::All, Some(&scope));
    assert_eq!(scoped.total_ref_frames, 50);
    assert_eq!(scoped.missed_frames, 50);
    let empty: Vec<TimeRange> = Vec::new();
    let none = frame_der(&r.to_vec(), &vec![], 100, &vec![false; 100], Region::All, Some(&empty));
    assert_eq!(none.total_ref_frames, 0);
    assert_eq!(none.missed_frames, 0);
    let full = vec![TimeRange { start: 0, end: 10_000_000_000 }];
    let all = frame_der(&r.to_vec(), &vec![], 100, &vec![false; 100], Region::All, Some(&full));
    let plain = frame_der(&r.to_vec(), &vec![], 100, &vec![false; 100], Region::All, None);
    assert_eq!(all, plain);
}

#[test]
fn miss_minus_false_alarm_is_speaker_frame_difference() {
    let r = [fs(0, 0, 30), fs(1, 20, 60), fs(2, 55, 80)];
    let h = [fs(4, 0, 25), fs(5, 25, 70), fs(6, 10, 15)];
    let c = counts(&r, &h, 80, Region::All);
    // Reference speaker-frames 30 + 40 + 25 = 95; hypothesis 25 + 45 + 5 = 75.
    assert_eq!(c.total_ref_frames, 95);
    assert_eq!(c.missed_frames as i64 - c.false_alarm_frames as i64, 95 - 75);
}

#[test]
fn optimal_mapping_beats_greedy_on_counterexample() {
    // Co-occurrence (hyp, ref): (0,0)=10, (0,1)=9, (1,0)=8.
    // Greedy picks 0->0 (10 correct) and leaves hyp 1 unmapped.
    // Optimal picks 0->1 (9) + 1->0 (8) = 17 correct.
    let mut ref_frames: Vec<Vec<u32>> = Vec::new();
    let mut hyp_frames: Vec<Vec<u32>> = Vec::new();
    for _ in 0..10 {
        ref_frames.push(vec![0]);
        hyp_frames.push(vec![0]);
    }
    for _ in 0..9 {
        ref_frames.push(vec![1]);
        hyp_frames.push(vec![0]);
    }
    for _ in 0..8 {
        ref_frames.push(vec![0]);
        hyp_frames.push(vec![1]);
    }
    let collar_mask = vec![false; ref_frames.len()];
    let mapping = optimal_speaker_mapping(&ref_frames, &hyp_frames, &collar_mask);
    assert_eq!(mapping.get(0), Some(1), "hyp 0 must map to ref 1 (optimal), not ref 0 (greedy)");
    assert_eq!(mapping.get(1), Some(0), "hyp 1 must map to ref 0");
}

#[test]
fn mapping_ignores_masked_frames() {
    let ref_frames = vec![vec![0], vec![0], vec![1]];
    let hyp_frames = vec![vec![5], vec![5], vec![5]];
    // With the first two frames masked, hyp 5 only meets ref 1.
    let m = optimal_speaker_mapping(&ref_frames, &hyp_frames, &vec![true, true, false]);
    assert_eq!(m.get(5), Some(1));
    assert_eq!(m.get(6), None);
    let m = optimal_speaker_mapping(&ref_frames, &hyp_frames, &vec![false, false, false]);
    assert_eq!(m.get(5), Some(0));
    assert_eq!(m.weights, vec![vec![2, 1]]);
}
