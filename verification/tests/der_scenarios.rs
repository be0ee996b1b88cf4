use polyvoice::attribution::{SpeakerTurn, WordAlignment};
use polyvoice::der::{
    compute_der, compute_der_decomposition, compute_der_single_speaker_regions, compute_der_with_uem,
    DerCounts,
};
use polyvoice::time::TimeRange;
use polyvoice::wder::{compute_wder, WderCounts};

const S: f64 = 1_000_000_000.0;

/// Seconds to nanoseconds, saturating like a float-to-integer cast.
fn t(secs: f64) -> i64 {
    (secs * S).round() as i64
}

/// A collar in seconds as the library takes it: a value that is not a finite,
/// non-negative number of seconds becomes a negative collar (all-zero result).
fn collar(secs: f64) -> i64 {
    if secs.is_finite() && secs >= 0.0 {
        t(secs)
    } else {
        -1
    }
}

fn turn(speaker: u32, start: f64, end: f64) -> SpeakerTurn {
    SpeakerTurn { speaker, time: TimeRange { start: t(start), end: t(end) }, text: None, stable: true }
}

fn w(word: &str, start: f64, end: f64, spk: Option<u32>) -> WordAlignment {
    WordAlignment { word: word.to_owned(), time: TimeRange { start: t(start), end: t(end) }, speaker: spk, overlap: 0, interpolated: false }
}

/// The rates derived from the counts, each a fraction of the scored
/// reference speaker-frames (all zero when nothing was scored).
struct Rates {
    der: f64,
    miss_rate: f64,
    false_alarm_rate: f64,
    confusion_rate: f64,
    total_speech: f64,
}

fn rates(c: &DerCounts) -> Rates {
    if c.total_ref_frames == 0 {
        return Rates { der: 0.0, miss_rate: 0.0, false_alarm_rate: 0.0, confusion_rate: 0.0, total_speech: 0.0 };
    }
    let n = c.total_ref_frames as f64;
    Rates {
        der: (c.missed_frames + c.false_alarm_frames + c.confusion_frames) as f64 / n,
        miss_rate: c.missed_frames as f64 / n,
        false_alarm_rate: c.false_alarm_frames as f64 / n,
        confusion_rate: c.confusion_frames as f64 / n,
        total_speech: n * 0.01,
    }
}

fn wder(c: &WderCounts) -> f64 {
    if c.total_words == 0 { 0.0 } else { c.speaker_errors as f64 / c.total_words as f64 }
}

#[test]
fn perfect_match() {
    let reference = vec![turn(0, 0.0, 3.0), turn(1, 3.5, 6.0), turn(0, 6.5, 10.0)];
    let hypothesis = vec![turn(0, 0.0, 3.0), turn(1, 3.5, 6.0), turn(0, 6.5, 10.0)];
    let result = rates(&compute_der(&reference, &hypothesis, collar(0.0)));
    assert!(result.der < 0.01, "perfect match DER should be ~0, got {}", result.der);
}

#[test]
fn swapped_ids_still_maps() {
    let reference = vec![turn(0, 0.0, 3.0), turn(1, 3.5, 6.0)];
    let hypothesis = vec![turn(5, 0.0, 3.0), turn(9, 3.5, 6.0)];
    let result = rates(&compute_der(&reference, &hypothesis, collar(0.0)));
    assert!(result.der < 0.01, "swapped IDs should map correctly, got DER={}", result.der);
}

#[test]
fn full_miss() {
    let reference = vec![turn(0, 0.0, 5.0)];
    let hypothesis = vec![];
    let result = rates(&compute_der(&reference, &hypothesis, collar(0.0)));
    assert!((result.miss_rate - 1.0).abs() < 0.01);
    assert!((result.der - 1.0).abs() < 0.01);
}

#[test]
fn full_false_alarm() {
    let reference = vec![turn(0, 0.0, 5.0)];
    let hypothesis = vec![turn(0, 0.0, 5.0), turn(1, 0.0, 5.0)];
    let result = rates(&compute_der(&reference, &hypothesis, collar(0.0)));
    assert!(result.false_alarm_rate > 0.5);
}

#[test]
fn speaker_confusion() {
    let reference = vec![turn(0, 0.0, 3.0), turn(1, 3.0, 6.0)];
    let hypothesis = vec![turn(0, 0.0, 6.0)];
    let result = rates(&compute_der(&reference, &hypothesis, collar(0.0)));
    assert!(result.confusion_rate > 0.3, "should have confusion, got {}", result.confusion_rate);
}

#[test]
fn collar_reduces_error() {
    let reference = vec![turn(0, 0.0, 5.0), turn(1, 5.0, 10.0)];
    let hypothesis = vec![turn(0, 0.0, 5.2), turn(1, 5.2, 10.0)];
    let no_collar = rates(&compute_der(&reference, &hypothesis, collar(0.0)));
    let with_collar = rates(&compute_der(&reference, &hypothesis, collar(0.25)));
    assert!(with_collar.der < no_collar.der, "collar should reduce DER");
}

#[test]
fn empty_reference() {
    let result = rates(&compute_der(&vec![], &vec![turn(0, 0.0, 5.0)], collar(0.0)));
    assert_eq!(result.der, 0.0);
}

#[test]
fn non_finite_collar_returns_zero() {
    let reference = vec![turn(0, 0.0, 5.0)];
    let hypothesis = vec![turn(0, 0.0, 5.0)];
    let result = rates(&compute_der(&reference, &hypothesis, collar(f64::NAN)));
    assert_eq!(result.der, 0.0);
    let result = rates(&compute_der(&reference, &hypothesis, collar(f64::NEG_INFINITY)));
    assert_eq!(result.der, 0.0);
}

#[test]
fn huge_max_time_is_capped() {
    let reference = vec![turn(0, 0.0, 1e12)];
    let hypothesis = vec![turn(0, 0.0, 1e12)];
    let result = rates(&compute_der(&reference, &hypothesis, collar(0.0)));
    assert_eq!(result.der, 0.0);
}

#[test]
fn der_result_frame_counts_are_consistent() {
    let reference = vec![turn(0, 0.0, 3.0), turn(1, 3.0, 6.0)];
    let hypothesis = vec![turn(0, 0.0, 3.0)];
    let c = compute_der(&reference, &hypothesis, collar(0.0));
    let r = rates(&c);
    assert!(c.total_ref_frames > 0, "expected non-empty reference frames");
    let expected = (c.missed_frames + c.false_alarm_frames + c.confusion_frames) as f64 / c.total_ref_frames as f64;
    assert!((r.der - expected).abs() < 1e-9);
    assert!((c.total_ref_frames as f64 * 0.01 - r.total_speech).abs() < 1e-9);
    assert_eq!((c.total_ref_frames, c.missed_frames, c.false_alarm_frames, c.confusion_frames), (600, 300, 0, 0));
    assert!((r.der - 0.5).abs() < 1e-12);
    assert!((r.total_speech - 6.0).abs() < 1e-9);
}

#[test]
fn single_speaker_der_excludes_overlap_frames() {
    let reference = vec![turn(0, 0.0, 4.0), turn(1, 2.0, 6.0)];
    let hypothesis: Vec<SpeakerTurn> = vec![];
    let full = compute_der(&reference, &hypothesis, collar(0.0));
    let single = compute_der_single_speaker_regions(&reference, &hypothesis, collar(0.0));
    assert!(single.total_ref_frames < full.total_ref_frames);
    assert!((380..=420).contains(&single.total_ref_frames), "got {}", single.total_ref_frames);
    assert!((rates(&single).miss_rate - 1.0).abs() < 1e-9);
}

#[test]
fn single_speaker_der_ignores_overlap_mismatch() {
    let reference = vec![turn(0, 0.0, 6.0), turn(1, 4.0, 6.0)];
    let hypothesis = vec![turn(0, 0.0, 6.0)];
    let single = rates(&compute_der_single_speaker_regions(&reference, &hypothesis, collar(0.0)));
    assert!(single.der < 0.01, "got {}", single.der);
}

#[test]
fn decomposition_splits_overlap_and_recall() {
    let reference = vec![turn(0, 0.0, 6.0), turn(1, 3.0, 6.0)];
    let hypothesis = vec![turn(0, 0.0, 6.0)];
    let d = compute_der_decomposition(&reference, &hypothesis, collar(0.0));
    assert!((rates(&d.total).der - 1.0 / 3.0).abs() < 0.02);
    assert!(rates(&d.single_speaker).der < 0.02);
    assert!((rates(&d.overlap).der - 0.5).abs() < 0.02);
    let recall = |spk: u32| {
        let s = d.per_speaker_recall.iter().find(|s| s.speaker == spk).expect("speaker recall");
        if s.ref_frames == 0 { 0.0 } else { s.recalled_frames as f64 / s.ref_frames as f64 }
    };
    assert!((recall(0) - 1.0).abs() < 0.02);
    assert!(recall(1) < 0.02);
}

#[test]
fn uem_excludes_out_of_scope_frames() {
    let reference = vec![turn(0, 0.0, 10.0)];
    let hypothesis: Vec<SpeakerTurn> = vec![];
    let full = compute_der(&reference, &hypothesis, collar(0.0));
    let scoped = compute_der_with_uem(&reference, &hypothesis, collar(0.0), &vec![TimeRange { start: t(0.0), end: t(5.0) }]);
    assert!(scoped.total_ref_frames < full.total_ref_frames);
    assert!((480..=520).contains(&scoped.total_ref_frames), "got {}", scoped.total_ref_frames);
    assert!((rates(&scoped).miss_rate - 1.0).abs() < 1e-9);
}

#[test]
fn uem_ignores_error_outside_scope() {
    let reference = vec![turn(0, 0.0, 10.0)];
    let hypothesis = vec![turn(0, 0.0, 5.0), turn(1, 5.0, 10.0)];
    let full = rates(&compute_der(&reference, &hypothesis, collar(0.0)));
    let scoped = rates(&compute_der_with_uem(&reference, &hypothesis, collar(0.0), &vec![TimeRange { start: t(0.0), end: t(5.0) }]));
    assert!(full.der > 0.4, "got {}", full.der);
    assert!(scoped.der < 0.01, "got {}", scoped.der);
}

#[test]
fn uem_full_scope_matches_no_uem() {
    let reference = vec![turn(0, 0.0, 3.0), turn(1, 3.0, 6.0)];
    let hypothesis = vec![turn(0, 0.0, 3.0)];
    let plain = compute_der(&reference, &hypothesis, collar(0.0));
    let scoped = compute_der_with_uem(&reference, &hypothesis, collar(0.0), &vec![TimeRange { start: t(0.0), end: t(100.0) }]);
    assert_eq!(plain.total_ref_frames, scoped.total_ref_frames);
    assert!((rates(&plain).der - rates(&scoped).der).abs() < 1e-12);
}

#[test]
fn uem_empty_scope_scores_nothing() {
    let reference = vec![turn(0, 0.0, 5.0)];
    let hypothesis = vec![turn(0, 0.0, 5.0)];
    let scoped = compute_der_with_uem(&reference, &hypothesis, collar(0.0), &vec![]);
    assert_eq!(scoped.total_ref_frames, 0);
    assert_eq!(rates(&scoped).der, 0.0);
}

#[test]
fn wder_perfect_match_is_zero() {
    let reference = vec![w("hello", 0.0, 0.5, Some(0)), w("world", 0.5, 1.0, Some(0)), w("hi", 1.0, 1.5, Some(1))];
    let hypothesis = vec![w("hello", 0.0, 0.5, Some(7)), w("world", 0.5, 1.0, Some(7)), w("hi", 1.0, 1.5, Some(3))];
    let r = compute_wder(&reference, &hypothesis);
    assert_eq!(r.total_words, 3);
    assert_eq!(r.speaker_errors, 0);
    assert!((wder(&r) - 0.0).abs() < 1e-12);
}

#[test]
fn wder_hand_crafted_one_of_four_wrong() {
    let reference = vec![w("a", 0.0, 0.5, Some(0)), w("b", 0.5, 1.0, Some(0)), w("c", 1.0, 1.5, Some(1)), w("d", 1.5, 2.0, Some(1))];
    let hypothesis = vec![w("a", 0.0, 0.5, Some(0)), w("b", 0.5, 1.0, Some(0)), w("c", 1.0, 1.5, Some(0)), w("d", 1.5, 2.0, Some(1))];
    let r = compute_wder(&reference, &hypothesis);
    assert_eq!(r.total_words, 4);
    assert_eq!(r.speaker_errors, 1);
    assert!((wder(&r) - 0.25).abs() < 1e-12);
}

#[test]
fn wder_empty_reference_is_zero() {
    let r = compute_wder(&vec![], &vec![w("x", 0.0, 1.0, Some(0))]);
    assert_eq!(r.total_words, 0);
    assert_eq!(wder(&r), 0.0);
}

#[test]
fn wder_skips_unlabeled_reference_words() {
    let reference = vec![w("a", 0.0, 0.5, None), w("b", 0.5, 1.0, Some(0))];
    let hypothesis = vec![w("a", 0.0, 0.5, Some(0)), w("b", 0.5, 1.0, Some(0))];
    let r = compute_wder(&reference, &hypothesis);
    assert_eq!(r.total_words, 1);
    assert_eq!(r.speaker_errors, 0);
}

#[test]
fn der_never_exceeds_one() {
    // Three hypothesis speakers over one reference speaker: the false alarms
    // are counted up to the reference speaker-frames, so DER stops at one.
    let reference = vec![turn(0, 0.0, 1.0)];
    let hypothesis = vec![turn(0, 0.0, 1.0), turn(1, 0.0, 1.0), turn(2, 0.0, 1.0)];
    let c = compute_der(&reference, &hypothesis, collar(0.0));
    assert_eq!((c.total_ref_frames, c.missed_frames, c.false_alarm_frames, c.confusion_frames), (100, 0, 100, 0));
    assert!((rates(&c).der - 1.0).abs() < 1e-12);
}

#[test]
fn false_alarms_fill_only_what_miss_and_confusion_leave() {
    // Reference 0-2 s; hypothesis covers 1-2 s and 2-6 s: 100 missed frames,
    // and the 400 false-alarm frames are counted up to the other 100.
    let reference = vec![turn(0, 0.0, 2.0)];
    let hypothesis = vec![turn(0, 1.0, 2.0), turn(0, 2.0, 6.0)];
    let c = compute_der(&reference, &hypothesis, collar(0.0));
    assert_eq!((c.total_ref_frames, c.missed_frames, c.false_alarm_frames, c.confusion_frames), (200, 100, 100, 0));
}

#[test]
fn a_turn_ending_before_zero_gives_all_zero_counts() {
    let reference = vec![turn(0, 0.0, 5.0)];
    let hypothesis = vec![turn(1, 0.0, 5.0), SpeakerTurn {
        speaker: 2,
        time: TimeRange { start: -10, end: -1 },
        text: None,
        stable: true,
    }];
    let c = compute_der(&reference, &hypothesis, collar(0.25));
    assert_eq!(c, DerCounts { total_ref_frames: 0, missed_frames: 0, false_alarm_frames: 0, confusion_frames: 0 });
    let bad_ref = vec![turn(0, 0.0, 5.0), SpeakerTurn { speaker: 1, time: TimeRange { start: -5, end: -2 }, text: None, stable: true }];
    let c = compute_der(&bad_ref, &vec![turn(1, 0.0, 5.0)], collar(0.25));
    assert_eq!(c.total_ref_frames, 0);
    // Ending exactly at zero is accepted.
    let at_zero = vec![turn(1, 0.0, 5.0), SpeakerTurn { speaker: 2, time: TimeRange { start: -3, end: 0 }, text: None, stable: true }];
    assert_eq!(compute_der(&reference, &at_zero, collar(0.25)).total_ref_frames, 450);
}

#[test]
fn miss_and_confusion_stay_within_the_reference() {
    let reference = vec![turn(0, 0.0, 4.0), turn(1, 2.0, 6.0), turn(2, 5.0, 9.0)];
    let hypothesis = vec![turn(7, 1.0, 3.0), turn(8, 3.0, 8.0)];
    for region_fn in [compute_der, compute_der_single_speaker_regions] {
        let c = region_fn(&reference, &hypothesis, collar(0.1));
        assert!(c.total_ref_frames > 0);
        assert!(c.missed_frames + c.confusion_frames <= c.total_ref_frames);
    }
}

#[test]
fn wder_of_identical_words_is_zero() {
    let words = vec![w("a", 0.0, 0.5, Some(3)), w("b", 0.5, 1.0, None), w("c", 1.0, 1.5, Some(1)), w("d", 1.5, 2.0, Some(3))];
    let r = compute_wder(&words, &words);
    assert_eq!(r.total_words, 3);
    assert_eq!(r.speaker_errors, 0);
}

#[test]
fn renaming_hypothesis_speakers_keeps_every_count() {
    let reference = vec![turn(0, 0.0, 4.0), turn(1, 2.0, 6.0), turn(2, 5.0, 9.0), turn(0, 9.0, 10.0)];
    let hypothesis = vec![turn(0, 0.5, 3.0), turn(1, 3.0, 7.5), turn(2, 6.0, 9.5), turn(1, 9.5, 10.0)];
    let rename = |s: u32| [7u32, 3, 9][s as usize];
    let renamed: Vec<SpeakerTurn> = hypothesis.iter().map(|t| SpeakerTurn { speaker: rename(t.speaker), ..t.clone() }).collect();
    for c in [0.0, 0.25] {
        let a = compute_der(&reference, &hypothesis, collar(c));
        let b = compute_der(&reference, &renamed, collar(c));
        assert_eq!(a, b);
        assert!(a.confusion_frames + a.missed_frames + a.false_alarm_frames > 0);
    }
    let d1 = compute_der_decomposition(&reference, &hypothesis, 0);
    let d2 = compute_der_decomposition(&reference, &renamed, 0);
    assert_eq!((d1.total, d1.single_speaker, d1.overlap), (d2.total, d2.single_speaker, d2.overlap));
}

#[test]
fn renaming_hypothesis_speakers_keeps_word_counts() {
    let reference = vec![w("a", 0.0, 0.5, Some(0)), w("b", 0.5, 1.0, Some(1)), w("c", 1.0, 1.5, Some(1)), w("d", 1.5, 2.0, Some(0))];
    let hypothesis = vec![w("a", 0.0, 0.5, Some(2)), w("b", 0.5, 1.0, Some(2)), w("c", 1.0, 1.5, None), w("d", 1.5, 2.0, Some(4))];
    let renamed: Vec<WordAlignment> = hypothesis
        .iter()
        .map(|x| WordAlignment { speaker: x.speaker.map(|s| s * 10 + 1), ..x.clone() })
        .collect();
    let a = compute_wder(&reference, &hypothesis);
    let b = compute_wder(&reference, &renamed);
    assert_eq!(a, b);
    assert_eq!((a.total_words, a.speaker_errors), (4, 2));
}

fn error_frames(c: &DerCounts) -> u64 {
    c.missed_frames + c.false_alarm_frames + c.confusion_frames
}

#[test]
fn wider_collar_never_adds_error() {
    // Hypothesis shifted 0.3 s off every reference boundary.
    let reference = vec![turn(0, 0.0, 10.0), turn(1, 12.0, 20.0)];
    let hypothesis = vec![turn(0, 0.3, 10.3), turn(1, 12.3, 20.3)];
    let none = compute_der(&reference, &hypothesis, 0);
    let quarter = compute_der(&reference, &hypothesis, collar(0.25));
    let half = compute_der(&reference, &hypothesis, collar(0.5));
    assert!(error_frames(&none) > 0, "boundary errors must be scored");
    assert!(error_frames(&quarter) <= error_frames(&none));
    assert!(error_frames(&half) <= error_frames(&quarter));
    assert!(quarter.total_ref_frames <= none.total_ref_frames);
    assert!(half.total_ref_frames <= quarter.total_ref_frames);
    // A half-second collar covers every 0.3 s shift.
    assert_eq!(error_frames(&half), 0);
}

#[test]
fn scored_ranges_and_regions_never_add_error() {
    let reference = vec![turn(0, 0.0, 6.0), turn(1, 4.0, 10.0)];
    let hypothesis = vec![turn(5, 0.0, 7.0), turn(6, 7.0, 10.0)];
    let all = compute_der(&reference, &hypothesis, 0);
    let scoped = compute_der_with_uem(&reference, &hypothesis, 0, &vec![TimeRange { start: t(1.0), end: t(3.0) }]);
    let single = compute_der_single_speaker_regions(&reference, &hypothesis, 0);
    assert!(error_frames(&scoped) <= error_frames(&all));
    assert!(scoped.total_ref_frames <= all.total_ref_frames);
    assert!(error_frames(&single) <= error_frames(&all));
    assert!(single.total_ref_frames <= all.total_ref_frames);
    assert_eq!(scoped.total_ref_frames, 200);
    assert_eq!(error_frames(&scoped), 0);
}
