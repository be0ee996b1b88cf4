use polyvoice::attribution::{SpeakerTurn, WordAlignment};
use polyvoice::der::{
    build_collar_mask, compute_der, compute_der_decomposition, compute_der_single_speaker_regions,
    compute_der_with_uem, compute_per_speaker_recall, grid_frame_count, grid_frame_range, DerCounts,
    FrameSpan,
};
use polyvoice::time::TimeRange;
use polyvoice::uem::parse_uem;
use polyvoice::wder::compute_wder;

const S: f64 = 1_000_000_000.0;

fn t(secs: f64) -> i64 {
    (secs * S).round() as i64
}

fn turn(speaker: u32, start: f64, end: f64) -> SpeakerTurn {
    SpeakerTurn { speaker, time: TimeRange { start: t(start), end: t(end) }, text: None, stable: true }
}

fn w(word: &str, start: f64, end: f64, spk: Option<u32>) -> WordAlignment {
    WordAlignment { word: word.to_owned(), time: TimeRange { start: t(start), end: t(end) }, speaker: spk, overlap: 0, interpolated: false }
}

#[test]
fn parse_uem_reads_regions_and_skips_junk() {
    let text = "\
; a comment
# another comment

EN2002a 1 0.00 1234.56
EN2002a 1 1300.0 1400.0
fuzfh 1 0.5 25.9
bad line with too few
EN2002a 1 50.0 10.0
";
    let map = parse_uem(text);
    let en = map.get("EN2002a").expect("EN2002a present");
    // two valid regions (the 50.0->10.0 degenerate line is dropped)
    assert_eq!(en.len(), 2);
    assert_eq!(en[0], TimeRange { start: 0, end: 1_234_560_000_000 });
    assert_eq!(en[1], TimeRange { start: 1_300_000_000_000, end: 1_400_000_000_000 });
    let fz = map.get("fuzfh").expect("fuzfh present");
    assert_eq!(fz.len(), 1);
    assert_eq!(fz[0], TimeRange { start: 500_000_000, end: 25_900_000_000 });
    assert!(!map.contains_key("bad"));
}

#[test]
fn parse_uem_number_forms() {
    let map = parse_uem("a 1 +1.5 2.\nb 1 .25 3\nc 1 1e3 2000\nd 1 x 2\ne 1 -1 0.000000001999\n  f\t1  0 1 extra\r\n");
    assert_eq!(map.get("a").unwrap()[0], TimeRange { start: 1_500_000_000, end: 2_000_000_000 });
    assert_eq!(map.get("b").unwrap()[0], TimeRange { start: 250_000_000, end: 3_000_000_000 });
    assert_eq!(map.get("c").unwrap()[0], TimeRange { start: 1_000_000_000_000, end: 2_000_000_000_000 });
    assert!(!map.contains_key("d"));
    assert_eq!(map.get("e").unwrap()[0], TimeRange { start: -1_000_000_000, end: 1 });
    assert_eq!(map.get("f").unwrap()[0], TimeRange { start: 0, end: 1_000_000_000 });
    assert_eq!(map.files.len(), 5);
}

#[test]
fn parse_uem_exponent_forms() {
    let map = parse_uem("a 1 1.5E-3 2e+1
b 1 0e999 .5e1
c 1 1e999 2
d 1 1e 2
e 1 5 1e-10
f 1 25e-1 3E0
");
    assert_eq!(map.get("a").unwrap()[0], TimeRange { start: 1_500_000, end: 20_000_000_000 });
    assert_eq!(map.get("b").unwrap()[0], TimeRange { start: 0, end: 5_000_000_000 });
    assert!(!map.contains_key("c"));
    assert!(!map.contains_key("d"));
    // 1e-10 s is below one nanosecond and truncates to zero, before the start.
    assert!(!map.contains_key("e"));
    assert_eq!(map.get("f").unwrap()[0], TimeRange { start: 2_500_000_000, end: 3_000_000_000 });
}

#[test]
fn grid_covers_latest_end() {
    let r = vec![turn(0, 0.0, 1.0)];
    let h = vec![turn(1, 0.5, 2.005)];
    // ceil(2.005 s / 10 ms) = 201 frames, plus one.
    assert_eq!(grid_frame_count(&r, &h), 202);
    assert_eq!(grid_frame_count(&vec![], &vec![]), 1);
    assert_eq!(grid_frame_range(&turn(3, 0.015, 0.031)), FrameSpan { speaker: 3, start: 1, end: 4 });
    assert_eq!(grid_frame_range(&turn(3, -1.0, -0.5)), FrameSpan { speaker: 3, start: 0, end: 0 });
}

#[test]
fn collar_masks_frames_near_reference_boundaries() {
    let r = vec![turn(0, 1.0, 2.0)];
    let mask = build_collar_mask(&r, t(0.25), 400);
    // Around 1.0 s: frames 75..125; around 2.0 s: frames 175..225.
    assert!(!mask[74] && mask[75] && mask[124] && !mask[125]);
    assert!(!mask[174] && mask[175] && mask[224] && !mask[225]);
    assert!(build_collar_mask(&r, 0, 400).iter().all(|m| !m));
}

#[test]
fn perfect_match_seconds() {
    let r = vec![turn(0, 0.0, 5.0), turn(1, 5.0, 10.0)];
    let c = compute_der(&r, &r, t(0.25));
    assert_eq!(c.missed_frames + c.false_alarm_frames + c.confusion_frames, 0);
    assert!(c.total_ref_frames > 0);
}

#[test]
fn full_miss_seconds() {
    let r = vec![turn(0, 0.0, 5.0)];
    let c = compute_der(&r, &vec![], 0);
    assert_eq!(c.total_ref_frames, 500);
    assert_eq!(c.missed_frames, 500);
}

#[test]
fn collar_reduces_error_in_counts() {
    let r = vec![turn(0, 0.0, 5.0), turn(1, 5.0, 10.0)];
    let h = vec![turn(0, 0.0, 5.5), turn(1, 5.5, 10.0)];
    let no = compute_der(&r, &h, 0);
    let with = compute_der(&r, &h, t(0.5));
    let err = |c: DerCounts| (c.missed_frames + c.false_alarm_frames + c.confusion_frames) as f64 / c.total_ref_frames as f64;
    assert!(err(with) < err(no), "collar should reduce DER");
    assert_eq!(no.confusion_frames, 50);
}

#[test]
fn negative_collar_and_empty_reference_give_zero() {
    let r = vec![turn(0, 0.0, 5.0)];
    let zero = DerCounts { total_ref_frames: 0, missed_frames: 0, false_alarm_frames: 0, confusion_frames: 0 };
    assert_eq!(compute_der(&r, &r, -1), zero);
    assert_eq!(compute_der(&vec![], &r, 0), zero);
}

#[test]
fn single_speaker_der_ignores_overlap_mismatch_in_counts() {
    let r = vec![turn(0, 0.0, 6.0), turn(1, 4.0, 10.0)];
    let h = vec![turn(0, 0.0, 4.0), turn(1, 6.0, 10.0)];
    let single = compute_der_single_speaker_regions(&r, &h, 0);
    assert_eq!(single.missed_frames + single.false_alarm_frames + single.confusion_frames, 0);
    let all = compute_der(&r, &h, 0);
    assert_eq!(all.missed_frames, 400);
}

#[test]
fn uem_ignores_error_outside_scope_in_counts() {
    let r = vec![turn(0, 0.0, 10.0)];
    let h = vec![turn(0, 0.0, 5.0)];
    let scoped = compute_der_with_uem(&r, &h, 0, &vec![TimeRange { start: 0, end: t(5.0) }]);
    assert_eq!(scoped.total_ref_frames, 500);
    assert_eq!(scoped.missed_frames, 0);
    let plain = compute_der(&r, &h, 0);
    assert_eq!(plain.missed_frames, 500);
}

#[test]
fn decomposition_splits_overlap_and_recall_in_counts() {
    let r = vec![turn(0, 0.0, 10.0), turn(1, 5.0, 10.0)];
    let h = vec![turn(7, 0.0, 10.0)];
    let d = compute_der_decomposition(&r, &h, 0);
    assert_eq!(d.total.total_ref_frames, 1500);
    assert_eq!(d.total.missed_frames, 500);
    assert_eq!(d.single_speaker.missed_frames + d.single_speaker.confusion_frames, 0);
    assert_eq!(d.overlap.total_ref_frames, 1000);
    assert_eq!(d.overlap.missed_frames, 500);
    assert_eq!(d.per_speaker_recall.len(), 2);
    assert_eq!(d.per_speaker_recall[0].speaker, 0);
    assert_eq!(d.per_speaker_recall[0].ref_frames, 1000);
    assert_eq!(d.per_speaker_recall[0].recalled_frames, 1000);
    assert_eq!(d.per_speaker_recall[1].speaker, 1);
    assert_eq!(d.per_speaker_recall[1].recalled_frames, 0);
}

#[test]
fn recall_entries_are_sorted_by_speaker() {
    let r = vec![turn(9, 0.0, 1.0), turn(2, 1.0, 2.0), turn(5, 2.0, 3.0)];
    let rec = compute_per_speaker_recall(&r, &r, 0);
    let ids: Vec<u32> = rec.iter().map(|e| e.speaker).collect();
    assert_eq!(ids, vec![2, 5, 9]);
    assert!(rec.iter().all(|e| e.recalled_frames == e.ref_frames));
    assert!(compute_per_speaker_recall(&vec![], &r, 0).is_empty());
}

#[test]
fn wder_matches_words_by_text_and_time_when_lengths_differ() {
    let reference = vec![w("Hello", 0.0, 0.5, Some(0)), w("there", 3.0, 3.5, Some(1))];
    let hypothesis = vec![
        w("hello", 9.0, 9.5, Some(4)),
        w("HELLO", 0.1, 0.6, Some(2)),
        w("there", 3.0, 3.5, Some(3)),
    ];
    let r = compute_wder(&reference, &hypothesis);
    assert_eq!(r.total_words, 2);
    assert_eq!(r.speaker_errors, 0);
    let r = compute_wder(&reference, &vec![w("nope", 0.0, 1.0, Some(1))]);
    assert_eq!(r.total_words, 2);
    assert_eq!(r.speaker_errors, 2);
}

#[test]
fn parse_uem_accepts_every_time_an_i64_holds() {
    let map = parse_uem("f 1 0 3000000000\ng 1 -9223372036.854775808 9223372036.854775807\nh 1 0 9223372036.854775808\n");
    assert_eq!(map.get("f").unwrap()[0], TimeRange { start: 0, end: 3_000_000_000_000_000_000 });
    assert_eq!(map.get("g").unwrap()[0], TimeRange { start: i64::MIN, end: i64::MAX });
    // One nanosecond past what an i64 holds.
    assert!(!map.contains_key("h"));
}
