use polyvoice::attribution::SpeakerTurn;
use polyvoice::rttm::compute_der_from_rttm;
use polyvoice::prune::{cluster_sizes, survivors_or_largest};
use polyvoice::rttm::{parse_rttm, reference_turns, segments_for_stem, to_speaker_turns, RttmSegment};
use polyvoice::time::TimeRange;

#[test]
fn rttm_segments_fall_back_to_ami_style_prefix() {
    let plain = parse_rttm("SPEAKER plain 1 0.0 1.0 <NA> <NA> B <NA> <NA>\n");
    let exact = segments_for_stem(&plain, "plain");
    assert_eq!(exact.len(), 1);
    assert_eq!(exact[0].speaker, "B");
    let ami = parse_rttm("SPEAKER EN2002a 1 0.0 1.0 <NA> <NA> A <NA> <NA>\n");
    let fallback = segments_for_stem(&ami, "EN2002a.Mix-Headset");
    assert_eq!(fallback.len(), 1);
    assert_eq!(fallback[0].speaker, "A");
}

#[test]
fn load_rttm_segments_unknown_stem_yields_empty() {
    let segs = parse_rttm("SPEAKER other 1 0.0 1.0 <NA> <NA> A <NA> <NA>\n");
    assert!(segments_for_stem(&segs, "absent").is_empty());
}

#[test]
fn rttm_parsing_keeps_speaker_lines_only() {
    let text = "SPKR-INFO x 1 <NA> <NA> <NA> unknown A <NA> <NA>\n\
                SPEAKER x 1 1.5 2.25 <NA> <NA> A <NA> <NA>\n\
                SPEAKER x 1 bad 2.0 <NA> <NA> A <NA> <NA>\n\
                SPEAKER x 1 4.0 -1 <NA> <NA> A <NA> <NA>\n\
                SPEAKER y 1 0 1 <NA> <NA> B\n";
    let segs = parse_rttm(text);
    assert_eq!(segs.len(), 2);
    assert_eq!(segs[0].file, "x");
    assert_eq!(segs[0].start, 1_500_000_000);
    assert_eq!(segs[0].duration, 2_250_000_000);
    assert_eq!(segs[1].speaker, "B");
}

#[test]
fn reference_speakers_are_numbered_from_1000() {
    let reference = vec![
        (0, 10, "bob".to_string()),
        (10, 20, "amy".to_string()),
        (20, 30, "bob".to_string()),
    ];
    let turns = reference_turns(&reference);
    let ids: Vec<u32> = turns.iter().map(|t| t.speaker).collect();
    assert_eq!(ids, vec![1000, 1001, 1000]);
    assert_eq!(turns[1].time, TimeRange { start: 10, end: 20 });
}

#[test]
fn der_from_named_reference() {
    let s = 1_000_000_000i64;
    let reference = vec![(0, 5 * s, "A".to_string()), (5 * s, 10 * s, "B".to_string())];
    let hyp = vec![
        SpeakerTurn { speaker: 0, time: TimeRange { start: 0, end: 5 * s }, text: None, stable: true },
        SpeakerTurn { speaker: 1, time: TimeRange { start: 5 * s, end: 10 * s }, text: None, stable: true },
    ];
    let c = compute_der_from_rttm(&reference, &hyp, 0);
    assert_eq!(c.total_ref_frames, 1000);
    assert_eq!(c.missed_frames + c.false_alarm_frames + c.confusion_frames, 0);
}

#[test]
fn cluster_sizes_count_labels() {
    let sizes = cluster_sizes(&vec![2, 0, 2, 2, 5]);
    assert_eq!(sizes, vec![(2, 3), (0, 1), (5, 1)]);
    assert!(cluster_sizes(&vec![]).is_empty());
}

#[test]
fn survivors_keep_large_clusters_or_the_largest() {
    let sizes = vec![(2, 3), (0, 1), (5, 4)];
    assert_eq!(survivors_or_largest(&sizes, 3), vec![2, 5]);
    assert_eq!(survivors_or_largest(&sizes, 10), vec![5]);
    // Ties go to the smaller label.
    assert_eq!(survivors_or_largest(&vec![(7, 2), (3, 2)], 5), vec![3]);
    assert!(survivors_or_largest(&vec![], 1).is_empty());
}

#[test]
fn load_ref_turns_projects_segments_onto_turns() {
    // RTTM columns are start + duration: 2.0 + 3.0 -> the turn ends at 5.0.
    let segs = segments_for_stem(
        &parse_rttm("SPEAKER plain 1 0.0 1.5 <NA> <NA> B <NA> <NA>\nSPEAKER plain 1 2.0 3.0 <NA> <NA> B <NA> <NA>\n"),
        "plain",
    );
    let (turns, names) = to_speaker_turns(&segs);
    assert_eq!(turns.len(), 2);
    assert_eq!(turns[0].speaker, 0);
    assert_eq!(turns[0].time.start, 0);
    assert_eq!(turns[1].time.end, 5_000_000_000);
    assert_eq!(names, vec!["B".to_owned()]);
}

#[test]
fn speaker_turns_number_names_from_zero_in_order() {
    let seg = |start: i64, duration: i64, speaker: &str| RttmSegment {
        file: "f".to_owned(),
        start,
        duration,
        speaker: speaker.to_owned(),
    };
    let segs = vec![seg(0, 10, "Y"), seg(5, 5, "X"), seg(20, 1, "Y"), seg(i64::MAX - 1, 10, "Z")];
    let (turns, names) = to_speaker_turns(&segs);
    let ids: Vec<u32> = turns.iter().map(|t| t.speaker).collect();
    assert_eq!(ids, vec![0, 1, 0, 2]);
    assert_eq!(names, vec!["Y".to_owned(), "X".to_owned(), "Z".to_owned()]);
    assert_eq!(turns[1].time, TimeRange { start: 5, end: 10 });
    // An end beyond the clock saturates.
    assert_eq!(turns[3].time.end, i64::MAX);
}
