use polyvoice::attribution::{
    apply_sentence_smoothing, attribute_and_fill, attribute_one_reference, gap_of, attribute_words, attribute_words_with_config,
    better_turn, ends_sentence, fill_turn_text, fill_turn_text_with_config,
    interpolate_word_timestamps, needs_timestamp_interpolation, tag_words, AttributionConfig, Ratio,
    SpeakerTurn, Word, WordAlignment, WordAnchor,
};
use polyvoice::sweep::attribute_words_sweep;
use polyvoice::time::TimeRange;

const S: f64 = 1_000_000_000.0;

fn t(secs: f64) -> i64 {
    (secs * S).round() as i64
}

fn word(text: &str, start: f64, end: f64) -> Word {
    Word { word: text.to_owned(), time: TimeRange { start: t(start), end: t(end) } }
}

fn turn(id: u32, start: f64, end: f64) -> SpeakerTurn {
    SpeakerTurn { speaker: id, time: TimeRange { start: t(start), end: t(end) }, text: None, stable: true }
}

fn no_interp() -> AttributionConfig {
    AttributionConfig { interpolate_timestamps: false, ..AttributionConfig::default() }
}

/// Confidence as the caller derives it: scaled by the covered fraction when
/// attributed by overlap.
fn scaled(conf: f64, a: &WordAlignment) -> f64 {
    let dur = (a.time.end - a.time.start) as f64;
    if a.overlap > 0 && dur > 0.0 {
        conf * (a.overlap as f64 / dur).min(1.0)
    } else {
        conf
    }
}

#[test]
fn mod_word_fully_inside_turn_keeps_confidence() {
    let turns = vec![turn(0, 0.0, 5.0), turn(1, 5.0, 10.0)];
    let out = attribute_words(&vec![word("hi", 1.0, 2.0)], &turns);
    assert_eq!(out.len(), 1);
    assert_eq!(out[0].speaker, Some(0));
    assert_eq!(out[0].overlap, t(1.0));
    assert!((scaled(0.9, &out[0]) - 0.9).abs() < 1e-6);
    assert!(!out[0].interpolated);
}

#[test]
fn tests_word_fully_inside_turn_keeps_confidence() {
    let turns = vec![turn(0, 0.0, 5.0), turn(1, 5.0, 10.0)];
    let out = attribute_words(&vec![word("hi", 1.0, 2.0)], &turns);
    assert_eq!(out.len(), 1);
    assert_eq!(out[0].speaker, Some(0));
    assert_eq!(out[0].overlap, t(1.0));
    assert!((scaled(0.9, &out[0]) - 0.9).abs() < 1e-6);
    assert!(!out[0].interpolated);
}

#[test]
fn mod_straddling_word_picks_dominant_and_lowers_confidence() {
    let turns = vec![turn(0, 0.0, 5.0), turn(1, 5.0, 10.0)];
    let out = attribute_words(&vec![word("x", 4.0, 6.0)], &turns);
    assert_eq!(out[0].speaker, Some(0));
    assert!((scaled(1.0, &out[0]) - 0.5).abs() < 1e-6);
    let out2 = attribute_words(&vec![word("y", 4.0, 8.0)], &turns);
    assert_eq!(out2[0].speaker, Some(1));
    assert!((scaled(1.0, &out2[0]) - 0.75).abs() < 1e-6);
}

#[test]
fn tests_straddling_word_picks_dominant_and_lowers_confidence() {
    let turns = vec![turn(0, 0.0, 5.0), turn(1, 5.0, 10.0)];
    let out = attribute_words(&vec![word("x", 4.0, 6.0)], &turns);
    assert_eq!(out[0].speaker, Some(0));
    assert!((scaled(1.0, &out[0]) - 0.5).abs() < 1e-6);
    let out2 = attribute_words(&vec![word("y", 4.0, 8.0)], &turns);
    assert_eq!(out2[0].speaker, Some(1));
    assert!((scaled(1.0, &out2[0]) - 0.75).abs() < 1e-6);
}

#[test]
fn mod_word_in_silence_goes_to_nearest_turn() {
    let turns = vec![turn(0, 0.0, 2.0), turn(1, 8.0, 10.0)];
    let out = attribute_words(&vec![word("z", 4.5, 5.0)], &turns);
    assert_eq!(out[0].speaker, Some(0));
    assert_eq!(out[0].overlap, 0);
    assert!((scaled(0.8, &out[0]) - 0.8).abs() < 1e-6);
}

#[test]
fn tests_word_in_silence_goes_to_nearest_turn() {
    let turns = vec![turn(0, 0.0, 2.0), turn(1, 8.0, 10.0)];
    let out = attribute_words(&vec![word("z", 4.5, 5.0)], &turns);
    assert_eq!(out[0].speaker, Some(0));
    assert_eq!(out[0].overlap, 0);
    assert!((scaled(0.8, &out[0]) - 0.8).abs() < 1e-6);
}

#[test]
fn equal_gaps_go_to_the_smaller_speaker_id() {
    let turns = vec![turn(3, 0.0, 2.0), turn(1, 8.0, 10.0)];
    let out = attribute_words(&vec![word("z", 4.5, 5.5)], &turns);
    assert_eq!(out[0].speaker, Some(1));
}

#[test]
fn mod_empty_turns_yield_none_speaker() {
    let out = attribute_words(&vec![word("a", 0.0, 1.0)], &vec![]);
    assert_eq!(out.len(), 1);
    assert_eq!(out[0].speaker, None);
    assert_eq!(out[0].overlap, 0);
}

#[test]
fn tests_empty_turns_yield_none_speaker() {
    let out = attribute_words(&vec![word("a", 0.0, 1.0)], &vec![]);
    assert_eq!(out.len(), 1);
    assert_eq!(out[0].speaker, None);
    assert_eq!(out[0].overlap, 0);
}

#[test]
fn mod_empty_words_yield_empty() {
    let turns = vec![turn(0, 0.0, 5.0)];
    assert!(attribute_words(&vec![], &turns).is_empty());
}

#[test]
fn tests_empty_words_yield_empty() {
    let turns = vec![turn(0, 0.0, 5.0)];
    assert!(attribute_words(&vec![], &turns).is_empty());
}

#[test]
fn mod_order_and_length_preserved_incl_before_after() {
    let turns = vec![turn(0, 2.0, 4.0), turn(1, 6.0, 8.0)];
    let words = vec![word("before", 0.0, 1.0), word("in0", 2.5, 3.0), word("after", 9.0, 9.5)];
    let out = attribute_words(&words, &turns);
    assert_eq!(out.len(), 3);
    assert_eq!(out[0].word, "before");
    assert_eq!(out[2].word, "after");
    assert_eq!(out[0].speaker, Some(0));
    assert_eq!(out[1].speaker, Some(0));
    assert_eq!(out[2].speaker, Some(1));
    assert!(out.iter().all(|w| w.speaker.is_some()));
}

#[test]
fn tests_order_and_length_preserved_incl_before_after() {
    let turns = vec![turn(0, 2.0, 4.0), turn(1, 6.0, 8.0)];
    let words = vec![word("before", 0.0, 1.0), word("in0", 2.5, 3.0), word("after", 9.0, 9.5)];
    let out = attribute_words(&words, &turns);
    assert_eq!(out.len(), 3);
    assert_eq!(out[0].word, "before");
    assert_eq!(out[2].word, "after");
    assert_eq!(out[0].speaker, Some(0));
    assert_eq!(out[1].speaker, Some(0));
    assert_eq!(out[2].speaker, Some(1));
    assert!(out.iter().all(|w| w.speaker.is_some()));
}

#[test]
fn unsorted_and_nested_turns() {
    let turns = vec![turn(1, 5.0, 10.0), turn(0, 0.0, 5.0), turn(2, 2.0, 3.0)];
    let words = vec![word("a", 1.0, 1.5), word("b", 2.2, 2.8), word("c", 6.0, 7.0), word("d", 4.0, 6.0)];
    let out = attribute_words_with_config(&words, &turns, &no_interp());
    assert_eq!(out[0].speaker, Some(0));
    // Equal overlap with turns 0 and 2: the smaller id wins.
    assert_eq!(out[1].speaker, Some(0));
    assert_eq!(out[2].speaker, Some(1));
    assert_eq!(out[3].speaker, Some(0));
}

#[test]
fn tie_break_prefers_smaller_id_then_earlier_turn() {
    let turns = vec![turn(2, 0.0, 1.0), turn(1, 0.0, 1.0), turn(1, 0.0, 1.0)];
    assert!(better_turn(1, 0, &turns));
    assert!(!better_turn(0, 1, &turns));
    assert!(better_turn(1, 2, &turns));
    assert!(!better_turn(2, 1, &turns));
}

#[test]
fn mod_cascade_assigns_speakers_and_fills_turn_text() {
    let turns = vec![turn(0, 0.0, 5.0), turn(1, 5.0, 10.0)];
    let words = vec![word("hello", 0.5, 1.0), word("there", 1.5, 2.0), word("hi", 6.0, 6.5)];
    let wsw = attribute_and_fill(&words, &turns);
    assert_eq!(wsw.words[0].speaker, Some(0));
    assert_eq!(wsw.words[2].speaker, Some(1));
    assert_eq!(wsw.turns[0].text.as_deref(), Some("hello there"));
    assert_eq!(wsw.turns[1].text.as_deref(), Some("hi"));
}

#[test]
fn tests_cascade_assigns_speakers_and_fills_turn_text() {
    let turns = vec![turn(0, 0.0, 5.0), turn(1, 5.0, 10.0)];
    let words = vec![word("hello", 0.5, 1.0), word("there", 1.5, 2.0), word("hi", 6.0, 6.5)];
    let wsw = attribute_and_fill(&words, &turns);
    assert_eq!(wsw.words[0].speaker, Some(0));
    assert_eq!(wsw.words[2].speaker, Some(1));
    assert_eq!(wsw.turns[0].text.as_deref(), Some("hello there"));
    assert_eq!(wsw.turns[1].text.as_deref(), Some("hi"));
}

#[test]
fn mod_cascade_overlap_word_goes_to_dominant_turn() {
    let turns = vec![turn(0, 0.0, 5.0), turn(1, 5.0, 10.0)];
    let wsw = attribute_and_fill(&vec![word("x", 4.0, 6.0)], &turns);
    assert_eq!(wsw.words[0].speaker, Some(0));
    // Midpoint 5.0 is not before turn 0's end, so no turn takes the word.
    assert_eq!(wsw.turns[0].text, None);
    assert_eq!(wsw.turns[1].text, None);
}

#[test]
fn tests_cascade_overlap_word_goes_to_dominant_turn() {
    let turns = vec![turn(0, 0.0, 5.0), turn(1, 5.0, 10.0)];
    let wsw = attribute_and_fill(&vec![word("x", 4.0, 6.0)], &turns);
    assert_eq!(wsw.words[0].speaker, Some(0));
    // Midpoint 5.0 is not before turn 0's end, so no turn takes the word.
    assert_eq!(wsw.turns[0].text, None);
    assert_eq!(wsw.turns[1].text, None);
}

#[test]
fn mod_cascade_turn_text_is_time_ordered() {
    let turns = vec![turn(0, 0.0, 10.0)];
    let words = vec![word("world", 3.0, 3.5), word("hello", 1.0, 1.5)];
    let wsw = attribute_and_fill(&words, &turns);
    assert_eq!(wsw.turns[0].text.as_deref(), Some("hello world"));
}

#[test]
fn tests_cascade_turn_text_is_time_ordered() {
    let turns = vec![turn(0, 0.0, 10.0)];
    let words = vec![word("world", 3.0, 3.5), word("hello", 1.0, 1.5)];
    let wsw = attribute_and_fill(&words, &turns);
    assert_eq!(wsw.turns[0].text.as_deref(), Some("hello world"));
}

#[test]
fn equal_start_words_keep_input_order() {
    let turns = vec![turn(0, 0.0, 10.0)];
    let words = vec![word("b", 2.0, 2.5), word("a", 1.0, 1.5), word("c", 2.0, 3.0)];
    let wsw = attribute_and_fill(&words, &turns);
    assert_eq!(wsw.turns[0].text.as_deref(), Some("a b c"));
}

#[test]
fn mod_cascade_empty_asr_yields_turns_without_text() {
    let turns = vec![turn(0, 0.0, 5.0), turn(1, 5.0, 10.0)];
    let wsw = attribute_and_fill(&vec![], &turns);
    assert!(wsw.words.is_empty());
    assert!(wsw.turns.iter().all(|t| t.text.is_none()));
    assert_eq!(wsw.turns.len(), 2);
}

#[test]
fn tests_cascade_empty_asr_yields_turns_without_text() {
    let turns = vec![turn(0, 0.0, 5.0), turn(1, 5.0, 10.0)];
    let wsw = attribute_and_fill(&vec![], &turns);
    assert!(wsw.words.is_empty());
    assert!(wsw.turns.iter().all(|t| t.text.is_none()));
    assert_eq!(wsw.turns.len(), 2);
}

#[test]
fn mod_interpolate_zero_duration_uses_neighbors() {
    let words = vec![word("a", 0.0, 1.0), word("b", 0.0, 0.0), word("c", 2.0, 3.0)];
    let (fixed, flags) = interpolate_word_timestamps(&words);
    assert_eq!(fixed.len(), words.len());
    assert!(!flags[0] && flags[1] && !flags[2]);
    assert_eq!(fixed[1].time, TimeRange { start: t(1.0), end: t(2.0) });
    assert_eq!(fixed[0], words[0]);
    assert_eq!(fixed[1].word, "b");
}

#[test]
fn tests_interpolate_zero_duration_uses_neighbors() {
    let words = vec![word("a", 0.0, 1.0), word("b", 0.0, 0.0), word("c", 2.0, 3.0)];
    let (fixed, flags) = interpolate_word_timestamps(&words);
    assert_eq!(fixed.len(), words.len());
    assert!(!flags[0] && flags[1] && !flags[2]);
    assert_eq!(fixed[1].time, TimeRange { start: t(1.0), end: t(2.0) });
    assert_eq!(fixed[0], words[0]);
    assert_eq!(fixed[1].word, "b");
}

#[test]
fn mod_interpolate_preserves_length_all_missing() {
    let words = vec![word("x", 0.0, 0.0), word("y", 5.0, 5.0)];
    let (fixed, flags) = interpolate_word_timestamps(&words);
    assert_eq!(fixed.len(), 2);
    assert!(flags.iter().all(|&f| f));
    assert!(fixed.iter().all(|w| w.time.end > w.time.start));
    assert_eq!(fixed[0].time, TimeRange { start: 0, end: 1_000_000 });
}

#[test]
fn tests_interpolate_preserves_length_all_missing() {
    let words = vec![word("x", 0.0, 0.0), word("y", 5.0, 5.0)];
    let (fixed, flags) = interpolate_word_timestamps(&words);
    assert_eq!(fixed.len(), 2);
    assert!(flags.iter().all(|&f| f));
    assert!(fixed.iter().all(|w| w.time.end > w.time.start));
    assert_eq!(fixed[0].time, TimeRange { start: 0, end: 1_000_000 });
}

#[test]
fn interpolate_edges_use_one_neighbour() {
    let words = vec![word("a", 3.0, 3.0), word("b", 4.0, 5.0), word("c", 9.0, 8.0)];
    let (fixed, _) = interpolate_word_timestamps(&words);
    // Only a next neighbour: [start - 1 ms, start).
    assert_eq!(fixed[0].time, TimeRange { start: t(4.0) - 1_000_000, end: t(4.0) });
    // Only a previous neighbour: [end, end + 1 ms).
    assert_eq!(fixed[2].time, TimeRange { start: t(5.0), end: t(5.0) + 1_000_000 });
    // Crossing neighbours give a 1 ms span at the boundary.
    let words = vec![word("p", 0.0, 6.0), word("q", 7.0, 7.0), word("r", 5.0, 6.5)];
    let (fixed, _) = interpolate_word_timestamps(&words);
    assert_eq!(fixed[1].time, TimeRange { start: t(6.0), end: t(6.0) + 1_000_000 });
    assert!(needs_timestamp_interpolation(&words[1]));
    assert!(!needs_timestamp_interpolation(&words[0]));
}

#[test]
fn mod_attribution_totality_with_missing_timestamps() {
    let turns = vec![turn(0, 0.0, 5.0), turn(1, 5.0, 10.0)];
    let words = vec![word("ok", 1.0, 2.0), word("hole", 0.0, 0.0), word("ok2", 6.0, 7.0)];
    let out = attribute_words(&words, &turns);
    assert_eq!(out.len(), words.len());
    assert!(out.iter().all(|w| w.speaker.is_some()));
    assert!(out[1].interpolated);
    assert!(!out[0].interpolated);
}

fn smoothing() -> AttributionConfig {
    AttributionConfig { sentence_smoothing: true, interpolate_timestamps: false, ..AttributionConfig::default() }
}

#[test]
fn tests_attribution_totality_with_missing_timestamps() {
    let turns = vec![turn(0, 0.0, 5.0), turn(1, 5.0, 10.0)];
    let words = vec![word("ok", 1.0, 2.0), word("hole", 0.0, 0.0), word("ok2", 6.0, 7.0)];
    let out = attribute_words(&words, &turns);
    assert_eq!(out.len(), words.len());
    assert!(out.iter().all(|w| w.speaker.is_some()));
    assert!(out[1].interpolated);
    assert!(!out[0].interpolated);
}


#[test]
fn mod_sentence_smoothing_relabels_mid_sentence_minority() {
    let turns = vec![turn(0, 0.0, 10.0), turn(1, 10.0, 20.0)];
    let words = vec![
        word("Hello", 0.0, 1.0),
        word("world", 1.0, 2.0),
        word("from", 2.0, 3.0),
        word("me.", 11.0, 12.0),
    ];
    let out = attribute_words_with_config(&words, &turns, &smoothing());
    assert!(out.iter().all(|w| w.speaker == Some(0)));
}

#[test]
fn tests_sentence_smoothing_relabels_mid_sentence_minority() {
    let turns = vec![turn(0, 0.0, 10.0), turn(1, 10.0, 20.0)];
    let words = vec![
        word("Hello", 0.0, 1.0),
        word("world", 1.0, 2.0),
        word("from", 2.0, 3.0),
        word("me.", 11.0, 12.0),
    ];
    let out = attribute_words_with_config(&words, &turns, &smoothing());
    assert!(out.iter().all(|w| w.speaker == Some(0)));
}

#[test]
fn mod_sentence_smoothing_skips_boundary_between_sentences() {
    let turns = vec![turn(0, 0.0, 5.0), turn(1, 5.0, 10.0)];
    let words = vec![word("Hi.", 1.0, 2.0), word("Hey.", 6.0, 7.0)];
    let out = attribute_words_with_config(&words, &turns, &smoothing());
    assert_eq!(out[0].speaker, Some(0));
    assert_eq!(out[1].speaker, Some(1));
}

#[test]
fn tests_sentence_smoothing_skips_boundary_between_sentences() {
    let turns = vec![turn(0, 0.0, 5.0), turn(1, 5.0, 10.0)];
    let words = vec![word("Hi.", 1.0, 2.0), word("Hey.", 6.0, 7.0)];
    let out = attribute_words_with_config(&words, &turns, &smoothing());
    assert_eq!(out[0].speaker, Some(0));
    assert_eq!(out[1].speaker, Some(1));
}

#[test]
fn mod_sentence_smoothing_respects_threshold() {
    let turns = vec![turn(0, 0.0, 5.0), turn(1, 5.0, 10.0)];
    let words = vec![word("a", 1.0, 1.5), word("b", 2.0, 2.5), word("c", 6.0, 6.5), word("d.", 7.0, 7.5)];
    let cfg = AttributionConfig { smoothing_threshold: Ratio { num: 1, den: 2 }, ..smoothing() };
    let out = attribute_words_with_config(&words, &turns, &cfg);
    assert_eq!(out[0].speaker, Some(0));
    assert_eq!(out[2].speaker, Some(1));
    // A lower threshold relabels the whole sentence to the tie winner (id 0).
    let cfg = AttributionConfig { smoothing_threshold: Ratio { num: 2, den: 5 }, ..smoothing() };
    let out = attribute_words_with_config(&words, &turns, &cfg);
    assert!(out.iter().all(|w| w.speaker == Some(0)));
}

#[test]
fn tests_sentence_smoothing_respects_threshold() {
    let turns = vec![turn(0, 0.0, 5.0), turn(1, 5.0, 10.0)];
    let words = vec![word("a", 1.0, 1.5), word("b", 2.0, 2.5), word("c", 6.0, 6.5), word("d.", 7.0, 7.5)];
    let cfg = AttributionConfig { smoothing_threshold: Ratio { num: 1, den: 2 }, ..smoothing() };
    let out = attribute_words_with_config(&words, &turns, &cfg);
    assert_eq!(out[0].speaker, Some(0));
    assert_eq!(out[2].speaker, Some(1));
    // A lower threshold relabels the whole sentence to the tie winner (id 0).
    let cfg = AttributionConfig { smoothing_threshold: Ratio { num: 2, den: 5 }, ..smoothing() };
    let out = attribute_words_with_config(&words, &turns, &cfg);
    assert!(out.iter().all(|w| w.speaker == Some(0)));
}

#[test]
fn sentence_smoothing_leaves_unattributed_words() {
    let mut aligned = vec![
        WordAlignment { word: "a".into(), time: TimeRange { start: 0, end: 1 }, speaker: Some(1), overlap: 1, interpolated: false },
        WordAlignment { word: "b".into(), time: TimeRange { start: 1, end: 2 }, speaker: None, overlap: 0, interpolated: false },
        WordAlignment { word: "c".into(), time: TimeRange { start: 2, end: 3 }, speaker: Some(1), overlap: 1, interpolated: false },
        WordAlignment { word: "d!\"".into(), time: TimeRange { start: 3, end: 4 }, speaker: Some(2), overlap: 1, interpolated: false },
    ];
    apply_sentence_smoothing(&mut aligned, 1, 2);
    assert_eq!(aligned[0].speaker, Some(1));
    assert_eq!(aligned[1].speaker, None);
    assert_eq!(aligned[2].speaker, Some(1));
    assert_eq!(aligned[3].speaker, Some(1));
}

#[test]
fn sentence_ends_detected_through_closers() {
    assert!(ends_sentence("done."));
    assert!(ends_sentence("what?\u{201D}"));
    assert!(ends_sentence("wow!)]"));
    assert!(!ends_sentence("comma,"));
    assert!(!ends_sentence("\")"));
    assert!(!ends_sentence(""));
}

#[test]
fn mod_word_anchor_start_places_word_in_earlier_turn() {
    let turns = vec![turn(0, 0.0, 5.0), turn(1, 5.0, 10.0)];
    let aligned = attribute_words(&vec![word("x", 4.5, 5.5)], &turns);
    assert_eq!(aligned[0].speaker, Some(0));
    let mid = fill_turn_text(&turns, &aligned);
    assert!(mid[0].text.is_none());
    let cfg = AttributionConfig { word_anchor: WordAnchor::Start, interpolate_timestamps: false, ..AttributionConfig::default() };
    let start_fill = fill_turn_text_with_config(&turns, &aligned, &cfg);
    assert_eq!(start_fill[0].text.as_deref(), Some("x"));
}

#[test]
fn tests_word_anchor_start_places_word_in_earlier_turn() {
    let turns = vec![turn(0, 0.0, 5.0), turn(1, 5.0, 10.0)];
    let aligned = attribute_words(&vec![word("x", 4.5, 5.5)], &turns);
    assert_eq!(aligned[0].speaker, Some(0));
    let mid = fill_turn_text(&turns, &aligned);
    assert!(mid[0].text.is_none());
    let cfg = AttributionConfig { word_anchor: WordAnchor::Start, interpolate_timestamps: false, ..AttributionConfig::default() };
    let start_fill = fill_turn_text_with_config(&turns, &aligned, &cfg);
    assert_eq!(start_fill[0].text.as_deref(), Some("x"));
}

#[test]
fn mod_word_anchor_end_places_word_in_later_turn() {
    let turns = vec![turn(0, 0.0, 5.0), turn(1, 5.0, 10.0)];
    let aligned = attribute_words(&vec![word("x", 4.5, 5.5)], &turns);
    let cfg = AttributionConfig { word_anchor: WordAnchor::End, interpolate_timestamps: false, ..AttributionConfig::default() };
    let end_fill = fill_turn_text_with_config(&turns, &aligned, &cfg);
    assert!(end_fill[0].text.is_none());
    assert!(end_fill[1].text.is_none());
}
#[test]
fn tests_word_anchor_end_places_word_in_later_turn() {
    let turns = vec![turn(0, 0.0, 5.0), turn(1, 5.0, 10.0)];
    let aligned = attribute_words(&vec![word("x", 4.5, 5.5)], &turns);
    let cfg = AttributionConfig { word_anchor: WordAnchor::End, interpolate_timestamps: false, ..AttributionConfig::default() };
    let end_fill = fill_turn_text_with_config(&turns, &aligned, &cfg);
    assert!(end_fill[0].text.is_none());
    assert!(end_fill[1].text.is_none());
}

#[test]
fn mod_unsorted_turns_still_match_reference() {
    let turns = vec![turn(1, 5.0, 10.0), turn(0, 0.0, 5.0), turn(2, 2.0, 3.0)];
    let words = vec![word("a", 1.0, 1.5), word("b", 2.2, 2.8), word("c", 6.0, 7.0), word("d", 4.0, 6.0)];
    let got = attribute_words_with_config(&words, &turns, &no_interp());
    for (w, g) in words.iter().zip(got.iter()) {
        let (spk, ov) = attribute_one_reference(w.time, &turns);
        assert_eq!(g.speaker, spk);
        assert!((scaled(1.0, g) - scaled(1.0, &WordAlignment { overlap: ov, ..g.clone() })).abs() < 1e-5);
    }
}

#[test]
fn tests_unsorted_turns_still_match_reference() {
    let turns = vec![turn(1, 5.0, 10.0), turn(0, 0.0, 5.0), turn(2, 2.0, 3.0)];
    let words = vec![word("a", 1.0, 1.5), word("b", 2.2, 2.8), word("c", 6.0, 7.0), word("d", 4.0, 6.0)];
    let got = attribute_words_with_config(&words, &turns, &no_interp());
    for (w, g) in words.iter().zip(got.iter()) {
        let (spk, ov) = attribute_one_reference(w.time, &turns);
        assert_eq!(g.speaker, spk);
        assert!((scaled(1.0, g) - scaled(1.0, &WordAlignment { overlap: ov, ..g.clone() })).abs() < 1e-5);
    }
}

#[test]
fn gap_is_zero_for_overlapping_intervals() {
    let a = TimeRange { start: t(0.0), end: t(2.0) };
    let b = TimeRange { start: t(1.0), end: t(3.0) };
    assert_eq!(gap_of(a, b), 0);
    assert_eq!(gap_of(b, a), 0);
    let inner = TimeRange { start: t(0.5), end: t(1.0) };
    assert_eq!(gap_of(a, inner), 0);
    let later = TimeRange { start: t(5.0), end: t(6.0) };
    assert_eq!(gap_of(a, later), t(3.0));
    assert_eq!(gap_of(later, a), t(3.0));
}

#[test]
fn sentence_smoothing_noop_for_single_speaker_sentence() {
    let turns = vec![turn(0, 0.0, 10.0)];
    let words = vec![word("all", 1.0, 1.5), word("mine.", 2.0, 2.5)];
    let out = attribute_words_with_config(&words, &turns, &smoothing());
    assert!(out.iter().all(|w| w.speaker == Some(0)));
}

#[test]
fn sentence_smoothing_noop_without_attributed_words() {
    let words = vec![word("nobody", 1.0, 1.5), word("here.", 2.0, 2.5)];
    let out = attribute_words_with_config(&words, &vec![], &smoothing());
    assert!(out.iter().all(|w| w.speaker.is_none()));
    assert!((scaled(0.9, &out[0]) - 0.9).abs() < 1e-6);
}

/// A small deterministic generator for sweep-versus-scan checks.
fn lcg(state: &mut u64) -> u64 {
    *state = state.wrapping_mul(6364136223846793005).wrapping_add(1442695040888963407);
    *state >> 33
}

#[test]
fn sweep_matches_scan_on_generated_inputs() {
    let mut st: u64 = 7;
    for _ in 0..200 {
        let nw = (lcg(&mut st) % 12) as usize;
        let nt = (lcg(&mut st) % 8) as usize;
        let mut words = Vec::new();
        for _ in 0..nw {
            let s = (lcg(&mut st) % 5000) as f64 / 100.0;
            let d = 0.01 + (lcg(&mut st) % 500) as f64 / 100.0;
            words.push(word("w", s, s + d));
        }
        let mut turns = Vec::new();
        for _ in 0..nt {
            let s = (lcg(&mut st) % 5000) as f64 / 100.0;
            let d = 0.01 + (lcg(&mut st) % 500) as f64 / 100.0;
            turns.push(turn((lcg(&mut st) % 4) as u32, s, s + d));
        }
        let flags = vec![false; words.len()];
        let swept = attribute_words_sweep(&words, &turns, &flags);
        assert_eq!(swept.len(), words.len());
        for (w, g) in words.iter().zip(swept.iter()) {
            assert_eq!((g.speaker, g.overlap), attribute_one_reference(w.time, &turns));
        }
    }
}

#[test]
fn inverted_word_spans_are_scanned() {
    // A word ending before it starts: the join falls back to a full scan.
    let turns = vec![turn(0, 6.0, 8.0), turn(1, 7.0, 9.0)];
    let words = vec![word("odd", 10.0, 5.0)];
    let out = tag_words(&words, &turns, &vec![false]);
    assert_eq!((out[0].speaker, out[0].overlap), attribute_one_reference(words[0].time, &turns));
    assert_eq!(out[0].speaker, Some(0));
}

#[test]
fn smoothing_only_relabels_the_unsmoothed_attribution() {
    // One sentence: three words in turn 0, one word in turn 1.
    let turns = vec![turn(0, 0.0, 3.0), turn(1, 3.0, 4.0), turn(0, 4.0, 6.0)];
    let words = vec![word("we", 0.5, 1.0), word("went", 1.5, 2.0), word("out", 3.2, 3.8), word("today.", 4.5, 5.0)];
    let smoothed = attribute_words_with_config(&words, &turns, &smoothing());
    let plain = attribute_words_with_config(
        &words,
        &turns,
        &AttributionConfig { sentence_smoothing: false, ..smoothing() },
    );
    assert_eq!(plain.iter().map(|w| w.speaker).collect::<Vec<_>>(), vec![Some(0), Some(0), Some(1), Some(0)]);
    assert_eq!(smoothed.iter().map(|w| w.speaker).collect::<Vec<_>>(), vec![Some(0); 4]);
    for (a, b) in smoothed.iter().zip(plain.iter()) {
        assert_eq!((&a.word, a.time, a.overlap, a.interpolated), (&b.word, b.time, b.overlap, b.interpolated));
    }
}
