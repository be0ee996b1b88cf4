# polyvoice

Speaker-diarization scoring and word attribution, verified with Verus.

The library (`src/`) keeps time on an integer nanosecond clock and states
what each function computes in its contract:

- `der`, `matching`, `assign`, `sums`: frame-based diarization error counts
  with a forgiveness collar, single-speaker / overlap regions and scored
  (UEM) ranges; hypothesis speakers are matched one to one to reference
  speakers by a maximum-weight assignment, proved optimal; `uniqueness`
  proves that the counts depend neither on which optimal matching is chosen
  nor on the names of the hypothesis speakers; `monotone` proves that a
  wider collar, scored ranges or a region restriction never add error.
- `wder`: word-level diarization error counts.
- `attribution`, `sweep`: tagging ASR words with the speaker of the turn they
  overlap most (or the nearest turn), timestamp interpolation, sentence
  smoothing and turn texts; the start-order sweep is proved to agree with a
  scan over all turns.
- `uem`, `rttm`, `npy`: parsers for UEM and RTTM text and NPY array headers;
  `decimal` reads their times (decimal seconds, with an optional exponent)
  as whole nanoseconds.
- `prune`, `short_filter`, `canonical`, `durations`: which clusters survive
  pruning, which windows are long enough to cluster (never none), canonical
  cluster ids by descending size (the partition unchanged), and each
  cluster's speech duration as the length of the union of its windows.
- `integrity`, `registry`, `cli`, `mcp`, `clusterer`, `embedder`, `asr`,
  `earshot_vad`, `ecapa`: model checksums, the adapter registry, command-line
  and protocol configuration, and the error types of the model adapters.

`app/` holds what the library leaves to its callers: seconds and rates in
floating point, reading files, and running the earshot voice-activity model.
