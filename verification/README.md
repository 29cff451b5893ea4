# timeline

Finds the stretches of a film's soundtrack where nobody speaks, and keeps them
as a timeline of non-voice segments that can be tagged, prompted, verified,
merged, reviewed and exported (JSON, EDL, WebVTT).

- `src/` is the verified library (Verus). It holds the segment model and every
  integer rule of the pipeline: smoothing of frame decisions, speech segments,
  inversion into non-voice spans, pruning, bridging, merge policies, splitting,
  expansion into ambiguous frames, the SRT and manifest readers, the timecode
  formats, the comparison counts used in validation, the review entries and
  the script-safe escaping, the gap analysis, and the planner's world state.
  `passes` chains the segment passes of an analysis run, from per-frame
  states to the final non-voice segments.
  Each public function states its result in its `ensures`; the laws that span
  several functions are public proof functions beside them.
- `app/` is the command-line program: audio decoding, the floating-point
  feature extraction and voice-activity engines, file and database I/O, and
  the browser opener. It hands plain values to the library.
- `tests/` runs the library on concrete inputs.

Confidence scores are `f32` in the files; the library carries their bit
patterns, compares them by the numbers they stand for (NaN, signs and
`-0.0` included), and leaves all arithmetic on them to `app/`.
