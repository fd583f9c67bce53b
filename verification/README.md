# meetily

The logic of a local meeting recorder, written in Rust and proved with Verus:
what happens to a transcript after the recording stops, and how meetings,
speakers and recording folders are kept.

`src/` is the library. Every function states in its contract what it returns,
and Verus proves it. Times are integers in nanoseconds, probabilities and
similarities integers in billionths.

| Module | What it does |
| --- | --- |
| `diarization` | speaker turns, labels, models, and watching over the helper program |
| `helper_binary` | where the helper program is looked for |
| `oversplit` | merging clusters of one voice and folding stray segments |
| `segmentation` | where the voice changes, from frame-level classes |
| `stereo` | the local speaker from the microphone channel |
| `boundary_refine`, `boundary_prompt`, `refinement` | moving cuts between turns, and asking a model which |
| `transcript_repair`, `word_edits`, `repair_session` | patching doubtful sentences |
| `boundary_eval` | scoring a model on labelled handovers |
| `glossary` | learning the vocabulary of a meeting |
| `voiceprints`, `speakers_overview` | naming speakers across meetings |
| `retranscription`, `retranscription_run` | one run over a recording, stage by stage |
| `meetings`, `models` | statements on the database and what they come to |
| `recording_layout`, `layout_work` | recording folders that follow titles, and in which order |
| `coreml`, `wav` | encoder files and WAV files |
| `text`, `json`, `clock`, `timeline` | strings, JSON values, the clock, time |

Proof functions whose names begin with `law_` state what holds across functions.

`app/` is ordinary Rust around the library: files, network, database, engines
and floating point. `tests/` run the library on concrete values.

What is taken on trust stands in `json`, `clock` and `text`: calls into
serde_json, chrono, uuid and the standard library, each with a comment that says
what is claimed of it.
