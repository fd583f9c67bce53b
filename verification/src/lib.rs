//! Decision logic of a meeting recorder: speaker attribution, transcript
//! refinement and the bookkeeping around recordings.
pub mod boundary_eval;
pub mod boundary_prompt;
pub mod boundary_refine;
pub mod clock;
pub mod coreml;
pub mod diarization;
pub mod glossary;
pub mod helper_binary;
pub mod json;
pub mod layout_work;
pub mod meetings;
pub mod models;
pub mod oversplit;
pub mod recording_layout;
pub mod refinement;
pub mod repair_session;
pub mod retranscription;
pub mod retranscription_run;
pub mod segmentation;
pub mod speakers_overview;
pub mod stereo;
pub mod text;
pub mod timeline;
pub mod transcript_repair;
pub mod voiceprints;
pub mod wav;
pub mod word_edits;
