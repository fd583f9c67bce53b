//! The course of a retranscription and of a standalone fix-up: which stage comes
//! next, what is reported, and where a run stops.
use vstd::prelude::*;
use crate::retranscription::RetranscriptionProgress;
use crate::text;
use crate::text::{chars_of, decimal_of, trim};

verus! {

/// Why a cancelled run stops.
pub const CANCELLED: &'static str = "Retranscription cancelled";

/// Why a cancelled fix-up stops.
pub const FIX_UP_CANCELLED: &'static str = "AI fix-up cancelled";

/// Why a run without speech stops.
pub const NO_SPEECH: &'static str = "No speech detected in audio file";

/// Why a fix-up without data cannot start.
pub const NO_REFINE_DATA: &'static str = "No refinement data for this meeting yet — run Enhance (retranscribe) once first";

/// What is said when speakers could not be identified.
pub const DIARIZATION_FAILED: &'static str = "Speaker identification failed, continuing without speaker labels";

/// A report of a stage.
#[derive(Debug)]
pub struct Report {
    pub stage: String,
    pub percent: u32,
    pub message: String,
}

/// The contents of a report.
pub struct ReportView {
    pub stage: Seq<char>,
    pub percent: int,
    pub message: Seq<char>,
}

impl View for Report {
    type V = ReportView;

    open spec fn view(&self) -> ReportView {
        ReportView {
            stage: self.stage@,
            percent: self.percent as int,
            message: self.message@,
        }
    }
}

/// A report with the given contents.
fn report(stage: &str, percent: u32, message: &str) -> (r: Report)
    ensures
        r@ == (ReportView { stage: stage@, percent: percent as int, message: message@ }),
{
    Report { stage: stage.to_owned(), percent, message: message.to_owned() }
}

/// The progress of a meeting that a report stands for.
pub fn progress(meeting_id: &str, r: Report) -> (p: RetranscriptionProgress)
    ensures
        p.meeting_id@ == meeting_id@,
        p.stage@ == r.stage@,
        p.progress_percentage == r.percent,
        p.message@ == r.message@,
{
    RetranscriptionProgress {
        meeting_id: meeting_id.to_owned(),
        stage: r.stage,
        progress_percentage: r.percent,
        message: r.message,
    }
}

/// Progress of a part that takes `width` percent from `base` on, when `done` of
/// `total` are through.
pub open spec fn part_of(base: int, width: int, done: int, total: int) -> int {
    base + width * done / if total > 0 {
        total
    } else {
        1
    }
}

/// Progress of a part that takes `width` percent from `base` on, when `done` of
/// `total` are through. It stays within the part.
pub fn part_percent(base: u32, width: u32, done: usize, total: usize) -> (r: u32)
    requires
        done <= total,
        base + width <= u32::MAX,
    ensures
        r == part_of(base as int, width as int, done as int, total as int),
        base <= r <= base + width,
{
    let n: usize = if total > 0 {
        total
    } else {
        1
    };
    proof {
        assert(width * done <= 0x1_0000_0000 * 0x1_0000_0000_0000_0000) by (nonlinear_arith)
            requires
                0 <= width <= 0x1_0000_0000,
                0 <= done <= 0x1_0000_0000_0000_0000,
        ;
        assert(0 <= width * done / (n as int) <= width) by (nonlinear_arith)
            requires
                0 <= width,
                0 <= done <= n,
                n > 0,
        ;
    }
    base + (width as u128 * done as u128 / n as u128) as u32
}

/// Overall progress while speech is being detected.
pub fn vad_percent(vad: u32) -> (r: u32)
    requires
        vad <= 100,
    ensures
        r == 20 + vad / 20,
        20 <= r <= 25,
{
    20 + vad / 20
}

/// What is said while speech is being detected.
pub fn vad_message(vad: u32, found: usize) -> (r: String)
    ensures
        r@ == "Detecting speech segments... "@ + text::decimal(vad as nat) + "% ("@ + text::decimal(
            found as nat,
        ) + " found)"@,
{
    let mut out = String::new();
    out.append("Detecting speech segments... ");
    out.append(decimal_of(vad as u64).as_str());
    out.append("% (");
    out.append(decimal_of(found as u64).as_str());
    out.append(" found)");
    assert(out@ =~= "Detecting speech segments... "@ + text::decimal(vad as nat) + "% ("@
        + text::decimal(found as nat) + " found)"@);
    out
}

/// What is said of `done` of `total` boundaries or sentences.
pub fn counted_message(what: &str, done: usize, total: usize) -> (r: String)
    ensures
        r@ == what@ + " ("@ + text::decimal(done as nat) + "/"@ + text::decimal(total as nat)
            + ")..."@,
{
    let mut out = String::new();
    out.append(what);
    out.append(" (");
    out.append(decimal_of(done as u64).as_str());
    out.append("/");
    out.append(decimal_of(total as u64).as_str());
    out.append(")...");
    assert(out@ =~= what@ + " ("@ + text::decimal(done as nat) + "/"@ + text::decimal(total as nat)
        + ")..."@);
    out
}

/// Two digits of a number below one hundred.
pub open spec fn two_digits(n: nat) -> Seq<char> {
    if n < 10 {
        "0"@ + text::decimal(n)
    } else {
        text::decimal(n)
    }
}

/// What is said while the model is being optimized for the Neural Engine.
pub fn neural_engine_message(secs: u64) -> (r: String)
    ensures
        r@ == "Optimizing model for the Neural Engine — one-time, up to ~15 min ("@ + text::decimal(
            secs as nat / 60,
        ) + "m "@ + two_digits(secs as nat % 60) + "s)..."@,
{
    let mut out = String::new();
    out.append("Optimizing model for the Neural Engine — one-time, up to ~15 min (");
    out.append(decimal_of(secs / 60).as_str());
    out.append("m ");
    if secs % 60 < 10 {
        out.append("0");
    }
    out.append(decimal_of(secs % 60).as_str());
    out.append("s)...");
    assert(out@ =~= "Optimizing model for the Neural Engine — one-time, up to ~15 min ("@
        + text::decimal(secs as nat / 60) + "m "@ + two_digits(secs as nat % 60) + "s)..."@);
    out
}

// ---------------------------------------------------------------------
// A retranscription

/// What was asked for.
#[derive(Debug, Clone, Copy, PartialEq, Eq, Structural)]
pub struct RunOptions {
    /// Tell speakers apart.
    pub diarize: bool,
    /// Refine the boundaries between speakers.
    pub refine: bool,
    /// Repair improbable wording.
    pub repair: bool,
    /// Recognize with Parakeet.
    pub parakeet: bool,
}

/// The stages of a run, in their order.
#[derive(Debug, Clone, Copy, PartialEq, Eq, Structural)]
pub enum RunStage {
    Decode,
    Convert,
    Detect,
    Diarize,
    Load,
    Transcribe,
    Join,
    Turns,
    Refine,
    Repair,
    Save,
    Learn,
    Write,
    Complete,
    Failed,
}

/// A run.
#[derive(Debug, Clone, Copy, PartialEq, Eq, Structural)]
pub struct Run {
    pub options: RunOptions,
    pub stage: RunStage,
    /// Segments to transcribe.
    pub count: usize,
    /// The segment that is transcribed.
    pub next: usize,
    /// Some speaker was heard.
    pub labelled: bool,
}

/// Why a run stops, and whether the diarization has to be waited for.
#[derive(Debug)]
pub struct Stop {
    pub error: String,
    pub wait: bool,
}

/// What comes before the work of a stage.
#[derive(Debug)]
pub struct Entry {
    pub report: Option<Report>,
    pub stop: Option<Stop>,
}

/// The place of a stage in the order.
pub open spec fn rank(s: RunStage) -> int {
    match s {
        RunStage::Decode => 0,
        RunStage::Convert => 1,
        RunStage::Detect => 2,
        RunStage::Diarize => 3,
        RunStage::Load => 4,
        RunStage::Transcribe => 5,
        RunStage::Join => 6,
        RunStage::Turns => 7,
        RunStage::Refine => 8,
        RunStage::Repair => 9,
        RunStage::Save => 10,
        RunStage::Learn => 11,
        RunStage::Write => 12,
        RunStage::Complete => 13,
        RunStage::Failed => 14,
    }
}

/// The report of a stage; `seconds` is the length of the segment in words.
pub open spec fn run_report(run: Run, seconds: Seq<char>) -> Option<ReportView> {
    match run.stage {
        RunStage::Decode => Some(
            ReportView { stage: "decoding"@, percent: 5, message: "Decoding audio file..."@ },
        ),
        RunStage::Convert => Some(
            ReportView { stage: "decoding"@, percent: 15, message: "Converting audio format..."@ },
        ),
        RunStage::Detect => Some(
            ReportView { stage: "vad"@, percent: 20, message: "Detecting speech segments..."@ },
        ),
        RunStage::Load => Some(
            ReportView {
                stage: "transcribing"@,
                percent: 0,
                message: "Loading transcription engine..."@,
            },
        ),
        RunStage::Transcribe => Some(
            ReportView {
                stage: "transcribing"@,
                percent: run.next * 100 / run.count as int,
                message: "Transcribing segment "@ + text::decimal((run.next + 1) as nat) + " of "@
                    + text::decimal(run.count as nat) + " ("@ + seconds + "s)..."@,
            },
        ),
        RunStage::Turns => Some(
            ReportView { stage: "saving"@, percent: 80, message: "Saving transcripts..."@ },
        ),
        RunStage::Refine => Some(
            ReportView { stage: "saving"@, percent: 80, message: "Refining speaker boundaries..."@ },
        ),
        RunStage::Repair => Some(
            ReportView {
                stage: "saving"@,
                percent: 86,
                message: "Checking low-confidence wording..."@,
            },
        ),
        RunStage::Write => Some(
            ReportView { stage: "saving"@, percent: 90, message: "Writing transcript files..."@ },
        ),
        RunStage::Complete => Some(
            ReportView { stage: "complete"@, percent: 100, message: "Retranscription complete"@ },
        ),
        _ => None,
    }
}

/// A stage at which a run can be cancelled.
pub open spec fn can_stop(s: RunStage) -> bool {
    s == RunStage::Decode || s == RunStage::Convert || s == RunStage::Detect || s
        == RunStage::Diarize || s == RunStage::Transcribe || s == RunStage::Join
}

/// A stage at which the diarization may be running.
pub open spec fn diarizing(s: RunStage) -> bool {
    s == RunStage::Transcribe || s == RunStage::Join
}

/// The contents of a report that may be missing.
pub open spec fn opt_report(r: Option<Report>) -> Option<ReportView> {
    match r {
        Some(x) => Some(x@),
        None => None,
    }
}

impl Run {
    /// What holds of a run at any time.
    pub open spec fn wf(self) -> bool {
        &&& self.stage == RunStage::Transcribe ==> self.next < self.count
        &&& self.stage == RunStage::Diarize ==> self.options.diarize
        &&& self.stage == RunStage::Refine ==> self.options.refine && self.labelled
        &&& self.stage == RunStage::Repair ==> self.options.repair && !self.options.parakeet
        &&& self.stage == RunStage::Learn ==> !self.options.parakeet
    }

    /// A new run.
    pub fn begin(options: RunOptions) -> (r: Run)
        ensures
            r == (Run { options, stage: RunStage::Decode, count: 0, next: 0, labelled: false }),
            r.wf(),
    {
        Run { options, stage: RunStage::Decode, count: 0, next: 0, labelled: false }
    }

    /// What comes before the work of the stage: a report, and a stop when the
    /// run was cancelled. A cancelled segment is not reported any more.
    pub fn enter(&self, cancelled: bool, seconds: &str) -> (r: Entry)
        requires
            self.wf(),
        ensures
            r.stop is Some <==> cancelled && can_stop(self.stage),
            r.stop matches Some(s) ==> s.error@ == CANCELLED@ && s.wait == diarizing(self.stage),
            opt_report(r.report) == if cancelled && self.stage == RunStage::Transcribe {
                None
            } else {
                run_report(*self, seconds@)
            },
    {
        let stoppable: bool = match self.stage {
            RunStage::Decode => true,
            RunStage::Convert => true,
            RunStage::Detect => true,
            RunStage::Diarize => true,
            RunStage::Transcribe => true,
            RunStage::Join => true,
            _ => false,
        };
        let wait: bool = match self.stage {
            RunStage::Transcribe => true,
            RunStage::Join => true,
            _ => false,
        };
        let stop = if cancelled && stoppable {
            Some(Stop { error: CANCELLED.to_owned(), wait })
        } else {
            None
        };
        let report = match self.stage {
            RunStage::Decode => Some(report("decoding", 5, "Decoding audio file...")),
            RunStage::Convert => Some(report("decoding", 15, "Converting audio format...")),
            RunStage::Detect => Some(report("vad", 20, "Detecting speech segments...")),
            RunStage::Load => Some(report("transcribing", 0, "Loading transcription engine...")),
            RunStage::Transcribe => if cancelled {
                None
            } else {
                Some(self.segment_report(seconds))
            },
            RunStage::Turns => Some(report("saving", 80, "Saving transcripts...")),
            RunStage::Refine => Some(report("saving", 80, "Refining speaker boundaries...")),
            RunStage::Repair => Some(report("saving", 86, "Checking low-confidence wording...")),
            RunStage::Write => Some(report("saving", 90, "Writing transcript files...")),
            RunStage::Complete => Some(report("complete", 100, "Retranscription complete")),
            _ => None,
        };
        Entry { report, stop }
    }

    /// The report of a segment.
    fn segment_report(&self, seconds: &str) -> (r: Report)
        requires
            self.stage == RunStage::Transcribe,
            self.next < self.count,
        ensures
            Some(r@) == run_report(*self, seconds@),
    {
        let mut out = String::new();
        out.append("Transcribing segment ");
        out.append(decimal_of(self.next as u64 + 1).as_str());
        out.append(" of ");
        out.append(decimal_of(self.count as u64).as_str());
        out.append(" (");
        out.append(seconds);
        out.append("s)...");
        assert(out@ =~= "Transcribing segment "@ + text::decimal((self.next + 1) as nat) + " of "@
            + text::decimal(self.count as nat) + " ("@ + seconds@ + "s)..."@);
        proof {
            assert(self.next * 100 / self.count as int <= 100) by (nonlinear_arith)
                requires
                    0 <= self.next < self.count,
            ;
        }
        let percent: u32 = (self.next as u128 * 100 / self.count as u128) as u32;
        Report { stage: "transcribing".to_owned(), percent, message: out }
    }

    /// The run at another stage.
    pub open spec fn at(self, stage: RunStage) -> Run {
        Run { stage, ..self }
    }

    /// The stage after the boundaries: wording, if it is to be repaired.
    pub open spec fn after_refine(self) -> Run {
        if self.options.repair && !self.options.parakeet {
            self.at(RunStage::Repair)
        } else {
            self.at(RunStage::Save)
        }
    }

    /// The run after the work of its stage. `outcome` is what the work found:
    /// speech segments, segments to transcribe, or diarized segments.
    pub open spec fn after(self, outcome: usize) -> Run {
        match self.stage {
            RunStage::Decode => self.at(RunStage::Convert),
            RunStage::Convert => self.at(RunStage::Detect),
            RunStage::Detect => if outcome == 0 {
                self.at(RunStage::Failed)
            } else if self.options.diarize {
                self.at(RunStage::Diarize)
            } else {
                self.at(RunStage::Load)
            },
            RunStage::Diarize => self.at(RunStage::Load),
            RunStage::Load => if outcome > 0 {
                Run { stage: RunStage::Transcribe, count: outcome, next: 0, ..self }
            } else {
                Run { stage: RunStage::Join, count: 0, next: 0, ..self }
            },
            RunStage::Transcribe => if self.next + 1 < self.count {
                Run { next: (self.next + 1) as usize, ..self }
            } else {
                self.at(RunStage::Join)
            },
            RunStage::Join => Run { stage: RunStage::Turns, labelled: outcome > 0, ..self },
            RunStage::Turns => if self.options.refine && self.labelled {
                self.at(RunStage::Refine)
            } else {
                self.after_refine()
            },
            RunStage::Refine => self.after_refine(),
            RunStage::Repair => self.at(RunStage::Save),
            RunStage::Save => if self.options.parakeet {
                self.at(RunStage::Write)
            } else {
                self.at(RunStage::Learn)
            },
            RunStage::Learn => self.at(RunStage::Write),
            RunStage::Write => self.at(RunStage::Complete),
            RunStage::Complete => self,
            RunStage::Failed => self,
        }
    }

    /// Go on after the work of the stage. Fails when no speech was found.
    pub fn advance(&mut self, outcome: usize) -> (r: Result<(), String>)
        requires
            old(self).wf(),
        ensures
            *final(self) == old(self).after(outcome),
            final(self).wf(),
            r is Err <==> old(self).stage == RunStage::Detect && outcome == 0,
            r matches Err(e) ==> e@ == NO_SPEECH@,
    {
        match self.stage {
            RunStage::Decode => {
                self.stage = RunStage::Convert;
            },
            RunStage::Convert => {
                self.stage = RunStage::Detect;
            },
            RunStage::Detect => {
                if outcome == 0 {
                    self.stage = RunStage::Failed;
                    return Err(NO_SPEECH.to_owned());
                }
                if self.options.diarize {
                    self.stage = RunStage::Diarize;
                } else {
                    self.stage = RunStage::Load;
                }
            },
            RunStage::Diarize => {
                self.stage = RunStage::Load;
            },
            RunStage::Load => {
                self.count = outcome;
                self.next = 0;
                if outcome > 0 {
                    self.stage = RunStage::Transcribe;
                } else {
                    self.stage = RunStage::Join;
                }
            },
            RunStage::Transcribe => {
                if self.next < self.count - 1 {
                    self.next = self.next + 1;
                } else {
                    self.stage = RunStage::Join;
                }
            },
            RunStage::Join => {
                self.labelled = outcome > 0;
                self.stage = RunStage::Turns;
            },
            RunStage::Turns => {
                if self.options.refine && self.labelled {
                    self.stage = RunStage::Refine;
                } else if self.options.repair && !self.options.parakeet {
                    self.stage = RunStage::Repair;
                } else {
                    self.stage = RunStage::Save;
                }
            },
            RunStage::Refine => {
                if self.options.repair && !self.options.parakeet {
                    self.stage = RunStage::Repair;
                } else {
                    self.stage = RunStage::Save;
                }
            },
            RunStage::Repair => {
                self.stage = RunStage::Save;
            },
            RunStage::Save => {
                if self.options.parakeet {
                    self.stage = RunStage::Write;
                } else {
                    self.stage = RunStage::Learn;
                }
            },
            RunStage::Learn => {
                self.stage = RunStage::Write;
            },
            RunStage::Write => {
                self.stage = RunStage::Complete;
            },
            RunStage::Complete => {},
            RunStage::Failed => {},
        }
        Ok(())
    }

    /// A run always gets on: until it is complete or has failed, the work of a
    /// stage leads to a later stage or to the next segment. So it ends.
    pub proof fn law_run_gets_on(self, outcome: usize)
        requires
            self.wf(),
            self.stage != RunStage::Complete,
            self.stage != RunStage::Failed,
        ensures
            self.after(outcome).wf(),
            rank(self.after(outcome).stage) > rank(self.stage) || (self.after(outcome).stage
                == self.stage && self.after(outcome).count == self.count && self.after(outcome).next
                == self.next + 1 && self.after(outcome).next < self.count),
    {
    }

    /// What is reported never exceeds one hundred, and does not fall while the
    /// segments are transcribed.
    pub proof fn law_reports(self, outcome: usize, seconds: Seq<char>, later: Seq<char>)
        requires
            self.wf(),
        ensures
            run_report(self, seconds) matches Some(r) ==> 0 <= r.percent <= 100,
            self.stage == RunStage::Transcribe && self.after(outcome).stage == RunStage::Transcribe
                ==> run_report(self, seconds)->0.percent <= run_report(
                self.after(outcome),
                later,
            )->0.percent,
    {
        if self.stage == RunStage::Transcribe {
            assert(0 <= self.next * 100 / self.count as int <= 100) by (nonlinear_arith)
                requires
                    0 <= self.next < self.count,
            ;
            assert(self.next * 100 / self.count as int <= (self.next + 1) * 100 / self.count as int)
                by (nonlinear_arith)
                requires
                    0 <= self.next < self.count,
            ;
        }
    }
}

/// Whether a segment is long enough to be transcribed.
pub fn worth_transcribing(samples: usize) -> (r: bool)
    ensures
        r == (samples >= crate::retranscription::MIN_SEGMENT_SAMPLES),
{
    samples >= crate::retranscription::MIN_SEGMENT_SAMPLES
}

/// Whether a segment has to be split at silence first.
pub fn must_split(samples: usize) -> (r: bool)
    ensures
        r == (samples > crate::retranscription::MAX_SEGMENT_SAMPLES),
{
    samples > crate::retranscription::MAX_SEGMENT_SAMPLES
}

/// Whether what was recognized in a segment is kept: it is more than blank.
pub fn worth_keeping(text: &str) -> (r: bool)
    ensures
        r == (text::trimmed(text@).len() > 0),
{
    chars_of(trim(text).as_str()).len() > 0
}

/// How a transcribed block becomes turns.
#[derive(Debug, Clone, Copy, PartialEq, Eq, Structural)]
pub enum BlockPlan {
    /// The block is one turn of nobody in particular.
    OneTurn,
    /// The block is split where the diarized speaker of its words changes.
    SplitAtSpeakers,
}

/// How a transcribed block becomes turns: it is split exactly when the speakers
/// are known from diarized segments.
pub fn block_plan(diarized: usize) -> (r: BlockPlan)
    ensures
        r == if diarized == 0 {
            BlockPlan::OneTurn
        } else {
            BlockPlan::SplitAtSpeakers
        },
{
    if diarized == 0 {
        BlockPlan::OneTurn
    } else {
        BlockPlan::SplitAtSpeakers
    }
}

/// Why a segment could not be transcribed.
pub fn segment_failure(parakeet: bool, segment: usize, error: &str) -> (r: String)
    ensures
        r@ == (if parakeet {
            "Parakeet"@
        } else {
            "Whisper"@
        }) + " transcription failed on segment "@ + text::decimal(segment as nat) + ": "@ + error@,
{
    let mut out = String::new();
    if parakeet {
        out.append("Parakeet");
    } else {
        out.append("Whisper");
    }
    out.append(" transcription failed on segment ");
    out.append(decimal_of(segment as u64).as_str());
    out.append(": ");
    out.append(error);
    assert(out@ =~= (if parakeet {
        "Parakeet"@
    } else {
        "Whisper"@
    }) + " transcription failed on segment "@ + text::decimal(segment as nat) + ": "@ + error@);
    out
}

// ---------------------------------------------------------------------
// A standalone fix-up

/// The stages of a fix-up, in their order.
#[derive(Debug, Clone, Copy, PartialEq, Eq, Structural)]
pub enum FixStage {
    /// Refine boundaries, where speakers are known.
    Boundaries,
    /// Repair wording.
    Wording,
    /// Save the transcript.
    Saving,
    Complete,
}

/// The report of a stage of a fix-up.
pub open spec fn fix_report(stage: FixStage) -> Option<ReportView> {
    match stage {
        FixStage::Boundaries => Some(
            ReportView {
                stage: "refining"@,
                percent: 5,
                message: "Refining speaker boundaries..."@,
            },
        ),
        FixStage::Wording => Some(
            ReportView {
                stage: "refining"@,
                percent: 50,
                message: "Checking low-confidence wording..."@,
            },
        ),
        FixStage::Saving => Some(
            ReportView { stage: "refining"@, percent: 92, message: "Saving transcripts..."@ },
        ),
        FixStage::Complete => None,
    }
}

impl FixStage {
    /// Whether the stage has anything to do: boundaries are refined only where
    /// the speakers are known from diarized segments.
    pub fn has_work(&self, diarized: usize) -> (r: bool)
        ensures
            r == match self {
                FixStage::Boundaries => diarized > 0,
                FixStage::Wording => true,
                FixStage::Saving => true,
                FixStage::Complete => false,
            },
    {
        match self {
            FixStage::Boundaries => diarized > 0,
            FixStage::Wording => true,
            FixStage::Saving => true,
            FixStage::Complete => false,
        }
    }

    /// What comes before the work of the stage. A fix-up stops before wording
    /// and before saving when it was cancelled; then nothing is reported.
    pub fn enter(&self, cancelled: bool) -> (r: Entry)
        ensures
            r.stop is Some <==> cancelled && (self == FixStage::Wording || self == FixStage::Saving),
            r.stop matches Some(s) ==> s.error@ == FIX_UP_CANCELLED@ && !s.wait,
            opt_report(r.report) == if r.stop is Some {
                None
            } else {
                fix_report(*self)
            },
    {
        match self {
            FixStage::Boundaries => Entry {
                report: Some(report("refining", 5, "Refining speaker boundaries...")),
                stop: None,
            },
            FixStage::Wording => if cancelled {
                Entry {
                    report: None,
                    stop: Some(Stop { error: FIX_UP_CANCELLED.to_owned(), wait: false }),
                }
            } else {
                Entry {
                    report: Some(report("refining", 50, "Checking low-confidence wording...")),
                    stop: None,
                }
            },
            FixStage::Saving => if cancelled {
                Entry {
                    report: None,
                    stop: Some(Stop { error: FIX_UP_CANCELLED.to_owned(), wait: false }),
                }
            } else {
                Entry {
                    report: Some(report("refining", 92, "Saving transcripts...")),
                    stop: None,
                }
            },
            FixStage::Complete => Entry { report: None, stop: None },
        }
    }

    /// The stage after this one.
    pub fn next(&self) -> (r: FixStage)
        ensures
            r == match self {
                FixStage::Boundaries => FixStage::Wording,
                FixStage::Wording => FixStage::Saving,
                FixStage::Saving => FixStage::Complete,
                FixStage::Complete => FixStage::Complete,
            },
    {
        match self {
            FixStage::Boundaries => FixStage::Wording,
            FixStage::Wording => FixStage::Saving,
            FixStage::Saving => FixStage::Complete,
            FixStage::Complete => FixStage::Complete,
        }
    }
}

// ---------------------------------------------------------------------
// What a run goes through

/// A part begins at its base, ends at its width above it, and never runs
/// backwards.
pub proof fn law_part_of(base: int, width: int, done: int, more: int, total: int)
    requires
        0 <= width,
        0 <= done <= more <= total,
        total > 0,
    ensures
        part_of(base, width, 0, total) == base,
        part_of(base, width, total, total) == base + width,
        part_of(base, width, done, total) <= part_of(base, width, more, total),
        ({
            let x = part_of(base, width, done, total) - base;
            x * total <= width * done < (x + 1) * total
        }),
{
    assert(width * 0 / total == 0) by (nonlinear_arith)
        requires
            total > 0,
    ;
    assert(width * total / total == width) by (nonlinear_arith)
        requires
            total > 0,
            0 <= width,
    ;
    assert(width * done / total <= width * more / total) by (nonlinear_arith)
        requires
            total > 0,
            0 <= width,
            0 <= done <= more,
    ;
    let y = width * done;
    assert((y / total) * total <= y < (y / total + 1) * total) by (nonlinear_arith)
        requires
            total > 0,
    ;
}

/// Two digits are two digits, and read as the number.
pub proof fn law_two_digits(n: nat)
    requires
        n < 100,
    ensures
        two_digits(n).len() == 2,
        text::all_digits(two_digits(n)),
        text::numeral_value(two_digits(n)) == n,
{
    reveal_strlit("0");
    text::law_decimal_reads_back(n);
    let s = two_digits(n);
    let d = text::decimal(n);
    if n < 10 {
        assert(d.len() == 1);
        assert(s.drop_last() =~= "0"@);
        assert(s.last() == d[0]);
        assert(d.drop_last() =~= Seq::<char>::empty());
        assert("0"@.drop_last() =~= Seq::<char>::empty());
        assert(text::numeral_value("0"@.drop_last()) == 0);
        assert(text::numeral_value("0"@) == 0);
        assert(text::numeral_value(d) == 10 * text::numeral_value(d.drop_last())
            + text::digit_value(d.last()));
        assert(text::numeral_value(s) == n);
        assert forall|k: int| 0 <= k < s.len() implies text::digit(#[trigger] s[k]) by {
            if k == 1 {
                assert(text::digit(d[0]));
            }
        }
    } else {
        assert(text::decimal(n / 10).len() == 1);
    }
}

/// What each stage reports, and that the others report nothing.
pub proof fn law_run_reports(run: Run, seconds: Seq<char>)
    requires
        run.wf(),
    ensures
        ({
            let r = run_report(run, seconds);
            let s = run.stage;
            &&& r is None <==> s == RunStage::Diarize || s == RunStage::Join || s == RunStage::Save
                || s == RunStage::Learn || s == RunStage::Failed
            &&& s == RunStage::Decode ==> r->0.percent == 5 && r->0.stage == "decoding"@
            &&& s == RunStage::Convert ==> r->0.percent == 15 && r->0.stage == "decoding"@
            &&& s == RunStage::Detect ==> r->0.percent == 20 && r->0.stage == "vad"@
            &&& s == RunStage::Load ==> r->0.percent == 0 && r->0.stage == "transcribing"@
            &&& s == RunStage::Turns ==> r->0.percent == 80 && r->0.stage == "saving"@
            &&& s == RunStage::Refine ==> r->0.percent == 80 && r->0.stage == "saving"@
            &&& s == RunStage::Repair ==> r->0.percent == 86 && r->0.stage == "saving"@
            &&& s == RunStage::Write ==> r->0.percent == 90 && r->0.stage == "saving"@
            &&& s == RunStage::Complete ==> r->0.percent == 100 && r->0.stage == "complete"@
            &&& s == RunStage::Transcribe ==> r->0.stage == "transcribing"@ && r->0.percent
                * run.count <= run.next * 100 < (r->0.percent + 1) * run.count
            &&& s == RunStage::Transcribe ==> r->0.message == "Transcribing segment "@
                + text::decimal((run.next + 1) as nat) + " of "@ + text::decimal(run.count as nat)
                + " ("@ + seconds + "s)..."@
        }),
{
    if run.stage == RunStage::Transcribe {
        let (x, n) = (run.next * 100, run.count as int);
        assert((x / n) * n <= x < (x / n + 1) * n) by (nonlinear_arith)
            requires
                n > 0,
        ;
    }
}

/// A run can be cancelled until the speakers are known, but not while a model is
/// loaded; while segments are transcribed or joined the diarization is waited
/// for.
pub proof fn law_stops(s: RunStage)
    ensures
        can_stop(s) <==> s != RunStage::Load && (s == RunStage::Decode || s == RunStage::Convert || s
            == RunStage::Detect || s == RunStage::Diarize || s == RunStage::Transcribe || s
            == RunStage::Join),
        diarizing(s) <==> s == RunStage::Transcribe || s == RunStage::Join,
        diarizing(s) ==> can_stop(s),
{
}

impl Run {
    /// Which stage follows which: what was asked for is done and nothing else is.
    /// Every segment is transcribed, boundaries are refined where somebody was
    /// heard, and wording is repaired and learnt from with Whisper only.
    pub proof fn law_stages(self, outcome: usize)
        requires
            self.wf(),
        ensures
            ({
                let now = self.after(outcome);
                let o = self.options;
                let wording = if o.repair && !o.parakeet { RunStage::Repair } else { RunStage::Save };
                &&& now.options == o
                &&& self.stage == RunStage::Decode ==> now.stage == RunStage::Convert
                &&& self.stage == RunStage::Convert ==> now.stage == RunStage::Detect
                &&& self.stage == RunStage::Detect ==> (now.stage == RunStage::Failed <==> outcome
                    == 0) && (outcome > 0 && o.diarize ==> now.stage == RunStage::Diarize) && (
                outcome > 0 && !o.diarize ==> now.stage == RunStage::Load)
                &&& self.stage == RunStage::Diarize ==> now.stage == RunStage::Load
                &&& self.stage == RunStage::Load ==> now.count == outcome && now.next == 0 && (outcome
                    > 0 ==> now.stage == RunStage::Transcribe) && (outcome == 0 ==> now.stage
                    == RunStage::Join)
                &&& self.stage == RunStage::Transcribe ==> now.count == self.count && (self.next + 1
                    < self.count ==> now.stage == RunStage::Transcribe && now.next == self.next + 1)
                    && (self.next + 1 == self.count ==> now.stage == RunStage::Join)
                &&& self.stage == RunStage::Join ==> now.stage == RunStage::Turns && (now.labelled
                    <==> outcome > 0)
                &&& self.stage != RunStage::Join ==> now.labelled == self.labelled
                &&& self.stage == RunStage::Turns && o.refine && self.labelled ==> now.stage
                    == RunStage::Refine
                &&& self.stage == RunStage::Turns && !(o.refine && self.labelled) ==> now.stage
                    == wording
                &&& self.stage == RunStage::Refine ==> now.stage == wording
                &&& self.stage == RunStage::Repair ==> now.stage == RunStage::Save
                &&& self.stage == RunStage::Save ==> now.stage == (if o.parakeet {
                    RunStage::Write
                } else {
                    RunStage::Learn
                })
                &&& self.stage == RunStage::Learn ==> now.stage == RunStage::Write
                &&& self.stage == RunStage::Write ==> now.stage == RunStage::Complete
                &&& self.stage == RunStage::Complete || self.stage == RunStage::Failed ==> now
                    == self
            }),
    {
    }
}

/// What each stage of a fix-up reports: it goes up to the saving, and nothing is
/// left to say at the end.
pub proof fn law_fix_reports()
    ensures
        fix_report(FixStage::Boundaries) matches Some(r) && r.percent == 5 && r.stage == "refining"@,
        fix_report(FixStage::Wording) matches Some(r) && r.percent == 50 && r.stage == "refining"@,
        fix_report(FixStage::Saving) matches Some(r) && r.percent == 92 && r.stage == "refining"@,
        fix_report(FixStage::Complete) is None,
{
}

} // verus!
