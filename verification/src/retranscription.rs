//! Re-processing stored audio with different settings: the flags around a run,
//! its inputs and its results.
use vstd::prelude::*;
use crate::clock::{new_uuid, now_rfc3339};
use crate::diarization;
use crate::diarization::{SpeakerTurn, WordSpan, speaker_label};
use crate::json;
use crate::json::Member;
use crate::stereo::MIC_SYSTEM_LAYOUT;
use crate::text;
use crate::text::{chars_of, rfind, same_text, slice_of, string_of, trim};
use crate::timeline::Nanos;

verus! {

/// Milliseconds of silence that voice detection bridges in batch processing.
pub const VAD_REDEMPTION_TIME_MS: u32 = 2000;

/// Longer segments are split at silence before transcription, in samples.
pub const MAX_SEGMENT_SAMPLES: usize = 400_000;

/// Shorter segments are not transcribed, in samples.
pub const MIN_SEGMENT_SAMPLES: usize = 1600;

/// Why a second run cannot start.
pub const IN_PROGRESS: &'static str = "Retranscription already in progress";

/// A progress report of a run.
#[derive(Debug)]
pub struct RetranscriptionProgress {
    pub meeting_id: String,
    pub stage: String,
    pub progress_percentage: u32,
    pub message: String,
}

/// The result of a run.
#[derive(Debug)]
pub struct RetranscriptionResult {
    pub meeting_id: String,
    pub segments_count: usize,
    pub duration_ns: Nanos,
    pub language: Option<String>,
}

/// The failure of a run.
#[derive(Debug)]
pub struct RetranscriptionError {
    pub meeting_id: String,
    pub error: String,
}

/// The answer when a run was started.
#[derive(Debug)]
pub struct RetranscriptionStarted {
    pub meeting_id: String,
    pub message: String,
}

// ---------------------------------------------------------------------
// Flags

/// Whether a run is going on, and whether it is to stop.
#[derive(Debug, Clone, Copy, PartialEq, Eq, Structural)]
pub struct RetranscriptionFlags {
    pub in_progress: bool,
    pub cancelled: bool,
}

impl Default for RetranscriptionFlags {
    fn default() -> (r: Self)
        ensures
            !r.in_progress,
            !r.cancelled,
    {
        RetranscriptionFlags { in_progress: false, cancelled: false }
    }
}

impl RetranscriptionFlags {
    /// After the right to run was taken.
    pub open spec fn taken(self) -> RetranscriptionFlags {
        RetranscriptionFlags { in_progress: true, ..self }
    }

    /// After the right to run was given back.
    pub open spec fn given_back(self) -> RetranscriptionFlags {
        RetranscriptionFlags { in_progress: false, ..self }
    }

    /// After the run was asked to stop.
    pub open spec fn told_to_stop(self) -> RetranscriptionFlags {
        RetranscriptionFlags { cancelled: true, ..self }
    }

    /// After an earlier request to stop was forgotten.
    pub open spec fn cleared(self) -> RetranscriptionFlags {
        RetranscriptionFlags { cancelled: false, ..self }
    }
}

/// The right to run. Whoever holds it gives it back by `release`.
#[derive(Debug)]
pub struct RetranscriptionGuard {
    held: bool,
}

impl RetranscriptionGuard {
    /// Take the right to run; refused while a run is going on.
    pub fn acquire(flags: &mut RetranscriptionFlags) -> (r: Result<RetranscriptionGuard, String>)
        ensures
            r is Ok <==> !old(flags).in_progress,
            r matches Err(e) ==> e@ == IN_PROGRESS@,
            *final(flags) == old(flags).taken(),
    {
        if flags.in_progress {
            return Err(IN_PROGRESS.to_owned());
        }
        flags.in_progress = true;
        Ok(RetranscriptionGuard { held: true })
    }

    /// Give the right to run back.
    pub fn release(self, flags: &mut RetranscriptionFlags)
        ensures
            *final(flags) == old(flags).given_back(),
    {
        flags.in_progress = false;
    }
}

/// Whether a run is going on.
pub fn is_retranscription_in_progress(flags: &RetranscriptionFlags) -> (r: bool)
    ensures
        r == flags.in_progress,
{
    flags.in_progress
}

/// Ask a run to stop.
pub fn cancel_retranscription(flags: &mut RetranscriptionFlags)
    ensures
        *final(flags) == old(flags).told_to_stop(),
{
    flags.cancelled = true;
}

/// Whether a run is to stop.
pub fn is_cancellation_requested(flags: &RetranscriptionFlags) -> (r: bool)
    ensures
        r == flags.cancelled,
{
    flags.cancelled
}

/// Forget an earlier request to stop, at the start of a run.
pub fn reset_cancellation(flags: &mut RetranscriptionFlags)
    ensures
        *final(flags) == old(flags).cleared(),
{
    flags.cancelled = false;
}

/// Ask the current run to stop; fails when there is none.
pub fn cancel_current(flags: &mut RetranscriptionFlags) -> (r: Result<(), String>)
    ensures
        r is Ok <==> old(flags).in_progress,
        r matches Err(e) ==> e@ == "No retranscription in progress"@ && *final(flags) == *old(flags),
        r is Ok ==> *final(flags) == old(flags).told_to_stop(),
{
    if !is_retranscription_in_progress(flags) {
        return Err("No retranscription in progress".to_owned());
    }
    cancel_retranscription(flags);
    Ok(())
}

/// The answer to a request to start a run in the background.
pub fn started(flags: &RetranscriptionFlags, meeting_id: &str) -> (r: Result<
    RetranscriptionStarted,
    String,
>)
    ensures
        match r {
            Ok(s) => !flags.in_progress && s.meeting_id@ == meeting_id@ && s.message@
                == "Retranscription started"@,
            Err(e) => flags.in_progress && e@ == IN_PROGRESS@,
        },
{
    if flags.in_progress {
        return Err(IN_PROGRESS.to_owned());
    }
    Ok(
        RetranscriptionStarted {
            meeting_id: meeting_id.to_owned(),
            message: "Retranscription started".to_owned(),
        },
    )
}

/// Two runs never overlap: once the right to run is taken it counts as taken,
/// whatever is asked of the run, until it is given back; then the flags are as
/// before. A run that starts anew has no request to stop.
pub proof fn law_runs_exclude_each_other(f: RetranscriptionFlags)
    requires
        !f.in_progress,
    ensures
        f.taken().in_progress,
        f.taken().told_to_stop().in_progress,
        f.taken().cleared().in_progress,
        f.taken().given_back() == f,
        f.taken().told_to_stop().cancelled,
        !f.taken().cleared().cancelled,
        !f.taken().told_to_stop().given_back().in_progress,
{
}

// ---------------------------------------------------------------------
// The audio file

/// The names that are tried first, in order.
pub open spec fn audio_names() -> Seq<Seq<char>> {
    seq![
        "audio.mp4"@,
        "audio.m4a"@,
        "audio.wav"@,
        "audio.mp3"@,
        "audio.flac"@,
        "audio.ogg"@,
        "recording.mp4"@,
        "audio.mkv"@,
        "audio.webm"@,
        "audio.wma"@,
    ]
}

/// How many names are tried first.
pub const AUDIO_NAMES: usize = 10;

/// The `k`-th name that is tried.
pub fn audio_name(k: usize) -> (r: &'static str)
    requires
        k < AUDIO_NAMES,
    ensures
        r@ == audio_names()[k as int],
{
    if k == 0 {
        "audio.mp4"
    } else if k == 1 {
        "audio.m4a"
    } else if k == 2 {
        "audio.wav"
    } else if k == 3 {
        "audio.mp3"
    } else if k == 4 {
        "audio.flac"
    } else if k == 5 {
        "audio.ogg"
    } else if k == 6 {
        "recording.mp4"
    } else if k == 7 {
        "audio.mkv"
    } else if k == 8 {
        "audio.webm"
    } else {
        "audio.wma"
    }
}

/// A file extension of audio, in lower case.
pub open spec fn audio_extension(ext: Seq<char>) -> bool {
    ext == "mp4"@ || ext == "m4a"@ || ext == "wav"@ || ext == "mp3"@ || ext == "flac"@ || ext
        == "ogg"@ || ext == "aac"@ || ext == "mkv"@ || ext == "webm"@ || ext == "wma"@
}

/// Whether a lower-case file extension is one of audio.
pub fn is_audio_extension(ext: &str) -> (r: bool)
    ensures
        r == audio_extension(ext@),
{
    same_text(ext, "mp4") || same_text(ext, "m4a") || same_text(ext, "wav") || same_text(ext, "mp3")
        || same_text(ext, "flac") || same_text(ext, "ogg") || same_text(ext, "aac") || same_text(
        ext,
        "mkv",
    ) || same_text(ext, "webm") || same_text(ext, "wma")
}

/// The extension of a file name: what follows the last dot, unless that is its
/// first character.
pub open spec fn extension_of(name: Seq<char>) -> Option<Seq<char>> {
    if exists|i: int| 0 < i && text::last_at(name, seq!['.'], i) {
        let i = choose|i: int| 0 < i && text::last_at(name, seq!['.'], i);
        Some(name.skip(i + 1))
    } else {
        None
    }
}

/// The extension of a file name.
pub fn file_extension(name: &str) -> (r: Option<String>)
    ensures
        text::opt(r) == extension_of(name@),
{
    let chars = chars_of(name);
    let dot: Vec<char> = vec!['.'];
    assert(dot@ =~= seq!['.']);
    match rfind(&chars, &dot) {
        Some(i) => {
            proof {
                assert forall|k: int| #[trigger] text::last_at(name@, seq!['.'], k) implies k == i by {
                    if k < i {
                        assert(text::occurs_at(name@, seq!['.'], i as int));
                    } else if i < k {
                        assert(text::occurs_at(name@, seq!['.'], k));
                    }
                }
                assert(text::last_at(name@, seq!['.'], i as int));
                assert(i + 1 <= chars.len());
            }
            if i == 0 {
                return None;
            }
            let ext = string_of(slice_of(&chars, i + 1, chars.len()));
            assert(ext@ =~= name@.skip(i + 1));
            Some(ext)
        },
        None => {
            assert forall|k: int| !#[trigger] text::last_at(name@, seq!['.'], k) by {
                assert(!text::occurs_at(name@, seq!['.'], k));
            }
            None
        },
    }
}

/// The file name is one of audio.
pub open spec fn audio_like(name: Seq<char>) -> bool {
    extension_of(name) matches Some(ext) && audio_extension(text::lowercase(ext))
}

/// Whether a file name is one of audio.
pub fn is_audio_file(name: &str) -> (r: bool)
    ensures
        r == audio_like(name@),
{
    match file_extension(name) {
        Some(ext) => is_audio_extension(text::to_lowercase(ext.as_str()).as_str()),
        None => false,
    }
}

/// `i` is the first entry with audio.
pub open spec fn first_audio(entries: Seq<Seq<char>>, i: int) -> bool {
    &&& 0 <= i < entries.len()
    &&& audio_like(entries[i])
    &&& forall|j: int| 0 <= j < i ==> !audio_like(#[trigger] entries[j])
}

/// The audio file of a meeting folder: the first of the common names that is
/// there (`present` tells which), else the first entry of the folder with an
/// audio extension.
pub fn find_audio_file(folder: &str, present: &[bool], entries: &[String]) -> (r: Result<
    String,
    String,
>)
    requires
        present@.len() == AUDIO_NAMES,
    ensures
        ({
            let named = exists|k: int| 0 <= k < AUDIO_NAMES && #[trigger] present@[k];
            match r {
                Ok(name) => if named {
                    exists|k: int|
                        0 <= k < AUDIO_NAMES && #[trigger] present@[k] && name@ == audio_names()[k]
                            && (forall|j: int| 0 <= j < k ==> !#[trigger] present@[j])
                } else {
                    exists|i: int| #[trigger]
                        first_audio(text::views(entries@), i) && name@ == entries@[i]@
                },
                Err(e) => !named && (forall|i: int| !#[trigger] first_audio(
                    text::views(entries@),
                    i,
                )) && e@ == "No audio file found in: "@ + folder@,
            }
        }),
{
    let mut k: usize = 0;
    while k < AUDIO_NAMES
        invariant
            present@.len() == AUDIO_NAMES,
            k <= AUDIO_NAMES,
            forall|j: int| 0 <= j < k ==> !#[trigger] present@[j],
        decreases AUDIO_NAMES - k,
    {
        if present[k] {
            return Ok(audio_name(k).to_owned());
        }
        k += 1;
    }
    let ghost all = text::views(entries@);
    let mut i: usize = 0;
    while i < entries.len()
        invariant
            i <= entries@.len(),
            all == text::views(entries@),
            forall|j: int| 0 <= j < AUDIO_NAMES ==> !#[trigger] present@[j],
            forall|j: int| 0 <= j < i ==> !audio_like(#[trigger] all[j]),
        decreases entries@.len() - i,
    {
        assert(all[i as int] == entries@[i as int]@);
        if is_audio_file(entries[i].as_str()) {
            assert(first_audio(all, i as int));
            return Ok(entries[i].clone());
        }
        i += 1;
    }
    assert forall|c: int| !#[trigger] first_audio(all, c) by {
        if first_audio(all, c) {
            assert(!audio_like(all[c]));
        }
    }
    let mut out = String::new();
    out.append("No audio file found in: ");
    out.append(folder);
    assert(out@ =~= "No audio file found in: "@ + folder@);
    Err(out)
}

// ---------------------------------------------------------------------
// Engines

/// The recognizer that is used unless another one is asked for.
pub const PARAKEET: &'static str = "parakeet";

/// Whether the requested provider is Parakeet; Whisper is the default.
pub fn uses_parakeet(provider: Option<&str>) -> (r: bool)
    ensures
        r == (provider matches Some(p) && p@ == PARAKEET@),
{
    match provider {
        Some(p) => same_text(p, PARAKEET),
        None => false,
    }
}

/// The Whisper model to load: the configured one if the configured provider is
/// Whisper, the default where nothing is configured.
pub fn configured_whisper_model(config: Option<(String, String)>, default_model: &str) -> (r: Result<
    String,
    String,
>)
    ensures
        match config {
            None => r matches Ok(m) && m@ == default_model@,
            Some((provider, model)) => if provider@ == "localWhisper"@ || provider@ == "whisper"@ {
                r matches Ok(m) && m@ == model@
            } else {
                r matches Err(e) && e@ == "Retranscription requires Whisper. Current provider '"@
                    + provider@ + "' does not support retranscription with language selection."@
            },
        },
{
    match config {
        None => Ok(default_model.to_owned()),
        Some((provider, model)) => {
            if same_text(provider.as_str(), "localWhisper") || same_text(
                provider.as_str(),
                "whisper",
            ) {
                return Ok(model);
            }
            let mut out = String::new();
            out.append("Retranscription requires Whisper. Current provider '");
            out.append(provider.as_str());
            out.append("' does not support retranscription with language selection.");
            assert(out@ =~= "Retranscription requires Whisper. Current provider '"@ + provider@
                + "' does not support retranscription with language selection."@);
            Err(out)
        },
    }
}

/// The Parakeet model to load: the configured one if the configured provider is
/// Parakeet, else the default.
pub fn configured_parakeet_model(config: Option<(String, String)>, default_model: &str) -> (r: String)
    ensures
        r@ == match config {
            Some((provider, model)) => if provider@ == PARAKEET@ {
                model@
            } else {
                default_model@
            },
            None => default_model@,
        },
{
    match config {
        Some((provider, model)) => {
            if same_text(provider.as_str(), PARAKEET) {
                model
            } else {
                default_model.to_owned()
            }
        },
        None => default_model.to_owned(),
    }
}

/// Whether the engine must load `target`: another model or none is loaded, or
/// the loaded one lacks the token timestamps that are needed.
pub fn needs_load(loaded: Option<&str>, target: &str, timestamps_missing: bool) -> (r: bool)
    ensures
        r == match loaded {
            Some(m) => m@ != target@ || timestamps_missing,
            None => true,
        },
{
    match loaded {
        Some(m) => !same_text(m, target) || timestamps_missing,
        None => true,
    }
}

/// Whether a recording carries channel identity: it is stereo and its metadata
/// name the layout.
pub fn has_channel_identity(channels: u16, layout: Option<&str>) -> (r: bool)
    ensures
        r == (channels == 2 && (layout matches Some(l) && l@ == MIC_SYSTEM_LAYOUT@)),
{
    channels == 2 && match layout {
        Some(l) => same_text(l, MIC_SYSTEM_LAYOUT),
        None => false,
    }
}

// ---------------------------------------------------------------------
// Blocks, turns and rows

/// A token moved by `offset` onto the recording timeline.
pub open spec fn moved(w: WordSpan, offset: int) -> WordSpan {
    WordSpan {
        text: w.text,
        start_ns: (w.start_ns + offset) as i64,
        end_ns: (w.end_ns + offset) as i64,
        prob_ppb: w.prob_ppb,
    }
}

/// Put the tokens of a segment onto the recording timeline.
pub fn onto_timeline(words: Vec<WordSpan>, segment_start: Nanos) -> (r: Vec<WordSpan>)
    requires
        forall|i: int|
            0 <= i < words@.len() ==> i64::MIN <= (#[trigger] words@[i]).start_ns + segment_start
                <= i64::MAX && i64::MIN <= words@[i].end_ns + segment_start <= i64::MAX,
    ensures
        r@ == Seq::new(words@.len(), |i: int| moved(words@[i], segment_start as int)),
{
    let mut out: Vec<WordSpan> = Vec::new();
    let mut i: usize = 0;
    while i < words.len()
        invariant
            i <= words@.len(),
            forall|i: int|
                0 <= i < words@.len() ==> i64::MIN <= (#[trigger] words@[i]).start_ns + segment_start
                    <= i64::MAX && i64::MIN <= words@[i].end_ns + segment_start <= i64::MAX,
            out@ == Seq::new(i as nat, |k: int| moved(words@[k], segment_start as int)),
        decreases words@.len() - i,
    {
        let w: &WordSpan = &words[i];
        out.push(
            WordSpan {
                text: w.text.clone(),
                start_ns: w.start_ns + segment_start,
                end_ns: w.end_ns + segment_start,
                prob_ppb: w.prob_ppb,
            },
        );
        assert(out@ =~= Seq::new((i + 1) as nat, |k: int| moved(words@[k], segment_start as int)));
        i += 1;
    }
    out
}

/// A transcribed block without speaker as one turn.
pub fn block_turn(text: String, start_ns: Nanos, end_ns: Nanos, words: Vec<WordSpan>) -> (r: SpeakerTurn)
    ensures
        r.text@ == text@,
        r.start_ns == start_ns,
        r.end_ns == end_ns,
        r.speaker is None,
        r.words@ == words@,
{
    SpeakerTurn { text, start_ns, end_ns, speaker: None, words }
}

/// One row of a transcript: text, start, end and speaker.
#[derive(Debug)]
pub struct TranscriptBlock {
    pub text: String,
    pub start_ns: Nanos,
    pub end_ns: Nanos,
    pub speaker: Option<usize>,
}

/// The rows of a list of turns, one each.
pub fn turns_to_rows(turns: &[SpeakerTurn]) -> (r: Vec<TranscriptBlock>)
    ensures
        r@.len() == turns@.len(),
        forall|i: int|
            0 <= i < r@.len() ==> {
                let (x, t) = (#[trigger] r@[i], turns@[i]);
                &&& x.text@ == t.text@
                &&& x.start_ns == t.start_ns
                &&& x.end_ns == t.end_ns
                &&& x.speaker == t.speaker
            },
{
    let mut out: Vec<TranscriptBlock> = Vec::new();
    let mut i: usize = 0;
    while i < turns.len()
        invariant
            i <= turns@.len(),
            out@.len() == i,
            forall|k: int|
                0 <= k < i ==> {
                    let (x, t) = (#[trigger] out@[k], turns@[k]);
                    &&& x.text@ == t.text@
                    &&& x.start_ns == t.start_ns
                    &&& x.end_ns == t.end_ns
                    &&& x.speaker == t.speaker
                },
        decreases turns@.len() - i,
    {
        let t: &SpeakerTurn = &turns[i];
        out.push(
            TranscriptBlock {
                text: t.text.clone(),
                start_ns: t.start_ns,
                end_ns: t.end_ns,
                speaker: t.speaker,
            },
        );
        i += 1;
    }
    out
}

/// A row of a transcript as it is stored.
#[derive(Debug)]
pub struct TranscriptSegment {
    pub id: String,
    pub text: String,
    pub timestamp: String,
    pub audio_start_time: Option<Nanos>,
    pub audio_end_time: Option<Nanos>,
    pub duration: Option<Nanos>,
}

/// The stored form of a block: trimmed text, its times and duration, and an id
/// of its own behind a fixed prefix.
pub open spec fn stored(x: TranscriptSegment, b: (String, Nanos, Nanos)) -> bool {
    &&& x.text@ == text::trimmed(b.0@)
    &&& x.audio_start_time == Some(b.1)
    &&& x.audio_end_time == Some(b.2)
    &&& x.duration == Some((b.2 - b.1) as i64)
    &&& text::has_prefix(x.id@, "transcript-"@)
    &&& x.id@.len() == "transcript-"@.len() + 36
}

/// The stored form of a block under the given id and time stamp.
pub fn store_block(block: &(String, Nanos, Nanos), uuid: &str, now: String) -> (r: TranscriptSegment)
    requires
        i64::MIN <= block.2 - block.1 <= i64::MAX,
    ensures
        r.id@ == "transcript-"@ + uuid@,
        r.text@ == text::trimmed(block.0@),
        r.timestamp@ == now@,
        r.audio_start_time == Some(block.1),
        r.audio_end_time == Some(block.2),
        r.duration == Some((block.2 - block.1) as i64),
{
    let mut id = String::new();
    id.append("transcript-");
    id.append(uuid);
    assert(id@ =~= "transcript-"@ + uuid@);
    TranscriptSegment {
        id,
        text: trim(block.0.as_str()),
        timestamp: now,
        audio_start_time: Some(block.1),
        audio_end_time: Some(block.2),
        duration: Some(block.2 - block.1),
    }
}

/// The stored form of all blocks. That no two ids are equal is left to chance.
pub fn create_transcript_segments(blocks: &[(String, Nanos, Nanos)]) -> (r: Vec<TranscriptSegment>)
    requires
        forall|i: int|
            0 <= i < blocks@.len() ==> i64::MIN <= (#[trigger] blocks@[i]).2 - blocks@[i].1
                <= i64::MAX,
    ensures
        r@.len() == blocks@.len(),
        forall|i: int| 0 <= i < r@.len() ==> stored(#[trigger] r@[i], blocks@[i]),
{
    let mut out: Vec<TranscriptSegment> = Vec::new();
    let mut i: usize = 0;
    while i < blocks.len()
        invariant
            i <= blocks@.len(),
            forall|i: int|
                0 <= i < blocks@.len() ==> i64::MIN <= (#[trigger] blocks@[i]).2 - blocks@[i].1
                    <= i64::MAX,
            out@.len() == i,
            forall|k: int| 0 <= k < i ==> stored(#[trigger] out@[k], blocks@[k]),
        decreases blocks@.len() - i,
    {
        let uuid = new_uuid();
        let now = now_rfc3339();
        let x = store_block(&blocks[i], uuid.as_str(), now);
        assert(x.id@.subrange(0, "transcript-"@.len() as int) =~= "transcript-"@);
        out.push(x);
        i += 1;
    }
    out
}

/// The speaker column of a row.
pub fn row_speaker(speaker: Option<usize>) -> (r: Option<String>)
    ensures
        text::opt(r) == match speaker {
            Some(s) => Some(diarization::label_of(s as int)),
            None => None,
        },
{
    match speaker {
        Some(s) => Some(speaker_label(s)),
        None => None,
    }
}

// ---------------------------------------------------------------------
// Metadata

/// The members of existing metadata after a run at `now`.
pub open spec fn refreshed(
    m: Map<Seq<char>, Member>,
    now: Seq<char>,
) -> Map<Seq<char>, Member> {
    m.insert("retranscribed_at"@, Member::Text(now)).insert("status"@, Member::Text("completed"@)).insert(
        "transcript_file"@,
        Member::Text("transcripts.json"@),
    ).remove("detected_summary_language"@)
}

/// The members of new metadata after a run at `now`.
pub open spec fn fresh_members(
    meeting_id: Seq<char>,
    duration: serde_json::Value,
    audio: Seq<char>,
    now: Seq<char>,
) -> Map<Seq<char>, Member> {
    json::no_members().insert("version"@, Member::Text("1.0"@)).insert("meeting_id"@, Member::Text(meeting_id)).insert(
        "created_at"@,
        Member::Text(now),
    ).insert("completed_at"@, Member::Text(now)).insert("retranscribed_at"@, Member::Text(now)).insert(
        "duration_seconds"@,
        json::value_of(duration),
    ).insert("audio_file"@, Member::Text(audio)).insert("transcript_file"@, Member::Text("transcripts.json"@)).insert(
        "status"@,
        Member::Text("completed"@),
    ).insert("source"@, Member::Text("retranscription"@))
}

/// Existing metadata after a run at `now`; those that are no object stay.
pub fn refresh(metadata: serde_json::Value, now: &str) -> (r: serde_json::Value)
    ensures
        json::is_object(metadata) ==> json::is_object(r) && json::members(r) == refreshed(
            json::members(metadata),
            now@,
        ),
        !json::is_object(metadata) ==> r == metadata,
{
    let mut v = metadata;
    if json::put(&mut v, "retranscribed_at", json::string(now)) {
        json::put(&mut v, "status", json::string("completed"));
        json::put(&mut v, "transcript_file", json::string("transcripts.json"));
        json::take_out(&mut v, "detected_summary_language");
    }
    v
}

/// New metadata after a run at `now`.
pub fn fresh(meeting_id: &str, duration: serde_json::Value, audio: &str, now: &str) -> (r: serde_json::Value)
    ensures
        json::is_object(r),
        json::members(r) == fresh_members(meeting_id@, duration, audio@, now@),
{
    let mut v = json::empty_object();
    json::put(&mut v, "version", json::string("1.0"));
    json::put(&mut v, "meeting_id", json::string(meeting_id));
    json::put(&mut v, "created_at", json::string(now));
    json::put(&mut v, "completed_at", json::string(now));
    json::put(&mut v, "retranscribed_at", json::string(now));
    json::put(&mut v, "duration_seconds", duration);
    json::put(&mut v, "audio_file", json::string(audio));
    json::put(&mut v, "transcript_file", json::string("transcripts.json"));
    json::put(&mut v, "status", json::string("completed"));
    json::put(&mut v, "source", json::string("retranscription"));
    v
}

/// The members that the metadata have after a run at `now`.
pub open spec fn members_after(
    existing: Option<Seq<char>>,
    meeting_id: Seq<char>,
    duration: Seq<char>,
    audio: Seq<char>,
    now: Seq<char>,
) -> Map<Seq<char>, Member> {
    match existing {
        Some(raw) => {
            let v = json::json_of(raw)->0;
            if json::is_object(v) {
                refreshed(json::members(v), now)
            } else {
                json::members(v)
            }
        },
        None => fresh_members(meeting_id, json::json_of(duration)->0, audio, now),
    }
}

/// The metadata text after a run. Existing metadata keep their other members,
/// whatever they hold. `duration` is the length of the recording in seconds as a
/// JSON number, and new metadata hold what it reads as. Fails when the existing
/// text, or the number, is no JSON. Existing metadata that are no object are
/// written back as they are. Where the text is read back, its keys and
/// strings are those that were written.
pub fn retranscription_metadata(
    existing: Option<&str>,
    meeting_id: &str,
    duration: &str,
    audio_filename: &str,
) -> (r: Result<String, String>)
    ensures
        r is Ok <==> json::json_of(
            match existing {
                Some(raw) => raw@,
                None => duration@,
            },
        ) is Some,
        existing matches Some(raw) && (json::json_of(raw@) matches Some(v) && !json::is_object(v))
            ==> (r matches Ok(t) && t@ == json::pretty_of(json::json_of(existing->0@)->0)),
        r matches Ok(t) ==> exists|v: serde_json::Value, now: Seq<char>|
            t@ == #[trigger] json::pretty_of(v) && json::members(v) == #[trigger] members_after(
                text::opt_str(existing),
                meeting_id@,
                duration@,
                audio_filename@,
                now,
            ),
        r matches Ok(t) ==> (json::json_of(t@) matches Some(w) ==> exists|now: Seq<char>|
            json::same_texts(
                #[trigger] members_after(
                    text::opt_str(existing),
                    meeting_id@,
                    duration@,
                    audio_filename@,
                    now,
                ),
                json::members(w),
            )),
{
    let now = now_rfc3339();
    let value = match existing {
        Some(raw) => match json::parse(raw) {
            Ok(v) => refresh(v, now.as_str()),
            Err(e) => {
                return Err(e);
            },
        },
        None => match json::parse(duration) {
            Ok(d) => fresh(meeting_id, d, audio_filename, now.as_str()),
            Err(e) => {
                return Err(e);
            },
        },
    };
    assert(json::members(value) == members_after(
        text::opt_str(existing),
        meeting_id@,
        duration@,
        audio_filename@,
        now@,
    ));
    json::pretty(&value)
}

/// A run adds its mark to existing metadata and leaves every other member as it
/// was, whatever it holds, but for the language that the summary had detected.
pub proof fn law_metadata_keep_their_members(
    m: Map<Seq<char>, Member>,
    now: Seq<char>,
    key: Seq<char>,
)
    ensures
        refreshed(m, now).contains_key("retranscribed_at"@) && refreshed(m, now)[
            "retranscribed_at"@
        ] == Member::Text(now),
        !refreshed(m, now).contains_key("detected_summary_language"@),
        key != "retranscribed_at"@ && key != "status"@ && key != "transcript_file"@ && key
            != "detected_summary_language"@ ==> (refreshed(m, now).contains_key(key)
            <==> m.contains_key(key)) && refreshed(m, now)[key] == m[key],
{
    reveal_strlit("retranscribed_at");
    reveal_strlit("detected_summary_language");
    reveal_strlit("status");
    reveal_strlit("transcript_file");
    assert("retranscribed_at"@.len() != "detected_summary_language"@.len());
    assert("retranscribed_at"@.len() != "status"@.len());
    assert("retranscribed_at"@.len() != "transcript_file"@.len());
}

// ---------------------------------------------------------------------
// What a run takes and leaves

/// Taking and giving back the right to run leaves the request to stop, and
/// setting or clearing that leaves the right to run.
pub proof fn law_flags_are_independent(f: RetranscriptionFlags)
    ensures
        f.taken().in_progress && f.taken().cancelled == f.cancelled,
        !f.given_back().in_progress && f.given_back().cancelled == f.cancelled,
        f.told_to_stop().cancelled && f.told_to_stop().in_progress == f.in_progress,
        !f.cleared().cancelled && f.cleared().in_progress == f.in_progress,
{
}

/// A name with a dot behind its first character has what follows the last dot as
/// its extension; any other name has none.
pub proof fn law_extension(stem: Seq<char>, ext: Seq<char>)
    requires
        forall|k: int| 0 <= k < ext.len() ==> #[trigger] ext[k] != '.',
    ensures
        stem.len() > 0 ==> extension_of(stem + seq!['.'] + ext) == Some(ext),
        extension_of(ext) is None,
        extension_of(seq!['.'] + ext) is None,
{
    let dot = seq!['.'];
    let name = stem + dot + ext;
    let n = stem.len() as int;
    assert(name.subrange(n, n + 1) =~= dot);
    assert(text::occurs_at(name, dot, n));
    assert forall|k: int| #[trigger] text::occurs_at(name, dot, k) implies k <= n by {
        assert(name.subrange(k, k + 1)[0] == name[k]);
        if k > n {
            assert(name[k] == ext[k - n - 1]);
        }
    }
    assert(text::last_at(name, dot, n));
    if stem.len() > 0 {
        let i = choose|i: int| 0 < i && text::last_at(name, dot, i);
        assert(text::last_at(name, dot, i));
        if i < n {
            assert(!text::occurs_at(name, dot, n));
        }
        assert(name.skip(n + 1) =~= ext);
    }
    assert forall|k: int| !(#[trigger] text::last_at(ext, dot, k)) by {
        if text::last_at(ext, dot, k) {
            assert(ext.subrange(k, k + 1)[0] == ext[k]);
        }
    }
    let hidden = dot + ext;
    assert forall|k: int| #[trigger] text::last_at(hidden, dot, k) implies k == 0 by {
        assert(hidden.subrange(k, k + 1)[0] == hidden[k]);
        if k > 0 {
            assert(hidden[k] == ext[k - 1]);
        }
    }
}

/// A file is audio exactly when its extension, in lower case, is one of the ten.
pub proof fn law_audio_like(stem: Seq<char>, ext: Seq<char>)
    requires
        stem.len() > 0,
        forall|k: int| 0 <= k < ext.len() ==> #[trigger] ext[k] != '.',
    ensures
        audio_like(stem + seq!['.'] + ext) <==> {
            let e = text::lowercase(ext);
            e == "mp4"@ || e == "m4a"@ || e == "wav"@ || e == "mp3"@ || e == "flac"@ || e == "ogg"@
                || e == "aac"@ || e == "mkv"@ || e == "webm"@ || e == "wma"@
        },
        !audio_like(ext),
{
    law_extension(stem, ext);
}

/// The names that are tried, from the likeliest one on.
pub proof fn law_audio_names()
    ensures
        audio_names().len() == 10,
        audio_names()[0] == "audio.mp4"@,
        audio_names()[1] == "audio.m4a"@,
        audio_names()[2] == "audio.wav"@,
        audio_names()[3] == "audio.mp3"@,
        audio_names()[4] == "audio.flac"@,
        audio_names()[5] == "audio.ogg"@,
        audio_names()[6] == "recording.mp4"@,
        audio_names()[7] == "audio.mkv"@,
        audio_names()[8] == "audio.webm"@,
        audio_names()[9] == "audio.wma"@,
{
}

/// The first audio entry is audio, and no entry before it is.
pub proof fn law_first_audio(entries: Seq<Seq<char>>, i: int, j: int)
    requires
        first_audio(entries, i),
        0 <= j < entries.len(),
        audio_like(entries[j]),
    ensures
        0 <= i <= j,
        audio_like(entries[i]),
{
}

/// Moved tokens keep their text, their length and their distance, and start so
/// much later.
pub proof fn law_moved(w: WordSpan, offset: int)
    requires
        i64::MIN <= w.start_ns + offset <= i64::MAX,
        i64::MIN <= w.end_ns + offset <= i64::MAX,
    ensures
        moved(w, offset).text == w.text,
        moved(w, offset).prob_ppb == w.prob_ppb,
        moved(w, offset).start_ns == w.start_ns + offset,
        moved(w, offset).end_ns == w.end_ns + offset,
{
}

/// A stored block says what the block said, when it was said, and how long it
/// took.
pub proof fn law_stored(x: TranscriptSegment, b: (String, Nanos, Nanos))
    requires
        stored(x, b),
        i64::MIN <= b.2 - b.1 <= i64::MAX,
    ensures
        x.text@ == text::trimmed(b.0@),
        x.audio_start_time == Some(b.1),
        x.audio_end_time == Some(b.2),
        x.duration matches Some(d) && d == b.2 - b.1,
        x.id@.len() == 47,
        x.id@.take(11) == "transcript-"@,
{
    reveal_strlit("transcript-");
    assert(x.id@.take(11) =~= x.id@.subrange(0, 11));
}

/// Existing metadata are marked as complete and name the transcript's file.
pub proof fn law_refreshed_marks(m: Map<Seq<char>, Member>, now: Seq<char>)
    ensures
        refreshed(m, now).contains_key("status"@) && refreshed(m, now)["status"@] == Member::Text(
            "completed"@,
        ),
        refreshed(m, now).contains_key("transcript_file"@) && refreshed(m, now)[
            "transcript_file"@
        ] == Member::Text("transcripts.json"@),
{
    reveal_strlit("detected_summary_language");
    reveal_strlit("status");
    reveal_strlit("transcript_file");
    assert("status"@.len() != "detected_summary_language"@.len());
    assert("status"@.len() != "transcript_file"@.len());
    assert("transcript_file"@.len() != "detected_summary_language"@.len());
}

/// New metadata say whose and of when they are, how long the recording is, which
/// files belong to it, and where they come from, and nothing else.
pub proof fn law_fresh_members(
    meeting_id: Seq<char>,
    duration: serde_json::Value,
    audio: Seq<char>,
    now: Seq<char>,
    key: Seq<char>,
)
    ensures
        ({
            let m = fresh_members(meeting_id, duration, audio, now);
            &&& m.contains_key(key) <==> key == "version"@ || key == "meeting_id"@ || key
                == "created_at"@ || key == "completed_at"@ || key == "retranscribed_at"@ || key
                == "duration_seconds"@ || key == "audio_file"@ || key == "transcript_file"@ || key
                == "status"@ || key == "source"@
            &&& m["version"@] == Member::Text("1.0"@)
            &&& m["meeting_id"@] == Member::Text(meeting_id)
            &&& m["created_at"@] == Member::Text(now)
            &&& m["completed_at"@] == Member::Text(now)
            &&& m["retranscribed_at"@] == Member::Text(now)
            &&& m["duration_seconds"@] == json::value_of(duration)
            &&& m["audio_file"@] == Member::Text(audio)
            &&& m["transcript_file"@] == Member::Text("transcripts.json"@)
            &&& m["status"@] == Member::Text("completed"@)
            &&& m["source"@] == Member::Text("retranscription"@)
        }),
{
    reveal_strlit("version");
    reveal_strlit("meeting_id");
    reveal_strlit("created_at");
    reveal_strlit("completed_at");
    reveal_strlit("retranscribed_at");
    reveal_strlit("duration_seconds");
    reveal_strlit("audio_file");
    reveal_strlit("transcript_file");
    reveal_strlit("status");
    reveal_strlit("source");
    assert("meeting_id"@[0] == 'm' && "created_at"@[0] == 'c' && "audio_file"@[0] == 'a');
    assert("status"@[1] == 't' && "source"@[1] == 'o');
    assert("version"@.len() == 7 && "completed_at"@.len() == 12 && "retranscribed_at"@.len() == 16
        && "duration_seconds"@.len() == 16 && "transcript_file"@.len() == 15);
    assert("retranscribed_at"@[0] == 'r' && "duration_seconds"@[0] == 'd');
}

/// Existing metadata are refreshed, and written back as they are where they are
/// no object; without any, new ones are made.
pub proof fn law_members_after(
    raw: Seq<char>,
    v: serde_json::Value,
    meeting_id: Seq<char>,
    duration: Seq<char>,
    d: serde_json::Value,
    audio: Seq<char>,
    now: Seq<char>,
)
    requires
        json::json_of(raw) == Some(v),
        json::json_of(duration) == Some(d),
    ensures
        json::is_object(v) ==> members_after(Some(raw), meeting_id, duration, audio, now)
            == refreshed(json::members(v), now),
        !json::is_object(v) ==> members_after(Some(raw), meeting_id, duration, audio, now)
            == json::members(v),
        members_after(None, meeting_id, duration, audio, now) == fresh_members(
            meeting_id,
            d,
            audio,
            now,
        ),
{
}

/// Speech is transcribed in pieces of a tenth of a second to twenty-five seconds at
/// sixteen thousand samples a second, and as many names are tried as there are.
pub proof fn law_limits()
    ensures
        MIN_SEGMENT_SAMPLES * 10 == 16_000,
        MAX_SEGMENT_SAMPLES == 25 * 16_000,
        VAD_REDEMPTION_TIME_MS == 2 * 1_000,
        AUDIO_NAMES == audio_names().len(),
{
}

} // verus!
