//! Meetings, their folders and their transcripts: what is asked of the
//! database, in which order, and what becomes of the answers.
use vstd::prelude::*;
use crate::models::Transcript;
use crate::text;
use crate::text::{chars_of, trim};

verus! {

/// Why a blank meeting id is refused.
pub const EMPTY_ID: &'static str = "meeting_id cannot be empty";

/// All meetings, the newest first, with the number of their transcript rows and
/// the end of the last one.
pub const SELECT_MEETINGS: &'static str = "SELECT m.*, (SELECT COUNT(*) FROM transcripts t WHERE t.meeting_id = m.id) AS transcript_count, (SELECT MAX(t.audio_end_time) FROM transcripts t WHERE t.meeting_id = m.id) AS duration_seconds FROM meetings m ORDER BY m.created_at DESC";

/// One meeting without its transcript.
pub const SELECT_MEETING: &'static str = "SELECT id, title, created_at, updated_at, folder_path FROM meetings WHERE id = ?";

/// The transcript of a meeting.
pub const SELECT_TRANSCRIPTS: &'static str = "SELECT * FROM transcripts WHERE meeting_id = ?";

/// The number of transcript rows of a meeting.
pub const COUNT_TRANSCRIPTS: &'static str = "SELECT COUNT(*) FROM transcripts WHERE meeting_id = ?";

/// One page of the transcript of a meeting, by time.
pub const SELECT_PAGE: &'static str = "SELECT * FROM transcripts WHERE meeting_id = ? ORDER BY audio_start_time ASC LIMIT ? OFFSET ?";

/// All folders, by title.
pub const SELECT_FOLDERS: &'static str = "SELECT * FROM folders ORDER BY title COLLATE NOCASE";

/// A new folder.
pub const INSERT_FOLDER: &'static str = "INSERT INTO folders (id, title, created_at) VALUES (?, ?, ?)";

/// A new title of a folder.
pub const RENAME_FOLDER: &'static str = "UPDATE folders SET title = ? WHERE id = ?";

/// The title of a folder.
pub const SELECT_FOLDER_TITLE: &'static str = "SELECT title FROM folders WHERE id = ?";

/// Where a meeting is stored.
pub const SELECT_FOLDER_PATH: &'static str = "SELECT folder_path FROM meetings WHERE id = ?";

/// A new place of a meeting.
pub const UPDATE_FOLDER_PATH: &'static str = "UPDATE meetings SET folder_path = ? WHERE id = ?";

/// The meetings of a folder, and where they are stored.
pub const SELECT_PATHS_IN_FOLDER: &'static str = "SELECT id, folder_path FROM meetings WHERE folder_id = ?";

/// The folder of a meeting.
pub const SET_MEETING_FOLDER: &'static str = "UPDATE meetings SET folder_id = ? WHERE id = ?";

/// A meeting's transcript rows, before they are written anew.
pub const DELETE_TRANSCRIPTS: &'static str = "DELETE FROM transcripts WHERE meeting_id = ?";

/// A transcript row.
pub const INSERT_TRANSCRIPT: &'static str = "INSERT INTO transcripts (id, meeting_id, transcript, timestamp, audio_start_time, audio_end_time, duration, speaker) VALUES (?, ?, ?, ?, ?, ?, ?, ?)";

// ---------------------------------------------------------------------
// Transactions

/// A statement of a transaction.
#[derive(Debug, Clone, Copy, PartialEq, Eq, Structural)]
pub enum Statement {
    FindMeeting,
    DropChunks,
    DropSummaries,
    DropTranscripts,
    DropMeeting,
    Retitle,
    RenameChunks,
    EmptyFolder,
    DropFolder,
}

impl Statement {
    /// The statement's text.
    pub fn sql(&self) -> (r: &'static str)
        ensures
            r@ == match self {
                Statement::FindMeeting => "SELECT 1 FROM meetings WHERE id = ?"@,
                Statement::DropChunks => "DELETE FROM transcript_chunks WHERE meeting_id = ?"@,
                Statement::DropSummaries => "DELETE FROM summary_processes WHERE meeting_id = ?"@,
                Statement::DropTranscripts => DELETE_TRANSCRIPTS@,
                Statement::DropMeeting => "DELETE FROM meetings WHERE id = ?"@,
                Statement::Retitle => "UPDATE meetings SET title = ?, updated_at = ? WHERE id = ?"@,
                Statement::RenameChunks =>
                    "UPDATE transcript_chunks SET meeting_name = ? WHERE meeting_id = ?"@,
                Statement::EmptyFolder =>
                    "UPDATE meetings SET folder_id = NULL WHERE folder_id = ?"@,
                Statement::DropFolder => "DELETE FROM folders WHERE id = ?"@,
            },
    {
        match self {
            Statement::FindMeeting => "SELECT 1 FROM meetings WHERE id = ?",
            Statement::DropChunks => "DELETE FROM transcript_chunks WHERE meeting_id = ?",
            Statement::DropSummaries => "DELETE FROM summary_processes WHERE meeting_id = ?",
            Statement::DropTranscripts => DELETE_TRANSCRIPTS,
            Statement::DropMeeting => "DELETE FROM meetings WHERE id = ?",
            Statement::Retitle => "UPDATE meetings SET title = ?, updated_at = ? WHERE id = ?",
            Statement::RenameChunks =>
                "UPDATE transcript_chunks SET meeting_name = ? WHERE meeting_id = ?",
            Statement::EmptyFolder => "UPDATE meetings SET folder_id = NULL WHERE folder_id = ?",
            Statement::DropFolder => "DELETE FROM folders WHERE id = ?",
        }
    }
}

/// What a transaction is for.
#[derive(Debug, Clone, Copy, PartialEq, Eq, Structural)]
pub enum Job {
    /// Delete a meeting and all that belongs to it.
    DeleteMeeting,
    /// Give a meeting a new title.
    UpdateTitle,
    /// Give a meeting a new title, there and in its transcript chunks.
    UpdateName,
    /// Delete a folder; its meetings move back to the top level.
    DeleteFolder,
}

/// How a transaction goes on.
#[derive(Debug, Clone, Copy, PartialEq, Eq, Structural)]
pub enum Turn {
    /// Run a statement.
    Run(Statement),
    /// Keep what was done; the job reports whether it found its object.
    Commit(bool),
    /// Undo what was done; the job found nothing.
    RollBack,
}

/// The first statement of a transaction.
pub open spec fn opening(job: Job) -> Statement {
    match job {
        Job::DeleteMeeting => Statement::FindMeeting,
        Job::UpdateTitle => Statement::Retitle,
        Job::UpdateName => Statement::Retitle,
        Job::DeleteFolder => Statement::EmptyFolder,
    }
}

/// How a transaction goes on after a statement found or changed `rows` rows.
pub open spec fn following(job: Job, done: Statement, rows: int) -> Turn {
    match job {
        Job::DeleteMeeting => match done {
            Statement::FindMeeting => if rows > 0 {
                Turn::Run(Statement::DropChunks)
            } else {
                Turn::RollBack
            },
            Statement::DropChunks => Turn::Run(Statement::DropSummaries),
            Statement::DropSummaries => Turn::Run(Statement::DropTranscripts),
            Statement::DropTranscripts => Turn::Run(Statement::DropMeeting),
            Statement::DropMeeting => if rows > 0 {
                Turn::Commit(true)
            } else {
                Turn::RollBack
            },
            _ => Turn::RollBack,
        },
        Job::UpdateTitle => match done {
            Statement::Retitle => if rows > 0 {
                Turn::Commit(true)
            } else {
                Turn::RollBack
            },
            _ => Turn::RollBack,
        },
        Job::UpdateName => match done {
            Statement::Retitle => if rows > 0 {
                Turn::Run(Statement::RenameChunks)
            } else {
                Turn::RollBack
            },
            Statement::RenameChunks => Turn::Commit(true),
            _ => Turn::RollBack,
        },
        Job::DeleteFolder => match done {
            Statement::EmptyFolder => Turn::Run(Statement::DropFolder),
            Statement::DropFolder => Turn::Commit(rows > 0),
            _ => Turn::RollBack,
        },
    }
}

impl Job {
    /// The first statement.
    pub fn begin(&self) -> (r: Statement)
        ensures
            r == opening(*self),
    {
        match self {
            Job::DeleteMeeting => Statement::FindMeeting,
            Job::UpdateTitle => Statement::Retitle,
            Job::UpdateName => Statement::Retitle,
            Job::DeleteFolder => Statement::EmptyFolder,
        }
    }

    /// How to go on after a statement found or changed `rows` rows.
    pub fn next(&self, done: Statement, rows: u64) -> (r: Turn)
        ensures
            r == following(*self, done, rows as int),
    {
        match self {
            Job::DeleteMeeting => match done {
                Statement::FindMeeting => if rows > 0 {
                    Turn::Run(Statement::DropChunks)
                } else {
                    Turn::RollBack
                },
                Statement::DropChunks => Turn::Run(Statement::DropSummaries),
                Statement::DropSummaries => Turn::Run(Statement::DropTranscripts),
                Statement::DropTranscripts => Turn::Run(Statement::DropMeeting),
                Statement::DropMeeting => if rows > 0 {
                    Turn::Commit(true)
                } else {
                    Turn::RollBack
                },
                _ => Turn::RollBack,
            },
            Job::UpdateTitle => match done {
                Statement::Retitle => if rows > 0 {
                    Turn::Commit(true)
                } else {
                    Turn::RollBack
                },
                _ => Turn::RollBack,
            },
            Job::UpdateName => match done {
                Statement::Retitle => if rows > 0 {
                    Turn::Run(Statement::RenameChunks)
                } else {
                    Turn::RollBack
                },
                Statement::RenameChunks => Turn::Commit(true),
                _ => Turn::RollBack,
            },
            Job::DeleteFolder => match done {
                Statement::EmptyFolder => Turn::Run(Statement::DropFolder),
                Statement::DropFolder => Turn::Commit(rows > 0),
                _ => Turn::RollBack,
            },
        }
    }
}

// ---------------------------------------------------------------------
// What a transaction does to the database

/// A meeting row.
pub struct MeetingRow {
    pub title: Seq<char>,
    pub folder: Option<Seq<char>>,
}

/// The tables: meetings and folders by id, the others by row number with the
/// meeting that a row belongs to; transcript chunks also carry its name.
#[verifier::ext_equal]
pub struct Tables {
    pub meetings: Map<Seq<char>, MeetingRow>,
    pub folders: Map<Seq<char>, Seq<char>>,
    pub chunks: Map<int, (Seq<char>, Seq<char>)>,
    pub summaries: Map<int, Seq<char>>,
    pub transcripts: Map<int, Seq<char>>,
}

/// The rows that do not belong to a meeting.
pub open spec fn others(rows: Map<int, Seq<char>>, id: Seq<char>) -> Map<int, Seq<char>> {
    rows.restrict(Set::new(|k: int| rows[k] != id))
}

/// The tables after a statement about `id`; `title` is the new title, if any.
pub open spec fn effect(db: Tables, s: Statement, id: Seq<char>, title: Seq<char>) -> Tables {
    match s {
        Statement::FindMeeting => db,
        Statement::DropChunks => Tables {
            chunks: db.chunks.restrict(Set::new(|k: int| db.chunks[k].0 != id)),
            ..db
        },
        Statement::DropSummaries => Tables { summaries: others(db.summaries, id), ..db },
        Statement::DropTranscripts => Tables { transcripts: others(db.transcripts, id), ..db },
        Statement::DropMeeting => Tables { meetings: db.meetings.remove(id), ..db },
        Statement::Retitle => if db.meetings.contains_key(id) {
            Tables {
                meetings: db.meetings.insert(
                    id,
                    MeetingRow { title, folder: db.meetings[id].folder },
                ),
                ..db
            }
        } else {
            db
        },
        Statement::RenameChunks => Tables {
            chunks: db.chunks.map_values(
                |row: (Seq<char>, Seq<char>)|
                    if row.0 == id {
                        (row.0, title)
                    } else {
                        row
                    },
            ),
            ..db
        },
        Statement::EmptyFolder => Tables {
            meetings: db.meetings.map_values(
                |m: MeetingRow|
                    if m.folder == Some(id) {
                        MeetingRow { title: m.title, folder: None }
                    } else {
                        m
                    },
            ),
            ..db
        },
        Statement::DropFolder => Tables { folders: db.folders.remove(id), ..db },
    }
}

/// How many rows a statement that looks for the object of a job finds.
pub open spec fn found(db: Tables, s: Statement, id: Seq<char>) -> int {
    match s {
        Statement::FindMeeting | Statement::DropMeeting | Statement::Retitle =>
            if db.meetings.contains_key(id) {
                1
            } else {
                0
            },
        Statement::DropFolder => if db.folders.contains_key(id) {
            1
        } else {
            0
        },
        _ => 0,
    }
}

/// What is still to do after a statement; it becomes less.
pub open spec fn to_do(s: Statement) -> int {
    match s {
        Statement::FindMeeting => 4,
        Statement::DropChunks => 3,
        Statement::DropSummaries => 2,
        Statement::DropTranscripts => 1,
        Statement::DropMeeting => 0,
        Statement::Retitle => 1,
        Statement::RenameChunks => 0,
        Statement::EmptyFolder => 1,
        Statement::DropFolder => 0,
    }
}

/// The tables after a transaction that starts with `s` on `db` and was begun on
/// `start`, and whether the job found its object.
pub open spec fn outcome(
    start: Tables,
    db: Tables,
    job: Job,
    s: Statement,
    id: Seq<char>,
    title: Seq<char>,
) -> (Tables, bool)
    decreases to_do(s),
{
    let after = effect(db, s, id, title);
    match following(job, s, found(db, s, id)) {
        Turn::Run(t) => outcome(start, after, job, t, id, title),
        Turn::Commit(b) => (after, b),
        Turn::RollBack => (start, false),
    }
}

/// Deleting a meeting takes it and every row that belongs to it out of the
/// tables and leaves all else; a meeting that is not there changes nothing.
pub proof fn law_delete_meeting(db: Tables, id: Seq<char>, title: Seq<char>)
    ensures
        ({
            let (after, found) = outcome(
                db,
                db,
                Job::DeleteMeeting,
                opening(Job::DeleteMeeting),
                id,
                title,
            );
            &&& found == db.meetings.contains_key(id)
            &&& !found ==> after == db
            &&& found ==> {
                &&& after.meetings == db.meetings.remove(id)
                &&& after.folders == db.folders
                &&& forall|k: int|
                    #[trigger] after.chunks.contains_key(k) <==> db.chunks.contains_key(k)
                        && db.chunks[k].0 != id
                &&& forall|k: int| #[trigger]
                    after.chunks.contains_key(k) ==> after.chunks[k] == db.chunks[k]
                &&& after.summaries == others(db.summaries, id)
                &&& after.transcripts == others(db.transcripts, id)
            }
        }),
        forall|k: int|
            #[trigger] others(db.transcripts, id).contains_key(k) <==> db.transcripts.contains_key(k)
                && db.transcripts[k] != id,
{
    reveal_with_fuel(outcome, 6);
}

/// Deleting a folder moves its meetings to the top level and leaves the other
/// meetings where they are; it reports whether the folder was there.
pub proof fn law_delete_folder(db: Tables, folder: Seq<char>, meeting: Seq<char>)
    ensures
        ({
            let (after, found) = outcome(
                db,
                db,
                Job::DeleteFolder,
                opening(Job::DeleteFolder),
                folder,
                Seq::empty(),
            );
            &&& found == db.folders.contains_key(folder)
            &&& after.folders == db.folders.remove(folder)
            &&& after.meetings.dom() == db.meetings.dom()
            &&& db.meetings.contains_key(meeting) ==> {
                &&& after.meetings[meeting].title == db.meetings[meeting].title
                &&& after.meetings[meeting].folder == if db.meetings[meeting].folder == Some(folder) {
                    None
                } else {
                    db.meetings[meeting].folder
                }
            }
            &&& after.chunks == db.chunks && after.summaries == db.summaries && after.transcripts
                == db.transcripts
        }),
{
    reveal_with_fuel(outcome, 3);
    let after = outcome(
        db,
        db,
        Job::DeleteFolder,
        opening(Job::DeleteFolder),
        folder,
        Seq::empty(),
    ).0;
    assert(after.meetings.dom() =~= db.meetings.dom());
}

/// A new title reaches the meeting and nothing else; for a meeting that is not
/// there nothing changes.
pub proof fn law_update_title(db: Tables, id: Seq<char>, title: Seq<char>)
    ensures
        ({
            let (after, found) = outcome(
                db,
                db,
                Job::UpdateTitle,
                opening(Job::UpdateTitle),
                id,
                title,
            );
            &&& found == db.meetings.contains_key(id)
            &&& !found ==> after == db
            &&& found ==> after == (Tables {
                meetings: db.meetings.insert(
                    id,
                    MeetingRow { title, folder: db.meetings[id].folder },
                ),
                ..db
            })
        }),
{
}

/// A new name reaches the meeting and every transcript chunk of it, and nothing
/// else; for a meeting that is not there nothing changes.
pub proof fn law_update_name(db: Tables, id: Seq<char>, title: Seq<char>, row: int)
    ensures
        ({
            let (after, found) = outcome(
                db,
                db,
                Job::UpdateName,
                opening(Job::UpdateName),
                id,
                title,
            );
            &&& found == db.meetings.contains_key(id)
            &&& !found ==> after == db
            &&& found ==> {
                &&& after.meetings == db.meetings.insert(
                    id,
                    (MeetingRow { title, folder: db.meetings[id].folder }),
                )
                &&& after.chunks.dom() == db.chunks.dom()
                &&& db.chunks.contains_key(row) ==> after.chunks[row] == if db.chunks[row].0 == id {
                    (id, title)
                } else {
                    db.chunks[row]
                }
                &&& after.folders == db.folders && after.summaries == db.summaries
                    && after.transcripts == db.transcripts
            }
        }),
{
    reveal_with_fuel(outcome, 3);
    let after = outcome(db, db, Job::UpdateName, opening(Job::UpdateName), id, title).0;
    if db.meetings.contains_key(id) {
        assert(after.chunks.dom() =~= db.chunks.dom());
    }
}

// ---------------------------------------------------------------------
// Reading

/// A meeting without its transcript.
#[derive(Debug)]
pub struct MeetingHead {
    pub id: String,
    pub title: String,
    pub created_at: String,
    pub updated_at: String,
}

/// A transcript row of a meeting as it is shown.
#[derive(Debug)]
pub struct MeetingTranscript {
    pub id: String,
    pub text: String,
    pub timestamp: String,
    pub audio_start_time: Option<u64>,
    pub audio_end_time: Option<u64>,
    pub duration: Option<u64>,
    pub speaker: Option<String>,
}

/// A meeting with its transcript.
#[derive(Debug)]
pub struct MeetingDetails {
    pub id: String,
    pub title: String,
    pub created_at: String,
    pub updated_at: String,
    pub transcripts: Vec<MeetingTranscript>,
}

/// Why a meeting could not be read.
#[derive(Debug, Clone, Copy, PartialEq, Eq, Structural)]
pub enum ReadError {
    EmptyId,
    NotFound,
}

/// A shown row is made from a stored one.
pub open spec fn shown(x: MeetingTranscript, t: Transcript) -> bool {
    &&& x.id@ == t.id@
    &&& x.text@ == t.transcript@
    &&& x.timestamp@ == t.timestamp@
    &&& x.audio_start_time == t.audio_start_time
    &&& x.audio_end_time == t.audio_end_time
    &&& x.duration == t.duration
    &&& text::opt(x.speaker) == text::opt(t.speaker)
}

/// The blank id that no meeting has.
pub open spec fn blank(meeting_id: Seq<char>) -> bool {
    text::trimmed(meeting_id).len() == 0
}

/// The meetings of the database.
#[derive(Debug)]
pub struct MeetingsRepository;

impl MeetingsRepository {
    /// Refuse a blank meeting id.
    pub fn check_id(meeting_id: &str) -> (r: Result<(), String>)
        ensures
            r is Err <==> blank(meeting_id@),
            r matches Err(e) ==> e@ == EMPTY_ID@,
    {
        if chars_of(trim(meeting_id).as_str()).len() == 0 {
            Err(EMPTY_ID.to_owned())
        } else {
            Ok(())
        }
    }

    /// The transaction that deletes a meeting.
    pub fn delete_meeting(meeting_id: &str) -> (r: Result<Job, String>)
        ensures
            r is Err <==> blank(meeting_id@),
            r matches Ok(j) ==> j == Job::DeleteMeeting,
            r matches Err(e) ==> e@ == EMPTY_ID@,
    {
        match Self::check_id(meeting_id) {
            Ok(_) => Ok(Job::DeleteMeeting),
            Err(e) => Err(e),
        }
    }

    /// The transaction that gives a meeting a new title.
    pub fn update_meeting_title(meeting_id: &str) -> (r: Result<Job, String>)
        ensures
            r is Err <==> blank(meeting_id@),
            r matches Ok(j) ==> j == Job::UpdateTitle,
            r matches Err(e) ==> e@ == EMPTY_ID@,
    {
        match Self::check_id(meeting_id) {
            Ok(_) => Ok(Job::UpdateTitle),
            Err(e) => Err(e),
        }
    }

    /// The transaction that gives a meeting a new name, whatever its id.
    pub fn update_meeting_name() -> (r: Job)
        ensures
            r == Job::UpdateName,
    {
        Job::UpdateName
    }

    /// The transaction that deletes a folder.
    pub fn delete_folder() -> (r: Job)
        ensures
            r == Job::DeleteFolder,
    {
        Job::DeleteFolder
    }

    /// A meeting with its transcript, from what the database holds under the
    /// id: the rows keep their order.
    pub fn get_meeting(meeting_id: &str, meeting: Option<MeetingHead>, rows: &[Transcript]) -> (r:
        Result<MeetingDetails, ReadError>)
        ensures
            match r {
                Ok(d) => {
                    &&& !blank(meeting_id@)
                    &&& meeting matches Some(m) && d.id@ == m.id@ && d.title@ == m.title@
                        && d.created_at@ == m.created_at@ && d.updated_at@ == m.updated_at@
                    &&& d.transcripts@.len() == rows@.len()
                    &&& forall|i: int|
                        0 <= i < rows@.len() ==> shown(#[trigger] d.transcripts@[i], rows@[i])
                },
                Err(ReadError::EmptyId) => blank(meeting_id@),
                Err(ReadError::NotFound) => !blank(meeting_id@) && meeting is None,
            },
    {
        if Self::check_id(meeting_id).is_err() {
            return Err(ReadError::EmptyId);
        }
        match meeting {
            Some(m) => Ok(
                MeetingDetails {
                    id: m.id,
                    title: m.title,
                    created_at: m.created_at,
                    updated_at: m.updated_at,
                    transcripts: shown_rows(rows),
                },
            ),
            None => Err(ReadError::NotFound),
        }
    }

    /// Whether an update found its row.
    pub fn was_found(rows_affected: u64) -> (r: bool)
        ensures
            r == (rows_affected > 0),
    {
        rows_affected > 0
    }
}

/// Stored rows as they are shown, in their order.
fn shown_rows(rows: &[Transcript]) -> (r: Vec<MeetingTranscript>)
    ensures
        r@.len() == rows@.len(),
        forall|i: int| 0 <= i < rows@.len() ==> shown(#[trigger] r@[i], rows@[i]),
{
    let mut out: Vec<MeetingTranscript> = Vec::new();
    let mut i: usize = 0;
    while i < rows.len()
        invariant
            i <= rows@.len(),
            out@.len() == i,
            forall|k: int| 0 <= k < i ==> shown(#[trigger] out@[k], rows@[k]),
        decreases rows@.len() - i,
    {
        let t: &Transcript = &rows[i];
        let speaker = match &t.speaker {
            Some(s) => Some(s.clone()),
            None => None,
        };
        out.push(
            MeetingTranscript {
                id: t.id.clone(),
                text: t.transcript.clone(),
                timestamp: t.timestamp.clone(),
                audio_start_time: t.audio_start_time,
                audio_end_time: t.audio_end_time,
                duration: t.duration,
                speaker,
            },
        );
        i += 1;
    }
    out
}

/// A shown row says what the stored one says.
pub proof fn law_shown(x: MeetingTranscript, t: Transcript)
    requires
        shown(x, t),
    ensures
        x.id@ == t.id@,
        x.text@ == t.transcript@,
        x.timestamp@ == t.timestamp@,
        x.audio_start_time == t.audio_start_time,
        x.audio_end_time == t.audio_end_time,
        x.duration == t.duration,
        text::opt(x.speaker) == text::opt(t.speaker),
{
}

/// An id is blank when it holds nothing but whitespace.
pub proof fn law_blank(id: Seq<char>)
    requires
        id.len() > 0,
    ensures
        (forall|k: int| 0 <= k < id.len() ==> text::white(#[trigger] id[k])) ==> blank(id),
        !text::white(id[0]) && !text::white(id[id.len() - 1]) ==> !blank(id),
        blank(Seq::empty()),
{
    if forall|k: int| 0 <= k < id.len() ==> text::white(#[trigger] id[k]) {
        text::law_trimmed(id, 0, 0);
    }
    if !text::white(id[0]) && !text::white(id[id.len() - 1]) {
        text::law_trimmed(id, 0, id.len() as int);
    }
    text::law_trimmed(Seq::empty(), 0, 0);
}

/// How each job goes on: a meeting's rows go before the meeting itself, a new name
/// reaches the chunks after the meeting, a folder is emptied before it goes, and
/// whoever is not found ends the job.
pub proof fn law_following(rows: int)
    ensures
        opening(Job::DeleteMeeting) == Statement::FindMeeting,
        opening(Job::UpdateTitle) == Statement::Retitle,
        opening(Job::UpdateName) == Statement::Retitle,
        opening(Job::DeleteFolder) == Statement::EmptyFolder,
        rows <= 0 ==> following(Job::DeleteMeeting, Statement::FindMeeting, rows) == Turn::RollBack
            && following(Job::DeleteMeeting, Statement::DropMeeting, rows) == Turn::RollBack
            && following(Job::UpdateTitle, Statement::Retitle, rows) == Turn::RollBack
            && following(Job::UpdateName, Statement::Retitle, rows) == Turn::RollBack && following(
            Job::DeleteFolder,
            Statement::DropFolder,
            rows,
        ) == Turn::Commit(false),
        rows > 0 ==> following(Job::DeleteMeeting, Statement::FindMeeting, rows) == Turn::Run(
            Statement::DropChunks,
        ) && following(Job::DeleteMeeting, Statement::DropMeeting, rows) == Turn::Commit(true)
            && following(Job::UpdateTitle, Statement::Retitle, rows) == Turn::Commit(true)
            && following(Job::UpdateName, Statement::Retitle, rows) == Turn::Run(
            Statement::RenameChunks,
        ) && following(Job::DeleteFolder, Statement::DropFolder, rows) == Turn::Commit(true),
        following(Job::DeleteMeeting, Statement::DropChunks, rows) == Turn::Run(
            Statement::DropSummaries,
        ),
        following(Job::DeleteMeeting, Statement::DropSummaries, rows) == Turn::Run(
            Statement::DropTranscripts,
        ),
        following(Job::DeleteMeeting, Statement::DropTranscripts, rows) == Turn::Run(
            Statement::DropMeeting,
        ),
        following(Job::UpdateName, Statement::RenameChunks, rows) == Turn::Commit(true),
        following(Job::DeleteFolder, Statement::EmptyFolder, rows) == Turn::Run(
            Statement::DropFolder,
        ),
{
}

} // verus!
