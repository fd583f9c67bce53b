//! Recording folders, meetings and the models next to them.
use meetily::coreml::{
    check_status, check_unpacked, encoder_paths_for, encoder_url, part_name, strip_quant_suffix,
    Attempts,
};
use meetily::meetings::{Job, MeetingHead, MeetingsRepository, ReadError, Statement, Turn};
use meetily::models::{Setting, Transcript};
use meetily::layout_work::{disk_failure, Change, LayoutRun, Outcome, Step, Work};
use meetily::recording_layout::{
    candidate_name, ensure_idle, goes_along, has_folder, move_destination, must_move,
    removes_left_behind, rename_step, renamed_folder, sanitized_or_default, timestamp_suffix,
    unique_child, update_metadata_name, RenameStep, MAX_NAMES,
};

/// The free name for a folder next to those that are there.
fn free_name(there: &[&str], name: &str) -> Result<String, String> {
    let taken: Vec<bool> =
        (0..MAX_NAMES).map(|k| there.contains(&candidate_name(name, k).as_str())).collect();
    unique_child("/rec", name, &taken)
}

#[test]
fn timestamp_suffix_detected() {
    assert_eq!(
        timestamp_suffix("Meeting 2026-07-27_19-06-36_2026-07-27_17-06").as_deref(),
        Some("2026-07-27_17-06")
    );
    assert_eq!(timestamp_suffix("My Call_2026-01-02_03-04").as_deref(), Some("2026-01-02_03-04"));
    assert_eq!(timestamp_suffix("no stamp here"), None);
    assert_eq!(timestamp_suffix("short_1-2"), None);
}

#[test]
fn unique_child_skips_existing() {
    assert_eq!(free_name(&["a"], "b").unwrap(), "b");
    assert_eq!(free_name(&["a"], "a").unwrap(), "a (2)");
}

#[test]
fn strips_quantization_suffixes() {
    assert_eq!(strip_quant_suffix("ggml-large-v3-q5_0"), "ggml-large-v3");
    assert_eq!(strip_quant_suffix("ggml-medium-q8_0"), "ggml-medium");
    assert_eq!(strip_quant_suffix("ggml-large-v3-turbo-q5_0"), "ggml-large-v3-turbo");
    assert_eq!(strip_quant_suffix("ggml-large-v3"), "ggml-large-v3");
    assert_eq!(strip_quant_suffix("ggml-base.en"), "ggml-base.en");
}

#[test]
fn encoder_paths_derived_for_known_models() {
    let (dir, zip) = encoder_paths_for("/models/ggml-large-v3-q5_0.bin").expect("known");
    assert_eq!(dir, "/models/ggml-large-v3-encoder.mlmodelc");
    assert_eq!(zip, "ggml-large-v3-encoder.mlmodelc.zip");

    let (dir, _) = encoder_paths_for("/m/ggml-medium.bin").expect("known");
    assert_eq!(dir, "/m/ggml-medium-encoder.mlmodelc");
}

#[test]
fn unknown_models_are_skipped() {
    assert!(encoder_paths_for("/m/ggml-distil-large-v3.bin").is_none());
    assert!(encoder_paths_for("/m/notggml-large-v3.bin").is_none());
}

#[test]
fn encoder_paths_follow_the_file_system() {
    for path in [
        "ggml-tiny.bin", "/ggml-tiny.bin", "//ggml-tiny.bin", "a/./ggml-tiny.bin",
        "./ggml-tiny.bin", "a//ggml-tiny.bin/", "a/ggml-tiny.bin/.", "/./ggml-tiny.bin",
        "..", ".", "/", "", "a/..", ".ggml-tiny", "a/ggml-tiny", "../ggml-base.en.bin",
        "x/ggml-base.en",
    ] {
        let p = std::path::Path::new(path);
        let stem = p.file_stem().map(|s| s.to_str().unwrap().to_string());
        let base = stem.as_deref().map(strip_quant_suffix);
        let known = matches!(base.as_deref(), Some("ggml-tiny") | Some("ggml-base.en") | Some("ggml-base"));
        match encoder_paths_for(path) {
            Some((dir, zip)) => {
                let base = base.unwrap();
                let want = p.with_file_name(format!("{}-encoder.mlmodelc", base));
                assert_eq!(dir, want.to_str().unwrap(), "{}", path);
                assert_eq!(zip, format!("{}-encoder.mlmodelc.zip", base));
            }
            None => assert!(!known, "{}", path),
        }
    }
}

#[test]
fn suffixes_that_are_no_quantization_stay() {
    assert_eq!(strip_quant_suffix("ggml-x-q"), "ggml-x-q");
    assert_eq!(strip_quant_suffix("ggml-x-quant"), "ggml-x-quant");
    assert_eq!(strip_quant_suffix("a-q4-q5_1"), "a-q4");
    assert_eq!(
        encoder_paths_for("/m/ggml-small-q8_0.bin"),
        encoder_paths_for("/m/ggml-small.bin")
    );
}

#[test]
fn encoders_are_fetched_once() {
    let mut attempts = Attempts::new();
    assert!(!attempts.begin("/m/a", true));
    assert!(attempts.begin("/m/a", false));
    assert!(!attempts.begin("/m/a", false));
    assert!(attempts.begin("/m/b", false));
    assert_eq!(
        encoder_url("x.zip"),
        "https://huggingface.co/ggerganov/whisper.cpp/resolve/main/x.zip"
    );
    assert_eq!(part_name("x.zip"), "x.zip.part");
    assert_eq!(check_status(true, "200 OK", "u"), Ok(()));
    assert_eq!(check_status(false, "404 Not Found", "u"), Err("HTTP 404 Not Found for u".to_string()));
    assert_eq!(check_unpacked(true, "0", true, "d"), Ok(()));
    assert_eq!(
        check_unpacked(false, "exit status: 1", true, "d"),
        Err("ditto extraction failed with exit status: 1".to_string())
    );
    assert_eq!(check_unpacked(true, "0", false, "d"), Err("archive did not contain d".to_string()));
}

#[test]
fn a_folder_spelled_otherwise_is_the_same_folder() {
    let mut attempts = Attempts::new();
    assert!(attempts.begin("x/m", false));
    assert!(!attempts.begin("x//m", false));
    assert!(!attempts.begin("x/m/", false));
    assert!(!attempts.begin("x/./m", false));
    assert!(!attempts.begin("x/m/.", false));
    assert!(attempts.begin("./x/m", false));
    assert!(!attempts.begin(".//x/m//", false));
    assert!(attempts.begin("/x/m", false));
    assert!(!attempts.begin("//x/m", false));
    assert!(!attempts.begin("/./x/m", false));
    assert!(attempts.begin("x/../x/m", false));
    assert!(attempts.begin("/", false));
    assert!(!attempts.begin("//.", false));
    assert!(attempts.begin(".", false));
    assert!(!attempts.begin("./", false));
    assert!(attempts.begin("", false));
    assert!(!attempts.begin("", false));
}

#[test]
fn names_run_out() {
    let there: Vec<String> = (0..MAX_NAMES).map(|k| candidate_name("a", k)).collect();
    let refs: Vec<&str> = there.iter().map(String::as_str).collect();
    assert_eq!(free_name(&refs, "a"), Err("Too many folders named 'a' in /rec".to_string()));
    assert_eq!(free_name(&refs[..19], "a").unwrap(), "a (20)");
    for i in 0..there.len() {
        for j in 0..i {
            assert_ne!(there[i], there[j]);
        }
    }
}

#[test]
fn folders_are_reorganised_only_when_idle() {
    assert_eq!(ensure_idle(false), Ok(()));
    let busy = "A transcription is running — try again when it finishes".to_string();
    assert_eq!(ensure_idle(true), Err(busy.clone()));
    assert_eq!(must_move(false, false, true), Ok(false));
    assert_eq!(must_move(true, true, true), Ok(false));
    assert_eq!(must_move(true, false, true), Err(busy.clone()));
    assert_eq!(must_move(true, false, false), Ok(true));
    assert_eq!(rename_step(Some("/r/x"), true, true, "x", "y").unwrap_err(), busy);
}

#[test]
fn folder_names_for_titles() {
    assert_eq!(sanitized_or_default(String::new()), "Meeting");
    assert_eq!(sanitized_or_default("Call".to_string()), "Call");
    assert_eq!(renamed_folder("New", "Old_2026-01-02_03-04"), "New_2026-01-02_03-04");
    assert_eq!(renamed_folder("New", "Old"), "New");
    let once = renamed_folder("New", "Old_2026-01-02_03-04");
    assert_eq!(renamed_folder("Newer", &once), "Newer_2026-01-02_03-04");
}

#[test]
fn steps_of_a_rename() {
    assert!(has_folder(Some("/r/x"), true));
    assert!(!has_folder(Some("  "), true));
    assert!(!has_folder(None, true));
    assert!(!has_folder(Some("/r/x"), false));
    assert!(matches!(rename_step(None, true, true, "x", "y"), Ok(RenameStep::Nothing)));
    assert!(matches!(
        rename_step(Some("/r/x"), true, false, "x", "x"),
        Ok(RenameStep::MetadataOnly)
    ));
    match rename_step(Some("/r/x"), true, false, "x_2026-01-02_03-04", "y") {
        Ok(RenameStep::Rename(n)) => assert_eq!(n, "y_2026-01-02_03-04"),
        other => panic!("{:?}", other),
    }
}

#[test]
fn moves_between_folders() {
    assert_eq!(move_destination(None, None), Ok(None));
    assert_eq!(move_destination(Some("f"), Some("Work".to_string())), Ok(Some("Work".to_string())));
    assert_eq!(move_destination(Some("f"), Some(String::new())), Ok(Some("Meeting".to_string())));
    assert_eq!(move_destination(Some("f"), None), Err("No folder found with id f".to_string()));
    assert!(removes_left_behind(false, true, true));
    assert!(!removes_left_behind(true, true, true));
    assert!(!removes_left_behind(false, false, true));
    assert!(!removes_left_behind(false, true, false));
    assert!(goes_along(Some("/r/f/x"), true, true));
    assert!(!goes_along(None, true, true));
    assert!(!goes_along(Some("/r/x"), false, true));
    assert!(!goes_along(Some("/r/f/x"), true, false));
}

#[test]
fn metadata_take_the_new_name() {
    let out = update_metadata_name("{\"a\": [1, 2], \"meeting_name\": \"old\"}", "new \"one\"").unwrap();
    let v: serde_json::Value = serde_json::from_str(&out).unwrap();
    assert_eq!(v["meeting_name"], "new \"one\"");
    assert_eq!(v["a"][1], 2);
    let v: serde_json::Value = serde_json::from_str(&update_metadata_name("null", "x").unwrap()).unwrap();
    assert_eq!(v["meeting_name"], "x");
    assert_eq!(update_metadata_name("not json", "x"), None);
    assert_eq!(update_metadata_name("[1]", "x"), None);
}

fn steps(job: Job, rows: &[u64]) -> (Vec<Statement>, Turn) {
    let mut done = vec![job.begin()];
    for r in rows {
        match job.next(*done.last().unwrap(), *r) {
            Turn::Run(s) => done.push(s),
            end => return (done, end),
        }
    }
    panic!("{:?} goes on after {:?}", job, done);
}

#[test]
fn transactions_go_on_until_they_are_settled() {
    let (done, end) = steps(Job::DeleteMeeting, &[1, 0, 3, 9, 1]);
    assert_eq!(
        done,
        vec![
            Statement::FindMeeting, Statement::DropChunks, Statement::DropSummaries,
            Statement::DropTranscripts, Statement::DropMeeting,
        ]
    );
    assert_eq!(end, Turn::Commit(true));
    assert_eq!(steps(Job::DeleteMeeting, &[0]).1, Turn::RollBack);
    assert_eq!(steps(Job::DeleteMeeting, &[1, 0, 0, 0, 0]).1, Turn::RollBack);
    assert_eq!(steps(Job::UpdateTitle, &[1]), (vec![Statement::Retitle], Turn::Commit(true)));
    assert_eq!(steps(Job::UpdateTitle, &[0]).1, Turn::RollBack);
    assert_eq!(
        steps(Job::UpdateName, &[1, 0]),
        (vec![Statement::Retitle, Statement::RenameChunks], Turn::Commit(true))
    );
    assert_eq!(steps(Job::UpdateName, &[0]).1, Turn::RollBack);
    assert_eq!(
        steps(Job::DeleteFolder, &[0, 1]),
        (vec![Statement::EmptyFolder, Statement::DropFolder], Turn::Commit(true))
    );
    assert_eq!(steps(Job::DeleteFolder, &[5, 0]).1, Turn::Commit(false));
    assert_eq!(Statement::DropMeeting.sql(), "DELETE FROM meetings WHERE id = ?");
    assert_eq!(
        Statement::EmptyFolder.sql(),
        "UPDATE meetings SET folder_id = NULL WHERE folder_id = ?"
    );
}

#[test]
fn blank_meeting_ids_are_refused() {
    let empty = "meeting_id cannot be empty".to_string();
    assert_eq!(MeetingsRepository::check_id(" \t"), Err(empty.clone()));
    assert_eq!(MeetingsRepository::check_id("m"), Ok(()));
    assert_eq!(MeetingsRepository::delete_meeting(""), Err(empty.clone()));
    assert_eq!(MeetingsRepository::delete_meeting("m"), Ok(Job::DeleteMeeting));
    assert_eq!(MeetingsRepository::update_meeting_title(" "), Err(empty));
    assert_eq!(MeetingsRepository::update_meeting_title("m"), Ok(Job::UpdateTitle));
    assert_eq!(MeetingsRepository::update_meeting_name(), Job::UpdateName);
    assert_eq!(MeetingsRepository::delete_folder(), Job::DeleteFolder);
    assert!(MeetingsRepository::was_found(1));
    assert!(!MeetingsRepository::was_found(0));
}

fn row(id: &str) -> Transcript {
    Transcript {
        id: id.to_string(),
        meeting_id: "m".to_string(),
        transcript: "said".to_string(),
        timestamp: "t".to_string(),
        summary: Some("s".to_string()),
        action_items: None,
        key_points: None,
        audio_start_time: Some(1.5f64.to_bits()),
        audio_end_time: None,
        duration: Some(2.0f64.to_bits()),
        speaker: Some("Speaker 1".to_string()),
    }
}

fn head() -> MeetingHead {
    MeetingHead {
        id: "m".to_string(),
        title: "Title".to_string(),
        created_at: "c".to_string(),
        updated_at: "u".to_string(),
    }
}

#[test]
fn meetings_are_read_with_their_rows() {
    let d = MeetingsRepository::get_meeting("m", Some(head()), &[row("a"), row("b")]).unwrap();
    assert_eq!((d.title.as_str(), d.created_at.as_str(), d.updated_at.as_str()), ("Title", "c", "u"));
    assert_eq!(d.transcripts.len(), 2);
    assert_eq!(d.transcripts[1].id, "b");
    assert_eq!(d.transcripts[0].text, "said");
    assert_eq!(d.transcripts[0].audio_start_time.map(f64::from_bits), Some(1.5));
    assert_eq!(d.transcripts[0].speaker.as_deref(), Some("Speaker 1"));
    assert_eq!(
        MeetingsRepository::get_meeting(" ", Some(head()), &[]).unwrap_err(),
        ReadError::EmptyId
    );
    assert_eq!(MeetingsRepository::get_meeting("m", None, &[]).unwrap_err(), ReadError::NotFound);
}

#[test]
fn custom_endpoints_are_json() {
    let mut s = Setting {
        id: "1".to_string(),
        provider: "custom".to_string(),
        model: "m".to_string(),
        whisper_model: "w".to_string(),
        groq_api_key: None,
        openai_api_key: None,
        anthropic_api_key: None,
        ollama_api_key: None,
        open_router_api_key: None,
        ollama_endpoint: None,
        custom_openai_config: None,
    };
    assert!(s.get_custom_openai_config().is_none());
    s.custom_openai_config = Some("{\"endpoint\": \"http://x\"}".to_string());
    assert_eq!(s.get_custom_openai_config().unwrap()["endpoint"], "http://x");
    s.custom_openai_config = Some("{".to_string());
    assert!(s.get_custom_openai_config().is_none());
}

fn works(change: Change, outcomes: Vec<Outcome>) -> (Vec<Work>, Option<String>) {
    let mut run = LayoutRun::begin(change);
    let mut done = vec![run.work];
    for outcome in outcomes {
        match run.next(outcome) {
            Step::Do(work) => done.push(work),
            Step::Finished => return (done, None),
            Step::Failed(e) => return (done, Some(e)),
        }
    }
    panic!("the work does not end: {:?}", run);
}

#[test]
fn files_move_before_the_database_is_told() {
    let (done, failed) =
        works(Change::MeetingRename, vec![Outcome::Done, Outcome::Failed("no".into()), Outcome::Done]);
    assert_eq!(done, vec![Work::MoveDir, Work::NoteTitle, Work::StorePath]);
    assert_eq!(failed, None);
    let (done, failed) = works(
        Change::MeetingMove,
        vec![Outcome::Done, Outcome::Done, Outcome::Done, Outcome::Done],
    );
    assert_eq!(done, vec![Work::CreateDir, Work::MoveDir, Work::StorePath, Work::CleanUp]);
    assert_eq!(failed, None);
}

#[test]
fn folders_take_their_meetings_along() {
    let (done, _) = works(
        Change::FolderRename,
        vec![Outcome::Done, Outcome::Listed(2), Outcome::Skipped, Outcome::Done],
    );
    assert_eq!(
        done,
        vec![Work::MoveDir, Work::ListMeetings, Work::StorePath, Work::StorePath]
    );
    let (done, _) = works(
        Change::FolderDelete,
        vec![Outcome::Listed(2), Outcome::Skipped, Outcome::Done, Outcome::Done, Outcome::Done],
    );
    assert_eq!(
        done,
        vec![Work::ListMeetings, Work::MoveDir, Work::MoveDir, Work::StorePath, Work::CleanUp]
    );
}

#[test]
fn a_failed_move_stops_the_work() {
    let text = disk_failure(Change::MeetingMove, Work::MoveDir, "disk full");
    assert_eq!(text, "Could not move recording folder: disk full");
    let (done, failed) =
        works(Change::MeetingMove, vec![Outcome::Done, Outcome::Failed(text.clone())]);
    assert_eq!(done, vec![Work::CreateDir, Work::MoveDir]);
    assert_eq!(failed, Some(text));
    assert_eq!(
        disk_failure(Change::MeetingRename, Work::MoveDir, "x"),
        "Could not rename recording folder: x"
    );
    assert_eq!(
        disk_failure(Change::FolderRename, Work::MoveDir, "x"),
        "Could not rename folder directory: x"
    );
    assert_eq!(
        disk_failure(Change::MeetingMove, Work::CreateDir, "x"),
        "Could not create folder directory: x"
    );
    assert_eq!(disk_failure(Change::FolderDelete, Work::StorePath, "x"), "x");
}
