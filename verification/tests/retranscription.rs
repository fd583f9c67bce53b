//! Retranscription: flags, files, rows and the course of a run.
use meetily::diarization::WordSpan;
use meetily::retranscription::{
    audio_name, block_turn, cancel_current, cancel_retranscription, configured_parakeet_model,
    configured_whisper_model, create_transcript_segments, file_extension, find_audio_file,
    has_channel_identity, is_audio_extension, is_audio_file, is_cancellation_requested,
    is_retranscription_in_progress, needs_load, onto_timeline, reset_cancellation,
    retranscription_metadata, row_speaker, started, store_block, turns_to_rows, uses_parakeet,
    RetranscriptionFlags, RetranscriptionGuard, AUDIO_NAMES, VAD_REDEMPTION_TIME_MS,
};
use meetily::retranscription_run::{
    block_plan, counted_message, must_split, neural_engine_message, part_percent, progress,
    segment_failure, vad_message, vad_percent, worth_keeping, worth_transcribing, BlockPlan,
    FixStage, Run, RunOptions, RunStage,
};

fn ms(t: f64) -> i64 {
    (t * 1e6).round() as i64
}

fn secs(t: f64) -> i64 {
    (t * 1e9).round() as i64
}

/// Finds the audio file of a folder that holds the given files.
fn find_in(files: &[&str]) -> Result<String, String> {
    let present: Vec<bool> = (0..AUDIO_NAMES).map(|k| files.contains(&audio_name(k))).collect();
    let entries: Vec<String> = files.iter().map(|f| f.to_string()).collect();
    find_audio_file("/rec", &present, &entries)
}

#[test]
fn test_create_transcript_segments_empty() {
    let segments = create_transcript_segments(&[]);
    assert!(segments.is_empty());
}

#[test]
fn test_create_transcript_segments_single() {
    let transcripts = vec![("Hello world".to_string(), ms(0.0), ms(1500.0))];
    let segments = create_transcript_segments(&transcripts);

    assert_eq!(segments.len(), 1);
    assert_eq!(segments[0].text, "Hello world");
    assert_eq!(segments[0].audio_start_time, Some(secs(0.0)));
    assert_eq!(segments[0].audio_end_time, Some(secs(1.5)));
    assert_eq!(segments[0].duration, Some(secs(1.5)));
}

#[test]
fn test_create_transcript_segments_multiple() {
    let transcripts = vec![
        ("First segment".to_string(), ms(0.0), ms(2000.0)),
        ("Second segment".to_string(), ms(3000.0), ms(5000.0)),
        ("Third segment".to_string(), ms(6500.0), ms(8000.0)),
    ];
    let segments = create_transcript_segments(&transcripts);

    assert_eq!(segments.len(), 3);

    assert_eq!(segments[0].text, "First segment");
    assert_eq!(segments[0].audio_start_time, Some(secs(0.0)));
    assert_eq!(segments[0].audio_end_time, Some(secs(2.0)));
    assert_eq!(segments[0].duration, Some(secs(2.0)));

    assert_eq!(segments[1].text, "Second segment");
    assert_eq!(segments[1].audio_start_time, Some(secs(3.0)));
    assert_eq!(segments[1].audio_end_time, Some(secs(5.0)));
    assert_eq!(segments[1].duration, Some(secs(2.0)));

    assert_eq!(segments[2].text, "Third segment");
    assert_eq!(segments[2].audio_start_time, Some(secs(6.5)));
    assert_eq!(segments[2].audio_end_time, Some(secs(8.0)));
    assert_eq!(segments[2].duration, Some(secs(1.5)));
}

#[test]
fn test_create_transcript_segments_trims_whitespace() {
    let transcripts = vec![("  Hello with spaces  ".to_string(), ms(0.0), ms(1000.0))];
    let segments = create_transcript_segments(&transcripts);

    assert_eq!(segments.len(), 1);
    assert_eq!(segments[0].text, "Hello with spaces");
}

#[test]
fn test_create_transcript_segments_generates_unique_ids() {
    let transcripts = vec![
        ("Segment one".to_string(), ms(0.0), ms(1000.0)),
        ("Segment two".to_string(), ms(1000.0), ms(2000.0)),
    ];
    let segments = create_transcript_segments(&transcripts);

    assert_eq!(segments.len(), 2);
    assert_ne!(segments[0].id, segments[1].id);
    assert!(segments[0].id.starts_with("transcript-"));
    assert!(segments[1].id.starts_with("transcript-"));
    assert_eq!(segments[0].id.len(), 11 + 36);
}

#[test]
fn test_cancellation_flag() {
    let mut flags = RetranscriptionFlags::default();
    assert!(!is_retranscription_in_progress(&flags));
    assert!(!is_cancellation_requested(&flags));

    cancel_retranscription(&mut flags);
    assert!(is_cancellation_requested(&flags));

    reset_cancellation(&mut flags);
    assert!(!is_cancellation_requested(&flags));
}

#[test]
fn test_vad_redemption_time_constant() {
    assert_eq!(VAD_REDEMPTION_TIME_MS, 2000);
}

#[test]
fn test_find_audio_file_common_candidates() {
    assert!(find_in(&[]).is_err());
    assert_eq!(find_in(&["audio.mp4"]).unwrap(), "audio.mp4");
}

#[test]
fn test_find_audio_file_non_mp4_extensions() {
    assert_eq!(find_in(&["audio.wav"]).unwrap(), "audio.wav");
}

#[test]
fn test_find_audio_file_fallback_scan() {
    assert_eq!(find_in(&["my_recording.flac", "notes.txt"]).unwrap(), "my_recording.flac");
    assert_eq!(find_in(&["notes.txt", "my_recording.FLAC"]).unwrap(), "my_recording.FLAC");
}

#[test]
fn test_find_audio_file_priority_order() {
    assert_eq!(find_in(&["audio.m4a", "audio.mp4"]).unwrap(), "audio.mp4");
}

#[test]
fn test_find_audio_file_empty_folder() {
    let result = find_in(&[]);
    assert!(result.is_err());
    assert!(result.unwrap_err().contains("No audio file found"));
}

#[test]
fn test_find_audio_file_nonexistent_folder() {
    let result = find_audio_file("/nonexistent/path/12345", &[false; AUDIO_NAMES], &[]);
    assert!(result.is_err());
    assert_eq!(result.unwrap_err(), "No audio file found in: /nonexistent/path/12345");
}

#[test]
fn test_audio_extensions_constant() {
    assert!(is_audio_extension("mp4"));
    assert!(is_audio_extension("m4a"));
    assert!(is_audio_extension("wav"));
    assert!(is_audio_extension("mp3"));
    assert!(is_audio_extension("flac"));
    assert!(is_audio_extension("ogg"));
    assert!(is_audio_extension("aac"));
    assert!(is_audio_extension("mkv"));
    assert!(is_audio_extension("webm"));
    assert!(is_audio_extension("wma"));
    assert!(!is_audio_extension("txt"));
    assert!(!is_audio_extension("pdf"));
}

#[test]
fn extensions_follow_the_last_dot() {
    assert_eq!(file_extension("a.b.MP3").as_deref(), Some("MP3"));
    assert_eq!(file_extension(".mp3"), None);
    assert_eq!(file_extension("mp3"), None);
    assert_eq!(file_extension("x.").as_deref(), Some(""));
    assert!(is_audio_file("Call.Mp4"));
    assert!(!is_audio_file(".mp4"));
}

#[test]
fn runs_exclude_each_other() {
    let mut flags = RetranscriptionFlags::default();
    let guard = RetranscriptionGuard::acquire(&mut flags).unwrap();
    assert!(is_retranscription_in_progress(&flags));
    assert_eq!(
        RetranscriptionGuard::acquire(&mut flags).unwrap_err(),
        "Retranscription already in progress"
    );
    assert_eq!(started(&flags, "m").unwrap_err(), "Retranscription already in progress");
    assert_eq!(cancel_current(&mut flags), Ok(()));
    assert!(is_cancellation_requested(&flags));
    guard.release(&mut flags);
    assert!(!is_retranscription_in_progress(&flags));
    assert_eq!(cancel_current(&mut flags), Err("No retranscription in progress".to_string()));
    let s = started(&flags, "m").unwrap();
    assert_eq!((s.meeting_id.as_str(), s.message.as_str()), ("m", "Retranscription started"));
    assert!(RetranscriptionGuard::acquire(&mut flags).is_ok());
}

#[test]
fn engines_and_models() {
    assert!(uses_parakeet(Some("parakeet")));
    assert!(!uses_parakeet(Some("whisper")));
    assert!(!uses_parakeet(None));
    let config = |p: &str| Some((p.to_string(), "m1".to_string()));
    assert_eq!(configured_whisper_model(config("localWhisper"), "d"), Ok("m1".to_string()));
    assert_eq!(configured_whisper_model(config("whisper"), "d"), Ok("m1".to_string()));
    assert_eq!(configured_whisper_model(None, "d"), Ok("d".to_string()));
    assert_eq!(
        configured_whisper_model(config("groq"), "d"),
        Err("Retranscription requires Whisper. Current provider 'groq' does not support retranscription with language selection.".to_string())
    );
    assert_eq!(configured_parakeet_model(config("parakeet"), "d"), "m1");
    assert_eq!(configured_parakeet_model(config("whisper"), "d"), "d");
    assert_eq!(configured_parakeet_model(None, "d"), "d");
    assert!(needs_load(None, "m", false));
    assert!(needs_load(Some("x"), "m", false));
    assert!(needs_load(Some("m"), "m", true));
    assert!(!needs_load(Some("m"), "m", false));
    assert!(has_channel_identity(2, Some("mic-left-system-right")));
    assert!(!has_channel_identity(1, Some("mic-left-system-right")));
    assert!(!has_channel_identity(2, Some("stereo")));
    assert!(!has_channel_identity(2, None));
}

#[test]
fn blocks_become_rows() {
    let words = vec![WordSpan {
        text: "hi".to_string(),
        start_ns: ms(10.0),
        end_ns: ms(20.0),
        prob_ppb: 7,
    }];
    let moved = onto_timeline(words, ms(1000.0));
    assert_eq!((moved[0].start_ns, moved[0].end_ns, moved[0].prob_ppb), (ms(1010.0), ms(1020.0), 7));
    let turn = block_turn("hi".to_string(), ms(1000.0), ms(2000.0), moved);
    let rows = turns_to_rows(&[turn]);
    assert_eq!(rows.len(), 1);
    assert_eq!((rows[0].text.as_str(), rows[0].start_ns, rows[0].end_ns), ("hi", ms(1000.0), ms(2000.0)));
    assert_eq!(rows[0].speaker, None);
    assert_eq!(row_speaker(Some(1)).as_deref(), Some("Speaker 2"));
    assert_eq!(row_speaker(None), None);
    let stored = store_block(&(" x ".to_string(), 5, 9), "id", "now".to_string());
    assert_eq!(stored.id, "transcript-id");
    assert_eq!(stored.timestamp, "now");
    assert_eq!((stored.text.as_str(), stored.duration), ("x", Some(4)));
}

#[test]
fn metadata_of_a_run() {
    let fresh = retranscription_metadata(None, "m1", "12.5", "audio.wav").unwrap();
    let v: serde_json::Value = serde_json::from_str(&fresh).unwrap();
    assert_eq!(v["version"], "1.0");
    assert_eq!(v["meeting_id"], "m1");
    assert_eq!(v["duration_seconds"], 12.5);
    assert_eq!(v["audio_file"], "audio.wav");
    assert_eq!(v["transcript_file"], "transcripts.json");
    assert_eq!(v["status"], "completed");
    assert_eq!(v["source"], "retranscription");
    assert_eq!(v["created_at"], v["retranscribed_at"]);
    assert_eq!(v["completed_at"], v["retranscribed_at"]);

    let old = "{\"meeting_id\": \"m0\", \"status\": \"new\", \"detected_summary_language\": \"en\", \"n\": 3}";
    let kept = retranscription_metadata(Some(old), "m1", "1", "a").unwrap();
    let v: serde_json::Value = serde_json::from_str(&kept).unwrap();
    assert_eq!(v["meeting_id"], "m0");
    assert_eq!(v["status"], "completed");
    assert_eq!(v["n"], 3);
    assert!(v.get("detected_summary_language").is_none());
    assert!(v["retranscribed_at"].is_string());

    assert_eq!(retranscription_metadata(Some("[1]"), "m", "1", "a").unwrap(), "[\n  1\n]");
    assert!(retranscription_metadata(Some("{"), "m", "1", "a").is_err());
    assert!(retranscription_metadata(None, "m", "", "a").is_err());
}

fn whole_run(options: RunOptions, segments: usize, diarized: usize) -> Vec<RunStage> {
    let mut run = Run::begin(options);
    let mut stages = Vec::new();
    while run.stage != RunStage::Complete {
        stages.push(run.stage);
        let outcome = match run.stage {
            RunStage::Detect => 1,
            RunStage::Load => segments,
            RunStage::Join => diarized,
            _ => 0,
        };
        run.advance(outcome).unwrap();
    }
    stages
}

#[test]
fn stages_of_a_run() {
    let all = RunOptions { diarize: true, refine: true, repair: true, parakeet: false };
    assert_eq!(
        whole_run(all, 2, 3),
        vec![
            RunStage::Decode, RunStage::Convert, RunStage::Detect, RunStage::Diarize,
            RunStage::Load, RunStage::Transcribe, RunStage::Transcribe, RunStage::Join,
            RunStage::Turns, RunStage::Refine, RunStage::Repair, RunStage::Save, RunStage::Learn,
            RunStage::Write,
        ]
    );
    let none = RunOptions { diarize: false, refine: true, repair: true, parakeet: true };
    assert_eq!(
        whole_run(none, 1, 0),
        vec![
            RunStage::Decode, RunStage::Convert, RunStage::Detect, RunStage::Load,
            RunStage::Transcribe, RunStage::Join, RunStage::Turns, RunStage::Save,
            RunStage::Write,
        ]
    );
}

#[test]
fn a_run_without_speech_fails() {
    let mut run =
        Run::begin(RunOptions { diarize: true, refine: true, repair: true, parakeet: false });
    run.advance(0).unwrap();
    run.advance(0).unwrap();
    assert_eq!(run.advance(0), Err("No speech detected in audio file".to_string()));
    assert_eq!(run.stage, RunStage::Failed);
}

#[test]
fn reports_and_stops_of_a_run() {
    let mut run =
        Run::begin(RunOptions { diarize: true, refine: true, repair: true, parakeet: false });
    let e = run.enter(true, "");
    let r = e.report.unwrap();
    assert_eq!((r.stage.as_str(), r.percent, r.message.as_str()), ("decoding", 5, "Decoding audio file..."));
    let stop = e.stop.unwrap();
    assert_eq!((stop.error.as_str(), stop.wait), ("Retranscription cancelled", false));
    run.advance(0).unwrap();
    assert_eq!(run.enter(false, "").report.unwrap().percent, 15);
    run.advance(0).unwrap();
    assert_eq!(run.enter(false, "").report.unwrap().percent, 20);
    run.advance(4).unwrap();
    assert!(run.enter(false, "").report.is_none());
    assert!(run.enter(true, "").stop.is_some());
    run.advance(0).unwrap();
    let e = run.enter(true, "");
    assert!(e.stop.is_none());
    assert_eq!(e.report.unwrap().message, "Loading transcription engine...");
    run.advance(3).unwrap();
    run.advance(0).unwrap();
    let r = run.enter(false, "2.5").report.unwrap();
    assert_eq!(r.percent, 33);
    assert_eq!(r.message, "Transcribing segment 2 of 3 (2.5s)...");
    let e = run.enter(true, "2.5");
    assert!(e.report.is_none());
    assert!(e.stop.unwrap().wait);
    run.advance(0).unwrap();
    run.advance(0).unwrap();
    assert!(run.enter(true, "").stop.unwrap().wait);
    for percent in [80, 80, 86] {
        run.advance(1).unwrap();
        let e = run.enter(true, "");
        assert_eq!(e.report.unwrap().percent, percent);
        assert!(e.stop.is_none());
    }
    run.advance(0).unwrap();
    assert!(run.enter(true, "").report.is_none());
    run.advance(0).unwrap();
    run.advance(0).unwrap();
    assert_eq!(run.enter(true, "").report.unwrap().message, "Writing transcript files...");
    run.advance(0).unwrap();
    let p = progress("m", run.enter(false, "").report.unwrap());
    assert_eq!(
        (p.meeting_id.as_str(), p.stage.as_str(), p.progress_percentage, p.message.as_str()),
        ("m", "complete", 100, "Retranscription complete")
    );
}

#[test]
fn a_fix_up_stops_between_its_passes() {
    let s = FixStage::Boundaries;
    let e = s.enter(true);
    assert!(e.stop.is_none());
    assert_eq!(e.report.unwrap().percent, 5);
    let s = s.next();
    assert_eq!(s.enter(true).stop.unwrap().error, "AI fix-up cancelled");
    assert!(s.enter(true).report.is_none());
    assert_eq!(s.enter(false).report.unwrap().percent, 50);
    let s = s.next();
    let r = s.enter(false).report.unwrap();
    assert_eq!((r.stage.as_str(), r.percent, r.message.as_str()), ("refining", 92, "Saving transcripts..."));
    assert!(s.enter(true).stop.is_some());
    assert_eq!(s.next(), FixStage::Complete);
    assert!(FixStage::Complete.enter(true).report.is_none());
    assert_eq!(FixStage::Complete.next(), FixStage::Complete);
}

#[test]
fn parts_of_progress() {
    assert_eq!(part_percent(80, 5, 1, 2), 82);
    assert_eq!(part_percent(80, 5, 0, 0), 80);
    assert_eq!(part_percent(5, 45, 7, 7), 50);
    assert_eq!(vad_percent(99), 24);
    assert_eq!(vad_percent(100), 25);
    assert_eq!(vad_message(40, 3), "Detecting speech segments... 40% (3 found)");
    assert_eq!(
        counted_message("Refining speaker boundaries", 2, 9),
        "Refining speaker boundaries (2/9)..."
    );
    assert_eq!(
        neural_engine_message(65),
        "Optimizing model for the Neural Engine — one-time, up to ~15 min (1m 05s)..."
    );
    assert!(neural_engine_message(720).contains("(12m 00s)"));
}

#[test]
fn segments_worth_the_work() {
    assert!(worth_transcribing(1600));
    assert!(!worth_transcribing(1599));
    assert!(must_split(400_001));
    assert!(!must_split(400_000));
    assert!(worth_keeping(" x "));
    assert!(!worth_keeping(" \n"));
    assert_eq!(segment_failure(true, 3, "oops"), "Parakeet transcription failed on segment 3: oops");
    assert_eq!(segment_failure(false, 0, "x"), "Whisper transcription failed on segment 0: x");
}

#[test]
fn blocks_are_split_where_speakers_are_known() {
    assert_eq!(block_plan(0), BlockPlan::OneTurn);
    assert_eq!(block_plan(1), BlockPlan::SplitAtSpeakers);
    assert!(!FixStage::Boundaries.has_work(0));
    assert!(FixStage::Boundaries.has_work(3));
    assert!(FixStage::Wording.has_work(0));
    assert!(FixStage::Saving.has_work(0));
    assert!(!FixStage::Complete.has_work(3));
}

#[test]
fn metadata_keep_numbers_lists_and_objects() {
    let old = "{\"devices\": {\"mic\": [1, 2.5, null]}, \"n\": 7, \"on\": true, \"s\": \"x\"}";
    let kept = retranscription_metadata(Some(old), "m1", "1", "a").unwrap();
    let before: serde_json::Value = serde_json::from_str(old).unwrap();
    let after: serde_json::Value = serde_json::from_str(&kept).unwrap();
    for key in ["devices", "n", "on", "s"] {
        assert_eq!(after[key], before[key]);
    }
    let fresh = retranscription_metadata(None, "m1", "12.5", "audio.wav").unwrap();
    let fresh: serde_json::Value = serde_json::from_str(&fresh).unwrap();
    assert_eq!(fresh["duration_seconds"].as_f64(), Some(12.5));
}
