//! Speaker labels, the helper process and its files.
use meetily::diarization::{
    accept_output, assign_speaker_label, failure_text, first_half, format_elapsed, helper_args,
    helper_failure, is_whole_file, kill_reason, parse_progress_line, resolve_embedding_model,
    retry_delay_secs, second_half, speaker_label, DiarizeOptions, DiarizedSegment, HelperProgress,
    HelperSegment, HelperWatch, Tick, DEFAULT_EMBEDDING_MODEL, LOCAL_SPEAKER,
};
use meetily::helper_binary::{
    helper_file_name, is_helper_name, pick_entry, search_plan, settle, target_triple, Probe,
    ProjectRoot,
    NOT_FOUND, NO_ROOT,
};
use meetily::wav::{build_wav_bytes, sample_kind, SampleKind};

fn ns(secs: f64) -> i64 {
    (secs * 1e9).round() as i64
}

fn seg(start: f64, end: f64, speaker: usize) -> DiarizedSegment {
    DiarizedSegment { start: ns(start), end: ns(end), speaker }
}

#[test]
fn parses_percent_progress_line() {
    assert_eq!(parse_progress_line("PROGRESS 0"), Some(HelperProgress::Percent(0)));
    assert_eq!(parse_progress_line("PROGRESS 42"), Some(HelperProgress::Percent(42)));
    assert_eq!(parse_progress_line("PROGRESS 100"), Some(HelperProgress::Percent(100)));
}

#[test]
fn parses_heartbeat_progress_line() {
    assert_eq!(parse_progress_line("PROGRESS -1"), Some(HelperProgress::Heartbeat));
}

#[test]
fn rejects_out_of_range_and_malformed_lines() {
    assert_eq!(parse_progress_line("PROGRESS 101"), None);
    assert_eq!(parse_progress_line("PROGRESS -2"), None);
    assert_eq!(parse_progress_line("PROGRESS abc"), None);
    assert_eq!(parse_progress_line("using 8 threads"), None);
    assert_eq!(parse_progress_line(""), None);
}

#[test]
fn formats_elapsed_time() {
    assert_eq!(format_elapsed(5), "5s");
    assert_eq!(format_elapsed(65), "1m 5s");
    assert_eq!(format_elapsed(135), "2m 15s");
}

#[test]
fn full_overlap_picks_the_containing_speaker() {
    let diarized = vec![seg(0.0, 5.0, 0), seg(5.0, 10.0, 1)];
    assert_eq!(assign_speaker_label(ns(1.0), ns(2.0), &diarized), Some(0));
}

#[test]
fn partial_overlap_picks_speaker_with_more_overlap() {
    let diarized = vec![seg(0.0, 5.0, 0), seg(5.0, 10.0, 1)];
    assert_eq!(assign_speaker_label(ns(4.0), ns(8.0), &diarized), Some(1));
}

#[test]
fn zero_overlap_returns_none() {
    let diarized = vec![seg(0.0, 5.0, 0), seg(10.0, 15.0, 1)];
    assert_eq!(assign_speaker_label(ns(6.0), ns(9.0), &diarized), None);
}

#[test]
fn touching_boundary_has_zero_overlap() {
    let diarized = vec![seg(0.0, 5.0, 0)];
    assert_eq!(assign_speaker_label(ns(5.0), ns(10.0), &diarized), None);
}

#[test]
fn empty_diarized_segments_returns_none() {
    assert_eq!(assign_speaker_label(ns(0.0), ns(10.0), &[]), None);
}

#[test]
fn speaker_label_is_one_based() {
    assert_eq!(speaker_label(0), "Speaker 1");
    assert_eq!(speaker_label(1), "Speaker 2");
}

#[test]
fn resolves_known_and_unknown_embedding_model_keys() {
    assert_eq!(
        resolve_embedding_model(Some("campplus")).filename,
        "campplus-zh-en-advanced-16k.onnx"
    );
    assert_eq!(
        resolve_embedding_model(Some("eres2net")).filename,
        "eres2net-base-sv-3dspeaker-16k.onnx"
    );
    assert_eq!(
        resolve_embedding_model(Some("bogus")).filename,
        "campplus-zh-en-advanced-16k.onnx"
    );
    assert_eq!(resolve_embedding_model(None).filename, "campplus-zh-en-advanced-16k.onnx");
}

#[test]
fn wav_bytes_have_valid_riff_header() {
    let samples = vec![0.0f32, 0.5, -0.5, 1.0, -1.0];
    let pcm: Vec<i16> =
        samples.iter().map(|s| (s.clamp(-1.0, 1.0) * i16::MAX as f32) as i16).collect();
    let wav = build_wav_bytes(&pcm);
    assert_eq!(&wav[0..4], b"RIFF");
    assert_eq!(&wav[8..12], b"WAVE");
    assert_eq!(wav.len(), 44 + samples.len() * 2);
}

#[test]
fn wav_header_and_samples_byte_for_byte() {
    let wav = build_wav_bytes(&[1, -1, 258]);
    assert_eq!(wav[4..8], 42u32.to_le_bytes());
    assert_eq!(&wav[12..16], b"fmt ");
    assert_eq!(wav[16..20], 16u32.to_le_bytes());
    assert_eq!(wav[20..22], 1u16.to_le_bytes());
    assert_eq!(wav[22..24], 1u16.to_le_bytes());
    assert_eq!(wav[24..28], 16000u32.to_le_bytes());
    assert_eq!(wav[28..32], 32000u32.to_le_bytes());
    assert_eq!(wav[32..34], 2u16.to_le_bytes());
    assert_eq!(wav[34..36], 16u16.to_le_bytes());
    assert_eq!(&wav[36..40], b"data");
    assert_eq!(wav[40..44], 6u32.to_le_bytes());
    assert_eq!(wav[44..], [1, 0, 0xff, 0xff, 2, 1]);
}

#[test]
fn wav_sample_kinds() {
    assert_eq!(sample_kind(true, 64), Ok(SampleKind::Float));
    assert_eq!(sample_kind(false, 16), Ok(SampleKind::Int16));
    assert_eq!(sample_kind(false, 32), Ok(SampleKind::Int32));
    assert_eq!(sample_kind(false, 24), Err("unsupported wav bit depth: 24".to_string()));
}

#[test]
fn local_speaker_has_a_label_of_its_own() {
    assert_eq!(speaker_label(LOCAL_SPEAKER), "You");
}

#[test]
fn last_of_equal_overlaps_wins() {
    let diarized = vec![seg(0.0, 2.0, 0), seg(2.0, 4.0, 1)];
    assert_eq!(assign_speaker_label(ns(1.0), ns(3.0), &diarized), Some(1));
}

#[test]
fn default_model_is_the_default_key() {
    assert_eq!(resolve_embedding_model(None).key, DEFAULT_EMBEDDING_MODEL);
    assert!(resolve_embedding_model(Some("eres2net")).url.contains("eres2net_base"));
}

#[test]
fn downloads_are_checked_and_retried() {
    assert!(is_whole_file(Some(5_000_000), 5_000_000));
    assert!(!is_whole_file(Some(4_999_999), 5_000_000));
    assert!(!is_whole_file(None, 0));
    assert_eq!(retry_delay_secs(1), Some(2));
    assert_eq!(retry_delay_secs(2), Some(4));
    assert_eq!(retry_delay_secs(3), None);
    assert_eq!((first_half(99), second_half(99)), (49, 99));
    assert!(first_half(100) <= second_half(0));
}

#[test]
fn helper_arguments_in_order() {
    let plain = helper_args("a.wav", "s.onnx", "e.onnx", &DiarizeOptions::default());
    assert_eq!(
        plain,
        vec!["--audio", "a.wav", "--segmentation-model", "s.onnx", "--embedding-model", "e.onnx"]
    );
    let opts = DiarizeOptions {
        enabled: true,
        num_speakers: Some(3),
        threshold: Some("0.5".to_string()),
        embedding_model: None,
    };
    let full = helper_args("a.wav", "s.onnx", "e.onnx", &opts);
    assert_eq!(full[6..], ["--num-speakers", "3", "--threshold", "0.5"]);
}

#[test]
fn watch_reports_events_and_idle_time() {
    let mut w = HelperWatch::new();
    let second = 1_000_000_000;
    match w.tick(second, false, &[HelperProgress::Percent(7), HelperProgress::Heartbeat]) {
        Tick::Wait(r) => assert_eq!(
            r,
            vec![
                (7, "Identifying speakers... (7%)".to_string()),
                (7, "Identifying speakers...".to_string()),
            ]
        ),
        other => panic!("{:?}", other),
    }
    match w.tick(11 * second, false, &[]) {
        Tick::Wait(r) => assert!(r.is_empty()),
        other => panic!("{:?}", other),
    }
    match w.tick(72 * second, false, &[]) {
        Tick::Wait(r) => {
            assert_eq!(r, vec![(7, "Identifying speakers... (1m 12s)".to_string())])
        }
        other => panic!("{:?}", other),
    }
    assert_eq!(w.heard_at, 72 * second);
    match w.tick(73 * second, true, &[]) {
        Tick::Kill(e) => assert_eq!(e, "Retranscription cancelled"),
        other => panic!("{:?}", other),
    }
    match w.tick(1801 * second, true, &[]) {
        Tick::Kill(e) => assert_eq!(e, "diarize-helper timed out after 1800s"),
        other => panic!("{:?}", other),
    }
    assert_eq!(kill_reason(1800 * second, false), None);
}

#[test]
fn helper_failures_name_the_reported_error() {
    assert_eq!(helper_failure(" {\"error\": \"no model\"}\n", "exit status: 1"), "no model");
    assert_eq!(
        helper_failure("{\"error\": 3}", "exit status: 1"),
        "diarize-helper exited with status exit status: 1"
    );
    assert_eq!(
        helper_failure("not json", "exit status: 2"),
        "diarize-helper exited with status exit status: 2"
    );
    assert_eq!(failure_text(Some("x".to_string()), "y"), "x");
}

#[test]
fn helper_output_clamps_negative_numbers() {
    let (segments, speakers) = accept_output(
        &[
            HelperSegment { start: 0, end: 5, speaker: -1 },
            HelperSegment { start: 5, end: 9, speaker: 2 },
        ],
        -3,
    );
    assert_eq!(speakers, 0);
    assert_eq!(
        segments,
        vec![
            DiarizedSegment { start: 0, end: 5, speaker: 0 },
            DiarizedSegment { start: 5, end: 9, speaker: 2 },
        ]
    );
}

#[test]
fn helper_names() {
    assert_eq!(helper_file_name("x86_64-pc-windows-msvc", true), "diarize-helper-x86_64-pc-windows-msvc.exe");
    assert_eq!(helper_file_name("aarch64-apple-darwin", false), "diarize-helper-aarch64-apple-darwin");
    assert!(is_helper_name("diarize-helper-x"));
    assert!(!is_helper_name("diarize-helper.d"));
    assert!(!is_helper_name("my-diarize-helper"));
    let names = vec!["a".to_string(), "diarize-helper.d".to_string(), "diarize-helper".to_string()];
    assert_eq!(pick_entry(&names), Some(2));
    assert_eq!(pick_entry(&names[..2]), None);
}

#[test]
fn helper_search_order() {
    let full = search_plan(true, true, true, ProjectRoot::Known, "h");
    assert_eq!(full.len(), 9);
    assert!(matches!(full[0], Probe::EnvFile));
    assert!(matches!(&full[1], Probe::ExeFile(n) if n == "h"));
    assert!(matches!(full[2], Probe::ExeScan));
    assert!(matches!(&full[3], Probe::ResourceFile(n) if n == "h"));
    assert!(matches!(&full[5], Probe::RootFile(n) if n == "target/release/diarize-helper"));
    assert_eq!(settle(&full, &[false, false, true, true, false, false, false, false, true]), Ok(2));
    assert_eq!(settle(&full, &[false; 9]), Err(NOT_FOUND.to_string()));
    let lost = search_plan(false, false, true, ProjectRoot::Missing, "h");
    assert_eq!(settle(&lost, &[false, false, false]), Err(NO_ROOT.to_string()));
    assert_eq!(settle(&lost, &[false, true, false]), Ok(1));
    assert_eq!(
        settle(&search_plan(false, false, false, ProjectRoot::Unset, "h"), &[]),
        Err(NOT_FOUND.to_string())
    );
}

#[test]
fn target_triples() {
    assert_eq!(target_triple(None, "linux", "x86_64"), "x86_64-unknown-linux-gnu");
    assert_eq!(target_triple(None, "macos", "aarch64"), "aarch64-apple-darwin");
    assert_eq!(target_triple(None, "windows", "x86_64"), "x86_64-pc-windows-msvc");
    assert_eq!(target_triple(None, "linux", "riscv64"), "unknown");
    assert_eq!(target_triple(None, "freebsd", "x86_64"), "unknown");
    assert_eq!(target_triple(Some("mine".to_string()), "linux", "x86_64"), "mine");
}

#[test]
fn the_overlaps_of_a_speaker_add_up() {
    let diarized = vec![seg(0.0, 2.0, 0), seg(3.0, 5.0, 0), seg(5.0, 8.0, 1)];
    assert_eq!(assign_speaker_label(ns(0.0), ns(8.0), &diarized), Some(0));
    assert_eq!(assign_speaker_label(ns(2.5), ns(8.0), &diarized), Some(1));
    // Two seconds each: the later segment in the span decides
    let tied = vec![seg(0.0, 1.0, 0), seg(1.0, 3.0, 1), seg(3.0, 4.0, 0), seg(9.0, 9.5, 1)];
    assert_eq!(assign_speaker_label(ns(0.0), ns(5.0), &tied), Some(0));
}
