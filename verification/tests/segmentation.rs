//! Voice runs, pauses between voices, and what they say about a cut.
use meetily::boundary_eval::turn_from_text;
use meetily::segmentation::{
    acoustic_verdict, bounding_runs, change_gap_near, collapse_frames, frame_class,
    instant_in_gap, sustained_runs, unique_candidate_in_gap, window_chunk, window_start_for,
    VoiceRun, WINDOW_NS, WINDOW_SAMPLES,
};

fn ns(secs: f64) -> i64 {
    (secs * 1e9).round() as i64
}

fn run(start: f64, end: f64, class: usize) -> VoiceRun {
    VoiceRun { start: ns(start), end: ns(end), class }
}

fn gap_near(runs: &[VoiceRun], t: f64) -> Option<(i64, i64)> {
    change_gap_near(runs, ns(t))
}

fn span(a: f64, b: f64) -> (i64, i64) {
    (ns(a), ns(b))
}

fn unique(instants: &[(i32, f64)], gap: (f64, f64)) -> Option<i32> {
    let exact: Vec<(i32, i64)> = instants.iter().map(|&(s, t)| (s, ns(t))).collect();
    unique_candidate_in_gap(&exact, span(gap.0, gap.1))
}

#[test]
fn sustained_drops_blips_and_silence() {
    let runs = vec![
        run(0.0, 4.7, 1),
        run(4.7, 5.8, 0),
        run(5.8, 6.1, 2),
        run(6.1, 6.5, 1),
        run(6.5, 7.8, 0),
        run(7.8, 9.8, 2),
    ];
    let s = sustained_runs(&runs);
    assert_eq!(s.len(), 2);
    assert_eq!((s[0].class, s[1].class), (1, 2));
}

#[test]
fn change_gap_found_between_different_voices_only() {
    let s = vec![run(0.0, 4.4, 2), run(5.2, 5.9, 2), run(6.2, 9.0, 1)];
    let gap = gap_near(&s, 4.8).expect("gap");
    assert_eq!(gap, span(5.9, 6.2));
}

#[test]
fn short_interjection_of_established_voice_bounds_the_gap() {
    let runs = vec![
        run(156.1, 158.8, 2),
        run(158.8, 160.5, 0),
        run(160.5, 160.9, 3),
        run(160.9, 162.0, 0),
        run(162.0, 165.2, 3),
    ];
    assert_eq!(gap_near(&runs, 160.2), Some(span(158.8, 160.5)));
}

#[test]
fn overlap_speech_inside_the_interval_disqualifies_the_gap() {
    let runs =
        vec![run(1640.8, 1644.16, 2), run(1644.16, 1644.55, 6), run(1644.55, 1647.65, 3)];
    assert_eq!(gap_near(&runs, 1644.25), None);
}

#[test]
fn isolated_noise_blip_does_not_fake_a_change() {
    let runs = vec![
        run(0.0, 4.0, 1),
        run(4.0, 4.6, 0),
        run(4.6, 4.9, 2),
        run(4.9, 5.5, 0),
        run(5.5, 9.0, 1),
    ];
    assert_eq!(gap_near(&runs, 4.7), None);
}

#[test]
fn abutting_change_yields_no_gap() {
    let s = vec![run(0.0, 5.0, 1), run(5.1, 9.0, 2)];
    assert!(gap_near(&s, 5.0).is_none());
}

#[test]
fn nearest_gap_wins() {
    let s = vec![run(0.0, 2.0, 1), run(2.5, 4.0, 2), run(4.4, 6.0, 1)];
    assert_eq!(gap_near(&s, 2.2), Some(span(2.0, 2.5)));
    assert_eq!(gap_near(&s, 4.5), Some(span(4.0, 4.4)));
}

#[test]
fn unique_hit_decides_ties_do_not() {
    let gap = (95.93, 96.18);
    assert_eq!(unique(&[(0, 94.8), (3, 96.05)], gap), Some(3));
    assert_eq!(unique(&[(0, 96.0), (1, 96.1)], gap), None);
    assert_eq!(unique(&[(0, 95.94)], gap), None);
}

#[test]
fn near_gap_current_cut_suppresses_moves() {
    let gap = (1766.09, 1767.40);
    assert_eq!(unique(&[(-1, 1766.15), (0, 1767.44)], gap), None);
    assert_eq!(unique(&[(-1, 1766.15), (0, 1768.0)], gap), Some(-1));
}

#[test]
fn short_runs_of_established_voices_bound() {
    let runs = vec![run(0.0, 1.0, 1), run(1.2, 1.3, 1), run(1.5, 1.6, 2), run(2.0, 2.1, 0)];
    let b = bounding_runs(&runs);
    assert_eq!(b, vec![run(0.0, 1.0, 1), run(1.2, 1.3, 1)]);
}

#[test]
fn instants_at_the_margin_count() {
    let gap = span(1.0, 2.0);
    assert!(instant_in_gap(ns(1.05), gap));
    assert!(instant_in_gap(ns(1.95), gap));
    assert!(!instant_in_gap(ns(1.95) + 1, gap));
    assert!(!instant_in_gap(ns(1.05) - 1, gap));
}

#[test]
fn frames_collapse_into_runs_that_cover_the_window() {
    let runs = collapse_frames(&[0, 0, 1, 1, 1], ns(5.0));
    assert_eq!(runs, vec![run(5.0, 9.0, 0), run(9.0, 15.0, 1)]);
    assert!(collapse_frames(&[], 0).is_empty());
    let many: Vec<usize> = (0..589).map(|i| i % 3).collect();
    let runs = collapse_frames(&many, 0);
    assert_eq!(runs.len(), 589);
    assert_eq!(runs[0].start, 0);
    assert_eq!(runs[588].end, WINDOW_NS);
    for pair in runs.windows(2) {
        assert_eq!(pair[0].end, pair[1].start);
    }
}

#[test]
fn frame_class_takes_the_last_of_equal_scores() {
    assert_eq!(frame_class(&[1, 5, 3]), 1);
    assert_eq!(frame_class(&[5, 1, 5]), 2);
    assert_eq!(frame_class(&[-7]), 0);
    assert_eq!(frame_class(&[]), 0);
}

#[test]
fn windows_are_filled_up_with_silence() {
    let audio: Vec<i32> = (0..170_000).collect();
    let w = window_chunk(&audio, ns(1.0), -1);
    assert_eq!(w.len(), WINDOW_SAMPLES);
    assert_eq!(w[0], 16_000);
    assert_eq!(w[153_999], 169_999);
    assert_eq!(w[154_000], -1);
    assert_eq!(window_chunk(&audio, ns(-3.0), -1)[0], 0);
    assert_eq!(window_chunk(&audio, ns(100.0), -1)[0], -1);
}

#[test]
fn windows_stay_inside_the_audio() {
    let minute = 60 * 16_000;
    assert_eq!(window_start_for(ns(30.0), minute), ns(25.0));
    assert_eq!(window_start_for(ns(2.0), minute), 0);
    assert_eq!(window_start_for(ns(59.0), minute), ns(50.0));
    assert_eq!(window_start_for(ns(4.0), 16_000), 0);
}

#[test]
fn verdict_moves_a_cut_onto_the_pause() {
    // Words of 300 ms each; the left side ends at 1.2 s, the right side starts there.
    let left = turn_from_text("one two three four", 0, 0);
    let mut right = turn_from_text("five six seven eight nine", 1, ns(1.2));
    for w in right.words.iter_mut().skip(2) {
        w.start_ns += ns(0.6);
        w.end_ns += ns(0.6);
    }
    right.rebuild_from_words();
    let runs = vec![run(0.0, 1.8, 1), run(1.8, 2.4, 0), run(2.4, 4.0, 2)];
    assert_eq!(acoustic_verdict(&runs, &left, &right, &[-2, -1, 0, 1, 2]), Some(2));
    let same = vec![run(0.0, 1.8, 1), run(1.8, 2.4, 0), run(2.4, 4.0, 1)];
    assert_eq!(acoustic_verdict(&same, &left, &right, &[-2, -1, 0, 1, 2]), None);
}
