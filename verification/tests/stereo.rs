//! Channel identity of stereo recordings.
use meetily::diarization::{DiarizedSegment, LOCAL_SPEAKER};
use meetily::stereo::{
    channel_layout, mic_activity_intervals, overlay_local_speaker, split_channels_16k,
    MIC_SYSTEM_LAYOUT,
};

fn ns(secs: f64) -> i64 {
    (secs * 1e9).round() as i64
}

fn billionths(samples: &[f32]) -> Vec<i32> {
    samples.iter().map(|s| (*s as f64 * 1e9).round() as i32).collect()
}

fn seg(start: f64, end: f64, speaker: usize) -> DiarizedSegment {
    DiarizedSegment { start: ns(start), end: ns(end), speaker }
}

fn intervals_of(mic: &[f32], sys: &[f32], rate: u32) -> Vec<(f64, f64)> {
    mic_activity_intervals(&billionths(mic), &billionths(sys), rate)
        .into_iter()
        .map(|(s, e)| (s as f64 / 1e9, e as f64 / 1e9))
        .collect()
}

#[test]
fn split_deinterleaves_channels() {
    let samples = vec![0.1f32, 0.5, 0.2, 0.6, 0.3, 0.7];
    let (mic, sys) = split_channels_16k(&samples, 2).unwrap();
    assert_eq!(mic, vec![0.1, 0.2, 0.3]);
    assert_eq!(sys, vec![0.5, 0.6, 0.7]);
}

#[test]
fn split_rejects_mono() {
    assert!(split_channels_16k(&[0.1f32, 0.2], 1).is_none());
}

fn tone(len: usize, amp: f32) -> Vec<f32> {
    (0..len).map(|i| if i % 2 == 0 { amp } else { -amp }).collect()
}

#[test]
fn mic_speech_detected_and_silence_ignored() {
    let sr = 16000u32;
    let mut mic = tone(sr as usize, 0.3);
    mic.extend(vec![0.0; sr as usize]);
    let sys = vec![0.0; 2 * sr as usize];
    let intervals = intervals_of(&mic, &sys, sr);
    assert_eq!(intervals.len(), 1);
    assert!(intervals[0].0 < 0.1);
    assert!((intervals[0].1 - 1.0).abs() < 0.1);
}

#[test]
fn loudspeaker_bleed_rejected_by_dominance() {
    let sr = 16000u32;
    let sys = tone(sr as usize, 0.5);
    let mic = tone(sr as usize, 0.05);
    let intervals = intervals_of(&mic, &sys, sr);
    assert!(intervals.is_empty());
}

#[test]
fn short_gaps_merge_short_islands_drop() {
    let sr = 16000u32;
    let frame = sr as usize / 20;
    let mut mic = Vec::new();
    mic.extend(tone(8 * frame, 0.3));
    mic.extend(vec![0.0; 4 * frame]);
    mic.extend(tone(8 * frame, 0.3));
    mic.extend(vec![0.0; 20 * frame]);
    mic.extend(tone(frame, 0.3));
    mic.extend(vec![0.0; 4 * frame]);
    let sys = vec![0.0; mic.len()];
    let intervals = intervals_of(&mic, &sys, sr);
    assert_eq!(intervals.len(), 1);
    assert!((intervals[0].1 - intervals[0].0 - 1.0).abs() < 0.11);
}

#[test]
fn overlay_clips_remote_and_inserts_local() {
    let remote = vec![seg(0.0, 10.0, 0), seg(12.0, 14.0, 1)];
    let mic = vec![(ns(4.0), ns(6.0))];
    let out = overlay_local_speaker(&remote, &mic);
    assert_eq!(out.len(), 4);
    assert_eq!(out[0], seg(0.0, 4.0, 0));
    assert_eq!(out[1], seg(4.0, 6.0, LOCAL_SPEAKER));
    assert_eq!(out[2], seg(6.0, 10.0, 0));
    assert_eq!(out[3].speaker, 1);
}

#[test]
fn overlay_drops_slivers() {
    let remote = vec![seg(0.0, 5.0, 0)];
    let mic = vec![(ns(0.02), ns(4.99))];
    let out = overlay_local_speaker(&remote, &mic);
    assert_eq!(out.len(), 1);
    assert_eq!(out[0].speaker, LOCAL_SPEAKER);
}

#[test]
fn stretches_have_exact_bounds() {
    let mic = tone(16_000, 0.3);
    let sys = tone(16_000, 0.3);
    let out = mic_activity_intervals(&billionths(&mic), &billionths(&sys), 16_000);
    assert_eq!(out, vec![(0, ns(1.0))]);
    let out = mic_activity_intervals(&billionths(&mic[..3000]), &[], 16_000);
    assert!(out.is_empty());
    let out = mic_activity_intervals(&billionths(&mic[..3200]), &[], 16_000);
    assert_eq!(out, vec![(0, ns(0.2))]);
}

#[test]
fn overlay_is_sorted_and_leaves_local_time_to_the_local_speaker() {
    let remote = vec![seg(5.0, 9.0, 1), seg(0.0, 6.0, 0)];
    let mic = vec![(ns(1.0), ns(2.0)), (ns(5.5), ns(5.8))];
    let out = overlay_local_speaker(&remote, &mic);
    for pair in out.windows(2) {
        assert!(pair[0].start <= pair[1].start);
    }
    for s in out.iter().filter(|s| s.speaker != LOCAL_SPEAKER) {
        for m in &mic {
            assert!(s.end <= m.0 || s.start >= m.1);
        }
    }
    assert_eq!(out.iter().filter(|s| s.speaker == LOCAL_SPEAKER).count(), 2);
    for kept in [seg(2.0, 5.5, 0), seg(5.0, 5.5, 1), seg(5.8, 9.0, 1), seg(0.3, 0.9, 0)] {
        assert!(out.iter().any(|s| {
            s.speaker == kept.speaker && s.start <= kept.start && kept.end <= s.end
        }));
    }
}

#[test]
fn layout_is_read_from_the_metadata() {
    let raw = format!("{{\"channel_layout\": \"{}\", \"x\": 1}}", MIC_SYSTEM_LAYOUT);
    assert_eq!(channel_layout(&raw).as_deref(), Some(MIC_SYSTEM_LAYOUT));
    assert_eq!(channel_layout("{\"channel_layout\": 2}"), None);
    assert_eq!(channel_layout("{}"), None);
    assert_eq!(channel_layout("nonsense"), None);
}
