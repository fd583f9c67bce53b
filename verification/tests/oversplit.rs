//! Repair of over-split speaker clusters.
use meetily::diarization::HelperSegment;
use meetily::oversplit::{
    chunk_progress, clean_spans, clean_speech, default_num_threads, major_clusters, renumber,
    span_samples, votes, FoldStats, Merge, Oversplit,
};

fn ns(secs: f64) -> i64 {
    (secs * 1e9).round() as i64
}

fn seg(start: f64, end: f64, speaker: i32) -> HelperSegment {
    HelperSegment { start: ns(start), end: ns(end), speaker }
}

#[test]
fn clean_spans_are_long_and_alone() {
    let segs = vec![
        seg(0.0, 3.0, 0),
        seg(2.5, 3.2, 1),
        seg(4.0, 6.0, 0),
        seg(7.0, 8.0, 1),
        seg(30.0, 33.0, 1),
    ];
    assert_eq!(clean_spans(&segs), vec![false, false, true, false, true]);
}

#[test]
fn long_spans_are_cropped_around_their_middle() {
    assert_eq!(span_samples(ns(1.0), ns(3.0), 16_000, 1_000_000), (16_000, 48_000));
    assert_eq!(span_samples(ns(0.0), ns(20.0), 16_000, 1_000_000), (64_000, 256_000));
    assert_eq!(span_samples(ns(1.0), ns(3.0), 16_000, 20_000), (16_000, 20_000));
    assert_eq!(span_samples(ns(-1.0), ns(1.0), 16_000, 20_000), (0, 16_000));
}

#[test]
fn majors_have_enough_clean_speech() {
    let segs = vec![seg(0.0, 6.0, 7), seg(7.0, 12.0, 7), seg(13.0, 22.0, 2), seg(23.0, 40.0, 1)];
    assert_eq!(clean_speech(&segs, &[true, true, true, true], 7), ns(11.0) as i128);
    assert_eq!(clean_speech(&segs, &[true, false, true, true], 7), ns(6.0) as i128);
    assert_eq!(major_clusters(&segs, &[true; 4], &[true; 4]), vec![1, 7]);
    assert_eq!(major_clusters(&segs, &[true; 4], &[true, true, true, false]), vec![7]);
    assert_eq!(major_clusters(&segs, &[false; 4], &[true; 4]), Vec::<i32>::new());
}

#[test]
fn close_majors_merge_and_debris_folds() {
    let segs = vec![
        seg(0.0, 20.0, 0),
        seg(20.5, 40.0, 3),
        seg(41.0, 60.0, 5),
        seg(60.2, 60.4, 8),
        seg(61.0, 62.0, 9),
    ];
    let mut o = Oversplit::begin(&segs, &[true, true, true, false, false], &[true; 5]).unwrap();
    assert_eq!(o.majors(), &vec![0, 3, 5]);
    let sims = vec![vec![0, 950, 100], vec![950, 0, 200], vec![100, 200, 0]];
    assert_eq!(
        o.step(&sims, 800),
        Some(Merge {
            keep: 0,
            gone: 3,
            keep_weight: ns(20.0) as i128,
            gone_weight: ns(19.5) as i128,
        })
    );
    assert_eq!(o.majors(), &vec![0, 5]);
    assert_eq!((o.target(3), o.target(5), o.target(8)), (0, 5, 8));
    let sims = vec![vec![0, 150], vec![150, 0]];
    assert_eq!(o.step(&sims, 800), None);
    assert_eq!(o.debris(&segs), vec![false, false, false, true, true]);
    let voices = vec![None, None, None, None, Some(vec![700_000_000, 100_000_000])];
    let (folded, stats) = o.fold(&segs, &voices);
    let speakers: Vec<i32> = folded.iter().map(|s| s.speaker).collect();
    assert_eq!(speakers, vec![0, 0, 5, 5, 0]);
    assert_eq!(stats, FoldStats { by_voice: 1, by_time: 1 });
    let (out, n) = renumber(&folded);
    assert_eq!(n, 2);
    assert_eq!(out.iter().map(|s| s.speaker).collect::<Vec<i32>>(), vec![0, 0, 1, 1, 0]);
    assert_eq!(out[3].start, segs[3].start);
}

#[test]
fn nothing_to_repair() {
    let one = [seg(0.0, 60.0, 0)];
    assert!(Oversplit::begin(&one, &[true], &[true]).is_none());
    let short = [seg(0.0, 4.0, 0), seg(5.0, 9.0, 1)];
    assert!(Oversplit::begin(&short, &[true; 2], &[true; 2]).is_none());
    let long = [seg(0.0, 40.0, 0), seg(50.0, 90.0, 1)];
    assert!(Oversplit::begin(&long, &[false; 2], &[true; 2]).is_none());
    assert!(Oversplit::begin(&long, &[true; 2], &[false; 2]).is_none());
    let o = Oversplit::begin(&long, &[true; 2], &[false, true]).unwrap();
    assert_eq!(o.majors(), &vec![1]);
}

#[test]
fn weak_voices_fold_by_time() {
    let segs = vec![seg(0.0, 20.0, 0), seg(30.0, 50.0, 1), seg(52.0, 53.0, 4)];
    let o = Oversplit::begin(&segs, &[true, true, false], &[true; 3]).unwrap();
    let voices = vec![None, None, Some(vec![599_999_999, 0])];
    let (folded, stats) = o.fold(&segs, &voices);
    assert_eq!(folded[2].speaker, 1);
    assert_eq!(stats, FoldStats { by_voice: 0, by_time: 1 });
}

#[test]
fn speakers_are_numbered_by_appearance() {
    let (out, n) = renumber(&[seg(0.0, 1.0, 9), seg(1.0, 2.0, 4), seg(2.0, 3.0, 9)]);
    assert_eq!(n, 2);
    assert_eq!(out.iter().map(|s| s.speaker).collect::<Vec<i32>>(), vec![0, 1, 0]);
    assert_eq!(renumber(&[]).1, 0);
}

#[test]
fn progress_only_grows() {
    assert_eq!(chunk_progress(1, 4, -1), Some(25));
    assert_eq!(chunk_progress(1, 4, 25), None);
    assert_eq!(chunk_progress(0, 4, -1), Some(0));
    assert_eq!(chunk_progress(9, 4, 25), Some(100));
    assert_eq!(chunk_progress(-3, 4, -1), Some(0));
    assert_eq!(chunk_progress(1, 0, -1), None);
}

#[test]
fn threads_are_bounded() {
    assert_eq!(default_num_threads(Some(4), 8), 4);
    assert_eq!(default_num_threads(Some(0), 8), 1);
    assert_eq!(default_num_threads(Some(12), 8), 8);
    assert_eq!(default_num_threads(None, 8), 4);
    assert_eq!(default_num_threads(None, 1), 1);
    assert_eq!(default_num_threads(None, 64), 4);
}

#[test]
fn a_span_inside_a_long_earlier_one_is_not_clean() {
    let segs = vec![seg(0.0, 100.0, 0), seg(1.0, 2.0, 1), seg(50.0, 60.0, 1)];
    assert_eq!(clean_spans(&segs), vec![false, false, false]);
}

#[test]
fn only_clean_spans_vote() {
    let segs = vec![seg(0.0, 20.0, 0), seg(19.0, 40.0, 1), seg(41.0, 60.0, 1), seg(61.0, 75.0, 2)];
    assert_eq!(votes(&segs, &[true; 4]), vec![false, false, true, true]);
    assert_eq!(votes(&segs, &[true, true, true, false]), vec![false, false, true, false]);
    let o = Oversplit::begin(&segs, &[true; 4], &[true; 4]).unwrap();
    assert_eq!(o.majors(), &vec![1, 2]);
}
