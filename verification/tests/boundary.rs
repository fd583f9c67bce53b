//! Candidate cuts, questions and answers, and what they do to the turns.
use meetily::boundary_prompt::{build_prompt, build_sandwich_prompt, parse_cut, parse_key};
use meetily::boundary_refine::{
    apply_shift, candidate_shifts, cut_instant_ms, ends_sentence, find_boundaries,
    is_extreme_shift, is_sandwich, is_tight_boundary, merge_sandwich, move_cut, word_ranges,
    words_of, words_text, MAX_OPTIONS, MAX_QUERIES,
};
use meetily::diarization::{SpeakerTurn, WordSpan};

fn ns(ms: f64) -> i64 {
    (ms * 1_000_000.0) as i64
}

fn tok(text: &str, start_ms: f64, end_ms: f64) -> WordSpan {
    WordSpan {
        text: text.to_string(),
        start_ns: ns(start_ms),
        end_ns: ns(end_ms),
        prob_ppb: 1_000_000_000,
    }
}

fn turn(words: Vec<WordSpan>, speaker: usize) -> SpeakerTurn {
    let mut t = SpeakerTurn {
        text: String::new(),
        start_ns: 0,
        end_ns: 0,
        speaker: Some(speaker),
        words,
    };
    t.rebuild_from_words();
    t
}

fn are_boundary() -> (SpeakerTurn, SpeakerTurn) {
    let left = turn(
        vec![
            tok("What", 26800.0, 27000.0),
            tok(" do", 27000.0, 27200.0),
            tok(" you", 27200.0, 27400.0),
            tok(" call", 27400.0, 27700.0),
            tok(" them?", 27700.0, 28600.0),
            tok(" Are", 28900.0, 29200.0),
        ],
        1,
    );
    let right = turn(
        vec![
            tok(" they", 30100.0, 30300.0),
            tok(" moving", 30300.0, 30700.0),
            tok(" along", 30700.0, 31000.0),
            tok(" the", 31000.0, 31100.0),
            tok(" street?", 31100.0, 31800.0),
        ],
        0,
    );
    (left, right)
}

fn strings(words: &[&str]) -> Vec<String> {
    words.iter().map(|w| w.to_string()).collect()
}

fn all_words(turns: &[SpeakerTurn]) -> Vec<String> {
    turns.iter().flat_map(|t| t.words.iter().map(|w| w.text.clone())).collect()
}

#[test]
fn cut_instants_track_word_gaps() {
    let (left, right) = are_boundary();
    assert_eq!(cut_instant_ms(&left, &right, 0), Some(ns(29650.0)));
    assert_eq!(cut_instant_ms(&left, &right, -1), Some(ns(28750.0)));
    assert_eq!(cut_instant_ms(&left, &right, 1), Some(ns(30300.0)));
    assert_eq!(cut_instant_ms(&left, &right, -6), None);
    assert_eq!(cut_instant_ms(&left, &right, 5), None);
}

#[test]
fn word_ranges_group_multi_token_words() {
    let t = turn(
        vec![tok("hel", 0.0, 100.0), tok("lo", 100.0, 200.0), tok(" world", 200.0, 400.0)],
        0,
    );
    assert_eq!(word_ranges(&t), vec![(0, 2), (2, 3)]);
}

#[test]
fn tight_boundary_detected_and_loose_ignored() {
    let (left, right) = are_boundary();
    assert!(is_tight_boundary(&left, &right).is_some());

    let mut far_right = right.clone();
    for w in far_right.words.iter_mut() {
        w.start_ns += ns(2000.0);
        w.end_ns += ns(2000.0);
    }
    far_right.rebuild_from_words();
    assert!(is_tight_boundary(&left, &far_right).is_none());
}

#[test]
fn same_speaker_boundary_not_queried() {
    let (left, mut right) = are_boundary();
    right.speaker = left.speaker;
    assert!(is_tight_boundary(&left, &right).is_none());
}

fn plain_words(n: usize) -> Vec<String> {
    (0..n).map(|k| format!("w{}", k)).collect()
}

#[test]
fn candidate_shifts_respect_one_word_minimum() {
    assert_eq!(candidate_shifts(&plain_words(6), &plain_words(5)), vec![-2, -1, 0, 1, 2]);
    assert_eq!(candidate_shifts(&plain_words(1), &plain_words(5)), vec![0, 1, 2]);
    assert_eq!(candidate_shifts(&plain_words(2), &plain_words(1)), vec![-1, 0]);
    assert_eq!(candidate_shifts(&plain_words(1), &plain_words(1)), vec![0]);
}

#[test]
fn punctuation_cut_candidates_reach_past_the_local_window() {
    let l_words = strings(&["You", "think", "your", "hangovers", "are"]);
    let r_words = strings(&[
        "worse", "now", "than", "when", "you", "were", "younger?", "Like,", "the", "main",
        "problem", "is,",
    ]);
    let shifts = candidate_shifts(&l_words, &r_words);
    assert!(shifts.contains(&7), "punct candidate after 'younger?' missing: {:?}", shifts);
    assert!(shifts.len() <= MAX_OPTIONS);
    assert_eq!(shifts.iter().copied().min(), Some(-2));
}

#[test]
fn hangovers_prompt_offers_the_full_question_option() {
    let left = turn(
        vec![
            tok("You", 121000.0, 121200.0),
            tok(" think", 121200.0, 121500.0),
            tok(" your", 121500.0, 121700.0),
            tok(" hangovers", 121700.0, 122300.0),
            tok(" are", 122300.0, 122500.0),
        ],
        1,
    );
    let right = turn(
        vec![
            tok(" worse", 123000.0, 123300.0),
            tok(" now", 123300.0, 123500.0),
            tok(" than", 123500.0, 123700.0),
            tok(" when", 123700.0, 123900.0),
            tok(" you", 123900.0, 124000.0),
            tok(" were", 124000.0, 124200.0),
            tok(" younger?", 124200.0, 124800.0),
            tok(" Like,", 125200.0, 125500.0),
            tok(" the", 125500.0, 125600.0),
            tok(" main", 125600.0, 125900.0),
            tok(" problem", 125900.0, 126400.0),
        ],
        2,
    );
    let (prompt, shifts) = build_prompt(&left, &right, "").expect("prompt");
    let full_q = shifts.iter().position(|&s| s == 7).expect("shift 7 offered") + 1;
    assert!(
        prompt.contains(&format!(
            "Option {}:\nA: \"You think your hangovers are worse now than when you were younger?\"\nB: \"Like, the main problem\"",
            full_q
        )),
        "prompt:\n{}",
        prompt
    );
}

#[test]
fn five_word_response_phrase_is_not_a_sandwich() {
    let mut t = sandwich_turns();
    t[1] = turn(
        vec![
            tok(" Yeah,", 1600.0, 1700.0),
            tok(" you're", 1700.0, 1800.0),
            tok(" right,", 1800.0, 2000.0),
            tok(" but", 2000.0, 2100.0),
            tok(" you", 2100.0, 2300.0),
        ],
        1,
    );
    assert!(!is_sandwich(&t[0], &t[1], &t[2]));
}

#[test]
fn prompt_lists_options_and_shift_map_matches() {
    let (left, right) = are_boundary();
    let (prompt, shifts) = build_prompt(&left, &right, "").expect("prompt");
    assert_eq!(shifts, vec![-2, -1, 0, 1, 2]);
    assert!(
        prompt.contains("Option 2:\nA: \"What do you call them?\"\nB: \"Are they moving along the street?\""),
        "prompt:\n{}",
        prompt
    );
    assert!(prompt.contains(
        "Option 3:\nA: \"What do you call them? Are\"\nB: \"they moving along the street?\""
    ));
}

#[test]
fn parse_cut_handles_json_and_noise() {
    assert_eq!(parse_cut("{\"cut\": 2}"), Some(2));
    assert_eq!(parse_cut(" {\"cut\":10} "), Some(10));
    assert_eq!(parse_cut("The cut is 3."), Some(3));
    assert_eq!(parse_cut("no answer"), None);
    assert_eq!(parse_cut("{\"cut\": }"), None);
}

#[test]
fn apply_negative_shift_moves_trailing_word_right() {
    let (mut left, mut right) = are_boundary();
    apply_shift(&mut left, &mut right, -1);
    assert_eq!(left.text.trim(), "What do you call them?");
    assert_eq!(right.text.trim(), "Are they moving along the street?");
    assert_eq!(left.end_ns, ns(28600.0));
    assert_eq!(right.start_ns, ns(28900.0));
}

#[test]
fn apply_positive_shift_moves_leading_word_left() {
    let (mut left, mut right) = are_boundary();
    apply_shift(&mut left, &mut right, 1);
    assert_eq!(left.text.trim(), "What do you call them? Are they");
    assert_eq!(right.text.trim(), "moving along the street?");
    assert_eq!(left.end_ns, ns(30300.0));
    assert_eq!(right.start_ns, ns(30300.0));
}

fn sandwich_turns() -> Vec<SpeakerTurn> {
    vec![
        turn(
            vec![
                tok("Yeah,", 0.0, 300.0),
                tok(" you're", 300.0, 500.0),
                tok(" right,", 500.0, 800.0),
                tok(" but", 800.0, 900.0),
                tok(" you", 900.0, 1000.0),
                tok(" should", 1000.0, 1300.0),
                tok(" have", 1300.0, 1500.0),
            ],
            2,
        ),
        turn(vec![tok(" proper", 1600.0, 1900.0), tok(" people", 1900.0, 2300.0)], 1),
        turn(
            vec![
                tok(" around", 2400.0, 2700.0),
                tok(" you.", 2700.0, 3000.0),
                tok(" I", 3100.0, 3200.0),
                tok(" find", 3200.0, 3500.0),
            ],
            2,
        ),
    ]
}

#[test]
fn sandwich_detected_only_between_same_speaker_neighbors() {
    let t = sandwich_turns();
    assert!(is_sandwich(&t[0], &t[1], &t[2]));

    let mut different = t.clone();
    different[2].speaker = Some(0);
    assert!(!is_sandwich(&different[0], &different[1], &different[2]));

    let mut long_mid = t.clone();
    long_mid[1] = turn(
        (0..6)
            .map(|k| {
                tok(&format!(" w{}", k), 1600.0 + k as f64 * 100.0, 1700.0 + k as f64 * 100.0)
            })
            .collect(),
        1,
    );
    assert!(!is_sandwich(&long_mid[0], &long_mid[1], &long_mid[2]));
}

#[test]
fn sandwich_prompt_shows_three_lines() {
    let t = sandwich_turns();
    let prompt = build_sandwich_prompt(&t[0], &t[1], &t[2]);
    assert!(prompt.contains("A: \"Yeah, you're right, but you should have\""));
    assert!(prompt.contains("B: \"proper people\""));
    assert!(prompt.contains("A: \"around you. I find\""));
    assert!(prompt.contains("{\"merge\": 1}"));
}

#[test]
fn merge_sandwich_folds_three_turns_into_one() {
    let mut t = sandwich_turns();
    merge_sandwich(&mut t, 1);
    assert_eq!(t.len(), 1);
    assert_eq!(
        t[0].text.trim(),
        "Yeah, you're right, but you should have proper people around you. I find"
    );
    assert_eq!(t[0].speaker, Some(2));
    assert_eq!(t[0].end_ns, ns(3500.0));
}

#[test]
fn parse_key_reads_merge_replies() {
    assert_eq!(parse_key("{\"merge\": 1}", "merge"), Some(1));
    assert_eq!(parse_key("{\"merge\":0}", "merge"), Some(0));
    assert_eq!(parse_key("nothing here", "merge"), None);
}

#[test]
fn extreme_shift_is_only_the_local_window_edge() {
    let shifts = vec![-2, -1, 0, 1, 2];
    assert!(is_extreme_shift(-2, &shifts));
    assert!(is_extreme_shift(2, &shifts));
    assert!(!is_extreme_shift(-1, &shifts));
    assert!(!is_extreme_shift(1, &shifts));
    assert!(!is_extreme_shift(0, &shifts));
    assert!(!is_extreme_shift(0, &[0, 1, 2]));
    assert!(is_extreme_shift(2, &[0, 1, 2]));
    let with_punct = vec![-2, -1, 0, 1, 2, 7];
    assert!(!is_extreme_shift(7, &with_punct));
    assert!(!is_extreme_shift(2, &with_punct));
    assert!(is_extreme_shift(-2, &with_punct));
}

#[test]
fn no_far_candidates_when_cut_already_at_sentence_end() {
    let l_words = strings(&["like", "these", "platforms."]);
    let r_words = strings(&["What", "do", "you", "call", "them?", "Are", "they", "moving"]);
    let shifts = candidate_shifts(&l_words, &r_words);
    assert_eq!(shifts, vec![-2, -1, 0, 1, 2]);
}

#[test]
fn fragment_ending_does_not_earn_trust() {
    let l_words = strings(&["been", "to", "the", "Odyssey?", "Sorry?"]);
    let r_words = strings(&[
        "Sorry.", "You", "go,", "George.", "Oh,", "yeah,", "okay.", "Actually,", "I'm", "kind",
        "of", "missing",
    ]);
    let shifts = candidate_shifts(&l_words, &r_words);
    assert!(shifts.contains(&4), "cut after 'George.' must be offered: {:?}", shifts);
}

#[test]
fn prompt_marks_the_current_split_option() {
    let (left, right) = are_boundary();
    let (prompt, shifts) = build_prompt(&left, &right, "").expect("prompt");
    let current = shifts.iter().position(|&s| s == 0).unwrap() + 1;
    assert!(prompt.contains(&format!("Option {} is the current split", current)));
}

#[test]
fn apply_shift_never_splits_multi_token_words() {
    let mut left = turn(
        vec![tok("okay", 0.0, 300.0), tok(" hel", 300.0, 400.0), tok("lo", 400.0, 600.0)],
        0,
    );
    let mut right = turn(vec![tok(" next", 700.0, 900.0)], 1);
    apply_shift(&mut left, &mut right, -1);
    assert_eq!(left.text.trim(), "okay");
    assert_eq!(right.text.trim(), "hello next");
}

#[test]
fn prompt_wordings_differ_only_in_the_note() {
    let (left, right) = are_boundary();
    let (plain, _) = build_prompt(&left, &right, "").unwrap();
    let (blind, _) = build_prompt(&left, &right, "blind").unwrap();
    let (neutral, _) = build_prompt(&left, &right, "neutral").unwrap();
    let (clause, _) = build_prompt(&left, &right, "clause").unwrap();
    assert!(!blind.contains("current split"));
    assert!(neutral.contains("Option 3 is the current split, based on voice analysis.\n"));
    assert!(plain.contains("Prefer it unless it breaks a sentence mid-thought"));
    assert!(!plain.contains("clearly finish A's sentence"));
    assert!(clause.contains("clearly finish A's sentence"));
    for p in [&plain, &blind, &neutral, &clause] {
        assert!(p.ends_with("Reply with only JSON like {\"cut\": 1} choosing the best option (1-5)."));
    }
}

#[test]
fn no_prompt_without_a_choice() {
    let left = turn(vec![tok("Yes.", 0.0, 100.0)], 0);
    let right = turn(vec![tok(" No.", 200.0, 300.0)], 1);
    assert!(build_prompt(&left, &right, "").is_none());
}

#[test]
fn sentence_ends_look_through_quotes() {
    assert!(ends_sentence("done.\""));
    assert!(ends_sentence("what?)"));
    assert!(ends_sentence("so…"));
    assert!(!ends_sentence("and,"));
    assert!(!ends_sentence(""));
    assert!(!ends_sentence("\"'"));
}

#[test]
fn words_are_trimmed_texts_of_their_ranges() {
    let (left, _) = are_boundary();
    let ranges = word_ranges(&left);
    assert_eq!(words_text(&left, &ranges), words_of(&left));
    assert_eq!(words_of(&left), strings(&["What", "do", "you", "call", "them?", "Are"]));
}

#[test]
fn every_offered_cut_keeps_the_words_and_both_sides() {
    let (left, right) = are_boundary();
    let before = all_words(&[left.clone(), right.clone()]);
    for shift in candidate_shifts(&words_of(&left), &words_of(&right)) {
        let mut turns = vec![left.clone(), right.clone()];
        move_cut(&mut turns, 0, shift);
        assert_eq!(all_words(&turns), before);
        assert!(!turns[0].words.is_empty() && !turns[1].words.is_empty());
        assert_eq!(turns[0].speaker, Some(1));
        assert_eq!(turns[1].speaker, Some(0));
    }
}

#[test]
fn folding_keeps_the_words() {
    let mut t = sandwich_turns();
    let before = all_words(&t);
    merge_sandwich(&mut t, 1);
    assert_eq!(all_words(&t), before);
}

#[test]
fn boundaries_are_the_tightest_in_order() {
    let turns: Vec<SpeakerTurn> = (0..40usize)
        .map(|k| {
            let at = k as f64 * 1000.0;
            turn(vec![tok(" word", at, at + 900.0 - k as f64)], k % 2)
        })
        .collect();
    let found = find_boundaries(&turns);
    assert_eq!(found.len(), MAX_QUERIES);
    let places: Vec<usize> = found.iter().map(|b| b.left_idx).collect();
    assert_eq!(places, (0..MAX_QUERIES).collect::<Vec<usize>>());
    assert_eq!(found[0].gap_ns, ns(100.0));
    assert_eq!(found[3].gap_ns, ns(103.0));
}

#[test]
fn overlapping_handover_has_no_gap() {
    let left = turn(vec![tok("a", 0.0, 500.0)], 0);
    let right = turn(vec![tok(" b", 300.0, 900.0)], 1);
    assert_eq!(is_tight_boundary(&left, &right), Some(0));
    let none = turn(vec![], 1);
    assert_eq!(is_tight_boundary(&left, &none), None);
}
