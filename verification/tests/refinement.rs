//! The course of a boundary refinement.
use meetily::boundary_eval::turn_from_text;
use meetily::diarization::SpeakerTurn;
use meetily::refinement::{
    pick_model, Action, LocalModel, QueryCtx, RefineStats, Refinement, MAX_CONSECUTIVE_FAILURES,
};
use meetily::boundary_refine::MAX_QUERIES;
use meetily::segmentation::VoiceRun;

fn model(name: &str, downloaded: bool) -> LocalModel {
    LocalModel { name: name.to_string(), downloaded }
}

fn handover() -> Vec<SpeakerTurn> {
    let left = turn_from_text("What do you call them? Are", 0, 0);
    let right = turn_from_text("they moving along the street?", 1, 2_000_000_000);
    vec![left, right]
}

fn words(turns: &[SpeakerTurn]) -> Vec<String> {
    turns.iter().flat_map(|t| t.words.iter().map(|w| w.text.clone())).collect()
}

#[test]
fn preferred_models_come_first() {
    let all = [model("x", true), model("qwen3.5:4b", true), model("qwen3.5:2b", true)];
    assert_eq!(pick_model(&all), Some(2));
    assert_eq!(pick_model(&all[..2]), Some(1));
    assert_eq!(pick_model(&all[..1]), Some(0));
    assert_eq!(pick_model(&[model("qwen3.5:2b", false), model("y", true)]), Some(1));
    assert_eq!(pick_model(&[model("qwen3.5:2b", false)]), None);
    assert_eq!(pick_model(&[]), None);
}

#[test]
fn queries_run_out() {
    let fresh = QueryCtx { consecutive_failures: 0 };
    let mut stats = RefineStats::default();
    assert!(!fresh.exhausted(&stats, false));
    assert!(fresh.exhausted(&stats, true));
    assert!(QueryCtx { consecutive_failures: MAX_CONSECUTIVE_FAILURES }.exhausted(&stats, false));
    stats.queried = MAX_QUERIES;
    assert!(fresh.exhausted(&stats, false));
}

#[test]
fn nothing_to_refine_is_idle() {
    let (_, action) = Refinement::start(vec![], String::new());
    assert!(matches!(action, Action::Idle | Action::Finished { total: 0 }));
}

#[test]
fn a_reply_moves_the_cut() {
    let before = words(&handover());
    let (mut r, action) = Refinement::start(handover(), String::new());
    assert!(matches!(action, Action::Check));
    match r.checked(false, false) {
        Action::Listen { cut, done, total } => {
            assert_eq!((done, total), (0, 1));
            assert_eq!(cut, Some(1_900_000_000));
        }
        other => panic!("{:?}", other),
    }
    match r.heard(None, false) {
        Action::Ask { prompt } => assert!(prompt.contains("Option 2:\nA: \"What do you call them?\"")),
        other => panic!("{:?}", other),
    }
    assert!(matches!(
        r.replied(Some("{\"cut\": 2}".to_string()), false),
        Action::Finished { total: 1 }
    ));
    let stats = r.stats();
    assert_eq!((stats.boundaries, stats.queried, stats.moved, stats.failures), (1, 1, 1, 0));
    let turns = r.into_turns();
    assert_eq!(turns[0].text.trim(), "What do you call them?");
    assert_eq!(words(&turns), before);
}

#[test]
fn voices_move_the_cut_without_a_question() {
    // A pause of the voices lies between "them?" and "Are".
    let mut turns = handover();
    turns[0].words[5].start_ns += 400_000_000;
    turns[0].words[5].end_ns += 400_000_000;
    turns[1].words.iter_mut().for_each(|w| {
        w.start_ns += 400_000_000;
        w.end_ns += 400_000_000;
    });
    turns[0].rebuild_from_words();
    turns[1].rebuild_from_words();
    let (mut r, _) = Refinement::start(turns, String::new());
    r.checked(false, false);
    let runs = vec![
        VoiceRun { start: 0, end: 1_500_000_000, class: 1 },
        VoiceRun { start: 1_900_000_000, end: 4_000_000_000, class: 2 },
    ];
    assert!(matches!(r.heard(Some(runs), false), Action::Finished { total: 1 }));
    let stats = r.stats();
    assert_eq!((stats.queried, stats.moved, stats.acoustic_moved), (0, 1, 1));
    assert_eq!(r.into_turns()[0].text.trim(), "What do you call them?");
}

#[test]
fn failed_and_useless_replies_leave_the_turns() {
    for reply in [None, Some("no idea".to_string()), Some("{\"cut\": 9}".to_string())] {
        let (mut r, _) = Refinement::start(handover(), String::new());
        r.checked(false, false);
        r.heard(None, false);
        assert!(matches!(r.replied(reply, false), Action::Finished { total: 1 }));
        assert_eq!(r.stats().failures, 1);
        assert_eq!(r.turns()[0].text.trim(), "What do you call them? Are");
    }
}

#[test]
fn cancelled_and_out_of_time() {
    let (mut r, _) = Refinement::start(handover(), String::new());
    assert!(matches!(r.checked(true, false), Action::Finished { total: 1 }));
    let (mut r, _) = Refinement::start(handover(), String::new());
    r.checked(false, true);
    assert!(matches!(r.heard(None, true), Action::Finished { total: 1 }));
    assert_eq!(r.stats().queried, 0);
}

#[test]
fn a_phantom_interjection_is_merged() {
    let turns = || {
        vec![
            turn_from_text("Yeah, you should have", 2, 0),
            turn_from_text("proper people", 1, 1_300_000_000),
            turn_from_text("around you.", 2, 2_000_000_000),
        ]
    };
    let before = words(&turns());
    let (mut r, action) = Refinement::start(turns(), String::new());
    assert!(matches!(action, Action::Check));
    match r.checked(false, false) {
        Action::Ask { prompt } => assert!(prompt.contains("B: \"proper people\"")),
        other => panic!("{:?}", other),
    }
    r.replied(Some("{\"merge\": 1}".to_string()), false);
    assert_eq!((r.stats().sandwiches, r.stats().merged), (1, 1));
    assert_eq!(r.turns().len(), 1);
    assert_eq!(r.turns().len() + 2 * r.stats().merged, turns().len());
    assert_eq!(r.turns()[0].speaker, turns()[0].speaker);
    assert_eq!(words(r.turns()), before);
}
