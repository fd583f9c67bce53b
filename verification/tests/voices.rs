//! Named voices and the speakers of a meeting.
use std::collections::HashMap;

use meetily::diarization::LOCAL_SPEAKER;
use meetily::speakers_overview::{speakers_overview, voices_list};
use meetily::voiceprints::{
    can_remember, candidates, check_rename, clear_name, current_display, display_name, find_voice,
    local_display_name, local_name_set, meeting_name_map, merge_weights, rank, recognize,
    recognize_meeting, set_name, speaker_rename, strength_word, upsert_voice, upsert_voice_at,
    voice_delete,
    ClusterCentroid, MeetingSpeakers, Recognition, Remember, Suggestion, VoiceLibrary,
};

fn unit(dim: usize, hot: usize) -> Vec<f32> {
    let mut v = vec![0.0; dim];
    v[hot] = 1.0;
    v
}

fn bits(v: &[f32]) -> Vec<u32> {
    v.iter().map(|x| x.to_bits()).collect()
}

fn secs(s: f64) -> i64 {
    (s * 1e9) as i64
}

fn cent(cluster: usize, clean_secs: f64, emb: Vec<f32>) -> ClusterCentroid {
    ClusterCentroid { cluster, clean_ns: secs(clean_secs), embedding: bits(&emb) }
}

fn averaged(lib: &VoiceLibrary, name: &str, model: &str, c: &ClusterCentroid) -> Option<Vec<u32>> {
    let v = &lib.voices[find_voice(lib, name, model)?];
    let (wo, wn) = merge_weights(v.clean_ns, c.clean_ns);
    let sum: Vec<f32> = v
        .embedding
        .iter()
        .zip(&c.embedding)
        .map(|(a, b)| f32::from_bits(*a) * wo as f32 + f32::from_bits(*b) * wn as f32)
        .collect();
    let norm = sum.iter().map(|x| x * x).sum::<f32>().sqrt();
    Some(sum.iter().map(|x| (x / norm).to_bits()).collect())
}

fn library() -> VoiceLibrary {
    let mut lib = VoiceLibrary::default();
    upsert_voice_at(&mut lib, "Misha", "campplus", &cent(0, 100.0, unit(4, 0)), None, "t1".to_string());
    upsert_voice_at(&mut lib, "Anton", "campplus", &cent(1, 50.0, unit(4, 1)), None, "t2".to_string());
    upsert_voice_at(&mut lib, "Misha", "eres2net", &cent(0, 20.0, unit(4, 2)), None, "t3".to_string());
    lib
}

#[test]
fn upsert_creates_then_averages() {
    let mut lib = VoiceLibrary::default();
    upsert_voice(&mut lib, "Misha", "campplus", &cent(0, 100.0, unit(4, 0)), None);
    assert_eq!(lib.voices.len(), 1);
    assert_eq!(lib.voices[0].meetings, 1);

    let second = cent(1, 100.0, unit(4, 1));
    let merged = averaged(&lib, "misha", "campplus", &second);
    upsert_voice(&mut lib, "misha", "campplus", &second, merged);
    assert_eq!(lib.voices.len(), 1, "case-insensitive same person");
    let v = &lib.voices[0];
    assert_eq!(v.meetings, 2);
    let norm: f32 =
        v.embedding.iter().map(|x| f32::from_bits(*x)).map(|x| x * x).sum::<f32>().sqrt();
    assert!((norm - 1.0).abs() < 1e-5);

    upsert_voice(&mut lib, "Misha", "eres2net", &cent(0, 50.0, unit(4, 2)), None);
    assert_eq!(lib.voices.len(), 2);
}

#[test]
fn name_map_prefers_confirmed_over_auto() {
    let ms = MeetingSpeakers {
        model: "campplus".into(),
        centroids: vec![],
        names: HashMap::from([(0, "Misha".to_string())]),
        auto: HashMap::from([(0, "Wrong".to_string()), (1, "Anton".to_string())]),
        suggestions: HashMap::new(),
    };
    let map = meeting_name_map(&ms);
    assert_eq!(map.get(&0).unwrap(), "Misha");
    assert_eq!(map.get(&1).unwrap(), "Anton");
    assert_eq!(display_name(2, &map), "Speaker 3");
    assert_eq!(display_name(LOCAL_SPEAKER, &map), "You");
}

#[test]
fn the_clock_stamps_a_new_print() {
    let mut lib = VoiceLibrary::default();
    upsert_voice(&mut lib, "Misha", "campplus", &cent(0, 10.0, unit(2, 0)), None);
    let stamp = lib.voices[0].updated_at.clone();
    assert!(stamp.contains('T') && stamp.ends_with("+00:00"), "{}", stamp);
}

#[test]
fn a_refreshed_print_keeps_its_name_and_adds_up() {
    let mut lib = library();
    upsert_voice_at(&mut lib, "MISHA", "campplus", &cent(3, 7.0, unit(4, 3)), None, "t9".to_string());
    assert_eq!(lib.voices.len(), 3);
    let v = &lib.voices[0];
    assert_eq!((v.name.as_str(), v.clean_ns, v.meetings), ("Misha", secs(107.0), 2));
    assert_eq!(v.updated_at, "t9");
    assert_eq!(v.embedding, bits(&unit(4, 0)));
    assert_eq!(merge_weights(secs(1000.0), secs(7.0)), (secs(300.0), secs(7.0)));
    assert_eq!(merge_weights(secs(10.0), secs(7.0)), (secs(10.0), secs(7.0)));
}

#[test]
fn recognition_needs_strength_margin_and_speech() {
    let s = |x: f64| (x * 1e9) as i64;
    assert_eq!(recognize(secs(20.0), &[s(0.2), s(0.8)]), Recognition::Certain(1));
    assert_eq!(recognize(secs(20.0), &[s(0.75), s(0.8)]), Recognition::Possible(1));
    assert_eq!(recognize(secs(20.0), &[s(0.7)]), Recognition::Possible(0));
    assert_eq!(recognize(secs(20.0), &[s(0.75)]), Recognition::Certain(0));
    assert_eq!(recognize(secs(20.0), &[s(0.5)]), Recognition::Nobody);
    assert_eq!(recognize(secs(9.9), &[s(0.9)]), Recognition::Nobody);
    assert_eq!(recognize(secs(20.0), &[]), Recognition::Nobody);
    assert_eq!(rank(&[3, 9, 3, 5]), vec![1, 3, 0, 2]);
}

#[test]
fn a_meeting_gets_remembered_names_back() {
    let lib = library();
    assert_eq!(candidates(&lib, "campplus"), vec![0, 1]);
    let centroids = vec![cent(0, 30.0, unit(4, 0)), cent(4, 30.0, unit(4, 1)), cent(5, 1.0, unit(4, 2))];
    let scores = vec![
        vec![950_000_000, 100_000_000],
        vec![650_000_000, 640_000_000],
        vec![990_000_000, 0],
    ];
    let ms = recognize_meeting(&lib, "campplus", centroids, &scores);
    assert_eq!(ms.auto.get(&0).map(String::as_str), Some("Misha"));
    assert_eq!(ms.auto.len(), 1);
    assert_eq!(ms.suggestions.len(), 1);
    assert_eq!(ms.suggestions[&4].name, "Misha");
    assert_eq!(ms.suggestions[&4].similarity, 650_000_000);
    assert!(ms.names.is_empty());
}

#[test]
fn names_are_set_and_cleared() {
    let lib = library();
    let scores = vec![vec![950_000_000, 100_000_000]];
    let mut ms = recognize_meeting(&lib, "campplus", vec![cent(0, 30.0, unit(4, 0))], &scores);
    assert_eq!(current_display(&ms, 0), "Misha");
    assert_eq!(current_display(&ms, 1), "Speaker 2");
    set_name(&mut ms, 0, "Boris".to_string());
    assert_eq!(current_display(&ms, 0), "Boris");
    assert!(ms.auto.is_empty());
    assert_eq!(clear_name(&mut ms, 0), Some("Boris".to_string()));
    assert_eq!(current_display(&ms, 0), "Speaker 1");
    assert_eq!(clear_name(&mut ms, 0), None);
}

#[test]
fn renames_are_checked() {
    assert_eq!(check_rename("  Boris ", 1), Ok("Boris".to_string()));
    assert_eq!(check_rename("  ", 1), Err("name is empty".to_string()));
    assert_eq!(
        check_rename("Boris", LOCAL_SPEAKER),
        Err("the local speaker is identified by the mic channel".to_string())
    );
}

#[test]
fn a_rename_replaces_what_the_rows_show() {
    let lib = library();
    let scores = vec![vec![950_000_000, 100_000_000]];
    let mut ms = recognize_meeting(&lib, "campplus", vec![cent(0, 30.0, unit(4, 0))], &scores);
    let refused = speaker_rename(&mut ms, 0, " ", true).unwrap_err();
    assert_eq!(refused, "name is empty");
    assert_eq!(current_display(&ms, 0), "Misha");
    let done = speaker_rename(&mut ms, 0, " Boris ", true).unwrap();
    assert_eq!((done.was.as_str(), done.name.as_str()), ("Misha", "Boris"));
    assert_eq!(done.remember, Some(Remember::Save(0)));
    assert_eq!(current_display(&ms, 0), "Boris");
    assert!(ms.auto.is_empty());
    let done = speaker_rename(&mut ms, 4, "Eva", false).unwrap();
    assert_eq!(done.was, "Speaker 5");
    assert_eq!(done.remember, None);
}

#[test]
fn voices_are_deleted_by_person_and_model() {
    let mut lib = library();
    assert_eq!(voice_delete(&mut lib, "misha", "campplus"), Ok(()));
    assert_eq!(lib.voices.len(), 2);
    assert_eq!(lib.voices[1].model, "eres2net");
    assert_eq!(voice_delete(&mut lib, "misha", "campplus"), Err("no such voice".to_string()));
}

#[test]
fn long_enough_voices_can_be_remembered() {
    let mut ms = MeetingSpeakers::default();
    ms.centroids = vec![cent(2, 9.0, unit(2, 0)), cent(3, 10.0, unit(2, 1))];
    assert_eq!(can_remember(&ms, 1), Remember::NoCentroid);
    assert_eq!(can_remember(&ms, 2), Remember::TooShort);
    assert_eq!(can_remember(&ms, 3), Remember::Save(1));
}

#[test]
fn strength_in_words() {
    assert_eq!(strength_word(750_000_000), "strong");
    assert_eq!(strength_word(749_999_999), "possible");
    assert_eq!(strength_word(600_000_000), "possible");
    assert_eq!(strength_word(599_999_999), "weak");
}

#[test]
fn the_local_name() {
    let mut lib = VoiceLibrary::default();
    local_name_set(&mut lib, "  Rita ");
    assert_eq!(local_display_name(&lib), Some("Rita".to_string()));
    local_name_set(&mut lib, "You");
    assert_eq!(local_display_name(&lib), None);
    local_name_set(&mut lib, " ");
    assert_eq!(local_display_name(&lib), None);
}

#[test]
fn the_overview_lists_clusters_and_voices_in_order() {
    let lib = library();
    let mut ms = MeetingSpeakers::default();
    ms.model = "campplus".to_string();
    ms.centroids = vec![cent(1, 30.0, unit(4, 1)), cent(0, 30.0, unit(4, 0))];
    ms.names.insert(0, "Boris".to_string());
    ms.auto.insert(1, "Anton".to_string());
    ms.suggestions.insert(1, Suggestion { name: "Misha".to_string(), similarity: 610_000_000 });
    let scores = vec![vec![200_000_000, 800_000_000], vec![900_000_000, 650_000_000]];
    let o = speakers_overview(&ms, &lib, &scores);
    assert_eq!(o.known_voices, vec!["Anton", "Misha"]);
    assert_eq!(o.clusters.len(), 2);
    let (a, b) = (&o.clusters[0], &o.clusters[1]);
    assert_eq!((a.cluster, a.label.as_str(), a.display.as_str(), a.source.as_str()), (0, "Speaker 1", "Boris", "manual"));
    assert_eq!((b.cluster, b.display.as_str(), b.source.as_str()), (1, "Anton", "auto"));
    assert!(a.suggestion.is_none());
    assert_eq!(b.suggestion.as_ref().unwrap().name, "Misha");
    let names: Vec<(&str, &str)> =
        b.candidates.iter().map(|c| (c.name.as_str(), c.strength.as_str())).collect();
    assert_eq!(names, vec![("Anton", "strong"), ("Misha", "weak")]);
    let list = voices_list(&lib);
    assert_eq!(list.len(), 3);
    assert_eq!((list[2].name.as_str(), list[2].model.as_str(), list[2].meetings), ("Misha", "eres2net", 1));
}
