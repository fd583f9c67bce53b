//! What a user sees of a meeting's speakers and of the voice library.
use vstd::prelude::*;
use crate::diarization;
use crate::diarization::speaker_label;
use crate::text;
use crate::text::insert_in_order;
use crate::timeline::Nanos;
use crate::voiceprints;
use crate::voiceprints::{
    ClusterCentroid, MAX_CANDIDATES, MeetingSpeakers, Suggestion, VoiceLibrary, Voiceprint,
    candidates, rank, strength_word,
};

verus! {

broadcast use vstd::std_specs::hash::group_hash_axioms;

/// A library voice that is like a cluster's.
#[derive(Debug)]
pub struct CandidateMatch {
    pub name: String,
    /// "strong", "possible" or "weak".
    pub strength: String,
}

/// One cluster of a meeting.
#[derive(Debug)]
pub struct ClusterOverview {
    pub cluster: usize,
    /// The generated label.
    pub label: String,
    /// What is shown: the confirmed name, the applied name, or the label.
    pub display: String,
    /// "manual", "auto" or "none".
    pub source: String,
    pub suggestion: Option<Suggestion>,
    /// Library voices from the most similar one on.
    pub candidates: Vec<CandidateMatch>,
}

/// All clusters of a meeting, and the names in the library.
#[derive(Debug)]
pub struct SpeakersOverview {
    pub clusters: Vec<ClusterOverview>,
    pub known_voices: Vec<String>,
}

/// Where a cluster's name comes from.
pub open spec fn source_of(ms: MeetingSpeakers, cluster: usize) -> Seq<char> {
    if ms.names@.contains_key(cluster) {
        "manual"@
    } else if ms.auto@.contains_key(cluster) {
        "auto"@
    } else {
        "none"@
    }
}

/// How strong a match of this similarity is called.
pub open spec fn strength(similarity: i64) -> Seq<char> {
    if similarity >= voiceprints::MATCH_STRONG {
        "strong"@
    } else if similarity >= voiceprints::MATCH_SUGGEST {
        "possible"@
    } else {
        "weak"@
    }
}

/// The lesser of two numbers.
pub open spec fn lesser(a: nat, b: nat) -> nat {
    if a <= b {
        a
    } else {
        b
    }
}

/// The most similar voices of the meeting's model, at most as many as shown.
pub open spec fn best_matches(
    voices: Seq<Voiceprint>,
    model: Seq<char>,
    scores: Seq<i64>,
    list: Seq<CandidateMatch>,
) -> bool {
    &&& list.len() == lesser(scores.len(), MAX_CANDIDATES as nat)
    &&& forall|k: int|
        0 <= k < list.len() ==> {
            let at = voiceprints::ranked(scores)[k];
            &&& (#[trigger] list[k]).name@ == voiceprints::candidate_name(voices, model, at)
            &&& list[k].strength@ == strength(scores[at as int])
        }
}

/// The entry of a cluster.
pub open spec fn describes(
    x: ClusterOverview,
    ms: MeetingSpeakers,
    voices: Seq<Voiceprint>,
    c: ClusterCentroid,
    scores: Seq<i64>,
) -> bool {
    &&& x.cluster == c.cluster
    &&& x.label@ == diarization::label_of(c.cluster as int)
    &&& x.display@ == voiceprints::shown(c.cluster, voiceprints::name_map(ms))
    &&& x.source@ == source_of(ms, c.cluster)
    &&& x.suggestion == if ms.suggestions@.contains_key(c.cluster) {
        Some(ms.suggestions@[c.cluster])
    } else {
        None
    }
    &&& best_matches(voices, ms.model@, scores, x.candidates@)
}

/// The clusters as keys of a ranking: the least one first.
pub open spec fn cluster_key(centroids: Seq<ClusterCentroid>) -> spec_fn(int) -> int {
    |k: int| -(centroids[k].cluster as int)
}

/// The centroids in the order of their clusters; equal ones keep their order.
pub open spec fn by_cluster(centroids: Seq<ClusterCentroid>) -> Seq<usize> {
    voiceprints::ranking(cluster_key(centroids), centroids.len() as int)
}

/// The centroids in the order of their clusters.
fn order_clusters(centroids: &Vec<ClusterCentroid>) -> (r: Vec<usize>)
    ensures
        r@ == by_cluster(centroids@),
        r@.len() == centroids@.len(),
        forall|i: int| 0 <= i < r@.len() ==> (#[trigger] r@[i]) < centroids@.len(),
{
    let ghost key = cluster_key(centroids@);
    let mut order: Vec<usize> = Vec::new();
    let mut x: usize = 0;
    while x < centroids.len()
        invariant
            x <= centroids@.len(),
            key == cluster_key(centroids@),
            order@ == voiceprints::ranking(key, x as int),
        decreases centroids@.len() - x,
    {
        let ghost before = order@;
        proof {
            voiceprints::law_ranking(key, x as int);
        }
        let mut i: usize = order.len();
        proof {
            assert(before.take(i as int) =~= before);
            assert(voiceprints::ranked_in(before, key, x) =~= voiceprints::ranked_in(
                before.take(i as int),
                key,
                x,
            ) + before.skip(i as int));
        }
        while i > 0 && centroids[order[i - 1]].cluster > centroids[x].cluster
            invariant
                x < centroids@.len(),
                key == cluster_key(centroids@),
                order@ == before,
                i <= before.len(),
                forall|k: int| 0 <= k < before.len() ==> (#[trigger] before[k]) < centroids@.len(),
                voiceprints::ranked_in(before, key, x) == voiceprints::ranked_in(
                    before.take(i as int),
                    key,
                    x,
                ) + before.skip(i as int),
            decreases i,
        {
            proof {
                let t = before.take(i as int);
                assert(t.last() == before[i - 1]);
                assert(t.drop_last() =~= before.take(i - 1));
                assert(voiceprints::ranked_in(t, key, x) == voiceprints::ranked_in(
                    before.take(i - 1),
                    key,
                    x,
                ).push(before[i - 1]));
                assert(voiceprints::ranked_in(before, key, x) =~= voiceprints::ranked_in(
                    before.take(i - 1),
                    key,
                    x,
                ) + before.skip(i - 1));
            }
            i -= 1;
        }
        proof {
            let t = before.take(i as int);
            if i > 0 {
                assert(t.last() == before[i - 1]);
            }
            assert(voiceprints::ranked_in(t, key, x) == t.push(x));
            assert(before.insert(i as int, x) =~= t.push(x) + before.skip(i as int));
        }
        order.insert(i, x);
        x += 1;
    }
    proof {
        voiceprints::law_ranking(key, centroids@.len() as int);
    }
    order
}

/// The most similar voices, at most as many as shown.
fn match_list(lib: &VoiceLibrary, model: &str, scores: &Vec<i64>) -> (r: Vec<CandidateMatch>)
    requires
        scores@.len() == voiceprints::candidates_of(lib.voices@, model@).len(),
    ensures
        best_matches(lib.voices@, model@, scores@, r@),
{
    let known = candidates(lib, model);
    assert(voiceprints::int_places(known@).len() == known@.len());
    let order = rank(scores);
    let n: usize = if scores.len() < MAX_CANDIDATES {
        scores.len()
    } else {
        MAX_CANDIDATES
    };
    let mut out: Vec<CandidateMatch> = Vec::new();
    let mut k: usize = 0;
    while k < n
        invariant
            k <= n <= scores@.len(),
            n == lesser(scores@.len(), MAX_CANDIDATES as nat),
            order@ == voiceprints::ranked(scores@),
            order@.len() == scores@.len(),
            forall|i: int| 0 <= i < order@.len() ==> (#[trigger] order@[i]) < scores@.len(),
            known@.len() == scores@.len(),
            voiceprints::int_places(known@) == voiceprints::candidates_of(lib.voices@, model@),
            forall|i: int| 0 <= i < known@.len() ==> (#[trigger] known@[i]) < lib.voices@.len(),
            out@.len() == k,
            forall|j: int|
                0 <= j < k ==> {
                    let at = voiceprints::ranked(scores@)[j];
                    &&& (#[trigger] out@[j]).name@ == voiceprints::candidate_name(
                        lib.voices@,
                        model@,
                        at,
                    )
                    &&& out@[j].strength@ == strength(scores@[at as int])
                },
        decreases n - k,
    {
        let at: usize = order[k];
        let who: usize = known[at];
        assert(voiceprints::int_places(known@)[at as int] == who);
        out.push(
            CandidateMatch {
                name: lib.voices[who].name.clone(),
                strength: strength_word(scores[at]).to_owned(),
            },
        );
        k += 1;
    }
    out
}

/// The entry of the centroid with number `at`.
fn describe(ms: &MeetingSpeakers, lib: &VoiceLibrary, at: usize, scores: &Vec<i64>) -> (r: ClusterOverview)
    requires
        at < ms.centroids@.len(),
        scores@.len() == voiceprints::candidates_of(lib.voices@, ms.model@).len(),
    ensures
        describes(r, *ms, lib.voices@, ms.centroids@[at as int], scores@),
{
    let cluster: usize = ms.centroids[at].cluster;
    let label = speaker_label(cluster);
    let (display, source): (String, &str) = match ms.names.get(&cluster) {
        Some(name) => (name.clone(), "manual"),
        None => match ms.auto.get(&cluster) {
            Some(name) => (name.clone(), "auto"),
            None => (label.clone(), "none"),
        },
    };
    let suggestion = match ms.suggestions.get(&cluster) {
        Some(s) => Some(s.clone()),
        None => None,
    };
    ClusterOverview {
        cluster,
        label,
        display,
        source: source.to_owned(),
        suggestion,
        candidates: match_list(lib, ms.model.as_str(), scores),
    }
}

/// The overview of a meeting's clusters, ordered by number, and of the names in
/// the library, in order and each once. `scores` holds, for each centroid, the
/// similarities to the library's voices of the meeting's model.
pub fn speakers_overview(ms: &MeetingSpeakers, lib: &VoiceLibrary, scores: &Vec<Vec<i64>>) -> (r: SpeakersOverview)
    requires
        scores@.len() == ms.centroids@.len(),
        forall|c: int|
            0 <= c < scores@.len() ==> (#[trigger] scores@[c])@.len() == voiceprints::candidates_of(
                lib.voices@,
                ms.model@,
            ).len(),
    ensures
        r.clusters@.len() == ms.centroids@.len(),
        forall|i: int|
            0 <= i < r.clusters@.len() ==> {
                let at = by_cluster(ms.centroids@)[i] as int;
                describes(
                    #[trigger] r.clusters@[i],
                    *ms,
                    lib.voices@,
                    ms.centroids@[at],
                    scores@[at]@,
                )
            },
        text::in_order(text::views(r.known_voices@)),
        forall|name: Seq<char>| #[trigger]
            text::views(r.known_voices@).contains(name) <==> exists|v: int|
                0 <= v < lib.voices@.len() && (#[trigger] lib.voices@[v]).name@ == name,
{
    let order = order_clusters(&ms.centroids);
    let mut clusters: Vec<ClusterOverview> = Vec::new();
    let mut i: usize = 0;
    while i < order.len()
        invariant
            i <= order@.len() == ms.centroids@.len(),
            order@ == by_cluster(ms.centroids@),
            forall|k: int| 0 <= k < order@.len() ==> (#[trigger] order@[k]) < ms.centroids@.len(),
            scores@.len() == ms.centroids@.len(),
            forall|c: int|
                0 <= c < scores@.len() ==> (#[trigger] scores@[c])@.len()
                    == voiceprints::candidates_of(lib.voices@, ms.model@).len(),
            clusters@.len() == i,
            forall|k: int|
                0 <= k < i ==> {
                    let at = by_cluster(ms.centroids@)[k] as int;
                    describes(
                        #[trigger] clusters@[k],
                        *ms,
                        lib.voices@,
                        ms.centroids@[at],
                        scores@[at]@,
                    )
                },
        decreases order@.len() - i,
    {
        let at: usize = order[i];
        let entry = describe(ms, lib, at, &scores[at]);
        clusters.push(entry);
        i += 1;
    }
    let mut known: Vec<String> = Vec::new();
    let mut v: usize = 0;
    assert(text::views(known@) =~= Seq::<Seq<char>>::empty());
    while v < lib.voices.len()
        invariant
            v <= lib.voices@.len(),
            text::in_order(text::views(known@)),
            forall|name: Seq<char>| #[trigger]
                text::views(known@).contains(name) <==> exists|k: int|
                    0 <= k < v && (#[trigger] lib.voices@[k]).name@ == name,
        decreases lib.voices@.len() - v,
    {
        let ghost before = text::views(known@);
        insert_in_order(&mut known, lib.voices[v].name.as_str());
        assert forall|name: Seq<char>| #[trigger] text::views(known@).contains(name) <==> exists|
            k: int,
        |
            0 <= k < v + 1 && (#[trigger] lib.voices@[k]).name@ == name by {
            if before.contains(name) {
                let k = choose|k: int| 0 <= k < v && (#[trigger] lib.voices@[k]).name@ == name;
                assert(lib.voices@[k].name@ == name);
            }
            if exists|k: int| 0 <= k < v + 1 && (#[trigger] lib.voices@[k]).name@ == name {
                let k = choose|k: int| 0 <= k < v + 1 && (#[trigger] lib.voices@[k]).name@ == name;
                if k < v {
                    assert(before.contains(name));
                }
            }
            assert(lib.voices@[v as int].name@ == lib.voices@[v as int].name@);
        }
        v += 1;
    }
    SpeakersOverview { clusters, known_voices: known }
}

/// One voice of the library, without its print.
#[derive(Debug)]
pub struct VoiceInfo {
    pub name: String,
    pub model: String,
    pub clean_ns: Nanos,
    pub meetings: u32,
    pub updated_at: String,
}

/// The voices of the library, without their prints.
pub fn voices_list(lib: &VoiceLibrary) -> (r: Vec<VoiceInfo>)
    ensures
        r@.len() == lib.voices@.len(),
        forall|i: int|
            0 <= i < r@.len() ==> {
                let (x, v) = (#[trigger] r@[i], lib.voices@[i]);
                &&& x.name == v.name
                &&& x.model == v.model
                &&& x.clean_ns == v.clean_ns
                &&& x.meetings == v.meetings
                &&& x.updated_at == v.updated_at
            },
{
    let mut out: Vec<VoiceInfo> = Vec::new();
    let mut i: usize = 0;
    while i < lib.voices.len()
        invariant
            i <= lib.voices@.len(),
            out@.len() == i,
            forall|k: int|
                0 <= k < i ==> {
                    let (x, v) = (#[trigger] out@[k], lib.voices@[k]);
                    &&& x.name == v.name
                    &&& x.model == v.model
                    &&& x.clean_ns == v.clean_ns
                    &&& x.meetings == v.meetings
                    &&& x.updated_at == v.updated_at
                },
        decreases lib.voices@.len() - i,
    {
        let v: &Voiceprint = &lib.voices[i];
        out.push(
            VoiceInfo {
                name: v.name.clone(),
                model: v.model.clone(),
                clean_ns: v.clean_ns,
                meetings: v.meetings,
                updated_at: v.updated_at.clone(),
            },
        );
        i += 1;
    }
    out
}

// ---------------------------------------------------------------------
// What an overview shows

/// The centroids are listed by ascending cluster, each once; those of one cluster
/// keep their order.
pub proof fn law_by_cluster(centroids: Seq<ClusterCentroid>, i: int, j: int)
    requires
        0 <= i < j < centroids.len() <= usize::MAX,
    ensures
        ({
            let order = by_cluster(centroids);
            let (a, b) = (order[i] as int, order[j] as int);
            &&& order.len() == centroids.len()
            &&& a < centroids.len() && b < centroids.len() && a != b
            &&& centroids[a].cluster <= centroids[b].cluster
            &&& centroids[a].cluster == centroids[b].cluster ==> a < b
            &&& forall|c: usize| c < centroids.len() ==> #[trigger] order.contains(c)
        }),
{
    let key = cluster_key(centroids);
    let n = centroids.len() as int;
    voiceprints::law_ranking(key, n);
    let order = by_cluster(centroids);
    assert(key(order[i] as int) >= key(order[j] as int));
    if centroids[order[i] as int].cluster == centroids[order[j] as int].cluster {
        voiceprints::law_ranking_is_stable(key, n, i, j);
    }
}

/// The entry of a cluster shows its number and label, the name by which it goes
/// and where that comes from, and its suggestion, if there is one.
pub proof fn law_describes(
    x: ClusterOverview,
    ms: MeetingSpeakers,
    voices: Seq<Voiceprint>,
    c: ClusterCentroid,
    scores: Seq<i64>,
)
    requires
        describes(x, ms, voices, c, scores),
    ensures
        x.cluster == c.cluster,
        x.label@ == diarization::label_of(c.cluster as int),
        ms.names@.contains_key(c.cluster) ==> x.display@ == ms.names@[c.cluster]@ && x.source@
            == "manual"@,
        !ms.names@.contains_key(c.cluster) && ms.auto@.contains_key(c.cluster) ==> x.display@
            == ms.auto@[c.cluster]@ && x.source@ == "auto"@,
        !ms.names@.contains_key(c.cluster) && !ms.auto@.contains_key(c.cluster) ==> x.display@
            == x.label@ && x.source@ == "none"@,
        x.suggestion is Some <==> ms.suggestions@.contains_key(c.cluster),
        x.suggestion matches Some(s) ==> s == ms.suggestions@[c.cluster],
        best_matches(voices, ms.model@, scores, x.candidates@),
{
    voiceprints::law_confirmed_names_win(ms, c.cluster);
}

/// Up to five voices are listed, from the most similar one on: each listed one is
/// called by its name and its strength, and whoever is left out is not more
/// similar.
pub proof fn law_best_matches(
    voices: Seq<Voiceprint>,
    model: Seq<char>,
    scores: Seq<i64>,
    list: Seq<CandidateMatch>,
    k: int,
)
    requires
        best_matches(voices, model, scores, list),
        scores.len() <= usize::MAX,
        0 <= k < list.len(),
    ensures
        list.len() == if scores.len() < 5 { scores.len() } else { 5 },
        exists|p: int|
            #![trigger scores[p]]
            0 <= p < scores.len() && list[k].name@ == voices[voiceprints::candidates_of(
                voices,
                model,
            )[p]].name@ && list[k].strength@ == (if scores[p] >= 750_000_000 {
                "strong"@
            } else if scores[p] >= 600_000_000 {
                "possible"@
            } else {
                "weak"@
            }) && (k == 0 ==> forall|q: int| 0 <= q < scores.len() ==> #[trigger] scores[q]
                <= scores[p]) && (forall|q: int|
                0 <= q < scores.len() && #[trigger] scores[q] > scores[p] ==> exists|j: int|
                    0 <= j < k && #[trigger] voiceprints::ranked(scores)[j] == q),
{
    let order = voiceprints::ranked(scores);
    let key = voiceprints::score_key(scores);
    voiceprints::law_ranking(key, scores.len() as int);
    let p = order[k] as int;
    assert(list[k].name@ == voiceprints::candidate_name(voices, model, order[k]));
    assert forall|q: int| 0 <= q < scores.len() && #[trigger] scores[q] > scores[p] implies exists|
        j: int,
    |
        0 <= j < k && #[trigger] order[j] == q by {
        assert(order.contains(q as usize));
        let j = choose|j: int| 0 <= j < order.len() && order[j] == q as usize;
        if j > k {
            assert(key(order[k] as int) >= key(order[j] as int));
        }
        assert(order[j] == q);
    }
    if k == 0 {
        assert forall|q: int| 0 <= q < scores.len() implies #[trigger] scores[q] <= scores[p] by {
            if scores[q] > scores[p] {
                let j = choose|j: int| 0 <= j < k && #[trigger] order[j] == q;
            }
        }
    }
    assert(scores[p] == scores[p]);
}

} // verus!
