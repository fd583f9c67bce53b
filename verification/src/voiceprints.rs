//! Cross-meeting speaker naming.
//!
//! The diarizer exports a voice centroid per speaker cluster. They are stored
//! per meeting, a library keeps the voices that the user named, and the clusters
//! of new meetings are matched against it. People enter the library only through
//! an explicit rename. Voices are compared outside; this module decides.
use std::collections::HashMap;
use vstd::prelude::*;
use crate::clock::now_rfc3339;
use crate::diarization;
use crate::diarization::{LOCAL_SPEAKER, speaker_label};
use crate::text;
use crate::text::{eq_ignore_ascii_case, same_text, trim};
use crate::timeline::Nanos;

verus! {

broadcast use vstd::std_specs::hash::group_hash_axioms;

/// Similarity, in billionths, from which a library match is applied.
pub const MATCH_STRONG: i64 = 750_000_000;

/// A strong match must beat the second-best voice by this much.
pub const MATCH_MARGIN: i64 = 100_000_000;

/// From here on, but below strong: shown as a suggestion, never applied.
pub const MATCH_SUGGEST: i64 = 600_000_000;

/// Clusters with less clean speech are neither matched nor saved.
pub const MIN_CLEAN_NS: i64 = 10_000_000_000;

/// Cap on the weight of an existing print when a new centroid is averaged in.
pub const PRINT_WEIGHT_CAP_NS: i64 = 300_000_000_000;

/// How many ranked candidates an overview shows.
pub const MAX_CANDIDATES: usize = 5;

/// One named person in the library.
#[derive(Debug)]
pub struct Voiceprint {
    pub name: String,
    /// Embedding model key; prints of different models are never compared.
    pub model: String,
    /// The bits of the components of the voice vector.
    pub embedding: Vec<u32>,
    pub clean_ns: Nanos,
    pub meetings: u32,
    pub updated_at: String,
}

/// The named voices, and the local user's display name.
#[derive(Debug)]
pub struct VoiceLibrary {
    pub voices: Vec<Voiceprint>,
    pub local_name: Option<String>,
}

impl Default for VoiceLibrary {
    fn default() -> (r: Self)
        ensures
            r.voices@.len() == 0,
            r.local_name is None,
    {
        VoiceLibrary { voices: Vec::new(), local_name: None }
    }
}

/// Clean-speech centroid of one cluster.
#[derive(Debug)]
pub struct ClusterCentroid {
    pub cluster: usize,
    pub clean_ns: Nanos,
    pub embedding: Vec<u32>,
}

/// A possible match.
#[derive(Debug)]
pub struct Suggestion {
    pub name: String,
    /// In billionths.
    pub similarity: i64,
}

impl Clone for Suggestion {
    fn clone(&self) -> (r: Self)
        ensures
            r == *self,
    {
        Suggestion { name: self.name.clone(), similarity: self.similarity }
    }
}

/// Per-meeting speaker identity.
#[derive(Debug)]
pub struct MeetingSpeakers {
    pub model: String,
    pub centroids: Vec<ClusterCentroid>,
    /// Names that the user gave or confirmed.
    pub names: HashMap<usize, String>,
    /// Names that recognition applied.
    pub auto: HashMap<usize, String>,
    /// Matches that are shown but not applied.
    pub suggestions: HashMap<usize, Suggestion>,
}

impl Default for MeetingSpeakers {
    fn default() -> (r: Self)
        ensures
            r.model@.len() == 0,
            r.centroids@.len() == 0,
            r.names@ == Map::<usize, String>::empty(),
            r.auto@ == Map::<usize, String>::empty(),
            r.suggestions@ == Map::<usize, Suggestion>::empty(),
    {
        MeetingSpeakers {
            model: String::new(),
            centroids: Vec::new(),
            names: HashMap::new(),
            auto: HashMap::new(),
            suggestions: HashMap::new(),
        }
    }
}

// ---------------------------------------------------------------------
// Names

/// The display names of a meeting: confirmed names win over applied ones.
pub open spec fn name_map(ms: MeetingSpeakers) -> Map<usize, String> {
    ms.auto@.union_prefer_right(ms.names@)
}

/// The display names of a meeting: confirmed names win over applied ones.
pub fn meeting_name_map(ms: &MeetingSpeakers) -> (r: HashMap<usize, String>)
    ensures
        r@ == name_map(*ms),
{
    let mut map: HashMap<usize, String> = HashMap::new();
    copy_into(&mut map, &ms.auto);
    assert(map@ =~= ms.auto@);
    copy_into(&mut map, &ms.names);
    map
}

/// Set all entries of `from` in `map`.
fn copy_into(map: &mut HashMap<usize, String>, from: &HashMap<usize, String>)
    ensures
        final(map)@ == old(map)@.union_prefer_right(from@),
{
    let ghost before = map@;
    for k in it: from.keys()
        invariant
            it.seq().unref().to_set() == from@.dom(),
            forall|c: usize| #[trigger]
                map@.contains_key(c) <==> before.contains_key(c) || it.seq().unref().take(
                    it.index(),
                ).contains(c),
            forall|c: usize| #[trigger]
                map@.contains_key(c) ==> map@[c] == if it.seq().unref().take(it.index()).contains(c) {
                    from@[c]
                } else {
                    before[c]
                },
            it.index() == it.seq().len() ==> map@ == before.union_prefer_right(from@),
    {
        let ghost keys = it.seq().unref();
        let ghost n = it.index();
        let ghost held = map@;
        proof {
            assert(keys[n] == *k);
            assert(keys.to_set().contains(*k));
            assert(from@.contains_key(*k));
            assert forall|c: usize| #[trigger] keys.take(n + 1).contains(c) <==> keys.take(
                n,
            ).contains(c) || c == *k by {
                assert(keys.take(n + 1) =~= keys.take(n).push(*k));
                if keys.take(n).contains(c) {
                    let j = choose|j: int| 0 <= j < n && keys.take(n)[j] == c;
                    assert(keys.take(n + 1)[j] == c);
                }
                assert(keys.take(n + 1)[n] == *k);
            }
        }
        match from.get(k) {
            Some(v) => {
                map.insert(*k, v.clone());
            },
            None => {},
        }
        proof {
            assert forall|c: usize| #[trigger] from@.contains_key(c) <==> keys.contains(c) by {
                assert(keys.to_set().contains(c) <==> keys.contains(c));
            }
            assert(n + 1 == keys.len() ==> keys.take(n + 1) =~= keys);
            assert(n + 1 == keys.len() ==> map@ =~= before.union_prefer_right(from@));
        }
    }
}

/// What is shown for a speaker: its name, else its generated label.
pub open spec fn shown(idx: usize, names: Map<usize, String>) -> Seq<char> {
    if names.contains_key(idx) {
        names[idx]@
    } else {
        diarization::label_of(idx as int)
    }
}

/// Display string of a speaker under a name map.
pub fn display_name(idx: usize, names: &HashMap<usize, String>) -> (r: String)
    ensures
        r@ == shown(idx, names@),
{
    match names.get(&idx) {
        Some(name) => name.clone(),
        None => speaker_label(idx),
    }
}

/// The name of a cluster: the confirmed one, else the applied one.
pub open spec fn named(ms: MeetingSpeakers, cluster: usize) -> Option<Seq<char>> {
    if ms.names@.contains_key(cluster) {
        Some(ms.names@[cluster]@)
    } else if ms.auto@.contains_key(cluster) {
        Some(ms.auto@[cluster]@)
    } else {
        None
    }
}

/// The name of a cluster: the confirmed one, else the applied one.
fn name_of(ms: &MeetingSpeakers, cluster: usize) -> (r: Option<String>)
    ensures
        text::opt(r) == named(*ms, cluster),
{
    match ms.names.get(&cluster) {
        Some(name) => Some(name.clone()),
        None => match ms.auto.get(&cluster) {
            Some(name) => Some(name.clone()),
            None => None,
        },
    }
}

/// What is shown for a cluster is the same with and without the name map.
pub proof fn law_name_map(ms: MeetingSpeakers, cluster: usize)
    ensures
        shown(cluster, name_map(ms)) == match named(ms, cluster) {
            Some(name) => name,
            None => diarization::label_of(cluster as int),
        },
{
}

/// A confirmed name is shown before an applied one, an applied one before the
/// generated label, and no cluster is named by another one's entry.
pub proof fn law_confirmed_names_win(ms: MeetingSpeakers, c: usize)
    ensures
        ms.names@.contains_key(c) ==> shown(c, name_map(ms)) == ms.names@[c]@ && named(ms, c) == Some(
            ms.names@[c]@,
        ),
        !ms.names@.contains_key(c) && ms.auto@.contains_key(c) ==> shown(c, name_map(ms))
            == ms.auto@[c]@ && named(ms, c) == Some(ms.auto@[c]@),
        !ms.names@.contains_key(c) && !ms.auto@.contains_key(c) ==> shown(c, name_map(ms))
            == diarization::label_of(c as int) && named(ms, c) is None,
        name_map(ms).contains_key(c) <==> ms.names@.contains_key(c) || ms.auto@.contains_key(c),
{
}

/// The local user's display name, if one is set.
pub fn local_display_name(lib: &VoiceLibrary) -> (r: Option<String>)
    ensures
        text::opt(r) == match lib.local_name {
            Some(name) => if text::trimmed(name@).len() > 0 {
                Some(text::trimmed(name@))
            } else {
                None
            },
            None => None,
        },
{
    match &lib.local_name {
        Some(name) => {
            let t = trim(name.as_str());
            if t.as_str().is_empty() {
                None
            } else {
                Some(t)
            }
        },
        None => None,
    }
}

/// Set the local user's display name; an empty one or the default clears it.
pub fn local_name_set(lib: &mut VoiceLibrary, name: &str)
    ensures
        final(lib).voices == old(lib).voices,
        text::opt(final(lib).local_name) == if text::trimmed(name@).len() > 0 && text::trimmed(name@)
            != "You"@ {
            Some(text::trimmed(name@))
        } else {
            None
        },
{
    let t = trim(name);
    if !t.as_str().is_empty() && !same_text(t.as_str(), "You") {
        lib.local_name = Some(t);
    } else {
        lib.local_name = None;
    }
}

// ---------------------------------------------------------------------
// Ranking

/// `x` put behind the entries whose key is not less.
pub open spec fn ranked_in(order: Seq<usize>, key: spec_fn(int) -> int, x: usize) -> Seq<usize>
    decreases order.len(),
{
    if order.len() == 0 || key(order.last() as int) >= key(x as int) {
        order.push(x)
    } else {
        ranked_in(order.drop_last(), key, x).push(order.last())
    }
}

/// The first `n` entries from the highest score to the lowest; equal key
/// keep their order.
pub open spec fn ranking(key: spec_fn(int) -> int, n: int) -> Seq<usize>
    decreases n,
{
    if n <= 0 {
        Seq::empty()
    } else {
        ranked_in(ranking(key, n - 1), key, (n - 1) as usize)
    }
}

/// The scores as keys of a ranking.
pub open spec fn score_key(scores: Seq<i64>) -> spec_fn(int) -> int {
    |k: int| scores[k] as int
}

/// All entries from the highest score to the lowest.
pub open spec fn ranked(scores: Seq<i64>) -> Seq<usize> {
    ranking(score_key(scores), scores.len() as int)
}

proof fn lemma_ranked_in(order: Seq<usize>, key: spec_fn(int) -> int, x: usize)
    requires
        forall|i: int, j: int|
            0 <= i < j < order.len() ==> key((#[trigger] order[i]) as int) >= key((
            #[trigger] order[j]) as int),
    ensures
        ranked_in(order, key, x).len() == order.len() + 1,
        forall|i: int, j: int|
            0 <= i < j < ranked_in(order, key, x).len() ==> key((#[trigger] ranked_in(
                order,
                key,
                x,
            )[i]) as int) >= key((#[trigger] ranked_in(order, key, x)[j]) as int),
        forall|c: usize| #[trigger]
            ranked_in(order, key, x).contains(c) <==> order.contains(c) || c == x,
        order.no_duplicates() && !order.contains(x) ==> ranked_in(order, key, x).no_duplicates(),
    decreases order.len(),
{
    let out = ranked_in(order, key, x);
    if order.len() == 0 || key(order.last() as int) >= key(x as int) {
        assert forall|i: int, j: int| 0 <= i < j < out.len() implies key((#[trigger] out[i]) as int)
            >= key((#[trigger] out[j]) as int) by {
            if j == order.len() && i < order.len() - 1 {
                assert(key(order[i] as int) >= key(order[order.len() - 1] as int));
            }
        }
        assert forall|c: usize| #[trigger] out.contains(c) <==> order.contains(c) || c == x by {
            if order.contains(c) {
                let k = choose|k: int| 0 <= k < order.len() && order[k] == c;
                assert(out[k] == c);
            }
            assert(out[order.len() as int] == x);
            if out.contains(c) {
                let k = choose|k: int| 0 <= k < out.len() && out[k] == c;
                if k < order.len() {
                    assert(order[k] == c);
                }
            }
        }
    } else {
        let init = order.drop_last();
        assert forall|i: int, j: int| 0 <= i < j < init.len() implies key((
        #[trigger] init[i]) as int) >= key((#[trigger] init[j]) as int) by {
            assert(key(order[i] as int) >= key(order[j] as int));
        }
        lemma_ranked_in(init, key, x);
        let head = ranked_in(init, key, x);
        let last = order.last();
        assert forall|c: usize| #[trigger] head.contains(c) implies key(c as int)
            >= key(last as int) by {
            if c != x {
                let k = choose|k: int| 0 <= k < init.len() && init[k] == c;
                assert(key(order[k] as int) >= key(order[order.len() - 1] as int));
            }
        }
        assert forall|i: int, j: int| 0 <= i < j < out.len() implies key((#[trigger] out[i]) as int)
            >= key((#[trigger] out[j]) as int) by {
            if j == head.len() {
                assert(head.contains(head[i]));
            } else {
                assert(key(head[i] as int) >= key(head[j] as int));
            }
        }
        assert forall|c: usize| #[trigger] out.contains(c) <==> order.contains(c) || c == x by {
            if out.contains(c) {
                let k = choose|k: int| 0 <= k < out.len() && out[k] == c;
                if k < head.len() {
                    assert(head.contains(c));
                    if c != x {
                        let m = choose|m: int| 0 <= m < init.len() && init[m] == c;
                        assert(order[m] == c);
                    }
                } else {
                    assert(order[order.len() - 1] == c);
                }
            }
            if order.contains(c) || c == x {
                if c == last {
                    assert(out[head.len() as int] == c);
                } else {
                    if c != x {
                        let m = choose|m: int| 0 <= m < order.len() && order[m] == c;
                        assert(init[m] == c);
                    }
                    assert(head.contains(c));
                    let k = choose|k: int| 0 <= k < head.len() && head[k] == c;
                    assert(out[k] == c);
                }
            }
        }
        if order.no_duplicates() && !order.contains(x) {
            assert(init.no_duplicates());
            assert(!init.contains(x)) by {
                if init.contains(x) {
                    let m = choose|m: int| 0 <= m < init.len() && init[m] == x;
                    assert(order[m] == x);
                }
            }
            assert(!head.contains(last)) by {
                if head.contains(last) {
                    if last != x {
                        let m = choose|m: int| 0 <= m < init.len() && init[m] == last;
                        assert(order[m] == order[order.len() - 1]);
                    } else {
                        assert(order[order.len() - 1] == x);
                    }
                }
            }
            assert forall|i: int, j: int| 0 <= i < out.len() && 0 <= j < out.len() && i != j implies out[i]
                != out[j] by {
                if i < head.len() && j < head.len() {
                    assert(head[i] != head[j]);
                } else if i < head.len() {
                    assert(head.contains(head[i]));
                } else {
                    assert(head.contains(head[j]));
                }
            }
        }
    }
}

/// A ranking holds every entry once, from the greatest key to the least.
pub proof fn law_ranking(key: spec_fn(int) -> int, n: int)
    requires
        0 <= n <= usize::MAX,
    ensures
        ranking(key, n).len() == n,
        ranking(key, n).no_duplicates(),
        forall|i: int, j: int|
            0 <= i < j < n ==> key((#[trigger] ranking(key, n)[i]) as int) >= key((
            #[trigger] ranking(key, n)[j]) as int),
        forall|c: usize| #[trigger] ranking(key, n).contains(c) <==> c < n,
        forall|i: int| 0 <= i < n ==> (#[trigger] ranking(key, n)[i]) < n,
    decreases n,
{
    if n > 0 {
        law_ranking(key, n - 1);
        let head = ranking(key, n - 1);
        assert(!head.contains((n - 1) as usize));
        lemma_ranked_in(head, key, (n - 1) as usize);
        assert forall|i: int| 0 <= i < n implies (#[trigger] ranking(key, n)[i]) < n by {
            assert(ranking(key, n).contains(ranking(key, n)[i]));
        }
    }
}

/// Entries with equal keys keep their order.
spec fn stable(order: Seq<usize>, key: spec_fn(int) -> int) -> bool {
    forall|i: int, j: int|
        0 <= i < j < order.len() && key(order[i] as int) == key(order[j] as int)
            ==> #[trigger] order[i] < #[trigger] order[j]
}

proof fn lemma_ranked_in_stable(order: Seq<usize>, key: spec_fn(int) -> int, x: usize)
    requires
        forall|i: int, j: int|
            0 <= i < j < order.len() ==> key((#[trigger] order[i]) as int) >= key((
            #[trigger] order[j]) as int),
        stable(order, key),
        forall|i: int| 0 <= i < order.len() ==> #[trigger] order[i] < x,
    ensures
        stable(ranked_in(order, key, x), key),
    decreases order.len(),
{
    let out = ranked_in(order, key, x);
    if !(order.len() == 0 || key(order.last() as int) >= key(x as int)) {
        let init = order.drop_last();
        let head = ranked_in(init, key, x);
        assert forall|i: int, j: int| 0 <= i < j < init.len() implies key((
        #[trigger] init[i]) as int) >= key((#[trigger] init[j]) as int) by {
            assert(key(order[i] as int) >= key(order[j] as int));
        }
        assert(stable(init, key)) by {
            assert forall|i: int, j: int|
                0 <= i < j < init.len() && key(init[i] as int) == key(
                    init[j] as int,
                ) implies #[trigger] init[i] < #[trigger] init[j] by {
                assert(order[i] < order[j]);
            }
        }
        lemma_ranked_in_stable(init, key, x);
        lemma_ranked_in(init, key, x);
        assert forall|i: int, j: int|
            0 <= i < j < out.len() && key(out[i] as int) == key(out[j] as int) implies #[trigger] out[i]
            < #[trigger] out[j] by {
            if j == head.len() {
                assert(head.contains(head[i]));
                if head[i] != x {
                    let k = choose|k: int| 0 <= k < init.len() && init[k] == head[i];
                    assert(order[k] < order[order.len() - 1]);
                }
            } else {
                assert(head[i] < head[j]);
            }
        }
    }
}

/// Of entries with equal keys the earlier one ranks first.
pub proof fn law_ranking_is_stable(key: spec_fn(int) -> int, n: int, i: int, j: int)
    requires
        0 <= i < j < n <= usize::MAX,
        key(ranking(key, n)[i] as int) == key(ranking(key, n)[j] as int),
    ensures
        ranking(key, n)[i] < ranking(key, n)[j],
{
    lemma_stable(key, n);
    law_ranking(key, n);
}

proof fn lemma_stable(key: spec_fn(int) -> int, n: int)
    requires
        0 <= n <= usize::MAX,
    ensures
        stable(ranking(key, n), key),
    decreases n,
{
    if n > 0 {
        lemma_stable(key, n - 1);
        law_ranking(key, n - 1);
        lemma_ranked_in_stable(ranking(key, n - 1), key, (n - 1) as usize);
    }
}

/// A ranking by scores goes down from the highest score, and holds every place
/// once; of equal scores the earlier one comes first.
pub proof fn law_ranked(scores: Seq<i64>, i: int, j: int)
    requires
        0 <= i < j < scores.len() <= usize::MAX,
    ensures
        ranked(scores).len() == scores.len(),
        ranked(scores)[i] < scores.len(),
        ranked(scores)[j] < scores.len(),
        ranked(scores)[i] != ranked(scores)[j],
        scores[ranked(scores)[i] as int] >= scores[ranked(scores)[j] as int],
        scores[ranked(scores)[i] as int] == scores[ranked(scores)[j] as int] ==> ranked(scores)[i]
            < ranked(scores)[j],
        forall|c: usize| c < scores.len() ==> #[trigger] ranked(scores).contains(c),
{
    let key = score_key(scores);
    law_ranking(key, scores.len() as int);
    if scores[ranked(scores)[i] as int] == scores[ranked(scores)[j] as int] {
        law_ranking_is_stable(key, scores.len() as int, i, j);
    }
}

/// All entries from the highest score to the lowest; equal scores keep their
/// order.
pub fn rank(scores: &[i64]) -> (r: Vec<usize>)
    ensures
        r@ == ranked(scores@),
        r@.len() == scores@.len(),
        forall|i: int| 0 <= i < r@.len() ==> (#[trigger] r@[i]) < scores@.len(),
{
    let mut order: Vec<usize> = Vec::new();
    let mut x: usize = 0;
    while x < scores.len()
        invariant
            x <= scores@.len(),
            order@ == ranking(score_key(scores@), x as int),
        decreases scores@.len() - x,
    {
        let ghost before = order@;
        proof {
            law_ranking(score_key(scores@), x as int);
        }
        let mut i: usize = order.len();
        proof {
            assert(before.take(i as int) =~= before);
            assert(ranked_in(before, score_key(scores@), x) =~= ranked_in(before.take(i as int), score_key(scores@), x)
                + before.skip(i as int));
        }
        while i > 0 && scores[order[i - 1]] < scores[x]
            invariant
                x < scores@.len(),
                order@ == before,
                i <= before.len(),
                forall|k: int| 0 <= k < before.len() ==> (#[trigger] before[k]) < scores@.len(),
                ranked_in(before, score_key(scores@), x) == ranked_in(before.take(i as int), score_key(scores@), x)
                    + before.skip(i as int),
            decreases i,
        {
            proof {
                let t = before.take(i as int);
                assert(t.last() == before[i - 1]);
                assert(t.drop_last() =~= before.take(i - 1));
                assert(ranked_in(t, score_key(scores@), x) == ranked_in(before.take(i - 1), score_key(scores@), x).push(
                    before[i - 1],
                ));
                assert(ranked_in(before, score_key(scores@), x) =~= ranked_in(
                    before.take(i - 1),
                    score_key(scores@),
                    x,
                ) + before.skip(i - 1));
            }
            i -= 1;
        }
        proof {
            let t = before.take(i as int);
            if i > 0 {
                assert(t.last() == before[i - 1]);
            }
            assert(ranked_in(t, score_key(scores@), x) == t.push(x));
            assert(before.insert(i as int, x) =~= t.push(x) + before.skip(i as int));
        }
        order.insert(i, x);
        x += 1;
    }
    proof {
        law_ranking(score_key(scores@), scores@.len() as int);
    }
    order
}

// ---------------------------------------------------------------------
// Recognition

/// What the library says about a cluster's voice.
#[derive(Debug, Clone, Copy, PartialEq, Eq, Structural)]
pub enum Recognition {
    Nobody,
    /// Possibly the voice with this number.
    Possible(usize),
    /// Certainly the voice with this number.
    Certain(usize),
}

/// The score of the second-best voice; as low as can be when there is none.
pub open spec fn runner_up(scores: Seq<i64>) -> int {
    if scores.len() > 1 {
        scores[ranked(scores)[1] as int] as int
    } else {
        -1_000_000_000
    }
}

/// What the scores of the library's voices say about a cluster with so much
/// clean speech.
pub open spec fn recognized(clean_ns: int, scores: Seq<i64>) -> Recognition {
    if clean_ns < MIN_CLEAN_NS || scores.len() == 0 {
        Recognition::Nobody
    } else {
        let best = ranked(scores)[0];
        let top = scores[best as int];
        if top >= MATCH_STRONG && top - runner_up(scores) >= MATCH_MARGIN {
            Recognition::Certain(best)
        } else if top >= MATCH_SUGGEST {
            Recognition::Possible(best)
        } else {
            Recognition::Nobody
        }
    }
}

/// What the scores of the library's voices say about a cluster with so much
/// clean speech.
pub fn recognize(clean_ns: Nanos, scores: &[i64]) -> (r: Recognition)
    ensures
        r == recognized(clean_ns as int, scores@),
{
    if clean_ns < MIN_CLEAN_NS || scores.len() == 0 {
        return Recognition::Nobody;
    }
    let order = rank(scores);
    let best: usize = order[0];
    let top: i64 = scores[best];
    let second: i64 = if scores.len() > 1 {
        scores[order[1]]
    } else {
        -1_000_000_000
    };
    if top >= MATCH_STRONG && top as i128 - second as i128 >= MATCH_MARGIN as i128 {
        Recognition::Certain(best)
    } else if top >= MATCH_SUGGEST {
        Recognition::Possible(best)
    } else {
        Recognition::Nobody
    }
}

/// A name is applied only to a cluster with enough clean speech, for a voice
/// that scores strong and clearly better than every other one.
pub proof fn law_certain_is_clear(clean_ns: int, scores: Seq<i64>)
    requires
        scores.len() <= usize::MAX,
    ensures
        recognized(clean_ns, scores) matches Recognition::Certain(best) ==> {
            &&& clean_ns >= MIN_CLEAN_NS
            &&& best < scores.len()
            &&& scores[best as int] >= MATCH_STRONG
            &&& forall|j: int|
                0 <= j < scores.len() && j != best ==> scores[best as int] - #[trigger] scores[j]
                    >= MATCH_MARGIN
        },
{
    if recognized(clean_ns, scores) is Certain {
        let order = ranked(scores);
        law_ranking(score_key(scores), scores.len() as int);
        let best = order[0];
        assert(best < scores.len());
        assert forall|j: int| 0 <= j < scores.len() && j != best implies scores[best as int]
            - #[trigger] scores[j] >= MATCH_MARGIN by {
            assert(order.contains(j as usize));
            let k = choose|k: int| 0 <= k < order.len() && order[k] == j as usize;
            if k > 1 {
                assert(scores[order[1] as int] >= scores[order[k] as int]);
            }
        }
    }
}

/// The voices of a model among the first `n`, as places in the library.
pub open spec fn voices_upto(voices: Seq<Voiceprint>, model: Seq<char>, n: int) -> Seq<int>
    decreases n,
{
    if n <= 0 {
        Seq::empty()
    } else {
        let head = voices_upto(voices, model, n - 1);
        if voices[n - 1].model@ == model {
            head.push(n - 1)
        } else {
            head
        }
    }
}

/// The voices of a model, as places in the library.
pub open spec fn candidates_of(voices: Seq<Voiceprint>, model: Seq<char>) -> Seq<int> {
    voices_upto(voices, model, voices.len() as int)
}

/// Places as integers.
pub open spec fn int_places(v: Seq<usize>) -> Seq<int> {
    Seq::new(v.len(), |i: int| v[i] as int)
}

/// The voices of a model, as places in the library.
pub fn candidates(lib: &VoiceLibrary, model: &str) -> (r: Vec<usize>)
    ensures
        int_places(r@) == candidates_of(lib.voices@, model@),
        forall|i: int| 0 <= i < r@.len() ==> (#[trigger] r@[i]) < lib.voices@.len(),
{
    let mut out: Vec<usize> = Vec::new();
    let mut i: usize = 0;
    assert(int_places(out@) =~= voices_upto(lib.voices@, model@, 0));
    while i < lib.voices.len()
        invariant
            i <= lib.voices@.len(),
            int_places(out@) == voices_upto(lib.voices@, model@, i as int),
            forall|k: int| 0 <= k < out@.len() ==> (#[trigger] out@[k]) < lib.voices@.len(),
        decreases lib.voices@.len() - i,
    {
        if same_text(lib.voices[i].model.as_str(), model) {
            let ghost held = out@;
            out.push(i);
            assert(int_places(out@) =~= int_places(held).push(i as int));
        }
        i += 1;
    }
    out
}

/// The texts of a map.
pub open spec fn texts(m: Map<usize, String>) -> Map<usize, Seq<char>> {
    m.map_values(|s: String| s@)
}

/// The names and scores of a map of suggestions.
pub open spec fn offers(m: Map<usize, Suggestion>) -> Map<usize, (Seq<char>, i64)> {
    m.map_values(|s: Suggestion| (s.name@, s.similarity))
}

/// The name of candidate `k`.
pub open spec fn candidate_name(voices: Seq<Voiceprint>, model: Seq<char>, k: usize) -> Seq<char> {
    voices[candidates_of(voices, model)[k as int]].name@
}

/// The names applied to the first `n` clusters.
pub open spec fn applied(
    voices: Seq<Voiceprint>,
    model: Seq<char>,
    centroids: Seq<ClusterCentroid>,
    scores: Seq<Vec<i64>>,
    n: int,
) -> Map<usize, Seq<char>>
    decreases n,
{
    if n <= 0 {
        Map::empty()
    } else {
        let head = applied(voices, model, centroids, scores, n - 1);
        let c = centroids[n - 1];
        match recognized(c.clean_ns as int, scores[n - 1]@) {
            Recognition::Certain(k) => head.insert(c.cluster, candidate_name(voices, model, k)),
            _ => head,
        }
    }
}

/// The suggestions for the first `n` clusters.
pub open spec fn suggested(
    voices: Seq<Voiceprint>,
    model: Seq<char>,
    centroids: Seq<ClusterCentroid>,
    scores: Seq<Vec<i64>>,
    n: int,
) -> Map<usize, (Seq<char>, i64)>
    decreases n,
{
    if n <= 0 {
        Map::empty()
    } else {
        let head = suggested(voices, model, centroids, scores, n - 1);
        let c = centroids[n - 1];
        match recognized(c.clean_ns as int, scores[n - 1]@) {
            Recognition::Possible(k) => head.insert(
                c.cluster,
                (candidate_name(voices, model, k), scores[n - 1]@[k as int]),
            ),
            _ => head,
        }
    }
}

/// The speakers of a freshly diarized meeting: library matches bring remembered
/// names back, nothing else is named. `scores` holds, for each centroid, the
/// similarities to the library's voices of the model.
pub fn recognize_meeting(
    lib: &VoiceLibrary,
    model: &str,
    centroids: Vec<ClusterCentroid>,
    scores: &Vec<Vec<i64>>,
) -> (r: MeetingSpeakers)
    requires
        scores@.len() == centroids@.len(),
        forall|c: int|
            0 <= c < scores@.len() ==> (#[trigger] scores@[c])@.len() == candidates_of(
                lib.voices@,
                model@,
            ).len(),
    ensures
        r.model@ == model@,
        r.centroids@ == centroids@,
        r.names@ == Map::<usize, String>::empty(),
        texts(r.auto@) == applied(
            lib.voices@,
            model@,
            centroids@,
            scores@,
            centroids@.len() as int,
        ),
        offers(r.suggestions@) == suggested(
            lib.voices@,
            model@,
            centroids@,
            scores@,
            centroids@.len() as int,
        ),
{
    let known = candidates(lib, model);
    assert(int_places(known@).len() == known@.len());
    let mut auto: HashMap<usize, String> = HashMap::new();
    let mut suggestions: HashMap<usize, Suggestion> = HashMap::new();
    let mut i: usize = 0;
    assert(texts(auto@) =~= applied(lib.voices@, model@, centroids@, scores@, 0));
    assert(offers(suggestions@) =~= suggested(lib.voices@, model@, centroids@, scores@, 0));
    while i < centroids.len()
        invariant
            i <= centroids@.len() == scores@.len(),
            int_places(known@) == candidates_of(lib.voices@, model@),
            known@.len() == candidates_of(lib.voices@, model@).len(),
            forall|k: int| 0 <= k < known@.len() ==> (#[trigger] known@[k]) < lib.voices@.len(),
            forall|c: int|
                0 <= c < scores@.len() ==> (#[trigger] scores@[c])@.len() == candidates_of(
                    lib.voices@,
                    model@,
                ).len(),
            texts(auto@) == applied(lib.voices@, model@, centroids@, scores@, i as int),
            offers(suggestions@) == suggested(
                lib.voices@,
                model@,
                centroids@,
                scores@,
                i as int,
            ),
        decreases centroids@.len() - i,
    {
        let cluster: usize = centroids[i].cluster;
        proof {
            assert(scores@[i as int].len() <= usize::MAX);
            law_ranking(score_key(scores@[i as int]@), scores@[i as int]@.len() as int);
        }
        match recognize(centroids[i].clean_ns, &scores[i]) {
            Recognition::Certain(k) => {
                let name = lib.voices[known[k]].name.clone();
                let ghost held = auto@;
                let ghost value = name;
                assert(int_places(known@)[k as int] == known@[k as int]);
                auto.insert(cluster, name);
                assert(texts(auto@) =~= texts(held).insert(cluster, value@));
            },
            Recognition::Possible(k) => {
                let name = lib.voices[known[k]].name.clone();
                let ghost held = suggestions@;
                let ghost value = name@;
                let similarity: i64 = scores[i][k];
                assert(int_places(known@)[k as int] == known@[k as int]);
                suggestions.insert(cluster, Suggestion { name, similarity });
                assert(offers(suggestions@) =~= offers(held).insert(cluster, (value, similarity)));
            },
            Recognition::Nobody => {},
        }
        i += 1;
    }
    MeetingSpeakers {
        model: model.to_owned(),
        centroids,
        names: HashMap::new(),
        auto,
        suggestions,
    }
}

/// A voice is applied exactly when there are ten seconds of clean speech and it
/// scores three quarters or more and a tenth above every other one. Short of
/// that the best voice, the first of equals, is a suggestion from six tenths on.
pub proof fn law_recognized(clean_ns: int, scores: Seq<i64>, b: usize)
    requires
        scores.len() <= usize::MAX,
    ensures
        recognized(clean_ns, scores) == Recognition::Certain(b) <==> {
            &&& clean_ns >= 10_000_000_000
            &&& b < scores.len()
            &&& scores[b as int] >= 750_000_000
            &&& forall|j: int|
                0 <= j < scores.len() && j != b ==> scores[b as int] - #[trigger] scores[j]
                    >= 100_000_000
        },
        recognized(clean_ns, scores) == Recognition::Possible(b) <==> {
            &&& clean_ns >= 10_000_000_000
            &&& b < scores.len()
            &&& scores[b as int] >= 600_000_000
            &&& forall|j: int| 0 <= j < scores.len() ==> #[trigger] scores[j] <= scores[b as int]
            &&& forall|j: int| 0 <= j < b ==> #[trigger] scores[j] < scores[b as int]
            &&& scores[b as int] >= 750_000_000 ==> exists|j: int|
                0 <= j < scores.len() && j != b && scores[b as int] - #[trigger] scores[j]
                    < 100_000_000
        },
{
    law_certain_is_clear(clean_ns, scores);
    if scores.len() > 0 {
        let n = scores.len() as int;
        let key = score_key(scores);
        let order = ranked(scores);
        law_ranking(key, n);
        let best = order[0];
        assert forall|j: int| 0 <= j < n implies #[trigger] scores[j] <= scores[best as int] && (
        scores[j] == scores[best as int] ==> best <= j) by {
            assert(order.contains(j as usize));
            let k = choose|k: int| 0 <= k < order.len() && order[k] == j as usize;
            if k > 0 {
                assert(key(order[0] as int) >= key(order[k] as int));
                if scores[j] == scores[best as int] {
                    law_ranking_is_stable(key, n, 0, k);
                }
            }
        }
        if n > 1 {
            let second = order[1] as int;
            assert(order[0] != order[1]);
            assert(second < n);
            if b < n && b != best {
                assert(scores[best as int] >= scores[b as int]);
            }
        }
        if b < n {
            assert(scores[b as int] <= scores[best as int]);
        }
    }
}

/// The candidates are the voices of the model, each once, in the library's
/// order.
pub proof fn law_candidates(voices: Seq<Voiceprint>, model: Seq<char>)
    ensures
        forall|p: int| #[trigger]
            candidates_of(voices, model).contains(p) <==> 0 <= p < voices.len() && voices[p].model@
                == model,
        forall|i: int, j: int|
            0 <= i < j < candidates_of(voices, model).len() ==> #[trigger] candidates_of(
                voices,
                model,
            )[i] < #[trigger] candidates_of(voices, model)[j],
{
    lemma_voices_upto(voices, model, voices.len() as int);
}

proof fn lemma_voices_upto(voices: Seq<Voiceprint>, model: Seq<char>, n: int)
    requires
        0 <= n <= voices.len(),
    ensures
        forall|p: int| #[trigger]
            voices_upto(voices, model, n).contains(p) <==> 0 <= p < n && voices[p].model@ == model,
        forall|i: int, j: int|
            0 <= i < j < voices_upto(voices, model, n).len() ==> #[trigger] voices_upto(
                voices,
                model,
                n,
            )[i] < #[trigger] voices_upto(voices, model, n)[j],
    decreases n,
{
    if n > 0 {
        lemma_voices_upto(voices, model, n - 1);
        let head = voices_upto(voices, model, n - 1);
        let all = voices_upto(voices, model, n);
        assert forall|p: int| #[trigger] all.contains(p) <==> 0 <= p < n && voices[p].model@
            == model by {
            if all.contains(p) {
                let k = choose|k: int| 0 <= k < all.len() && all[k] == p;
                if k < head.len() {
                    assert(head[k] == p);
                    assert(head.contains(p));
                }
            }
            if 0 <= p < n - 1 && voices[p].model@ == model {
                assert(head.contains(p));
                let k = choose|k: int| 0 <= k < head.len() && head[k] == p;
                assert(all[k] == p);
            }
            if p == n - 1 && voices[p].model@ == model {
                assert(all[head.len() as int] == p);
            }
        }
        assert forall|i: int, j: int| 0 <= i < j < all.len() implies #[trigger] all[i]
            < #[trigger] all[j] by {
            if j == head.len() {
                assert(head.contains(head[i]));
            } else {
                assert(head[i] < head[j]);
            }
        }
    }
}

/// No two centroids are of one cluster.
pub open spec fn one_centroid_each(centroids: Seq<ClusterCentroid>) -> bool {
    forall|i: int, j: int|
        0 <= i < j < centroids.len() ==> (#[trigger] centroids[i]).cluster != (
        #[trigger] centroids[j]).cluster
}

/// A meeting's names come from its centroids, each cluster by itself: the name
/// of the voice with number `b` among the model's is applied to the cluster of
/// centroid `i` exactly when its scores are a certain match of that voice, and
/// suggested, with its score, exactly when they are a possible one. No other
/// cluster has an entry.
pub proof fn law_every_cluster_is_recognized(
    voices: Seq<Voiceprint>,
    model: Seq<char>,
    centroids: Seq<ClusterCentroid>,
    scores: Seq<Vec<i64>>,
    i: int,
)
    requires
        scores.len() == centroids.len(),
        one_centroid_each(centroids),
        0 <= i < centroids.len(),
        scores[i]@.len() <= usize::MAX,
    ensures
        ({
            let names = applied(voices, model, centroids, scores, centroids.len() as int);
            let maybe = suggested(voices, model, centroids, scores, centroids.len() as int);
            let c = centroids[i].cluster;
            let s = scores[i]@;
            let long = centroids[i].clean_ns >= 10_000_000_000;
            &&& names.contains_key(c) <==> long && exists|b: int|
                0 <= b < s.len() && #[trigger] s[b] >= 750_000_000 && (forall|j: int|
                    0 <= j < s.len() && j != b ==> s[b] - #[trigger] s[j] >= 100_000_000)
            &&& names.contains_key(c) ==> exists|b: int|
                0 <= b < s.len() && names[c] == voices[#[trigger] candidates_of(
                    voices,
                    model,
                )[b]].name@ && (forall|j: int| 0 <= j < s.len() && j != b ==> #[trigger] s[j] < s[b])
            &&& maybe.contains_key(c) <==> long && !names.contains_key(c) && exists|b: int|
                0 <= b < s.len() && #[trigger] s[b] >= 600_000_000
            &&& maybe.contains_key(c) ==> exists|b: int|
                0 <= b < s.len() && maybe[c] == (
                    voices[#[trigger] candidates_of(voices, model)[b]].name@,
                    s[b],
                ) && (forall|j: int| 0 <= j < s.len() ==> #[trigger] s[j] <= s[b]) && (forall|j: int|
                    0 <= j < b ==> #[trigger] s[j] < s[b])
        }),
        forall|c: usize| #[trigger]
            applied(voices, model, centroids, scores, centroids.len() as int).contains_key(c)
                ==> exists|k: int| 0 <= k < centroids.len() && (#[trigger] centroids[k]).cluster == c,
        forall|c: usize| #[trigger]
            suggested(voices, model, centroids, scores, centroids.len() as int).contains_key(c)
                ==> exists|k: int| 0 <= k < centroids.len() && (#[trigger] centroids[k]).cluster == c,
{
    let n = centroids.len() as int;
    let s = scores[i]@;
    let clean = centroids[i].clean_ns as int;
    lemma_recognized_upto(voices, model, centroids, scores, n);
    assert(centroids[i].cluster == centroids[i].cluster);
    let found = recognized(clean, s);
    match found {
        Recognition::Certain(b) => {
            law_recognized(clean, s, b);
            assert(s[b as int] >= 750_000_000);
            let at = candidates_of(voices, model)[b as int];
            assert forall|j: int| 0 <= j < s.len() && j != b implies #[trigger] s[j] < s[b as int] by {}
        },
        Recognition::Possible(b) => {
            law_recognized(clean, s, b);
            assert(s[b as int] >= 600_000_000);
            let at = candidates_of(voices, model)[b as int];
            assert forall|m: int| 0 <= m < s.len() && #[trigger] s[m] >= 750_000_000 && (forall|j: int|
                0 <= j < s.len() && j != m ==> s[m] - #[trigger] s[j] >= 100_000_000) implies false by {
                law_recognized(clean, s, m as usize);
            }
        },
        Recognition::Nobody => {
            if clean >= 10_000_000_000 && s.len() > 0 {
                let best = lemma_first_best(s, s.len() as int);
                law_recognized(clean, s, best as usize);
                assert forall|m: int| 0 <= m < s.len() implies #[trigger] s[m] < 600_000_000 by {
                    assert(s[m] <= s[best]);
                    if s[best] >= 600_000_000 && s[best] >= 750_000_000 && !(exists|j: int|
                        0 <= j < s.len() && j != best && s[best] - #[trigger] s[j] < 100_000_000) {
                        assert forall|j: int| 0 <= j < s.len() && j != best implies s[best]
                            - #[trigger] s[j] >= 100_000_000 by {}
                    }
                }
            }
        },
    }
}

/// The first best of the first `n` scores.
proof fn lemma_first_best(s: Seq<i64>, n: int) -> (k: int)
    requires
        0 < n <= s.len(),
    ensures
        0 <= k < n,
        forall|m: int| 0 <= m < n ==> #[trigger] s[m] <= s[k],
        forall|m: int| 0 <= m < k ==> #[trigger] s[m] < s[k],
    decreases n,
{
    if n == 1 {
        0
    } else {
        let k = lemma_first_best(s, n - 1);
        if s[n - 1] > s[k] {
            n - 1
        } else {
            k
        }
    }
}

/// What the first `n` centroids say, centroid by centroid.
proof fn lemma_recognized_upto(
    voices: Seq<Voiceprint>,
    model: Seq<char>,
    centroids: Seq<ClusterCentroid>,
    scores: Seq<Vec<i64>>,
    n: int,
)
    requires
        0 <= n <= centroids.len() == scores.len(),
        one_centroid_each(centroids),
    ensures
        forall|k: int|
            0 <= k < n ==> {
                let names = applied(voices, model, centroids, scores, n);
                let maybe = suggested(voices, model, centroids, scores, n);
                let c = (#[trigger] centroids[k]).cluster;
                let found = recognized(centroids[k].clean_ns as int, scores[k]@);
                &&& names.contains_key(c) <==> found is Certain
                &&& found matches Recognition::Certain(b) ==> names[c] == candidate_name(
                    voices,
                    model,
                    b,
                )
                &&& maybe.contains_key(c) <==> found is Possible
                &&& found matches Recognition::Possible(b) ==> maybe[c] == (
                    candidate_name(voices, model, b),
                    scores[k]@[b as int],
                )
            },
        forall|c: usize|
            (#[trigger] applied(voices, model, centroids, scores, n).contains_key(c)) ==> exists|
                k: int,
            |
                0 <= k < n && (#[trigger] centroids[k]).cluster == c,
        forall|c: usize|
            (#[trigger] suggested(voices, model, centroids, scores, n).contains_key(c)) ==> exists|
                k: int,
            |
                0 <= k < n && (#[trigger] centroids[k]).cluster == c,
    decreases n,
{
    if n > 0 {
        lemma_recognized_upto(voices, model, centroids, scores, n - 1);
        let last = centroids[n - 1].cluster;
        assert forall|k: int| 0 <= k < n - 1 implies (#[trigger] centroids[k]).cluster != last by {
            assert(centroids[k].cluster != centroids[n - 1].cluster);
        }
        let names = applied(voices, model, centroids, scores, n - 1);
        let maybe = suggested(voices, model, centroids, scores, n - 1);
        assert(!names.contains_key(last));
        assert(!maybe.contains_key(last));
        assert forall|c: usize|
            (#[trigger] applied(voices, model, centroids, scores, n).contains_key(c)) implies exists|
            k: int,
        |
            0 <= k < n && (#[trigger] centroids[k]).cluster == c by {
            if c == last {
                assert(centroids[n - 1].cluster == c);
            } else {
                assert(names.contains_key(c));
            }
        }
        assert forall|c: usize|
            (#[trigger] suggested(voices, model, centroids, scores, n).contains_key(
                c,
            )) implies exists|k: int| 0 <= k < n && (#[trigger] centroids[k]).cluster == c by {
            if c == last {
                assert(centroids[n - 1].cluster == c);
            } else {
                assert(maybe.contains_key(c));
            }
        }
    }
}

// ---------------------------------------------------------------------
// The library

/// Voice `v` is this person's in this model.
pub open spec fn is_voice(v: Voiceprint, name: Seq<char>, model: Seq<char>) -> bool {
    v.model@ == model && text::same_ascii_fold(v.name@, name)
}

/// `i` is the first voice of this person in this model.
pub open spec fn voice_at(voices: Seq<Voiceprint>, name: Seq<char>, model: Seq<char>, i: int) -> bool {
    &&& 0 <= i < voices.len()
    &&& is_voice(voices[i], name, model)
    &&& forall|j: int| 0 <= j < i ==> !is_voice(#[trigger] voices[j], name, model)
}

/// The first voice of this person in this model.
pub fn find_voice(lib: &VoiceLibrary, name: &str, model: &str) -> (r: Option<usize>)
    ensures
        match r {
            Some(i) => voice_at(lib.voices@, name@, model@, i as int),
            None => forall|j: int|
                0 <= j < lib.voices@.len() ==> !is_voice(#[trigger] lib.voices@[j], name@, model@),
        },
{
    let mut i: usize = 0;
    while i < lib.voices.len()
        invariant
            i <= lib.voices@.len(),
            forall|j: int| 0 <= j < i ==> !is_voice(#[trigger] lib.voices@[j], name@, model@),
        decreases lib.voices@.len() - i,
    {
        if same_text(lib.voices[i].model.as_str(), model) && eq_ignore_ascii_case(
            lib.voices[i].name.as_str(),
            name,
        ) {
            return Some(i);
        }
        i += 1;
    }
    None
}

/// The weights of an existing print and a new centroid in their average. That
/// of the print is capped, so a long-known voice still adapts.
pub fn merge_weights(print_clean: Nanos, new_clean: Nanos) -> (r: (Nanos, Nanos))
    ensures
        r.0 == if print_clean < PRINT_WEIGHT_CAP_NS {
            print_clean
        } else {
            PRINT_WEIGHT_CAP_NS
        },
        r.1 == new_clean,
{
    if print_clean < PRINT_WEIGHT_CAP_NS {
        (print_clean, new_clean)
    } else {
        (PRINT_WEIGHT_CAP_NS, new_clean)
    }
}

/// The library after a centroid was added to a person's voice at `now`: an
/// existing print takes the merged embedding where there is one, a new person
/// gets the centroid's.
pub open spec fn upserted(
    before: Seq<Voiceprint>,
    name: Seq<char>,
    model: Seq<char>,
    c: ClusterCentroid,
    merged: Option<Vec<u32>>,
    now: Seq<char>,
    after: Seq<Voiceprint>,
) -> bool {
    if exists|i: int| #[trigger] voice_at(before, name, model, i) {
        exists|i: int| #[trigger]
            voice_at(before, name, model, i) && {
                let (was, is) = (before[i], after[i]);
                &&& after == before.update(i, is)
                &&& is.name == was.name
                &&& is.model == was.model
                &&& is.embedding@ == match merged {
                    Some(e) => e@,
                    None => was.embedding@,
                }
                &&& is.clean_ns == was.clean_ns + c.clean_ns
                &&& is.meetings == was.meetings + 1
                &&& is.updated_at@ == now
            }
    } else {
        let is = after[before.len() as int];
        &&& after == before.push(is)
        &&& is.name@ == name
        &&& is.model@ == model
        &&& is.embedding@ == c.embedding@
        &&& is.clean_ns == c.clean_ns
        &&& is.meetings == 1
        &&& is.updated_at@ == now
    }
}

/// The counters of a person's print leave room for one more meeting.
pub open spec fn has_room(
    voices: Seq<Voiceprint>,
    name: Seq<char>,
    model: Seq<char>,
    c: ClusterCentroid,
) -> bool {
    forall|i: int| #[trigger]
        voice_at(voices, name, model, i) ==> voices[i].meetings < u32::MAX && i64::MIN
            <= voices[i].clean_ns + c.clean_ns <= i64::MAX
}

/// Add or refresh a named print from a cluster centroid. `merged` is the
/// weighted average with the existing print, unless that has no direction.
pub fn upsert_voice_at(
    lib: &mut VoiceLibrary,
    name: &str,
    model: &str,
    c: &ClusterCentroid,
    merged: Option<Vec<u32>>,
    now: String,
)
    requires
        has_room(old(lib).voices@, name@, model@, *c),
    ensures
        final(lib).local_name == old(lib).local_name,
        upserted(old(lib).voices@, name@, model@, *c, merged, now@, final(lib).voices@),
{
    let ghost before = lib.voices@;
    match find_voice(lib, name, model) {
        Some(i) => {
            let mut v = lib.voices.remove(i);
            match merged {
                Some(e) => {
                    v.embedding = e;
                },
                None => {},
            }
            v.clean_ns = v.clean_ns + c.clean_ns;
            v.meetings = v.meetings + 1;
            v.updated_at = now;
            lib.voices.insert(i, v);
            assert(lib.voices@ =~= before.update(i as int, lib.voices@[i as int]));
            assert(voice_at(before, name@, model@, i as int));
        },
        None => {
            let mut embedding: Vec<u32> = Vec::new();
            let mut k: usize = 0;
            while k < c.embedding.len()
                invariant
                    k <= c.embedding@.len(),
                    embedding@ == c.embedding@.take(k as int),
                decreases c.embedding@.len() - k,
            {
                embedding.push(c.embedding[k]);
                assert(embedding@ =~= c.embedding@.take(k + 1));
                k += 1;
            }
            assert(c.embedding@.take(k as int) =~= c.embedding@);
            lib.voices.push(
                Voiceprint {
                    name: name.to_owned(),
                    model: model.to_owned(),
                    embedding,
                    clean_ns: c.clean_ns,
                    meetings: 1,
                    updated_at: now,
                },
            );
            assert(lib.voices@ =~= before.push(lib.voices@[before.len() as int]));
        },
    }
}

/// Add or refresh a named print from a cluster centroid, as of now.
pub fn upsert_voice(
    lib: &mut VoiceLibrary,
    name: &str,
    model: &str,
    c: &ClusterCentroid,
    merged: Option<Vec<u32>>,
)
    requires
        has_room(old(lib).voices@, name@, model@, *c),
    ensures
        final(lib).local_name == old(lib).local_name,
        exists|now: Seq<char>| #[trigger]
            upserted(old(lib).voices@, name@, model@, *c, merged, now, final(lib).voices@),
{
    let now = now_rfc3339();
    upsert_voice_at(lib, name, model, c, merged, now);
}

/// Delete all prints of a person in a model. Fails when there is none.
pub fn voice_delete(lib: &mut VoiceLibrary, name: &str, model: &str) -> (r: Result<(), String>)
    ensures
        final(lib).local_name == old(lib).local_name,
        final(lib).voices@ == old(lib).voices@.filter(
            |v: Voiceprint| !is_voice(v, name@, model@),
        ),
        r is Err <==> final(lib).voices@.len() == old(lib).voices@.len(),
        r matches Err(e) ==> e@ == "no such voice"@,
{
    let ghost before = lib.voices@;
    let ghost keep = |v: Voiceprint| !is_voice(v, name@, model@);
    let total: usize = lib.voices.len();
    let mut i: usize = 0;
    let ghost mut done: int = 0;
    reveal(Seq::filter);
    assert(before.take(0).filter(keep) + before.skip(0) =~= before);
    while i < lib.voices.len()
        invariant
            keep == (|v: Voiceprint| !is_voice(v, name@, model@)),
            0 <= done <= before.len(),
            lib.voices@ == before.take(done).filter(keep) + before.skip(done),
            i == before.take(done).filter(keep).len(),
            lib.local_name == old(lib).local_name,
        decreases before.len() - done,
    {
        proof {
            reveal(Seq::filter);
            assert(lib.voices@[i as int] == before[done]);
            assert(before.take(done + 1).drop_last() =~= before.take(done));
        }
        if same_text(lib.voices[i].model.as_str(), model) && eq_ignore_ascii_case(
            lib.voices[i].name.as_str(),
            name,
        ) {
            lib.voices.remove(i);
        } else {
            i += 1;
        }
        proof {
            done = done + 1;
            assert(lib.voices@ =~= before.take(done).filter(keep) + before.skip(done));
        }
    }
    proof {
        assert(done == before.len());
        assert(before.take(done) =~= before);
        assert(lib.voices@ =~= before.filter(keep));
    }
    if lib.voices.len() == total {
        Err("no such voice".to_owned())
    } else {
        Ok(())
    }
}

/// A library takes a centroid in at one place only: the first print of that
/// name, letter case aside, and model, which then counts one meeting and the
/// centroid's clean speech more and keeps its name, or a new print at the end
/// when there is no such print. All others stay as they are.
pub proof fn law_upserted(
    before: Seq<Voiceprint>,
    name: Seq<char>,
    model: Seq<char>,
    c: ClusterCentroid,
    merged: Option<Vec<u32>>,
    now: Seq<char>,
    after: Seq<Voiceprint>,
)
    requires
        upserted(before, name, model, c, merged, now, after),
    ensures
        (exists|i: int|
            0 <= i < before.len() && (#[trigger] before[i]).model@ == model && text::same_ascii_fold(
                before[i].name@,
                name,
            )) ==> after.len() == before.len() && exists|i: int|
            #![trigger before[i]]
            0 <= i < before.len() && before[i].model@ == model && text::same_ascii_fold(
                before[i].name@,
                name,
            ) && (forall|j: int|
                0 <= j < i && (#[trigger] before[j]).model@ == model ==> !text::same_ascii_fold(
                    before[j].name@,
                    name,
                )) && after[i].name == before[i].name && after[i].model == before[i].model
                && after[i].meetings == before[i].meetings + 1 && after[i].clean_ns
                == before[i].clean_ns + c.clean_ns && after[i].updated_at@ == now
                && after[i].embedding@ == (match merged {
                Some(e) => e@,
                None => before[i].embedding@,
            }) && (forall|j: int|
                0 <= j < before.len() && j != i ==> #[trigger] after[j] == before[j]),
        !(exists|i: int|
            0 <= i < before.len() && (#[trigger] before[i]).model@ == model && text::same_ascii_fold(
                before[i].name@,
                name,
            )) ==> {
            let x = after[before.len() as int];
            &&& after.len() == before.len() + 1
            &&& forall|j: int| 0 <= j < before.len() ==> #[trigger] after[j] == before[j]
            &&& x.name@ == name
            &&& x.model@ == model
            &&& x.embedding@ == c.embedding@
            &&& x.clean_ns == c.clean_ns
            &&& x.meetings == 1
            &&& x.updated_at@ == now
        },
{
    let known = exists|i: int|
        0 <= i < before.len() && (#[trigger] before[i]).model@ == model && text::same_ascii_fold(
            before[i].name@,
            name,
        );
    if known {
        let p = choose|i: int|
            0 <= i < before.len() && (#[trigger] before[i]).model@ == model && text::same_ascii_fold(
                before[i].name@,
                name,
            );
        let f = lemma_first_voice(before, name, model, p);
        assert(voice_at(before, name, model, f));
        let i = choose|i: int| #[trigger]
            voice_at(before, name, model, i) && {
                let (was, is) = (before[i], after[i]);
                &&& after == before.update(i, is)
                &&& is.name == was.name
                &&& is.model == was.model
                &&& is.embedding@ == match merged {
                    Some(e) => e@,
                    None => was.embedding@,
                }
                &&& is.clean_ns == was.clean_ns + c.clean_ns
                &&& is.meetings == was.meetings + 1
                &&& is.updated_at@ == now
            };
        assert(before[i].model@ == model);
        assert forall|j: int|
            0 <= j < i && (#[trigger] before[j]).model@ == model implies !text::same_ascii_fold(
            before[j].name@,
            name,
        ) by {
            assert(!is_voice(before[j], name, model));
        }
    } else {
        assert forall|i: int| !(#[trigger] voice_at(before, name, model, i)) by {
            if voice_at(before, name, model, i) {
                assert(before[i].model@ == model);
            }
        }
    }
}

/// The first voice of a person up to one that is known.
proof fn lemma_first_voice(voices: Seq<Voiceprint>, name: Seq<char>, model: Seq<char>, p: int) -> (f:
    int)
    requires
        0 <= p < voices.len(),
        is_voice(voices[p], name, model),
    ensures
        voice_at(voices, name, model, f),
    decreases p,
{
    if exists|j: int| 0 <= j < p && is_voice(#[trigger] voices[j], name, model) {
        let j = choose|j: int| 0 <= j < p && is_voice(#[trigger] voices[j], name, model);
        lemma_first_voice(voices, name, model, j)
    } else {
        p
    }
}

/// Deleting a person takes out every print of that name, letter case aside, in
/// the model, and no other one.
pub proof fn law_deleted(voices: Seq<Voiceprint>, name: Seq<char>, model: Seq<char>, v: Voiceprint)
    ensures
        voices.filter(|x: Voiceprint| !is_voice(x, name, model)).contains(v) <==> voices.contains(v)
            && !(v.model@ == model && text::same_ascii_fold(v.name@, name)),
        is_voice(v, name, model) <==> v.model@ == model && text::same_ascii_fold(v.name@, name),
{
    let keep = |x: Voiceprint| !is_voice(x, name, model);
    lemma_filter_holds(voices, keep, v);
}

proof fn lemma_filter_holds(
    voices: Seq<Voiceprint>,
    keep: spec_fn(Voiceprint) -> bool,
    v: Voiceprint,
)
    ensures
        voices.filter(keep).contains(v) <==> voices.contains(v) && keep(v),
    decreases voices.len(),
{
    reveal(Seq::filter);
    if voices.len() > 0 {
        let init = voices.drop_last();
        let n = voices.len() - 1;
        lemma_filter_holds(init, keep, v);
        let head = init.filter(keep);
        let out = voices.filter(keep);
        if out.contains(v) {
            let k = choose|k: int| 0 <= k < out.len() && out[k] == v;
            if k < head.len() {
                assert(head[k] == v);
                assert(head.contains(v));
                let m = choose|m: int| 0 <= m < init.len() && init[m] == v;
                assert(voices[m] == v);
            } else {
                assert(voices[n] == v);
            }
        }
        if voices.contains(v) && keep(v) {
            let m = choose|m: int| 0 <= m < voices.len() && voices[m] == v;
            if m < n {
                assert(init[m] == v);
                let k = choose|k: int| 0 <= k < head.len() && head[k] == v;
                assert(out[k] == v);
            } else {
                assert(out[head.len() as int] == v);
            }
        }
    }
}

/// How strong a match is.
pub fn strength_word(similarity: i64) -> (r: &'static str)
    ensures
        similarity >= MATCH_STRONG ==> r@ == "strong"@,
        MATCH_SUGGEST <= similarity < MATCH_STRONG ==> r@ == "possible"@,
        similarity < MATCH_SUGGEST ==> r@ == "weak"@,
{
    if similarity >= MATCH_STRONG {
        "strong"
    } else if similarity >= MATCH_SUGGEST {
        "possible"
    } else {
        "weak"
    }
}

// ---------------------------------------------------------------------
// Renaming

/// A rename that is allowed: the trimmed name, or why it is refused.
pub fn check_rename(name: &str, cluster: usize) -> (r: Result<String, String>)
    ensures
        match r {
            Ok(n) => text::trimmed(name@).len() > 0 && cluster != LOCAL_SPEAKER && n@
                == text::trimmed(name@),
            Err(e) => if text::trimmed(name@).len() == 0 {
                e@ == "name is empty"@
            } else {
                cluster == LOCAL_SPEAKER && e@
                    == "the local speaker is identified by the mic channel"@
            },
        },
{
    let t = trim(name);
    if t.as_str().is_empty() {
        return Err("name is empty".to_owned());
    }
    if cluster == LOCAL_SPEAKER {
        return Err("the local speaker is identified by the mic channel".to_owned());
    }
    Ok(t)
}

/// What the rows of a cluster show now: its name, else its generated label.
pub fn current_display(ms: &MeetingSpeakers, cluster: usize) -> (r: String)
    ensures
        r@ == match named(*ms, cluster) {
            Some(name) => name,
            None => diarization::label_of(cluster as int),
        },
{
    match name_of(ms, cluster) {
        Some(name) => name,
        None => speaker_label(cluster),
    }
}

/// Confirm a name of a cluster: it replaces an applied one and settles the
/// suggestion.
pub fn set_name(ms: &mut MeetingSpeakers, cluster: usize, name: String)
    ensures
        final(ms).names@ == old(ms).names@.insert(cluster, name),
        final(ms).auto@ == old(ms).auto@.remove(cluster),
        final(ms).suggestions@ == old(ms).suggestions@.remove(cluster),
        final(ms).model == old(ms).model,
        final(ms).centroids == old(ms).centroids,
{
    ms.names.insert(cluster, name);
    ms.auto.remove(&cluster);
    ms.suggestions.remove(&cluster);
    assert(ms.auto@ =~= old(ms).auto@.remove(cluster));
    assert(ms.suggestions@ =~= old(ms).suggestions@.remove(cluster));
}

/// What a "not this person" takes back: the name that the rows show, unless
/// there is none.
pub fn clear_name(ms: &mut MeetingSpeakers, cluster: usize) -> (r: Option<String>)
    ensures
        text::opt(r) == named(*old(ms), cluster),
        final(ms).names@ == old(ms).names@.remove(cluster),
        final(ms).auto@ == old(ms).auto@.remove(cluster),
        final(ms).suggestions@ == old(ms).suggestions@,
        final(ms).model == old(ms).model,
        final(ms).centroids == old(ms).centroids,
{
    let was = name_of(ms, cluster);
    ms.names.remove(&cluster);
    ms.auto.remove(&cluster);
    assert(ms.names@ =~= old(ms).names@.remove(cluster));
    assert(ms.auto@ =~= old(ms).auto@.remove(cluster));
    was
}

/// A confirmed name is what is shown from then on, whatever was there, and a
/// cleared one gives way to the generated label. Other clusters keep theirs.
pub proof fn law_rename_and_clear(
    ms: MeetingSpeakers,
    set: MeetingSpeakers,
    cleared: MeetingSpeakers,
    cluster: usize,
    name: String,
    other: usize,
)
    requires
        set.names@ == ms.names@.insert(cluster, name),
        set.auto@ == ms.auto@.remove(cluster),
        cleared.names@ == set.names@.remove(cluster),
        cleared.auto@ == set.auto@.remove(cluster),
    ensures
        named(set, cluster) == Some(name@),
        named(cleared, cluster) is None,
        other != cluster ==> named(set, other) == named(ms, other) && named(cleared, other) == named(
            ms,
            other,
        ),
{
}

/// Whether the voice of a renamed cluster can be remembered.
#[derive(Debug, Clone, Copy, PartialEq, Eq, Structural)]
pub enum Remember {
    /// The cluster has no centroid.
    NoCentroid,
    /// It has too little clean speech.
    TooShort,
    /// The centroid with this number is to be saved.
    Save(usize),
}

/// `i` is the first centroid of the cluster.
pub open spec fn centroid_at(centroids: Seq<ClusterCentroid>, cluster: usize, i: int) -> bool {
    &&& 0 <= i < centroids.len()
    &&& centroids[i].cluster == cluster
    &&& forall|j: int| 0 <= j < i ==> (#[trigger] centroids[j]).cluster != cluster
}

/// Whether a cluster can be remembered, as its first centroid says.
pub open spec fn memory(centroids: Seq<ClusterCentroid>, cluster: usize, r: Remember) -> bool {
    match r {
        Remember::NoCentroid => forall|j: int|
            0 <= j < centroids.len() ==> (#[trigger] centroids[j]).cluster != cluster,
        Remember::TooShort => exists|i: int| #[trigger]
            centroid_at(centroids, cluster, i) && centroids[i].clean_ns < MIN_CLEAN_NS,
        Remember::Save(i) => centroid_at(centroids, cluster, i as int) && centroids[i as int].clean_ns
            >= MIN_CLEAN_NS,
    }
}

/// Whether the voice of a cluster can be remembered.
pub fn can_remember(ms: &MeetingSpeakers, cluster: usize) -> (r: Remember)
    ensures
        memory(ms.centroids@, cluster, r),
{
    let mut i: usize = 0;
    while i < ms.centroids.len()
        invariant
            i <= ms.centroids@.len(),
            forall|j: int| 0 <= j < i ==> (#[trigger] ms.centroids@[j]).cluster != cluster,
        decreases ms.centroids@.len() - i,
    {
        if ms.centroids[i].cluster == cluster {
            assert(centroid_at(ms.centroids@, cluster, i as int));
            return if ms.centroids[i].clean_ns >= MIN_CLEAN_NS {
                Remember::Save(i)
            } else {
                Remember::TooShort
            };
        }
        i += 1;
    }
    Remember::NoCentroid
}

/// A voice is remembered from the first centroid of its cluster, when that has
/// ten seconds of clean speech or more.
pub proof fn law_memory(centroids: Seq<ClusterCentroid>, cluster: usize, r: Remember, i: int)
    requires
        memory(centroids, cluster, r),
        0 <= i < centroids.len(),
        centroids[i].cluster == cluster,
        forall|j: int| 0 <= j < i ==> (#[trigger] centroids[j]).cluster != cluster,
    ensures
        centroids[i].clean_ns >= 10_000_000_000 ==> r == Remember::Save(i as usize),
        centroids[i].clean_ns < 10_000_000_000 ==> r == Remember::TooShort,
{
    match r {
        Remember::Save(k) => {
            if k < i {
                assert(centroids[k as int].cluster != cluster);
            }
        },
        Remember::TooShort => {
            let k = choose|k: int| #[trigger]
                centroid_at(centroids, cluster, k) && centroids[k].clean_ns < MIN_CLEAN_NS;
            if k < i {
                assert(centroids[k].cluster != cluster);
            }
        },
        Remember::NoCentroid => {},
    }
}

/// A rename that was carried out on the speakers of a meeting.
#[derive(Debug)]
pub struct Renamed {
    /// What the rows of the cluster showed until now.
    pub was: String,
    /// What they show from now on.
    pub name: String,
    /// Whether the voice can be remembered, if that was asked for.
    pub remember: Option<Remember>,
}

/// Rename a cluster of a meeting: the confirmed name replaces what was shown.
/// Nothing changes when the rename is refused.
pub fn speaker_rename(
    ms: &mut MeetingSpeakers,
    cluster: usize,
    name: &str,
    remember: bool,
) -> (r: Result<Renamed, String>)
    ensures
        r is Ok <==> text::trimmed(name@).len() > 0 && cluster != LOCAL_SPEAKER,
        r matches Err(e) ==> *final(ms) == *old(ms) && e@ == if text::trimmed(name@).len() == 0 {
            "name is empty"@
        } else {
            "the local speaker is identified by the mic channel"@
        },
        r matches Ok(x) ==> {
            &&& x.name@ == text::trimmed(name@)
            &&& x.was@ == match named(*old(ms), cluster) {
                Some(shown) => shown,
                None => diarization::label_of(cluster as int),
            }
            &&& final(ms).names@.contains_key(cluster)
            &&& final(ms).names@[cluster]@ == x.name@
            &&& final(ms).names@.remove(cluster) == old(ms).names@.remove(cluster)
            &&& final(ms).auto@ == old(ms).auto@.remove(cluster)
            &&& final(ms).suggestions@ == old(ms).suggestions@.remove(cluster)
            &&& final(ms).model == old(ms).model
            &&& final(ms).centroids == old(ms).centroids
            &&& x.remember is Some <==> remember
            &&& x.remember matches Some(m) ==> memory(old(ms).centroids@, cluster, m)
        },
{
    let fresh = match check_rename(name, cluster) {
        Ok(fresh) => fresh,
        Err(e) => {
            return Err(e);
        },
    };
    let was = current_display(ms, cluster);
    set_name(ms, cluster, fresh.as_str().to_owned());
    assert(ms.names@.remove(cluster) =~= old(ms).names@.remove(cluster));
    let kept: Option<Remember> = if remember {
        Some(can_remember(ms, cluster))
    } else {
        None
    };
    Ok(Renamed { was, name: fresh, remember: kept })
}

/// Names and offers mean what they hold, under the same clusters.
pub proof fn law_named(names: Map<usize, String>, offered: Map<usize, Suggestion>, c: usize)
    ensures
        texts(names).contains_key(c) <==> names.contains_key(c),
        names.contains_key(c) ==> texts(names)[c] == names[c]@,
        offers(offered).contains_key(c) <==> offered.contains_key(c),
        offered.contains_key(c) ==> offers(offered)[c].0 == offered[c].name@,
        offered.contains_key(c) ==> offers(offered)[c].1 == offered[c].similarity,
{
}

/// The limits of recognition: similarities in billionths, times in nanoseconds.
pub proof fn law_limits()
    ensures
        MATCH_STRONG == 75 * 10_000_000,
        MATCH_SUGGEST == 60 * 10_000_000,
        MATCH_MARGIN == 10 * 10_000_000,
        MIN_CLEAN_NS == 10 * 1_000_000_000,
        PRINT_WEIGHT_CAP_NS == 5 * 60 * 1_000_000_000,
        MAX_CANDIDATES == 5,
{
}

} // verus!
