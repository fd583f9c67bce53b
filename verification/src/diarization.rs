//! Speaker diarization: the timed words and turns of a recording, the
//! diarizer's segments, and the exchange with the diarization helper process.
use vstd::prelude::*;
use crate::json;
use crate::text;
use crate::text::{chars_of, decimal_of, matches_at, parse_i32, same_text, slice_of, string_of, trim};
use crate::timeline::Nanos;

verus! {

/// One decoded token: its text (a leading space opens a word), its span on
/// the recording timeline and its decoding probability in parts per billion.
#[derive(Debug)]
pub struct WordSpan {
    pub text: String,
    pub start_ns: Nanos,
    pub end_ns: Nanos,
    pub prob_ppb: u32,
}

impl Clone for WordSpan {
    fn clone(&self) -> (r: Self)
        ensures
            r == *self,
    {
        WordSpan {
            text: self.text.clone(),
            start_ns: self.start_ns,
            end_ns: self.end_ns,
            prob_ppb: self.prob_ppb,
        }
    }
}

/// A stretch of speech attributed to one speaker (or to nobody).
#[derive(Debug)]
pub struct SpeakerTurn {
    pub text: String,
    pub start_ns: Nanos,
    pub end_ns: Nanos,
    pub speaker: Option<usize>,
    pub words: Vec<WordSpan>,
}

/// The speaker number of the local user, found by channel and not by voice.
pub const LOCAL_SPEAKER: usize = usize::MAX;

/// A stretch of the recording in which the diarizer hears one speaker.
#[derive(Debug, Clone, Copy, PartialEq, Eq, Structural)]
pub struct DiarizedSegment {
    pub start: Nanos,
    pub end: Nanos,
    pub speaker: usize,
}

/// The contents of a turn.
pub struct TurnView {
    pub text: Seq<char>,
    pub start_ns: Nanos,
    pub end_ns: Nanos,
    pub speaker: Option<usize>,
    pub words: Seq<WordSpan>,
}

impl View for SpeakerTurn {
    type V = TurnView;

    open spec fn view(&self) -> TurnView {
        TurnView {
            text: self.text@,
            start_ns: self.start_ns,
            end_ns: self.end_ns,
            speaker: self.speaker,
            words: self.words@,
        }
    }
}

/// The contents of a list of turns.
pub open spec fn turn_views(turns: Seq<SpeakerTurn>) -> Seq<TurnView> {
    Seq::new(turns.len(), |i: int| turns[i]@)
}

/// The texts of `words`, one after the other.
pub open spec fn spans_text(words: Seq<WordSpan>) -> Seq<char>
    decreases words.len(),
{
    if words.len() == 0 {
        Seq::empty()
    } else {
        spans_text(words.drop_last()) + words.last().text@
    }
}

/// The words of all turns, in order.
pub open spec fn conversation(turns: Seq<TurnView>) -> Seq<WordSpan>
    decreases turns.len(),
{
    if turns.len() == 0 {
        Seq::empty()
    } else {
        conversation(turns.drop_last()) + turns.last().words
    }
}

impl Clone for SpeakerTurn {
    fn clone(&self) -> (r: Self)
        ensures
            r@ == self@,
    {
        let words = self.words.clone();
        assert(words@ =~= self.words@);
        SpeakerTurn {
            text: self.text.clone(),
            start_ns: self.start_ns,
            end_ns: self.end_ns,
            speaker: self.speaker,
            words,
        }
    }
}

/// The texts of `words[lo..hi]`, one after the other.
pub fn concat_spans(words: &[WordSpan], lo: usize, hi: usize) -> (r: String)
    requires
        lo <= hi <= words.len(),
    ensures
        r@ == spans_text(words@.subrange(lo as int, hi as int)),
{
    let mut out = String::new();
    let mut i: usize = lo;
    assert(words@.subrange(lo as int, lo as int) =~= Seq::empty());
    while i < hi
        invariant
            lo <= i <= hi <= words.len(),
            out@ == spans_text(words@.subrange(lo as int, i as int)),
        decreases hi - i,
    {
        out.append(words[i].text.as_str());
        proof {
            let t = words@.subrange(lo as int, i + 1);
            assert(t.drop_last() =~= words@.subrange(lo as int, i as int));
        }
        i += 1;
    }
    out
}

/// The turn with the given words in place of its own: text and time bounds
/// are those of the words, and a turn without words keeps its bounds.
pub open spec fn with_words(turn: TurnView, words: Seq<WordSpan>) -> TurnView {
    TurnView {
        text: spans_text(words),
        start_ns: if words.len() > 0 {
            words[0].start_ns
        } else {
            turn.start_ns
        },
        end_ns: if words.len() > 0 {
            words.last().end_ns
        } else {
            turn.end_ns
        },
        speaker: turn.speaker,
        words,
    }
}

/// The conversation of two lists of turns is that of the first followed by
/// that of the second.
pub proof fn lemma_conversation_concat(a: Seq<TurnView>, b: Seq<TurnView>)
    ensures
        conversation(a + b) == conversation(a) + conversation(b),
    decreases b.len(),
{
    if b.len() == 0 {
        assert(a + b =~= a);
    } else {
        assert((a + b).drop_last() =~= a + b.drop_last());
        lemma_conversation_concat(a, b.drop_last());
    }
}

impl SpeakerTurn {
    /// Recompute the text and the time bounds from the words.
    pub fn rebuild_from_words(&mut self)
        ensures
            final(self)@ == with_words(old(self)@, old(self).words@),
    {
        let n: usize = self.words.len();
        self.text = concat_spans(&self.words, 0, n);
        assert(self.words@.subrange(0, n as int) =~= self.words@);
        if n > 0 {
            self.start_ns = self.words[0].start_ns;
            self.end_ns = self.words[n - 1].end_ns;
        }
    }
}

// ---------------------------------------------------------------------
// Labels

/// The display label of a speaker: one-based, and a word of its own for the
/// local user.
pub open spec fn label_of(speaker: int) -> Seq<char> {
    if speaker == LOCAL_SPEAKER {
        "You"@
    } else {
        "Speaker "@ + text::decimal((speaker + 1) as nat)
    }
}

/// One-based display label: speaker 0 is "Speaker 1". The local user is "You".
pub fn speaker_label(speaker_index: usize) -> (r: String)
    ensures
        r@ == label_of(speaker_index as int),
{
    if speaker_index == LOCAL_SPEAKER {
        return "You".to_owned();
    }
    let mut out = String::new();
    out.append("Speaker ");
    out.append(decimal_of(speaker_index as u64 + 1).as_str());
    assert(out@ =~= label_of(speaker_index as int));
    out
}

/// How long two spans overlap.
pub open spec fn overlap(a_start: int, a_end: int, b_start: int, b_end: int) -> int {
    let end = if a_end < b_end {
        a_end
    } else {
        b_end
    };
    let start = if a_start > b_start {
        a_start
    } else {
        b_start
    };
    if end > start {
        end - start
    } else {
        0
    }
}

/// How long two spans overlap.
fn overlap_ns(a_start: Nanos, a_end: Nanos, b_start: Nanos, b_end: Nanos) -> (r: u64)
    ensures
        r == overlap(a_start as int, a_end as int, b_start as int, b_end as int),
{
    let end: i128 = if a_end < b_end {
        a_end as i128
    } else {
        b_end as i128
    };
    let start: i128 = if a_start > b_start {
        a_start as i128
    } else {
        b_start as i128
    };
    if end > start {
        (end - start) as u64
    } else {
        0
    }
}

/// How long the span overlaps segment `k`.
pub open spec fn shared(start: int, end: int, diarized: Seq<DiarizedSegment>, k: int) -> int {
    overlap(start, end, diarized[k].start as int, diarized[k].end as int)
}

/// How long speaker `s` is heard in the span: the overlaps of all of that
/// speaker's segments together.
pub open spec fn total(start: int, end: int, diarized: Seq<DiarizedSegment>, s: usize) -> int
    decreases diarized.len(),
{
    if diarized.len() == 0 {
        0
    } else {
        total(start, end, diarized.drop_last(), s) + if diarized.last().speaker == s {
            shared(start, end, diarized, diarized.len() - 1)
        } else {
            0
        }
    }
}

/// Segment `k` overlaps the span, and its speaker is heard longest there. Of
/// speakers who are heard equally long, the one with the last such segment.
pub open spec fn most_heard(start: int, end: int, diarized: Seq<DiarizedSegment>, k: int) -> bool {
    &&& 0 <= k < diarized.len()
    &&& shared(start, end, diarized, k) > 0
    &&& forall|j: int|
        0 <= j < diarized.len() ==> total(
            start,
            end,
            diarized,
            (#[trigger] diarized[j]).speaker,
        ) <= total(start, end, diarized, diarized[k].speaker)
    &&& forall|j: int|
        k < j < diarized.len() && #[trigger] shared(start, end, diarized, j) > 0 ==> total(
            start,
            end,
            diarized,
            diarized[j].speaker,
        ) < total(start, end, diarized, diarized[k].speaker)
}

/// A speaker is heard exactly when one of that speaker's segments overlaps the
/// span, and never longer than all segments could be together.
proof fn lemma_total(start: int, end: int, diarized: Seq<DiarizedSegment>, s: usize)
    requires
        i64::MIN <= start <= i64::MAX,
        i64::MIN <= end <= i64::MAX,
    ensures
        0 <= total(start, end, diarized, s) <= diarized.len() * 0xffff_ffff_ffff_ffff,
        forall|k: int|
            0 <= k < diarized.len() && diarized[k].speaker == s ==> #[trigger] shared(
                start,
                end,
                diarized,
                k,
            ) <= total(start, end, diarized, s),
        (forall|k: int|
            0 <= k < diarized.len() && diarized[k].speaker == s ==> #[trigger] shared(
                start,
                end,
                diarized,
                k,
            ) == 0) ==> total(start, end, diarized, s) == 0,
    decreases diarized.len(),
{
    if diarized.len() > 0 {
        let rest = diarized.drop_last();
        lemma_total(start, end, rest, s);
        assert forall|k: int| 0 <= k < rest.len() implies #[trigger] shared(start, end, rest, k)
            == shared(start, end, diarized, k) by {}
        assert forall|k: int| 0 <= k < diarized.len() && diarized[k].speaker == s implies #[trigger] shared(
            start,
            end,
            diarized,
            k,
        ) <= total(start, end, diarized, s) by {
            if k < rest.len() {
                assert(shared(start, end, rest, k) <= total(start, end, rest, s));
            }
        }
    }
}

/// How long a speaker is heard in the span.
fn heard_ns(seg_start: Nanos, seg_end: Nanos, diarized: &[DiarizedSegment], speaker: usize) -> (r: u128)
    ensures
        r == total(seg_start as int, seg_end as int, diarized@, speaker),
{
    let mut sum: u128 = 0;
    let mut k: usize = 0;
    while k < diarized.len()
        invariant
            k <= diarized@.len(),
            sum == total(seg_start as int, seg_end as int, diarized@.take(k as int), speaker),
        decreases diarized@.len() - k,
    {
        let ghost next = diarized@.take(k + 1);
        proof {
            assert(next.drop_last() =~= diarized@.take(k as int));
            lemma_total(seg_start as int, seg_end as int, next, speaker);
        }
        let d: DiarizedSegment = diarized[k];
        if d.speaker == speaker {
            sum = sum + overlap_ns(seg_start, seg_end, d.start, d.end) as u128;
        }
        k += 1;
    }
    assert(diarized@.take(k as int) =~= diarized@);
    sum
}

/// The speaker who is heard longest in the span; nothing when no segment
/// overlaps it. Of speakers who are heard equally long, the one whose segment
/// comes last among those that overlap the span.
pub fn assign_speaker_label(seg_start: Nanos, seg_end: Nanos, diarized: &[DiarizedSegment]) -> (r: Option<
    usize,
>)
    ensures
        r is None <==> forall|k: int|
            0 <= k < diarized@.len() ==> #[trigger] shared(
                seg_start as int,
                seg_end as int,
                diarized@,
                k,
            ) == 0,
        r matches Some(s) ==> {
            &&& total(seg_start as int, seg_end as int, diarized@, s) > 0
            &&& forall|k: int|
                0 <= k < diarized@.len() ==> total(
                    seg_start as int,
                    seg_end as int,
                    diarized@,
                    (#[trigger] diarized@[k]).speaker,
                ) <= total(seg_start as int, seg_end as int, diarized@, s)
            &&& exists|k: int| #[trigger]
                most_heard(seg_start as int, seg_end as int, diarized@, k) && diarized@[k].speaker
                    == s
        },
{
    let ghost a = seg_start as int;
    let ghost b = seg_end as int;
    let mut best: Option<usize> = None;
    let mut most: u128 = 0;
    let mut k: usize = 0;
    while k < diarized.len()
        invariant
            a == seg_start,
            b == seg_end,
            k <= diarized@.len(),
            match best {
                Some(i) => {
                    &&& i < k
                    &&& most > 0
                    &&& shared(a, b, diarized@, i as int) > 0
                    &&& most == total(a, b, diarized@, diarized@[i as int].speaker)
                    &&& forall|j: int|
                        i < j < k && #[trigger] shared(a, b, diarized@, j) > 0 ==> total(
                            a,
                            b,
                            diarized@,
                            diarized@[j].speaker,
                        ) < most
                },
                None => most == 0 && forall|j: int|
                    0 <= j < k ==> #[trigger] shared(a, b, diarized@, j) == 0,
            },
            forall|j: int|
                0 <= j < k && #[trigger] shared(a, b, diarized@, j) > 0 ==> total(
                    a,
                    b,
                    diarized@,
                    diarized@[j].speaker,
                ) <= most,
        decreases diarized@.len() - k,
    {
        let d: DiarizedSegment = diarized[k];
        let o: u64 = overlap_ns(seg_start, seg_end, d.start, d.end);
        assert(o == shared(a, b, diarized@, k as int));
        if o > 0 {
            let heard: u128 = heard_ns(seg_start, seg_end, diarized, d.speaker);
            proof {
                lemma_total(a, b, diarized@, d.speaker);
            }
            if heard >= most {
                best = Some(k);
                most = heard;
            }
        }
        k += 1;
    }
    match best {
        Some(i) => {
            proof {
                assert forall|j: int| 0 <= j < diarized@.len() implies total(
                    a,
                    b,
                    diarized@,
                    (#[trigger] diarized@[j]).speaker,
                ) <= most by {
                    let s = diarized@[j].speaker;
                    lemma_total(a, b, diarized@, s);
                    if total(a, b, diarized@, s) > 0 {
                        let m = choose|m: int|
                            0 <= m < diarized@.len() && diarized@[m].speaker == s && #[trigger] shared(
                                a,
                                b,
                                diarized@,
                                m,
                            ) != 0;
                        assert(shared(a, b, diarized@, m) > 0);
                    }
                }
                assert(most_heard(a, b, diarized@, i as int));
            }
            Some(diarized[i].speaker)
        },
        None => None,
    }
}

/// The text of joined words is the text of the parts, one after the other, and
/// that of one word is its own.
pub proof fn law_spans_text(a: Seq<WordSpan>, b: Seq<WordSpan>, w: WordSpan)
    ensures
        spans_text(a + b) == spans_text(a) + spans_text(b),
        spans_text(seq![w]) == w.text@,
        spans_text(Seq::empty()).len() == 0,
    decreases b.len(),
{
    let one = seq![w];
    assert(one.drop_last() =~= Seq::<WordSpan>::empty());
    assert(spans_text(one.drop_last()) =~= Seq::<char>::empty());
    assert(spans_text(one) =~= w.text@);
    if b.len() == 0 {
        assert(a + b =~= a);
        assert(spans_text(a + b) =~= spans_text(a) + spans_text(b));
    } else {
        law_spans_text(a, b.drop_last(), w);
        assert((a + b).drop_last() =~= a + b.drop_last());
        assert(spans_text(a + b) =~= spans_text(a) + spans_text(b));
    }
}

/// A turn with other words says those words, from the first to the last of them,
/// and is still the same speaker's. Without words it keeps its time.
pub proof fn law_with_words(turn: TurnView, words: Seq<WordSpan>)
    ensures
        ({
            let now = with_words(turn, words);
            &&& now.words == words
            &&& now.speaker == turn.speaker
            &&& now.text == spans_text(words)
            &&& words.len() > 0 ==> now.start_ns == words[0].start_ns && now.end_ns
                == words[words.len() - 1].end_ns
            &&& words.len() == 0 ==> now.start_ns == turn.start_ns && now.end_ns == turn.end_ns
        }),
{
}

/// Everyone has a label of their own: the local user is "You", and the labels of
/// two other speakers differ.
pub proof fn law_labels_differ(a: usize, b: usize)
    ensures
        label_of(LOCAL_SPEAKER as int) == "You"@,
        a != b ==> label_of(a as int) != label_of(b as int),
        a != LOCAL_SPEAKER ==> label_of(a as int) == "Speaker "@ + text::decimal((a + 1) as nat),
{
    reveal_strlit("You");
    reveal_strlit("Speaker ");
    let (x, y) = (label_of(a as int), label_of(b as int));
    text::law_decimal_reads_back((a + 1) as nat);
    text::law_decimal_reads_back((b + 1) as nat);
    if a != b && x == y {
        if a == LOCAL_SPEAKER {
            assert(x[0] == 'Y' && y[0] == 'S');
        } else if b == LOCAL_SPEAKER {
            assert(x[0] == 'S' && y[0] == 'Y');
        } else {
            assert(x.skip(8) =~= text::decimal((a + 1) as nat));
            assert(y.skip(8) =~= text::decimal((b + 1) as nat));
        }
    }
}

/// Two spans overlap exactly as long as both go on: an instant range lies in both
/// exactly when it lies in their overlap, which has that length.
pub proof fn law_overlap(a: int, b: int, c: int, d: int)
    requires
        a <= b,
        c <= d,
    ensures
        overlap(a, b, c, d) == overlap(c, d, a, b),
        overlap(a, b, c, d) >= 0,
        b <= c || d <= a ==> overlap(a, b, c, d) == 0,
        a <= c && d <= b ==> overlap(a, b, c, d) == d - c,
        a <= c <= b <= d ==> overlap(a, b, c, d) == b - c,
{
}

/// How long a speaker is heard is what that speaker's segments share with the
/// span, each counted once; other speakers' segments add nothing.
pub proof fn law_total(
    start: int,
    end: int,
    a: Seq<DiarizedSegment>,
    b: Seq<DiarizedSegment>,
    x: DiarizedSegment,
    s: usize,
)
    ensures
        total(start, end, a + b, s) == total(start, end, a, s) + total(start, end, b, s),
        total(start, end, seq![x], s) == if x.speaker == s {
            overlap(start, end, x.start as int, x.end as int)
        } else {
            0
        },
        total(start, end, Seq::empty(), s) == 0,
    decreases b.len(),
{
    let one = seq![x];
    assert(one.drop_last() =~= Seq::<DiarizedSegment>::empty());
    assert(total(start, end, one.drop_last(), s) == 0);
    assert(one.last() == x);
    if b.len() == 0 {
        assert(a + b =~= a);
    } else {
        law_total(start, end, a, b.drop_last(), x, s);
        assert((a + b).drop_last() =~= a + b.drop_last());
        assert((a + b).last() == b.last());
    }
}

/// The speaker of a span is one of those heard longest in it. Where two are heard
/// equally long it is the one whose segment comes last.
pub proof fn law_most_heard(start: int, end: int, diarized: Seq<DiarizedSegment>, k: int, j: int)
    requires
        most_heard(start, end, diarized, k),
        0 <= j < diarized.len(),
    ensures
        0 <= k < diarized.len(),
        overlap(start, end, diarized[k].start as int, diarized[k].end as int) > 0,
        total(start, end, diarized, diarized[j].speaker) <= total(
            start,
            end,
            diarized,
            diarized[k].speaker,
        ),
        j > k && overlap(start, end, diarized[j].start as int, diarized[j].end as int) > 0 ==> total(
            start,
            end,
            diarized,
            diarized[j].speaker,
        ) < total(start, end, diarized, diarized[k].speaker),
{
    assert(shared(start, end, diarized, j) == overlap(
        start,
        end,
        diarized[j].start as int,
        diarized[j].end as int,
    ));
}

// ---------------------------------------------------------------------
// Models

/// Where the segmentation model comes from.
pub const SEGMENTATION_MODEL_URL: &'static str = "https://huggingface.co/csukuangfj/sherpa-onnx-pyannote-segmentation-3-0/resolve/main/model.onnx";

/// The segmentation model's file.
pub const SEGMENTATION_MODEL_FILENAME: &'static str = "segmentation-3.0.onnx";

/// A smaller segmentation model file is a partial download.
pub const SEGMENTATION_MODEL_MIN_BYTES: u64 = 5_000_000;

/// A smaller embedding model file is a partial download.
pub const EMBEDDING_MODEL_MIN_BYTES: u64 = 25_000_000;

/// The embedding model that is used unless another known one is asked for.
pub const DEFAULT_EMBEDDING_MODEL: &'static str = "campplus";

/// A speaker embedding model that can be fetched.
#[derive(Debug, Clone, Copy)]
pub struct EmbeddingModelSpec {
    pub key: &'static str,
    pub url: &'static str,
    pub filename: &'static str,
}

/// The embedding model of a key; an unknown key or none gives the default.
pub fn resolve_embedding_model(key: Option<&str>) -> (r: EmbeddingModelSpec)
    ensures
        key matches Some(k) && k@ == "eres2net"@ ==> r.key@ == "eres2net"@ && r.url@
            == "https://github.com/k2-fsa/sherpa-onnx/releases/download/speaker-recongition-models/3dspeaker_speech_eres2net_base_sv_zh-cn_3dspeaker_16k.onnx"@
            && r.filename@ == "eres2net-base-sv-3dspeaker-16k.onnx"@,
        !(key matches Some(k) && k@ == "eres2net"@) ==> r.key@ == DEFAULT_EMBEDDING_MODEL@ && r.url@
            == "https://github.com/k2-fsa/sherpa-onnx/releases/download/speaker-recongition-models/3dspeaker_speech_campplus_sv_zh_en_16k-common_advanced.onnx"@
            && r.filename@ == "campplus-zh-en-advanced-16k.onnx"@,
{
    let eres2net: bool = match key {
        Some(k) => same_text(k, "eres2net"),
        None => false,
    };
    if eres2net {
        EmbeddingModelSpec {
            key: "eres2net",
            url: "https://github.com/k2-fsa/sherpa-onnx/releases/download/speaker-recongition-models/3dspeaker_speech_eres2net_base_sv_zh-cn_3dspeaker_16k.onnx",
            filename: "eres2net-base-sv-3dspeaker-16k.onnx",
        }
    } else {
        EmbeddingModelSpec {
            key: DEFAULT_EMBEDDING_MODEL,
            url: "https://github.com/k2-fsa/sherpa-onnx/releases/download/speaker-recongition-models/3dspeaker_speech_campplus_sv_zh_en_16k-common_advanced.onnx",
            filename: "campplus-zh-en-advanced-16k.onnx",
        }
    }
}

/// Whether a file of the given size (none: it is not there) is a whole model.
pub fn is_whole_file(size: Option<u64>, min_bytes: u64) -> (r: bool)
    ensures
        r == (size matches Some(n) && n >= min_bytes),
{
    match size {
        Some(n) => n >= min_bytes,
        None => false,
    }
}

/// How often a download is tried.
pub const MAX_ATTEMPTS: u32 = 3;

/// Seconds to wait after failed attempt number `attempt` before the next one;
/// nothing when it was the last one.
pub fn retry_delay_secs(attempt: u32) -> (r: Option<u64>)
    ensures
        attempt < MAX_ATTEMPTS ==> r == Some((2 * attempt) as u64),
        attempt >= MAX_ATTEMPTS ==> r is None,
{
    if attempt < MAX_ATTEMPTS {
        Some(2 * attempt as u64)
    } else {
        None
    }
}

/// Progress of the first of two steps as progress of both.
pub fn first_half(pct: u32) -> (r: u32)
    ensures
        r == pct / 2,
{
    pct / 2
}

/// Progress of the second of two steps as progress of both.
pub fn second_half(pct: u32) -> (r: u32)
    ensures
        r == 50 + pct / 2,
{
    50 + pct / 2
}

/// Progress never runs backwards from the first step to the second, and both
/// together end at one hundred.
pub proof fn law_halves(a: u32, b: u32)
    requires
        a <= 100,
        b <= 100,
    ensures
        a / 2 <= 50 + b / 2 <= 100,
        50 + 100u32 / 2 == 100,
{
}

// ---------------------------------------------------------------------
// The helper process

/// How speakers are to be told apart.
#[derive(Debug)]
pub struct DiarizeOptions {
    pub enabled: bool,
    pub num_speakers: Option<u32>,
    /// The clustering threshold as a decimal numeral.
    pub threshold: Option<String>,
    pub embedding_model: Option<String>,
}

impl Default for DiarizeOptions {
    fn default() -> (r: Self)
        ensures
            !r.enabled,
            r.num_speakers is None,
            r.threshold is None,
            r.embedding_model is None,
    {
        DiarizeOptions { enabled: false, num_speakers: None, threshold: None, embedding_model: None }
    }
}

/// The arguments of the helper process.
pub open spec fn args_of(
    wav: Seq<char>,
    segmentation: Seq<char>,
    embedding: Seq<char>,
    num_speakers: Option<u32>,
    threshold: Option<Seq<char>>,
) -> Seq<Seq<char>> {
    let base = seq![
        "--audio"@,
        wav,
        "--segmentation-model"@,
        segmentation,
        "--embedding-model"@,
        embedding,
    ];
    let counted = match num_speakers {
        Some(n) => base.push("--num-speakers"@).push(text::decimal(n as nat)),
        None => base,
    };
    match threshold {
        Some(t) => counted.push("--threshold"@).push(t),
        None => counted,
    }
}

/// Append a copy of a text.
fn push_text(out: &mut Vec<String>, s: &str)
    ensures
        text::views(final(out)@) == text::views(old(out)@).push(s@),
{
    let t = s.to_owned();
    proof {
        text::lemma_views_push(out@, t);
    }
    out.push(t);
}

/// The arguments of the helper process.
pub fn helper_args(wav: &str, segmentation: &str, embedding: &str, opts: &DiarizeOptions) -> (r: Vec<
    String,
>)
    ensures
        text::views(r@) == args_of(
            wav@,
            segmentation@,
            embedding@,
            opts.num_speakers,
            text::opt(opts.threshold),
        ),
{
    let mut out: Vec<String> = Vec::new();
    assert(text::views(out@) =~= Seq::<Seq<char>>::empty());
    push_text(&mut out, "--audio");
    push_text(&mut out, wav);
    push_text(&mut out, "--segmentation-model");
    push_text(&mut out, segmentation);
    push_text(&mut out, "--embedding-model");
    push_text(&mut out, embedding);
    assert(text::views(out@) =~= seq![
        "--audio"@,
        wav@,
        "--segmentation-model"@,
        segmentation@,
        "--embedding-model"@,
        embedding@,
    ]);
    match opts.num_speakers {
        Some(n) => {
            push_text(&mut out, "--num-speakers");
            push_text(&mut out, decimal_of(n as u64).as_str());
        },
        None => {},
    }
    match &opts.threshold {
        Some(t) => {
            push_text(&mut out, "--threshold");
            push_text(&mut out, t.as_str());
        },
        None => {},
    }
    out
}

/// What a progress line of the helper says.
#[derive(Debug, Clone, Copy, PartialEq, Eq, Structural)]
pub enum HelperProgress {
    Percent(u32),
    Heartbeat,
}

/// What a line says about progress.
pub open spec fn progress_of(line: Seq<char>) -> Option<HelperProgress> {
    if !text::has_prefix(line, "PROGRESS "@) {
        None
    } else {
        match text::signed_value(text::trimmed(line.skip("PROGRESS "@.len() as int))) {
            Some(v) => if v == -1 {
                Some(HelperProgress::Heartbeat)
            } else if 0 <= v <= 100 {
                Some(HelperProgress::Percent(v as u32))
            } else {
                None
            },
            None => None,
        }
    }
}

/// Read a progress line: a percentage, or -1 as a sign of life.
pub fn parse_progress_line(line: &str) -> (r: Option<HelperProgress>)
    ensures
        r == progress_of(line@),
{
    let chars = chars_of(line);
    let prefix = chars_of("PROGRESS ");
    if !matches_at(&chars, &prefix, 0) {
        return None;
    }
    let rest = string_of(slice_of(&chars, prefix.len(), chars.len()));
    assert(rest@ =~= line@.skip("PROGRESS "@.len() as int));
    match parse_i32(trim(rest.as_str()).as_str()) {
        Some(v) => {
            if v == -1 {
                Some(HelperProgress::Heartbeat)
            } else if 0 <= v && v <= 100 {
                Some(HelperProgress::Percent(v as u32))
            } else {
                None
            }
        },
        None => None,
    }
}

/// A time span in words: minutes and seconds.
pub open spec fn elapsed_text(secs: nat) -> Seq<char> {
    if secs / 60 > 0 {
        text::decimal(secs / 60) + "m "@ + text::decimal(secs % 60) + "s"@
    } else {
        text::decimal(secs % 60) + "s"@
    }
}

/// A time span of so many seconds in words.
pub fn format_elapsed(secs: u64) -> (r: String)
    ensures
        r@ == elapsed_text(secs as nat),
{
    let mut out = String::new();
    if secs / 60 > 0 {
        out.append(decimal_of(secs / 60).as_str());
        out.append("m ");
    }
    out.append(decimal_of(secs % 60).as_str());
    out.append("s");
    assert(out@ =~= elapsed_text(secs as nat));
    out
}

/// The helper process is killed after this time.
pub const DIARIZE_TIMEOUT_NS: i64 = 1_800_000_000_000;

/// Silence of the helper process after which the elapsed time is reported.
pub const DIARIZE_IDLE_NS: i64 = 10_000_000_000;

/// Why a helper process that has been running for `elapsed` must be killed.
pub fn kill_reason(elapsed: Nanos, cancelled: bool) -> (r: Option<String>)
    ensures
        text::opt(r) == if elapsed > DIARIZE_TIMEOUT_NS {
            Some("diarize-helper timed out after 1800s"@)
        } else if cancelled {
            Some("Retranscription cancelled"@)
        } else {
            None
        },
{
    if elapsed > DIARIZE_TIMEOUT_NS {
        Some("diarize-helper timed out after 1800s".to_owned())
    } else if cancelled {
        Some("Retranscription cancelled".to_owned())
    } else {
        None
    }
}

/// The percentage that is known after some events.
pub open spec fn percent_after(pct: u32, events: Seq<HelperProgress>) -> u32
    decreases events.len(),
{
    if events.len() == 0 {
        pct
    } else {
        match events.last() {
            HelperProgress::Percent(p) => p,
            HelperProgress::Heartbeat => percent_after(pct, events.drop_last()),
        }
    }
}

/// What is reported of an event when `pct` percent are known.
pub open spec fn event_report(pct: u32, event: HelperProgress) -> (u32, Seq<char>) {
    match event {
        HelperProgress::Percent(p) => (
            p,
            "Identifying speakers... ("@ + text::decimal(p as nat) + "%)"@,
        ),
        HelperProgress::Heartbeat => (pct, "Identifying speakers..."@),
    }
}

/// What is reported of some events, one report each.
pub open spec fn event_reports(pct: u32, events: Seq<HelperProgress>) -> Seq<(u32, Seq<char>)>
    decreases events.len(),
{
    if events.len() == 0 {
        Seq::empty()
    } else {
        let before = events.drop_last();
        event_reports(pct, before).push(event_report(percent_after(pct, before), events.last()))
    }
}

/// What is reported when nothing was heard for too long.
pub open spec fn idle_report(pct: u32, now: int) -> (u32, Seq<char>) {
    (pct, "Identifying speakers... ("@ + elapsed_text((now / 1_000_000_000) as nat) + ")"@)
}

/// Reports with the contents of their messages.
pub open spec fn report_views(v: Seq<(u32, String)>) -> Seq<(u32, Seq<char>)> {
    Seq::new(v.len(), |i: int| (v[i].0, v[i].1@))
}

/// What is to be done about a running helper process.
#[derive(Debug)]
pub enum Tick {
    /// Kill it, and fail with this error.
    Kill(String),
    /// Pass on these percentages and messages, and wait on.
    Wait(Vec<(u32, String)>),
}

/// What has been heard of a running helper process.
#[derive(Debug, Clone, Copy, PartialEq, Eq, Structural)]
pub struct HelperWatch {
    /// The last percentage it told.
    pub last_pct: u32,
    /// When something was heard or reported last, since its start.
    pub heard_at: Nanos,
}

impl HelperWatch {
    /// Nothing has been heard yet.
    pub fn new() -> (r: Self)
        ensures
            r == (HelperWatch { last_pct: 0, heard_at: 0 }),
    {
        HelperWatch { last_pct: 0, heard_at: 0 }
    }

    /// When something was heard last, given the events up to `now`.
    pub open spec fn heard(self, now: Nanos, events: Seq<HelperProgress>) -> Nanos {
        if events.len() > 0 {
            now
        } else {
            self.heard_at
        }
    }

    /// Nothing was heard for too long.
    pub open spec fn overdue(self, now: Nanos, events: Seq<HelperProgress>) -> bool {
        now - self.heard(now, events) > DIARIZE_IDLE_NS
    }

    /// When something was heard or reported last, once the look at `now` is over.
    pub open spec fn last_sign(self, now: Nanos, events: Seq<HelperProgress>) -> Nanos {
        if self.overdue(now, events) {
            now
        } else {
            self.heard(now, events)
        }
    }

    /// Take in the events since the last look, `now` after the start. The
    /// process is killed when its time is up or the run was cancelled;
    /// otherwise each event is reported, and the elapsed time when nothing was
    /// heard for too long.
    pub fn tick(&mut self, now: Nanos, cancelled: bool, events: &[HelperProgress]) -> (r: Tick)
        requires
            now >= 0,
        ensures
            match r {
                Tick::Kill(e) => {
                    &&& now > DIARIZE_TIMEOUT_NS || cancelled
                    &&& e@ == if now > DIARIZE_TIMEOUT_NS {
                        "diarize-helper timed out after 1800s"@
                    } else {
                        "Retranscription cancelled"@
                    }
                    &&& *final(self) == *old(self)
                },
                Tick::Wait(reports) => {
                    let told = event_reports(old(self).last_pct, events@);
                    let pct = percent_after(old(self).last_pct, events@);
                    &&& now <= DIARIZE_TIMEOUT_NS && !cancelled
                    &&& final(self).last_pct == pct
                    &&& final(self).heard_at == old(self).last_sign(now, events@)
                    &&& report_views(reports@) == if old(self).overdue(now, events@) {
                        told.push(idle_report(pct, now as int))
                    } else {
                        told
                    }
                },
            },
    {
        if let Some(e) = kill_reason(now, cancelled) {
            return Tick::Kill(e);
        }
        let mut reports: Vec<(u32, String)> = Vec::new();
        let mut i: usize = 0;
        assert(events@.take(0) =~= Seq::<HelperProgress>::empty());
        assert(report_views(reports@) =~= Seq::<(u32, Seq<char>)>::empty());
        while i < events.len()
            invariant
                i <= events@.len(),
                self.last_pct == percent_after(old(self).last_pct, events@.take(i as int)),
                self.heard_at == old(self).heard_at,
                report_views(reports@) == event_reports(
                    old(self).last_pct,
                    events@.take(i as int),
                ),
            decreases events@.len() - i,
        {
            assert(events@.take(i + 1).drop_last() =~= events@.take(i as int));
            let x = self.note(events[i]);
            let ghost before = reports@;
            reports.push(x);
            assert(report_views(reports@) =~= report_views(before).push((x.0, x.1@)));
            i += 1;
        }
        assert(events@.take(i as int) =~= events@);
        if events.len() > 0 {
            self.heard_at = now;
        }
        if now as i128 - self.heard_at as i128 > DIARIZE_IDLE_NS as i128 {
            let mut message = String::new();
            message.append("Identifying speakers... (");
            message.append(format_elapsed(now as u64 / 1_000_000_000).as_str());
            message.append(")");
            assert(message@ =~= idle_report(self.last_pct, now as int).1);
            let ghost before = reports@;
            let x = (self.last_pct, message);
            reports.push(x);
            assert(report_views(reports@) =~= report_views(before).push((x.0, x.1@)));
            self.heard_at = now;
        }
        Tick::Wait(reports)
    }

    /// Take in one event; gives the percentage and the message to report.
    fn note(&mut self, event: HelperProgress) -> (r: (u32, String))
        ensures
            (r.0, r.1@) == event_report(old(self).last_pct, event),
            final(self).last_pct == match event {
                HelperProgress::Percent(p) => p,
                HelperProgress::Heartbeat => old(self).last_pct,
            },
            final(self).heard_at == old(self).heard_at,
    {
        match event {
            HelperProgress::Percent(pct) => {
                self.last_pct = pct;
                let mut out = String::new();
                out.append("Identifying speakers... (");
                out.append(decimal_of(pct as u64).as_str());
                out.append("%)");
                assert(out@ =~= "Identifying speakers... ("@ + text::decimal(pct as nat) + "%)"@);
                (pct, out)
            },
            HelperProgress::Heartbeat => (self.last_pct, "Identifying speakers...".to_owned()),
        }
    }
}

/// Percentages between zero and one hundred stay so: what is reported of events
/// and known after them was told by one of them, or known before.
pub proof fn law_reports_stay_in_range(pct: u32, events: Seq<HelperProgress>)
    requires
        pct <= 100,
        forall|i: int|
            0 <= i < events.len() ==> (#[trigger] events[i] matches HelperProgress::Percent(p) ==> p
                <= 100),
    ensures
        percent_after(pct, events) <= 100,
        event_reports(pct, events).len() == events.len(),
        forall|i: int|
            0 <= i < events.len() ==> (#[trigger] event_reports(pct, events)[i]).0 <= 100,
    decreases events.len(),
{
    if events.len() > 0 {
        law_reports_stay_in_range(pct, events.drop_last());
        assert(events[events.len() - 1] == events.last());
        let all = event_reports(pct, events);
        assert forall|i: int| 0 <= i < events.len() implies (#[trigger] all[i]).0 <= 100 by {
            if i < events.len() - 1 {
                assert(all[i] == event_reports(pct, events.drop_last())[i]);
            }
        }
    }
}

/// The user is never left without news: as long as the helper runs, no more than
/// the idle limit lies between what was heard or reported last and the last look.
pub proof fn law_watch_keeps_reporting(w: HelperWatch, now: Nanos, events: Seq<HelperProgress>)
    ensures
        now - w.last_sign(now, events) <= DIARIZE_IDLE_NS,
{
}

/// The error that a failed helper process wrote to its output, if it did.
pub open spec fn reported_error(stdout: Seq<char>) -> Option<Seq<char>> {
    match json::json_of(text::trimmed(stdout)) {
        Some(v) => json::member_text(v, "error"@),
        None => None,
    }
}

/// The error text of a failure: what was reported, else the exit status.
pub fn failure_text(reported: Option<String>, status: &str) -> (r: String)
    ensures
        r@ == match reported {
            Some(e) => e@,
            None => "diarize-helper exited with status "@ + status@,
        },
{
    match reported {
        Some(e) => e,
        None => {
            let mut out = String::new();
            out.append("diarize-helper exited with status ");
            out.append(status);
            assert(out@ =~= "diarize-helper exited with status "@ + status@);
            out
        },
    }
}

/// The error text of a helper process that ended with `status`.
pub fn helper_failure(stdout: &str, status: &str) -> (r: String)
    ensures
        r@ == match reported_error(stdout@) {
            Some(e) => e,
            None => "diarize-helper exited with status "@ + status@,
        },
{
    let reported = match json::parse(trim(stdout).as_str()) {
        Ok(value) => json::string_member(&value, "error"),
        Err(_) => None,
    };
    failure_text(reported, status)
}

/// A segment as the helper process reports it.
#[derive(Debug, Clone, Copy, PartialEq, Eq, Structural)]
pub struct HelperSegment {
    pub start: Nanos,
    pub end: Nanos,
    pub speaker: i32,
}

/// A reported number, at least zero.
pub open spec fn at_least_zero(n: i32) -> int {
    if n < 0 {
        0
    } else {
        n as int
    }
}

/// The helper's segments and speaker count; negative numbers count as zero.
pub fn accept_output(segments: &[HelperSegment], num_speakers: i32) -> (r: (Vec<DiarizedSegment>, u32))
    ensures
        r.1 == at_least_zero(num_speakers),
        r.0@.len() == segments@.len(),
        forall|i: int|
            0 <= i < segments@.len() ==> {
                let x = #[trigger] r.0@[i];
                &&& x.start == segments@[i].start
                &&& x.end == segments@[i].end
                &&& x.speaker == at_least_zero(segments@[i].speaker)
            },
{
    let mut out: Vec<DiarizedSegment> = Vec::new();
    let mut i: usize = 0;
    while i < segments.len()
        invariant
            i <= segments@.len(),
            out@.len() == i,
            forall|k: int|
                0 <= k < i ==> {
                    let x = #[trigger] out@[k];
                    &&& x.start == segments@[k].start
                    &&& x.end == segments@[k].end
                    &&& x.speaker == at_least_zero(segments@[k].speaker)
                },
        decreases segments@.len() - i,
    {
        let s: HelperSegment = segments[i];
        let speaker: usize = if s.speaker < 0 {
            0
        } else {
            s.speaker as usize
        };
        out.push(DiarizedSegment { start: s.start, end: s.end, speaker });
        i += 1;
    }
    let count: u32 = if num_speakers < 0 {
        0
    } else {
        num_speakers as u32
    };
    (out, count)
}

/// A progress line tells a percentage from zero to a hundred, or life with minus
/// one; anything else tells nothing.
pub proof fn law_progress(v: int, tail: Seq<char>)
    requires
        text::signed_value(text::trimmed(tail)) == Some(v),
    ensures
        0 <= v <= 100 ==> progress_of("PROGRESS "@ + tail) == Some(HelperProgress::Percent(v as u32)),
        v == -1 ==> progress_of("PROGRESS "@ + tail) == Some(HelperProgress::Heartbeat),
        v < -1 || v > 100 ==> progress_of("PROGRESS "@ + tail) is None,
{
    let line = "PROGRESS "@ + tail;
    let p = "PROGRESS "@;
    assert(line.subrange(0, p.len() as int) =~= p);
    assert(text::occurs_at(line, p, 0));
    assert(line.skip(p.len() as int) =~= tail);
}

/// An elapsed time reads in minutes and seconds, and in seconds below a minute.
pub proof fn law_elapsed(m: nat, s: nat)
    requires
        s < 60,
    ensures
        m > 0 ==> elapsed_text(60 * m + s) == text::decimal(m) + "m "@ + text::decimal(s) + "s"@,
        elapsed_text(s) == text::decimal(s) + "s"@,
{
    assert((60 * m + s) / 60 == m && (60 * m + s) % 60 == s) by (nonlinear_arith)
        requires
            s < 60,
    ;
}

/// Each event is reported once, in order, as what it says: a percentage as that,
/// a sign of life with the percentage told last before it.
pub proof fn law_event_reports(pct: u32, events: Seq<HelperProgress>, i: int)
    requires
        0 <= i < events.len(),
    ensures
        event_reports(pct, events).len() == events.len(),
        events[i] matches HelperProgress::Percent(p) ==> event_reports(pct, events)[i].0 == p
            && event_reports(pct, events)[i].1 == "Identifying speakers... ("@ + text::decimal(
            p as nat,
        ) + "%)"@,
        events[i] is Heartbeat ==> event_reports(pct, events)[i].1 == "Identifying speakers..."@,
        events[i] is Heartbeat && i > 0 ==> event_reports(pct, events)[i].0 == event_reports(
            pct,
            events,
        )[i - 1].0,
        events[i] is Heartbeat && i == 0 ==> event_reports(pct, events)[i].0 == pct,
        percent_after(pct, events) == event_reports(pct, events)[events.len() - 1].0,
    decreases events.len(),
{
    let init = events.drop_last();
    let n = events.len() - 1;
    if init.len() > 0 {
        law_event_reports(pct, init, if i < n { i } else { n - 1 });
        if i == n {
            assert(event_reports(pct, events)[n - 1] == event_reports(pct, init)[n - 1]);
        }
    } else {
        assert(event_reports(pct, init).len() == 0);
        assert(percent_after(pct, init) == pct);
    }
    if i < n {
        assert(event_reports(pct, events)[i] == event_reports(pct, init)[i]);
        if i > 0 {
            assert(event_reports(pct, events)[i - 1] == event_reports(pct, init)[i - 1]);
        }
    }
}

/// The elapsed time is reported only after ten seconds without any news, and then
/// counts as news itself.
pub proof fn law_watch(w: HelperWatch, now: Nanos, events: Seq<HelperProgress>)
    ensures
        events.len() > 0 ==> !w.overdue(now, events) && w.last_sign(now, events) == now,
        events.len() == 0 ==> (w.overdue(now, events) <==> now - w.heard_at > 10_000_000_000),
        events.len() == 0 && now - w.heard_at <= 10_000_000_000 ==> w.last_sign(now, events)
            == w.heard_at,
        w.overdue(now, events) ==> w.last_sign(now, events) == now,
{
}

/// The helper is told the audio and both models, and the number of speakers and
/// the threshold where they are given.
pub proof fn law_args(
    wav: Seq<char>,
    segmentation: Seq<char>,
    embedding: Seq<char>,
    num_speakers: Option<u32>,
    threshold: Option<Seq<char>>,
)
    ensures
        ({
            let args = args_of(wav, segmentation, embedding, num_speakers, threshold);
            let counted: int = if num_speakers is Some { 8 } else { 6 };
            &&& args.len() == counted + if threshold is Some { 2int } else { 0 }
            &&& args[0] == "--audio"@ && args[1] == wav
            &&& args[2] == "--segmentation-model"@ && args[3] == segmentation
            &&& args[4] == "--embedding-model"@ && args[5] == embedding
            &&& num_speakers matches Some(n) ==> args[6] == "--num-speakers"@ && args[7]
                == text::decimal(n as nat)
            &&& threshold matches Some(t) ==> args[counted] == "--threshold"@ && args[counted + 1]
                == t
        }),
{
}

/// Negative numbers of the helper count as zero, all others as they are.
pub proof fn law_at_least_zero(n: i32)
    ensures
        n < 0 ==> at_least_zero(n) == 0,
        n >= 0 ==> at_least_zero(n) == n,
{
}

/// The contents of a list of turns are the contents of each, in order.
pub proof fn law_turn_views(turns: Seq<SpeakerTurn>, i: int)
    requires
        0 <= i < turns.len(),
    ensures
        turn_views(turns).len() == turns.len(),
        turn_views(turns)[i].text == turns[i].text@,
        turn_views(turns)[i].start_ns == turns[i].start_ns,
        turn_views(turns)[i].end_ns == turns[i].end_ns,
        turn_views(turns)[i].speaker == turns[i].speaker,
        turn_views(turns)[i].words == turns[i].words@,
{
}

/// The contents of a list of reports are those of each, in order. A report of a
/// silent helper keeps the percentage and says how long it has been.
pub proof fn law_report_views(v: Seq<(u32, String)>, i: int, pct: u32, now: int)
    requires
        0 <= i < v.len(),
    ensures
        report_views(v).len() == v.len(),
        report_views(v)[i].0 == v[i].0,
        report_views(v)[i].1 == v[i].1@,
        idle_report(pct, now).0 == pct,
        idle_report(pct, now).1 == "Identifying speakers... ("@ + elapsed_text(
            (now / 1_000_000_000) as nat,
        ) + ")"@,
{
}

/// The error of a helper is what its output says under that name.
pub proof fn law_reported_error(stdout: Seq<char>)
    ensures
        json::json_of(text::trimmed(stdout)) matches Some(v) ==> reported_error(stdout)
            == json::member_text(v, "error"@),
        json::json_of(text::trimmed(stdout)) is None ==> reported_error(stdout) is None,
{
}

/// A download is tried three times, a helper may take half an hour and is reported
/// on after ten silent seconds, and a model file below its size is none.
pub proof fn law_limits()
    ensures
        MAX_ATTEMPTS == 3,
        DIARIZE_TIMEOUT_NS == 30 * 60 * 1_000_000_000,
        DIARIZE_IDLE_NS == 10 * 1_000_000_000,
        SEGMENTATION_MODEL_MIN_BYTES == 5 * 1_000_000,
        EMBEDDING_MODEL_MIN_BYTES == 25 * 1_000_000,
        LOCAL_SPEAKER == usize::MAX,
{
}

} // verus!
