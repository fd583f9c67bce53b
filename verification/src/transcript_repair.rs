//! Confidence-gated micro-repair of transcription text.
//!
//! Sentences with improbable words are shown to a language model one at a time
//! with tight context and a hard contract: fix at most two clearly mis-heard
//! words or return the sentence unchanged. A word-level guard rejects any reply
//! that rewrites more, so the model can patch the transcript but never
//! paraphrase it.
use vstd::prelude::*;
use crate::boundary_refine;
use crate::boundary_refine::{ends_sentence, word_ranges};
use crate::diarization;
use crate::diarization::{SpeakerTurn, WordSpan, concat_spans};
use crate::json;
use crate::text;
use crate::text::{chars_of, find, join_words, rfind, same_text, slice_of, split_whitespace, string_of, trim};
use crate::word_edits;
use crate::word_edits::word_edit_ops;

verus! {

/// A sentence is flagged when any of its words is less probable than this,
/// in parts per billion ...
pub const MIN_WORD_PPB: u32 = 450_000_000;

/// ... or its words are less probable than this on average.
pub const MIN_SENT_MEAN_PPB: u32 = 700_000_000;

/// Shorter sentences are too noisy to judge.
pub const MIN_SENT_WORDS: usize = 3;

/// Longer sentences dilute the context.
pub const MAX_SENT_WORDS: usize = 40;

/// A reply may change at most this many words.
pub const MAX_CHANGED_WORDS: usize = 2;

/// Cap on queries of one repair.
pub const MAX_REPAIRS: usize = 15;

/// Seconds that the queries of one repair may take together.
pub const TOTAL_BUDGET_SECS: u64 = 150;

/// Seconds that one query may take.
pub const PER_QUERY_TIMEOUT_SECS: u64 = 45;

/// After so many failed queries in a row the model is not asked any more.
pub const MAX_CONSECUTIVE_FAILURES: usize = 2;

/// What the model is told about its task.
pub const SYSTEM_PROMPT: &'static str = "You fix isolated speech-recognition errors in meeting transcripts. Answer with JSON only, no explanation.";

/// What a repair did.
#[derive(Debug, Clone, Copy, PartialEq, Eq, Structural)]
pub struct RepairStats {
    pub flagged: usize,
    pub queried: usize,
    pub repaired: usize,
    pub failures: usize,
}

/// The counts before anything was done.
pub open spec fn no_stats() -> RepairStats {
    RepairStats { flagged: 0, queried: 0, repaired: 0, failures: 0 }
}

impl Default for RepairStats {
    fn default() -> (r: Self)
        ensures
            r == no_stats(),
    {
        RepairStats { flagged: 0, queried: 0, repaired: 0, failures: 0 }
    }
}

// ---------------------------------------------------------------------
// Words with their probabilities

/// The least probability among tokens; certain where there are none.
pub open spec fn least_ppb(words: Seq<WordSpan>) -> int
    decreases words.len(),
{
    if words.len() == 0 {
        1_000_000_000
    } else if words.len() == 1 {
        words[0].prob_ppb as int
    } else {
        let rest = least_ppb(words.drop_last());
        if words.last().prob_ppb < rest {
            words.last().prob_ppb as int
        } else {
            rest
        }
    }
}

/// The non-empty words among the first `n` ranges, each with the probability
/// of its least probable token.
pub open spec fn items_upto(words: Seq<WordSpan>, n: int) -> Seq<(Seq<char>, int)>
    decreases n,
{
    if n <= 0 {
        Seq::empty()
    } else {
        let head = items_upto(words, n - 1);
        let (a, b) = boundary_refine::ranges_of(words)[n - 1];
        let tokens = words.subrange(a, b);
        let word = text::trimmed(diarization::spans_text(tokens));
        if word.len() > 0 {
            head.push((word, least_ppb(tokens)))
        } else {
            head
        }
    }
}

/// The non-empty words of a turn with their probabilities.
pub open spec fn items_of(words: Seq<WordSpan>) -> Seq<(Seq<char>, int)> {
    items_upto(words, boundary_refine::ranges_of(words).len() as int)
}

/// The contents of a list of words with probabilities.
pub open spec fn item_views(v: Seq<(String, u32)>) -> Seq<(Seq<char>, int)> {
    Seq::new(v.len(), |i: int| (v[i].0@, v[i].1 as int))
}

/// The least probability among `words[lo..hi]`.
fn least_prob(words: &[WordSpan], lo: usize, hi: usize) -> (r: u32)
    requires
        lo < hi <= words@.len(),
    ensures
        r == least_ppb(words@.subrange(lo as int, hi as int)),
{
    let mut best: u32 = words[lo].prob_ppb;
    let mut i: usize = lo + 1;
    assert(words@.subrange(lo as int, i as int).len() == 1);
    while i < hi
        invariant
            lo < i <= hi <= words@.len(),
            best == least_ppb(words@.subrange(lo as int, i as int)),
        decreases hi - i,
    {
        proof {
            let t = words@.subrange(lo as int, i + 1);
            assert(t.drop_last() =~= words@.subrange(lo as int, i as int));
        }
        if words[i].prob_ppb < best {
            best = words[i].prob_ppb;
        }
        i += 1;
    }
    best
}

/// The non-empty words of a turn as trimmed text and least token probability.
pub fn word_list(turn: &SpeakerTurn) -> (r: Vec<(String, u32)>)
    ensures
        item_views(r@) == items_of(turn.words@),
{
    let ranges = word_ranges(turn);
    let ghost all = boundary_refine::ranges_of(turn.words@);
    proof {
        boundary_refine::law_words_tile_the_turn(turn.words@);
        assert(boundary_refine::int_pairs(ranges@).len() == ranges@.len());
    }
    let mut out: Vec<(String, u32)> = Vec::new();
    let mut k: usize = 0;
    assert(item_views(out@) =~= items_upto(turn.words@, 0));
    while k < ranges.len()
        invariant
            k <= ranges@.len(),
            all == boundary_refine::ranges_of(turn.words@),
            all == boundary_refine::int_pairs(ranges@),
            boundary_refine::tiles(turn.words@, all),
            item_views(out@) == items_upto(turn.words@, k as int),
        decreases ranges@.len() - k,
    {
        let (a, b) = ranges[k];
        proof {
            assert(all[k as int] == (a as int, b as int));
            assert(0 <= all[k as int].0 < all[k as int].1 <= turn.words@.len());
        }
        let word = trim(concat_spans(&turn.words, a, b).as_str());
        let prob: u32 = least_prob(&turn.words, a, b);
        let ghost held = out@;
        let chars = chars_of(word.as_str());
        if chars.len() > 0 {
            let ghost item = (word@, prob as int);
            out.push((word, prob));
            assert(item_views(out@) =~= item_views(held).push(item));
        }
        k += 1;
    }
    out
}

// ---------------------------------------------------------------------
// Sentences

/// Words grouped into sentences: a sentence ends with the word that carries
/// sentence punctuation.
pub open spec fn groups(items: Seq<(Seq<char>, int)>) -> Seq<Seq<(Seq<char>, int)>>
    decreases items.len(),
{
    if items.len() == 0 {
        Seq::empty()
    } else {
        let init = items.drop_last();
        let head = groups(init);
        if init.len() == 0 || boundary_refine::sentence_end(init.last().0) {
            head.push(seq![items.last()])
        } else {
            head.drop_last().push(head.last().push(items.last()))
        }
    }
}

/// The words of all groups, in order.
pub open spec fn ungrouped(groups: Seq<Seq<(Seq<char>, int)>>) -> Seq<(Seq<char>, int)>
    decreases groups.len(),
{
    if groups.len() == 0 {
        Seq::empty()
    } else {
        ungrouped(groups.drop_last()) + groups.last()
    }
}

/// Splitting into sentences loses and reorders nothing, no sentence is empty,
/// and sentence punctuation stands only on last words.
pub proof fn law_sentences_partition_the_words(items: Seq<(Seq<char>, int)>)
    ensures
        ungrouped(groups(items)) == items,
        items.len() > 0 ==> groups(items).len() > 0 && groups(items).last().last() == items.last(),
        forall|g: int| 0 <= g < groups(items).len() ==> (#[trigger] groups(items)[g]).len() > 0,
        forall|g: int, k: int|
            0 <= g < groups(items).len() && 0 <= k < groups(items)[g].len() - 1
                ==> !boundary_refine::sentence_end((#[trigger] groups(items)[g][k]).0),
    decreases items.len(),
{
    let all = groups(items);
    if items.len() > 0 {
        let init = items.drop_last();
        law_sentences_partition_the_words(init);
        let head = groups(init);
        if init.len() == 0 || boundary_refine::sentence_end(init.last().0) {
            assert(all.drop_last() =~= head);
            assert(ungrouped(all) =~= items);
        } else {
            assert(all.drop_last() =~= head.drop_last());
            assert(ungrouped(all) =~= ungrouped(head).push(items.last()));
            assert(ungrouped(all) =~= items);
        }
        assert forall|g: int, k: int| 0 <= g < all.len() && 0 <= k < all[g].len() - 1 implies !boundary_refine::sentence_end(
            (#[trigger] all[g][k]).0,
        ) by {
            if g < head.len() {
                if k < head[g].len() - 1 {
                    assert(all[g][k] == head[g][k]);
                } else {
                    assert(all[g][k] == head.last().last());
                }
            }
        }
    }
}

/// One sentence of a turn: its text, the probability of its least probable
/// word, the sum of its words' probabilities and the number of its words.
#[derive(Debug)]
pub struct Sentence {
    pub text: String,
    pub min_ppb: u32,
    pub sum_ppb: u128,
    pub word_count: usize,
}

/// The contents of a sentence.
pub struct SentenceView {
    pub text: Seq<char>,
    pub min_ppb: int,
    pub sum_ppb: int,
    pub word_count: int,
}

impl View for Sentence {
    type V = SentenceView;

    open spec fn view(&self) -> SentenceView {
        SentenceView {
            text: self.text@,
            min_ppb: self.min_ppb as int,
            sum_ppb: self.sum_ppb as int,
            word_count: self.word_count as int,
        }
    }
}

/// The texts of words.
pub open spec fn item_texts(items: Seq<(Seq<char>, int)>) -> Seq<Seq<char>> {
    Seq::new(items.len(), |i: int| items[i].0)
}

/// The least probability among words; certain where there are none.
pub open spec fn least_of(items: Seq<(Seq<char>, int)>) -> int
    decreases items.len(),
{
    if items.len() == 0 {
        1_000_000_000
    } else if items.len() == 1 {
        items[0].1
    } else {
        let rest = least_of(items.drop_last());
        if items.last().1 < rest {
            items.last().1
        } else {
            rest
        }
    }
}

/// The sum of the words' probabilities.
pub open spec fn sum_of(items: Seq<(Seq<char>, int)>) -> int
    decreases items.len(),
{
    if items.len() == 0 {
        0
    } else {
        sum_of(items.drop_last()) + items.last().1
    }
}

/// The sentence made of the given words.
pub open spec fn sentence_of(items: Seq<(Seq<char>, int)>) -> SentenceView {
    SentenceView {
        text: text::join(item_texts(items), " "@),
        min_ppb: least_of(items),
        sum_ppb: sum_of(items),
        word_count: items.len() as int,
    }
}

/// The sentences of a turn with the given tokens.
pub open spec fn turn_sentences(words: Seq<WordSpan>) -> Seq<SentenceView> {
    let g = groups(items_of(words));
    Seq::new(g.len(), |i: int| sentence_of(g[i]))
}

/// The contents of a list of sentences.
pub open spec fn sentence_views(v: Seq<Sentence>) -> Seq<SentenceView> {
    Seq::new(v.len(), |i: int| v[i]@)
}

/// The sentence made of the given words.
pub fn make_sentence(words: Vec<(String, u32)>) -> (r: Sentence)
    ensures
        r@ == sentence_of(item_views(words@)),
        r.sum_ppb <= r.word_count * u32::MAX,
{
    let n: usize = words.len();
    let ghost items = item_views(words@);
    let mut texts: Vec<String> = Vec::new();
    let mut min_ppb: u32 = 1_000_000_000;
    let mut sum_ppb: u128 = 0;
    let mut i: usize = 0;
    assert(items.take(0) =~= Seq::<(Seq<char>, int)>::empty());
    while i < n
        invariant
            i <= n == words@.len(),
            items == item_views(words@),
            texts@.len() == i,
            forall|k: int| 0 <= k < i ==> (#[trigger] texts@[k])@ == items[k].0,
            min_ppb == least_of(items.take(i as int)),
            sum_ppb == sum_of(items.take(i as int)),
            sum_ppb <= i * u32::MAX,
        decreases n - i,
    {
        let prob: u32 = words[i].1;
        proof {
            assert(items.take(i + 1).drop_last() =~= items.take(i as int));
            assert(items.take(i + 1).last() == items[i as int]);
            assert(i * u32::MAX + u32::MAX == (i + 1) * u32::MAX) by (nonlinear_arith);
        }
        texts.push(words[i].0.clone());
        if i == 0 || prob < min_ppb {
            min_ppb = prob;
        }
        sum_ppb = sum_ppb + prob as u128;
        i += 1;
    }
    proof {
        assert(items.take(n as int) =~= items);
        assert(text::views(texts@) =~= item_texts(items));
    }
    Sentence { text: join_words(&texts, " "), min_ppb, sum_ppb, word_count: n }
}

/// Split a turn into sentences at sentence-final punctuation.
pub fn sentences_of(turn: &SpeakerTurn) -> (r: Vec<Sentence>)
    ensures
        sentence_views(r@) == turn_sentences(turn.words@),
        forall|k: int|
            0 <= k < r@.len() ==> (#[trigger] r@[k]).sum_ppb <= r@[k].word_count * u32::MAX,
{
    let words = word_list(turn);
    let ghost items = item_views(words@);
    let mut out: Vec<Sentence> = Vec::new();
    let mut cur: Vec<(String, u32)> = Vec::new();
    let mut i: usize = 0;
    let ghost mut made: Seq<Seq<(Seq<char>, int)>> = Seq::empty();
    assert(items.take(0) =~= Seq::<(Seq<char>, int)>::empty());
    assert(item_views(cur@) =~= Seq::<(Seq<char>, int)>::empty());
    while i < words.len()
        invariant
            i <= words@.len(),
            items == item_views(words@),
            out@.len() == made.len(),
            forall|k: int|
                0 <= k < out@.len() ==> (#[trigger] out@[k])@ == sentence_of(made[k])
                    && out@[k].sum_ppb <= out@[k].word_count * u32::MAX,
            cur@.len() == 0 ==> groups(items.take(i as int)) == made,
            cur@.len() == 0 ==> (i == 0 || boundary_refine::sentence_end(items[i - 1].0)),
            cur@.len() > 0 ==> groups(items.take(i as int)) == made.push(item_views(cur@)),
            cur@.len() > 0 ==> i > 0 && !boundary_refine::sentence_end(items[i - 1].0),
        decreases words@.len() - i,
    {
        let ghost before = items.take(i as int);
        let ghost after = items.take(i + 1);
        let ghost held = cur@;
        proof {
            assert(after.drop_last() =~= before);
            assert(after.last() == items[i as int]);
            if i > 0 {
                assert(before.last() == items[i - 1]);
            }
        }
        let is_end: bool = ends_sentence(words[i].0.as_str());
        cur.push((words[i].0.clone(), words[i].1));
        proof {
            assert(item_views(cur@) =~= item_views(held).push(items[i as int]));
            if held.len() == 0 {
                assert(item_views(cur@) =~= seq![items[i as int]]);
                assert(groups(after) =~= made.push(item_views(cur@)));
            } else {
                let g = groups(before);
                assert(g.drop_last() =~= made);
                assert(groups(after) =~= made.push(item_views(cur@)));
            }
        }
        if is_end {
            let mut full: Vec<(String, u32)> = Vec::new();
            core::mem::swap(&mut full, &mut cur);
            let ghost group = item_views(full@);
            out.push(make_sentence(full));
            proof {
                made = made.push(group);
            }
        }
        i += 1;
    }
    proof {
        assert(items.take(i as int) =~= items);
    }
    if cur.len() > 0 {
        let ghost group = item_views(cur@);
        out.push(make_sentence(cur));
        proof {
            made = made.push(group);
        }
    }
    assert(sentence_views(out@) =~= turn_sentences(turn.words@));
    out
}

/// The sentence is of a length that can be judged, and one of its words or
/// its words on average are improbable.
pub open spec fn flagged(s: SentenceView) -> bool {
    &&& MIN_SENT_WORDS <= s.word_count <= MAX_SENT_WORDS
    &&& (s.min_ppb < MIN_WORD_PPB || s.sum_ppb < MIN_SENT_MEAN_PPB * s.word_count)
}

/// Whether a sentence is to be shown to the model.
pub fn is_flagged(s: &Sentence) -> (r: bool)
    ensures
        r == flagged(s@),
{
    if s.word_count < MIN_SENT_WORDS || s.word_count > MAX_SENT_WORDS {
        return false;
    }
    s.min_ppb < MIN_WORD_PPB || s.sum_ppb < 700_000_000u128 * s.word_count as u128
}

// ---------------------------------------------------------------------
// The question and its reply

/// One line of context, where there is any.
pub open spec fn context_line(label: Seq<char>, line: Seq<char>) -> Seq<char> {
    if line.len() == 0 {
        Seq::empty()
    } else {
        label + line + "\"\n"@
    }
}

/// The question about one sentence with its neighbours.
pub open spec fn repair_question(before: Seq<char>, sentence: Seq<char>, after: Seq<char>) -> Seq<char> {
    "A sentence from a meeting transcript (the speech may mix languages mid-sentence). The speech recognizer may have mis-heard a word or two.\n\n"@
        + context_line("Before: \""@, before) + "Sentence: \""@ + sentence + "\"\n"@ + context_line(
        "After: \""@,
        after,
    )
        + "\nIf a word in the Sentence is clearly a mis-recognition, return the corrected sentence, changing as few words as possible (at most 2). If it reads fine, return it exactly unchanged.\nReply with only JSON: {\"text\": \"<sentence>\"}"@
}

/// Append one line of context, where there is any.
fn push_context(out: &mut String, label: &str, line: &str)
    ensures
        final(out)@ == old(out)@ + context_line(label@, line@),
{
    let ghost before = out@;
    let chars = chars_of(line);
    if chars.len() > 0 {
        out.append(label);
        out.append(line);
        out.append("\"\n");
    }
    assert(out@ =~= before + context_line(label@, line@));
}

/// Ask about one sentence with its neighbours.
pub fn build_prompt(before: &str, sentence: &str, after: &str) -> (r: String)
    ensures
        r@ == repair_question(before@, sentence@, after@),
{
    let mut out = String::new();
    out.append(
        "A sentence from a meeting transcript (the speech may mix languages mid-sentence). The speech recognizer may have mis-heard a word or two.\n\n",
    );
    push_context(&mut out, "Before: \"", before);
    out.append("Sentence: \"");
    out.append(sentence);
    out.append("\"\n");
    push_context(&mut out, "After: \"", after);
    out.append(
        "\nIf a word in the Sentence is clearly a mis-recognition, return the corrected sentence, changing as few words as possible (at most 2). If it reads fine, return it exactly unchanged.\nReply with only JSON: {\"text\": \"<sentence>\"}",
    );
    assert(out@ =~= repair_question(before@, sentence@, after@));
    out
}

/// The longest answer to ask for about a sentence of so many words, in tokens.
pub open spec fn reply_tokens(words: nat) -> nat {
    if words * 4 + 24 < 160 {
        words * 4 + 24
    } else {
        160
    }
}

/// The longest answer to ask for about a sentence of so many words, in tokens.
pub fn max_reply_tokens(words: usize) -> (r: i32)
    ensures
        r == reply_tokens(words as nat),
{
    if words < 34 {
        (words * 4 + 24) as i32
    } else {
        160
    }
}

/// The part of a reply from its first opening to its last closing brace.
pub open spec fn braced(reply: Seq<char>) -> Option<Seq<char>> {
    if exists|i: int, j: int|
        text::first_at(reply, seq!['{'], i) && text::last_at(reply, seq!['}'], j) && i < j {
        let i = choose|i: int| text::first_at(reply, seq!['{'], i);
        let j = choose|j: int| text::last_at(reply, seq!['}'], j);
        Some(reply.subrange(i, j + 1))
    } else {
        None
    }
}

/// The part of a reply from its first opening to its last closing brace.
pub fn braced_part(reply: &str) -> (r: Option<String>)
    ensures
        text::opt(r) == braced(reply@),
{
    let chars = chars_of(reply);
    let open: Vec<char> = vec!['{'];
    let close: Vec<char> = vec!['}'];
    assert(open@ =~= seq!['{']);
    assert(close@ =~= seq!['}']);
    match (find(&chars, &open), rfind(&chars, &close)) {
        (Some(i), Some(j)) => {
            proof {
                assert forall|k: int| #[trigger] text::first_at(reply@, seq!['{'], k) implies k == i by {
                    if k < i {
                        assert(text::occurs_at(reply@, seq!['{'], k));
                    } else if i < k {
                        assert(text::occurs_at(reply@, seq!['{'], i as int));
                    }
                }
                assert forall|k: int| #[trigger] text::last_at(reply@, seq!['}'], k) implies k == j by {
                    if k < j {
                        assert(text::occurs_at(reply@, seq!['}'], j as int));
                    } else if j < k {
                        assert(text::occurs_at(reply@, seq!['}'], k));
                    }
                }
                assert(text::first_at(reply@, seq!['{'], i as int));
                assert(text::last_at(reply@, seq!['}'], j as int));
            }
            if j <= i {
                return None;
            }
            assert(j < chars.len());
            let part = string_of(slice_of(&chars, i, j + 1));
            Some(part)
        },
        (None, _) => {
            assert(forall|k: int| !text::first_at(reply@, seq!['{'], k)) by {
                assert forall|k: int| !text::first_at(reply@, seq!['{'], k) by {
                    assert(!text::occurs_at(reply@, seq!['{'], k));
                }
            }
            None
        },
        (_, None) => {
            assert(forall|k: int| !text::last_at(reply@, seq!['}'], k)) by {
                assert forall|k: int| !text::last_at(reply@, seq!['}'], k) by {
                    assert(!text::occurs_at(reply@, seq!['}'], k));
                }
            }
            None
        },
    }
}

/// A member text without surrounding whitespace.
pub open spec fn tidy(s: Option<Seq<char>>) -> Option<Seq<char>> {
    match s {
        Some(t) => Some(text::trimmed(t)),
        None => None,
    }
}

/// What a reply offers: the trimmed `text` member of the JSON in it.
pub open spec fn reply_text(reply: Seq<char>) -> Option<Seq<char>> {
    match braced(reply) {
        Some(part) => match json::json_of(part) {
            Some(v) => tidy(json::member_text(v, "text"@)),
            None => None,
        },
        None => None,
    }
}

/// A text that may be missing, without surrounding whitespace.
pub fn tidied(s: Option<String>) -> (r: Option<String>)
    ensures
        text::opt(r) == tidy(text::opt(s)),
{
    match s {
        Some(t) => Some(trim(t.as_str())),
        None => None,
    }
}

/// Extract the `text` member from a reply, tolerating surrounding noise.
pub fn parse_text_reply(reply: &str) -> (r: Option<String>)
    ensures
        text::opt(r) == reply_text(reply@),
{
    match braced_part(reply) {
        Some(part) => match json::parse(part.as_str()) {
            Ok(value) => tidied(json::string_member(&value, "text")),
            Err(_) => None,
        },
        None => None,
    }
}

/// `candidate` is a small patch of `original`: something else, but at most
/// two words apart.
pub open spec fn acceptable(original: Seq<char>, candidate: Seq<char>) -> bool {
    let a = text::split_ws(original);
    let b = text::split_ws(candidate);
    &&& candidate.len() > 0
    &&& candidate != original
    &&& a.len() <= b.len() + 2
    &&& b.len() <= a.len() + 2
    &&& word_edits::edits(a, b) <= MAX_CHANGED_WORDS
}

/// Borrow each word.
fn borrow_words<'a>(words: &'a Vec<String>) -> (r: Vec<&'a str>)
    ensures
        word_edits::str_views(r@) == text::views(words@),
{
    let mut out: Vec<&'a str> = Vec::new();
    let mut i: usize = 0;
    while i < words.len()
        invariant
            i <= words@.len(),
            out@.len() == i,
            forall|k: int| 0 <= k < i ==> (#[trigger] out@[k])@ == words@[k]@,
        decreases words@.len() - i,
    {
        out.push(words[i].as_str());
        i += 1;
    }
    assert(word_edits::str_views(out@) =~= text::views(words@));
    out
}

/// Accept a repair only when it is a small patch, not a paraphrase.
pub fn accept_repair(original: &str, candidate: &str) -> (r: bool)
    ensures
        r == acceptable(original@, candidate@),
{
    let chars = chars_of(candidate);
    if chars.len() == 0 || same_text(candidate, original) {
        return false;
    }
    let a = split_whitespace(original);
    let b = split_whitespace(candidate);
    assert(text::views(a@).len() == a@.len() && text::views(b@).len() == b@.len());
    if (a.len() > b.len() && a.len() - b.len() > 2) || (b.len() > a.len() && b.len() - a.len() > 2) {
        return false;
    }
    let x = borrow_words(&a);
    let y = borrow_words(&b);
    word_edit_ops(&x, &y) <= MAX_CHANGED_WORDS
}

/// The count test on the two texts is implied by the edit test: a repair that
/// changes at most two words cannot add or drop more.
pub proof fn law_patch_keeps_the_length(original: Seq<char>, candidate: Seq<char>)
    ensures
        acceptable(original, candidate) <==> candidate.len() > 0 && candidate != original
            && word_edits::edits(text::split_ws(original), text::split_ws(candidate))
            <= MAX_CHANGED_WORDS,
{
    word_edits::law_edits_bounds(text::split_ws(original), text::split_ws(candidate));
}

// ---------------------------------------------------------------------
// What sentences, flags and patches are

/// The probability of a word is that of its least probable token.
pub proof fn law_least_ppb(words: Seq<WordSpan>, i: int)
    requires
        0 <= i < words.len(),
    ensures
        least_ppb(words) <= words[i].prob_ppb,
        exists|k: int|
            0 <= k < words.len() && (#[trigger] words[k]).prob_ppb as int == least_ppb(words),
    decreases words.len(),
{
    let n = words.len() - 1;
    if n == 0 {
        assert(words[0].prob_ppb == least_ppb(words));
    } else {
        let init = words.drop_last();
        law_least_ppb(init, if i < n { i } else { 0 });
        let k = choose|k: int|
            0 <= k < init.len() && (#[trigger] init[k]).prob_ppb as int == least_ppb(init);
        assert(words[k].prob_ppb == init[k].prob_ppb);
        assert(words[n].prob_ppb == words.last().prob_ppb);
    }
}

/// Every word of a turn that is not blank counts, in order, with its text and its
/// probability.
pub proof fn law_items(words: Seq<WordSpan>, n: int)
    requires
        0 <= n < boundary_refine::ranges_of(words).len(),
    ensures
        ({
            let (a, b) = boundary_refine::ranges_of(words)[n];
            let word = text::trimmed(diarization::spans_text(words.subrange(a, b)));
            &&& word.len() > 0 ==> items_upto(words, n + 1) == items_upto(words, n).push(
                (word, least_ppb(words.subrange(a, b))),
            )
            &&& word.len() == 0 ==> items_upto(words, n + 1) == items_upto(words, n)
        }),
        items_upto(words, 0).len() == 0,
{
}

/// The least and the sum of the probabilities of a sentence are those of its
/// words: none is less than the least, which one has, and each adds to the sum.
pub proof fn law_sentence_probabilities(items: Seq<(Seq<char>, int)>, x: (Seq<char>, int), i: int)
    requires
        0 <= i < items.len(),
    ensures
        least_of(items) <= items[i].1,
        exists|k: int| 0 <= k < items.len() && (#[trigger] items[k]).1 == least_of(items),
        sum_of(items.push(x)) == sum_of(items) + x.1,
        sum_of(Seq::empty()) == 0,
        sentence_of(items).min_ppb == least_of(items),
        sentence_of(items).sum_ppb == sum_of(items),
        sentence_of(items).word_count == items.len(),
    decreases items.len(),
{
    let n = items.len() - 1;
    assert(items.push(x).drop_last() =~= items);
    if n == 0 {
        assert(items[0].1 == least_of(items));
    } else {
        let init = items.drop_last();
        law_sentence_probabilities(init, x, if i < n { i } else { 0 });
        let k = choose|k: int| 0 <= k < init.len() && (#[trigger] init[k]).1 == least_of(init);
        assert(items[k].1 == init[k].1);
        assert(items[n].1 == items.last().1);
    }
}

/// A sentence says its words, with spaces between them.
pub proof fn law_sentence_text(items: Seq<(Seq<char>, int)>)
    requires
        forall|i: int| 0 <= i < items.len() ==> (#[trigger] items[i]).0.len() > 0,
        forall|i: int, k: int|
            0 <= i < items.len() && 0 <= k < items[i].0.len() ==> !text::white(
                #[trigger] items[i].0[k],
            ),
    ensures
        text::split_ws(sentence_of(items).text).len() == items.len(),
        forall|i: int|
            0 <= i < items.len() ==> #[trigger] text::split_ws(sentence_of(items).text)[i]
                == items[i].0,
{
    let words = item_texts(items);
    assert forall|i: int| 0 <= i < words.len() implies (#[trigger] words[i]).len() > 0 by {
        assert(items[i].0.len() > 0);
    }
    assert forall|i: int, k: int| 0 <= i < words.len() && 0 <= k < words[i].len() implies !text::white(
        #[trigger] words[i][k],
    ) by {
        assert(!text::white(items[i].0[k]));
    }
    text::law_joined_words_split_again(words);
}

/// A sentence goes on until its punctuation: only the last one may end without.
pub proof fn law_sentences_end_with_punctuation(items: Seq<(Seq<char>, int)>, g: int)
    requires
        0 <= g < groups(items).len() - 1,
    ensures
        groups(items)[g].len() > 0,
        boundary_refine::sentence_end(groups(items)[g].last().0),
    decreases items.len(),
{
    law_sentences_partition_the_words(items);
    let init = items.drop_last();
    let head = groups(init);
    let all = groups(items);
    law_sentences_partition_the_words(init);
    if init.len() == 0 || boundary_refine::sentence_end(init.last().0) {
        assert(all[g] == head[g]);
        if g < head.len() - 1 {
            law_sentences_end_with_punctuation(init, g);
        } else {
            assert(head[g] == head.last());
        }
    } else {
        assert(all[g] == head[g]);
        law_sentences_end_with_punctuation(init, g);
    }
}

/// A sentence is doubtful exactly when it has three to forty words and one of them
/// is less probable than 45 percent, or all of them are so than 70 on average.
pub proof fn law_flagged(s: SentenceView)
    ensures
        flagged(s) <==> 3 <= s.word_count <= 40 && (s.min_ppb < 450_000_000 || s.sum_ppb
            < 700_000_000 * s.word_count),
{
}

/// An answer may take four tokens a word and two dozen more, up to 160.
pub proof fn law_reply_tokens(words: nat)
    ensures
        words <= 34 ==> reply_tokens(words) == 24 + 4 * words,
        words >= 34 ==> reply_tokens(words) == 160,
{
}

/// The question shows the sentence between quotes, behind the sentence before it
/// and before the one after it, where there are such; a missing one has no line.
pub proof fn law_question_shows_the_sentence(before: Seq<char>, sentence: Seq<char>, after: Seq<char>)
    ensures
        ({
            let q = repair_question(before, sentence, after);
            let head = context_line("Before: \""@, before);
            let tail = context_line("After: \""@, after);
            let shown = head + "Sentence: \""@ + sentence + "\"\n"@ + tail;
            &&& exists|i: int| #[trigger] text::occurs_at(q, shown, i)
            &&& before.len() == 0 ==> head.len() == 0
            &&& before.len() > 0 ==> head == "Before: \""@ + before + "\"\n"@
            &&& after.len() == 0 ==> tail.len() == 0
            &&& after.len() > 0 ==> tail == "After: \""@ + after + "\"\n"@
        }),
{
    let q = repair_question(before, sentence, after);
    let intro = "A sentence from a meeting transcript (the speech may mix languages mid-sentence). The speech recognizer may have mis-heard a word or two.\n\n"@;
    let head = context_line("Before: \""@, before);
    let tail = context_line("After: \""@, after);
    let shown = head + "Sentence: \""@ + sentence + "\"\n"@ + tail;
    let i = intro.len() as int;
    assert(q.subrange(i, i + shown.len()) =~= shown);
    assert(text::occurs_at(q, shown, i));
}

/// What is between the braces of a reply is taken from its first opening to its
/// last closing brace, whatever stands around; without such a pair, nothing.
pub proof fn law_braced(reply: Seq<char>, i: int, j: int)
    requires
        0 <= i < reply.len(),
        0 <= j < reply.len(),
        reply[i] == '{',
        reply[j] == '}',
        forall|k: int| 0 <= k < i ==> #[trigger] reply[k] != '{',
        forall|k: int| j < k < reply.len() ==> #[trigger] reply[k] != '}',
    ensures
        i < j ==> braced(reply) == Some(reply.subrange(i, j + 1)),
        j < i ==> braced(reply) is None,
{
    let (open, close) = (seq!['{'], seq!['}']);
    assert(reply.subrange(i, i + 1) =~= open);
    assert(text::occurs_at(reply, open, i));
    assert(reply.subrange(j, j + 1) =~= close);
    assert(text::occurs_at(reply, close, j));
    assert forall|k: int| #[trigger] text::occurs_at(reply, open, k) implies k >= i by {
        assert(reply.subrange(k, k + 1)[0] == reply[k]);
    }
    assert forall|k: int| #[trigger] text::occurs_at(reply, close, k) implies k <= j by {
        assert(reply.subrange(k, k + 1)[0] == reply[k]);
    }
    assert(text::first_at(reply, open, i));
    assert(text::last_at(reply, close, j));
    assert forall|k: int| #[trigger] text::first_at(reply, open, k) implies k == i by {
        if i < k {
            assert(!text::occurs_at(reply, open, i));
        }
    }
    assert forall|k: int| #[trigger] text::last_at(reply, close, k) implies k == j by {
        if k < j {
            assert(!text::occurs_at(reply, close, j));
        }
    }
}

/// A reply without an opening or without a closing brace holds nothing.
pub proof fn law_no_braces(reply: Seq<char>)
    requires
        (forall|k: int| 0 <= k < reply.len() ==> #[trigger] reply[k] != '{') || (forall|k: int|
            0 <= k < reply.len() ==> #[trigger] reply[k] != '}'),
    ensures
        braced(reply) is None,
        reply_text(reply) is None,
{
    let (open, close) = (seq!['{'], seq!['}']);
    assert forall|i: int, j: int| !(#[trigger] text::first_at(reply, open, i)
        && #[trigger] text::last_at(reply, close, j)) by {
        if text::first_at(reply, open, i) && text::last_at(reply, close, j) {
            assert(reply.subrange(i, i + 1)[0] == reply[i]);
            assert(reply.subrange(j, j + 1)[0] == reply[j]);
        }
    }
}

/// A reply offers the text that its JSON holds, without the whitespace around it.
pub proof fn law_reply_text(reply: Seq<char>, part: Seq<char>)
    requires
        braced(reply) == Some(part),
    ensures
        json::json_of(part) is None ==> reply_text(reply) is None,
        json::json_of(part) matches Some(v) ==> (json::member_text(v, "text"@) is None
            ==> reply_text(reply) is None) && (json::member_text(v, "text"@) matches Some(t)
            ==> reply_text(reply) == Some(text::trimmed(t))),
{
}

/// A patch is accepted exactly when it is not empty, not the sentence itself, and
/// at most two word edits away from it.
pub proof fn law_acceptable(original: Seq<char>, candidate: Seq<char>)
    ensures
        acceptable(original, candidate) <==> candidate.len() > 0 && candidate != original
            && word_edits::edits(text::split_ws(original), text::split_ws(candidate)) <= 2,
{
    law_patch_keeps_the_length(original, candidate);
}

/// A turn has one sentence for each group of its words, in order, and the
/// groups are made of all its words.
pub proof fn law_turn_sentences(words: Seq<WordSpan>, i: int)
    requires
        0 <= i < turn_sentences(words).len(),
    ensures
        ({
            let items = items_upto(words, boundary_refine::ranges_of(words).len() as int);
            &&& turn_sentences(words).len() == groups(items).len()
            &&& turn_sentences(words)[i] == sentence_of(groups(items)[i])
        }),
{
}

/// A text that is there is trimmed, and a new count begins at nothing.
pub proof fn law_tidy(s: Option<Seq<char>>)
    ensures
        s matches Some(t) ==> tidy(s) == Some(text::trimmed(t)),
        s is None ==> tidy(s) is None,
        no_stats().flagged == 0,
        no_stats().queried == 0,
        no_stats().repaired == 0,
        no_stats().failures == 0,
{
}

/// What is doubted, what is changed, and how often and how long the model is asked.
pub proof fn law_limits()
    ensures
        MIN_WORD_PPB == 45 * 10_000_000,
        MIN_SENT_MEAN_PPB == 70 * 10_000_000,
        MIN_SENT_WORDS == 3,
        MAX_SENT_WORDS == 40,
        MAX_CHANGED_WORDS == 2,
        MAX_REPAIRS == 15,
        TOTAL_BUDGET_SECS == 150,
        PER_QUERY_TIMEOUT_SECS == 45,
        MAX_CONSECUTIVE_FAILURES == 2,
{
}

} // verus!
