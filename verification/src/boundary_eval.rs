//! Scoring of a model on labelled speaker boundaries.
//!
//! Each case shows the words around a boundary and, where the cut is wrong, the
//! word that it should follow. A case is asked with the same question that a
//! refinement asks, and the answer is held against the label.
use vstd::prelude::*;
use crate::boundary_prompt;
use crate::boundary_prompt::{build_prompt, parse_cut};
use crate::boundary_refine;
use crate::diarization;
use crate::diarization::{SpeakerTurn, WordSpan};
use crate::json;
use crate::text;
use crate::text::{chars_of, same_text, slice_of, split_whitespace, string_of, trim};
use crate::timeline::Nanos;

verus! {

/// What the model is told before a question.
pub const SYSTEM_PROMPT: &'static str = "You correct speaker-change points in conversation transcripts. Answer with JSON only, no explanation.";

/// How long a word of a case is taken to last.
pub const WORD_NS: i64 = 300_000_000;

/// The pause that is put between the two speakers of a case.
pub const GAP_NS: i64 = 200_000_000;

/// The probability of a word of a case.
pub const CERTAIN_PPB: u32 = 1_000_000_000;

/// A labelled boundary.
#[derive(Debug)]
pub struct Case {
    pub case_no: u32,
    pub meeting_id: String,
    pub left_tail: String,
    pub right_head: String,
    pub verdict: String,
    pub correct_cut_after: String,
}

// ---------------------------------------------------------------------
// Texts

/// The ellipsis that marks a shortened text.
pub open spec fn ellipsis() -> spec_fn(char) -> bool {
    |c: char| c == '\u{2026}'
}

/// A text without surrounding whitespace and ellipses.
pub open spec fn bare(s: Seq<char>) -> Seq<char> {
    text::trimmed(text::drop_back(text::drop_front(text::trimmed(s), ellipsis()), ellipsis()))
}

/// A text without surrounding whitespace and ellipses.
pub fn strip_ellipsis(s: &str) -> (r: String)
    ensures
        r@ == bare(s@),
{
    let chars = chars_of(trim(s).as_str());
    let mut lo: usize = 0;
    while lo < chars.len() && chars[lo] == '\u{2026}'
        invariant
            lo <= chars@.len(),
            forall|k: int| 0 <= k < lo ==> #[trigger] chars@[k] == '\u{2026}',
        decreases chars@.len() - lo,
    {
        lo += 1;
    }
    proof {
        text::lemma_drop_front_skip(chars@, ellipsis(), lo as int);
    }
    let mut hi: usize = chars.len();
    while hi > lo && chars[hi - 1] == '\u{2026}'
        invariant
            lo <= hi <= chars@.len(),
            forall|k: int| hi <= k < chars@.len() ==> #[trigger] chars@[k] == '\u{2026}',
        decreases hi,
    {
        hi -= 1;
    }
    proof {
        let rest = chars@.skip(lo as int);
        assert forall|k: int| hi - lo <= k < rest.len() implies ellipsis()(#[trigger] rest[k]) by {
            assert(rest[k] == chars@[k + lo]);
        }
        text::lemma_drop_back_take(rest, ellipsis(), hi - lo);
        assert(rest.take(hi - lo) =~= chars@.subrange(lo as int, hi as int));
    }
    trim(string_of(slice_of(&chars, lo, hi)).as_str())
}

/// The token of word `i` of a text that starts at `start`: every word but the
/// first carries the space before it.
pub open spec fn token_of(t: WordSpan, words: Seq<Seq<char>>, i: int, start: int) -> bool {
    &&& t.text@ == if i == 0 {
        words[i]
    } else {
        seq![' '] + words[i]
    }
    &&& t.start_ns == start + i * WORD_NS
    &&& t.end_ns == start + (i + 1) * WORD_NS
    &&& t.prob_ppb == CERTAIN_PPB
}

/// The tokens of a text that starts at `start`.
pub open spec fn tokens_of(t: Seq<WordSpan>, words: Seq<Seq<char>>, start: int) -> bool {
    t.len() == words.len() && forall|i: int|
        0 <= i < t.len() ==> token_of(#[trigger] t[i], words, i, start)
}

/// A turn that says `text` from `start` on, one token per word.
pub fn turn_from_text(text: &str, speaker: usize, start_ns: Nanos) -> (r: SpeakerTurn)
    requires
        text@.len() <= i32::MAX,
        0 <= start_ns <= 0x1_0000_0000 * WORD_NS,
    ensures
        r.speaker == Some(speaker),
        tokens_of(r.words@, text::split_ws(text@), start_ns as int),
        r.text@ == diarization::spans_text(r.words@),
        r.start_ns == start_ns,
        r.end_ns == if r.words@.len() == 0 {
            0
        } else {
            start_ns + r.words@.len() * WORD_NS
        },
{
    let parts = split_whitespace(text);
    let ghost ws = text::views(parts@);
    proof {
        lemma_few_words(text@);
    }
    let mut words: Vec<WordSpan> = Vec::new();
    let mut i: usize = 0;
    while i < parts.len()
        invariant
            i <= parts@.len(),
            ws == text::views(parts@),
            parts@.len() <= i32::MAX,
            0 <= start_ns <= 0x1_0000_0000 * WORD_NS,
            words@.len() == i,
            forall|k: int|
                0 <= k < i ==> token_of(#[trigger] words@[k], ws, k, start_ns as int),
        decreases parts@.len() - i,
    {
        let mut token = String::new();
        if i > 0 {
            token.push(' ');
        }
        token.append(parts[i].as_str());
        assert(ws[i as int] == parts@[i as int]@);
        assert(token@ =~= if i == 0 {
            ws[i as int]
        } else {
            seq![' '] + ws[i as int]
        });
        words.push(
            WordSpan {
                text: token,
                start_ns: start_ns + i as i64 * WORD_NS,
                end_ns: start_ns + (i as i64 + 1) * WORD_NS,
                prob_ppb: CERTAIN_PPB,
            },
        );
        i += 1;
    }
    let mut t = SpeakerTurn {
        text: String::new(),
        start_ns,
        end_ns: 0,
        speaker: Some(speaker),
        words,
    };
    t.rebuild_from_words();
    proof {
        let w = t.words@;
        assert(w == words@);
        if w.len() > 0 {
            assert(token_of(w[0], ws, 0, start_ns as int));
            assert(token_of(w[w.len() - 1], ws, w.len() - 1, start_ns as int));
        }
    }
    t
}

/// A text has no more words than characters.
proof fn lemma_few_words(s: Seq<char>)
    ensures
        text::split_ws(s).len() <= s.len(),
    decreases s.len(),
{
    if s.len() > 0 {
        lemma_few_words(s.drop_last());
        lemma_open_word(s.drop_last());
    }
}

/// A text that does not end in whitespace ends in its last word.
proof fn lemma_open_word(s: Seq<char>)
    ensures
        s.len() > 0 && !text::white(s.last()) ==> text::split_ws(s).len() > 0,
    decreases s.len(),
{
    if s.len() > 0 {
        lemma_open_word(s.drop_last());
    }
}

/// A word has characters, and none of them is whitespace.
pub open spec fn plain(w: Seq<char>) -> bool {
    w.len() > 0 && forall|i: int| 0 <= i < w.len() ==> !text::white(#[trigger] w[i])
}

/// The words of a text are plain.
proof fn lemma_plain_words(s: Seq<char>)
    ensures
        forall|k: int|
            0 <= k < text::split_ws(s).len() ==> plain(#[trigger] text::split_ws(s)[k]),
    decreases s.len(),
{
    if s.len() > 0 {
        let init = s.drop_last();
        lemma_plain_words(init);
        lemma_open_word(init);
        let head = text::split_ws(init);
        let all = text::split_ws(s);
        assert forall|k: int| 0 <= k < all.len() implies plain(#[trigger] all[k]) by {
            if k < head.len() {
                assert(plain(head[k]));
            }
        }
    }
}

/// Trimming takes nothing from a plain word, and from a space before it the
/// space.
proof fn lemma_trim_plain(w: Seq<char>)
    requires
        plain(w),
    ensures
        text::trimmed(w) == w,
        text::trimmed(seq![' '] + w) == w,
{
    text::lemma_drop_front_skip(w, text::ws(), 0);
    assert(w.skip(0) =~= w);
    text::lemma_drop_back_take(w, text::ws(), w.len() as int);
    assert(w.take(w.len() as int) =~= w);
    let s = seq![' '] + w;
    assert(s[1] == w[0]);
    text::lemma_drop_front_skip(s, text::ws(), 1);
    assert(s.skip(1) =~= w);
}

/// The words of a turn made from a text are the words of the text.
proof fn lemma_words_of_tokens(t: Seq<WordSpan>, words: Seq<Seq<char>>, start: int)
    requires
        tokens_of(t, words, start),
        forall|k: int| 0 <= k < words.len() ==> plain(#[trigger] words[k]),
    ensures
        boundary_refine::turn_words(t) == words,
{
    lemma_one_token_each(t, words, start);
    let ranges = boundary_refine::ranges_of(t);
    let got = boundary_refine::turn_words(t);
    assert forall|k: int| 0 <= k < words.len() implies got[k] == words[k] by {
        assert(ranges[k] == (k, k + 1));
        let one = t.subrange(k, k + 1);
        assert(token_of(t[k], words, k, start));
        assert(one.drop_last() =~= Seq::<WordSpan>::empty());
        assert(one.last() == t[k]);
        reveal_with_fuel(diarization::spans_text, 2);
        assert(diarization::spans_text(one) =~= t[k].text@);
        lemma_trim_plain(words[k]);
    }
    assert(got =~= words);
}

/// Each token of a turn made from a text is a word of its own.
proof fn lemma_one_token_each(t: Seq<WordSpan>, words: Seq<Seq<char>>, start: int)
    requires
        tokens_of(t, words, start),
    ensures
        boundary_refine::ranges_of(t) == Seq::new(t.len(), |k: int| (k, k + 1)),
    decreases t.len(),
{
    if t.len() > 0 {
        let init = t.drop_last();
        assert forall|i: int| 0 <= i < init.len() implies token_of(
            #[trigger] init[i],
            words.drop_last(),
            i,
            start,
        ) by {
            assert(token_of(t[i], words, i, start));
        }
        lemma_one_token_each(init, words.drop_last(), start);
        let i = t.len() - 1;
        assert(token_of(t[i], words, i, start));
        assert(boundary_refine::starts_word(t, i));
    }
    assert(boundary_refine::ranges_of(t) =~= Seq::new(t.len(), |k: int| (k, k + 1)));
}

// ---------------------------------------------------------------------
// The expected answer

/// `e` is the shift that makes the left side end on `target`: its last
/// occurrence on the left, else its first one on the right.
pub open spec fn ends_on(l: Seq<Seq<char>>, r: Seq<Seq<char>>, target: Seq<char>, e: int) -> bool {
    if e <= 0 {
        let p = l.len() - 1 + e;
        0 <= p && l[p] == target && forall|j: int| p < j < l.len() ==> #[trigger] l[j] != target
    } else {
        let p = e - 1;
        !l.contains(target) && p < r.len() && r[p] == target && forall|j: int|
            0 <= j < p ==> #[trigger] r[j] != target
    }
}

/// `e` is the shift that the label of a case asks for.
pub open spec fn expected(
    verdict: Seq<char>,
    l: Seq<Seq<char>>,
    r: Seq<Seq<char>>,
    cut: Seq<char>,
    e: int,
) -> bool {
    if verdict == "ok"@ {
        e == 0
    } else {
        ends_on(l, r, text::trimmed(cut), e)
    }
}

/// The shift that the label of a case asks for: none for a cut that is right,
/// else the one that makes the left side end on the given word.
pub fn expected_shift(verdict: &str, l: &[String], r: &[String], cut: &str) -> (e: Option<i32>)
    requires
        l@.len() <= i32::MAX,
        r@.len() < i32::MAX,
    ensures
        match e {
            Some(x) => expected(verdict@, text::views(l@), text::views(r@), cut@, x as int),
            None => verdict@ != "ok"@ && !text::views(l@).contains(text::trimmed(cut@))
                && !text::views(r@).contains(text::trimmed(cut@)),
        },
{
    if same_text(verdict, "ok") {
        return Some(0);
    }
    let target = trim(cut);
    let ghost lw = text::views(l@);
    let ghost rw = text::views(r@);
    let mut p: usize = l.len();
    while p > 0
        invariant
            p <= l@.len() <= i32::MAX,
            lw == text::views(l@),
            rw == text::views(r@),
            target@ == text::trimmed(cut@),
            verdict@ != "ok"@,
            forall|j: int| p <= j < lw.len() ==> #[trigger] lw[j] != target@,
        decreases p,
    {
        p -= 1;
        assert(lw[p as int] == l@[p as int]@);
        if same_text(l[p].as_str(), target.as_str()) {
            let back: i32 = (l.len() - 1 - p) as i32;
            return Some(-back);
        }
    }
    assert(!lw.contains(target@));
    let mut q: usize = 0;
    while q < r.len()
        invariant
            q <= r@.len() < i32::MAX,
            lw == text::views(l@),
            rw == text::views(r@),
            target@ == text::trimmed(cut@),
            verdict@ != "ok"@,
            !lw.contains(target@),
            forall|j: int| 0 <= j < q ==> #[trigger] rw[j] != target@,
        decreases r@.len() - q,
    {
        assert(rw[q as int] == r@[q as int]@);
        if same_text(r[q].as_str(), target.as_str()) {
            let forth: i32 = q as i32 + 1;
            return Some(forth);
        }
        q += 1;
    }
    None
}

/// The label of a case asks for at most one shift.
pub proof fn law_one_answer(
    verdict: Seq<char>,
    l: Seq<Seq<char>>,
    r: Seq<Seq<char>>,
    cut: Seq<char>,
    e: int,
    f: int,
)
    requires
        expected(verdict, l, r, cut, e),
        expected(verdict, l, r, cut, f),
    ensures
        e == f,
{
    if verdict != "ok"@ {
        let t = text::trimmed(cut);
        if e <= 0 {
            assert(l[l.len() - 1 + e] == t);
            assert(l.contains(t));
        }
        if f <= 0 {
            assert(l[l.len() - 1 + f] == t);
            assert(l.contains(t));
        }
    }
}

// ---------------------------------------------------------------------
// Questions

/// What the program that runs the model answers in a line: the text it
/// generated. Nothing when the line is no JSON or has no such text.
pub fn generated_text(line: &str) -> (r: Option<String>)
    ensures
        text::opt(r) == match json::json_of(line@) {
            Some(v) => json::member_text(v, "text"@),
            None => None,
        },
{
    match json::parse(line) {
        Ok(value) => json::string_member(&value, "text"),
        Err(_) => None,
    }
}

/// What becomes of a case before a model is asked.
#[derive(Debug)]
pub enum Question {
    /// Nothing can be judged: it was labelled so, or there is no choice.
    Skipped,
    /// The turns should be merged, which is no question of a cut.
    MergeSkipped,
    /// The word of the label does not occur.
    CutNotFound,
    /// The right cut is not among those that are offered.
    Unreachable { expected: i32, shifts: Vec<i32> },
    /// The model is to be asked.
    Ask { prompt: String, shifts: Vec<i32>, expected: i32 },
}

/// The case is not judged, by its label.
pub open spec fn labelled_skip(c: Case) -> bool {
    c.verdict@ == "skip"@
}

/// The case is one of merging.
pub open spec fn labelled_merge(c: Case) -> bool {
    c.verdict@ == "wrong"@ && c.correct_cut_after@.len() == 0
}

/// The words of the left side.
pub open spec fn left_words(c: Case) -> Seq<Seq<char>> {
    text::split_ws(bare(c.left_tail@))
}

/// The words of the right side.
pub open spec fn right_words(c: Case) -> Seq<Seq<char>> {
    text::split_ws(bare(c.right_head@))
}

/// What becomes of a case, asked in the wording `variant`.
pub fn question(c: &Case, variant: &str) -> (r: Question)
    requires
        c.left_tail@.len() < i32::MAX,
        c.right_head@.len() < i32::MAX,
    ensures
        ({
            let l = left_words(*c);
            let w = right_words(*c);
            let shifts = boundary_refine::shifts_of(l, w);
            let judged = !labelled_skip(*c) && !labelled_merge(*c);
            let cut = c.correct_cut_after@;
            match r {
                Question::Skipped => labelled_skip(*c) || (judged && shifts.len() < 2),
                Question::MergeSkipped => labelled_merge(*c),
                Question::CutNotFound => judged && shifts.len() >= 2 && c.verdict@ != "ok"@
                    && !l.contains(text::trimmed(cut)) && !w.contains(text::trimmed(cut)),
                Question::Unreachable { expected: e, shifts: s } => judged && shifts.len() >= 2
                    && boundary_refine::ints(s@) == shifts && expected(
                    c.verdict@,
                    l,
                    w,
                    cut,
                    e as int,
                ) && !shifts.contains(e as int),
                Question::Ask { prompt, shifts: s, expected: e } => judged && shifts.len() >= 2
                    && boundary_refine::ints(s@) == shifts && expected(
                    c.verdict@,
                    l,
                    w,
                    cut,
                    e as int,
                ) && shifts.contains(e as int) && prompt@ == boundary_prompt::cut_question(
                    l,
                    w,
                    variant@,
                ),
            }
        }),
{
    if same_text(c.verdict.as_str(), "skip") {
        return Question::Skipped;
    }
    if same_text(c.verdict.as_str(), "wrong") && chars_of(c.correct_cut_after.as_str()).len() == 0 {
        proof {
            reveal_strlit("skip");
            reveal_strlit("wrong");
        }
        return Question::MergeSkipped;
    }
    let left_text = strip_ellipsis(c.left_tail.as_str());
    let right_text = strip_ellipsis(c.right_head.as_str());
    proof {
        lemma_bare_is_shorter(c.left_tail@);
        lemma_bare_is_shorter(c.right_head@);
        lemma_few_words(left_text@);
        lemma_few_words(right_text@);
        lemma_plain_words(left_text@);
        lemma_plain_words(right_text@);
    }
    let left = turn_from_text(left_text.as_str(), 0, 0);
    let n_left: i64 = left.words.len() as i64;
    let right = turn_from_text(right_text.as_str(), 1, n_left * WORD_NS + GAP_NS);
    proof {
        lemma_words_of_tokens(left.words@, left_words(*c), 0);
        lemma_words_of_tokens(right.words@, right_words(*c), n_left * WORD_NS + GAP_NS);
    }
    let (prompt, shifts) = match build_prompt(&left, &right, variant) {
        Some(p) => p,
        None => {
            return Question::Skipped;
        },
    };
    let l = split_whitespace(left_text.as_str());
    let w = split_whitespace(right_text.as_str());
    assert(text::views(l@).len() == l@.len());
    assert(text::views(w@).len() == w@.len());
    let expected = match expected_shift(
        c.verdict.as_str(),
        &l,
        &w,
        c.correct_cut_after.as_str(),
    ) {
        Some(e) => e,
        None => {
            return Question::CutNotFound;
        },
    };
    if offers(&shifts, expected) {
        Question::Ask { prompt, shifts, expected }
    } else {
        Question::Unreachable { expected, shifts }
    }
}

/// Whether a shift is among those offered.
fn offers(shifts: &[i32], e: i32) -> (r: bool)
    ensures
        r == boundary_refine::ints(shifts@).contains(e as int),
{
    let ghost all = boundary_refine::ints(shifts@);
    let mut i: usize = 0;
    while i < shifts.len()
        invariant
            i <= shifts@.len(),
            all == boundary_refine::ints(shifts@),
            forall|k: int| 0 <= k < i ==> #[trigger] all[k] != e,
        decreases shifts@.len() - i,
    {
        assert(all[i as int] == shifts@[i as int]);
        if shifts[i] == e {
            return true;
        }
        i += 1;
    }
    false
}

/// A text does not grow when whitespace and ellipses are taken off.
proof fn lemma_bare_is_shorter(s: Seq<char>)
    ensures
        bare(s).len() <= s.len(),
{
    lemma_dropping_shortens(s, text::ws());
    lemma_dropping_shortens(text::drop_front(s, text::ws()), text::ws());
    let a = text::trimmed(s);
    lemma_dropping_shortens(a, ellipsis());
    let b = text::drop_front(a, ellipsis());
    lemma_dropping_shortens(b, ellipsis());
    let c = text::drop_back(b, ellipsis());
    lemma_dropping_shortens(c, text::ws());
    lemma_dropping_shortens(text::drop_front(c, text::ws()), text::ws());
}

/// Dropping characters at an end does not lengthen a text.
proof fn lemma_dropping_shortens(s: Seq<char>, f: spec_fn(char) -> bool)
    ensures
        text::drop_front(s, f).len() <= s.len(),
        text::drop_back(s, f).len() <= s.len(),
    decreases s.len(),
{
    if s.len() > 0 {
        lemma_dropping_shortens(s.drop_first(), f);
        lemma_dropping_shortens(s.drop_last(), f);
    }
}

// ---------------------------------------------------------------------
// Scores

/// The shift that a reply chooses, if it names an option.
pub open spec fn choice(reply: Seq<char>, shifts: Seq<int>) -> Option<int> {
    match boundary_prompt::keyed_number(reply, "cut"@) {
        Some(n) => if 1 <= n <= shifts.len() {
            Some(shifts[n - 1])
        } else {
            None
        },
        None => None,
    }
}

/// The shift that a reply chooses, if it names an option.
pub fn chosen_shift(reply: &str, shifts: &[i32]) -> (r: Option<i32>)
    ensures
        match (r, choice(reply@, boundary_refine::ints(shifts@))) {
            (Some(x), Some(y)) => x == y,
            (None, None) => true,
            _ => false,
        },
{
    match parse_cut(reply) {
        Some(n) => if 1 <= n && n <= shifts.len() {
            Some(shifts[n - 1])
        } else {
            None
        },
        None => None,
    }
}

/// How the cases came out.
#[derive(Debug, Clone, Copy, PartialEq, Eq, Structural)]
pub struct Tally {
    pub correct: usize,
    pub wrong: usize,
    pub unreachable: usize,
    pub merge_skipped: usize,
    pub skipped: usize,
}

impl Default for Tally {
    fn default() -> (r: Self)
        ensures
            r == (Tally { correct: 0, wrong: 0, unreachable: 0, merge_skipped: 0, skipped: 0 }),
    {
        Tally { correct: 0, wrong: 0, unreachable: 0, merge_skipped: 0, skipped: 0 }
    }
}

impl Tally {
    /// The cases that were counted.
    pub open spec fn total(self) -> int {
        self.correct + self.wrong + self.unreachable + self.merge_skipped + self.skipped
    }

    /// Count a case that the model is not asked about. Tells whether it is to be
    /// asked.
    pub fn note_question(&mut self, q: &Question) -> (ask: bool)
        requires
            old(self).total() < usize::MAX,
        ensures
            ask == (q is Ask),
            *final(self) == match q {
                Question::Skipped => Tally { skipped: (old(self).skipped + 1) as usize, ..*old(self) },
                Question::MergeSkipped => Tally {
                    merge_skipped: (old(self).merge_skipped + 1) as usize,
                    ..*old(self)
                },
                Question::CutNotFound => Tally {
                    skipped: (old(self).skipped + 1) as usize,
                    ..*old(self)
                },
                Question::Unreachable { .. } => Tally {
                    unreachable: (old(self).unreachable + 1) as usize,
                    ..*old(self)
                },
                Question::Ask { .. } => *old(self),
            },
            final(self).total() == old(self).total() + if ask {
                0int
            } else {
                1
            },
    {
        match q {
            Question::Skipped => {
                self.skipped = self.skipped + 1;
                false
            },
            Question::MergeSkipped => {
                self.merge_skipped = self.merge_skipped + 1;
                false
            },
            Question::CutNotFound => {
                self.skipped = self.skipped + 1;
                false
            },
            Question::Unreachable { .. } => {
                self.unreachable = self.unreachable + 1;
                false
            },
            Question::Ask { .. } => true,
        }
    }

    /// Count the reply to a case. Gives the shift that it chose.
    pub fn note_reply(&mut self, reply: &str, shifts: &[i32], expected: i32) -> (r: Option<i32>)
        requires
            old(self).total() < usize::MAX,
        ensures
            match (r, choice(reply@, boundary_refine::ints(shifts@))) {
                (Some(x), Some(y)) => x == y,
                (None, None) => true,
                _ => false,
            },
            *final(self) == if r == Some(expected) {
                Tally { correct: (old(self).correct + 1) as usize, ..*old(self) }
            } else {
                Tally { wrong: (old(self).wrong + 1) as usize, ..*old(self) }
            },
            final(self).total() == old(self).total() + 1,
    {
        let chosen = chosen_shift(reply, shifts);
        let right: bool = match chosen {
            Some(x) => x == expected,
            None => false,
        };
        if right {
            self.correct = self.correct + 1;
        } else {
            self.wrong = self.wrong + 1;
        }
        chosen
    }
}

// ---------------------------------------------------------------------
// What is scored

/// Ellipses and whitespace around a text come off, and what is between stays.
pub proof fn law_bare(a: Seq<char>, e: Seq<char>, core: Seq<char>, f: Seq<char>, b: Seq<char>)
    requires
        forall|k: int| 0 <= k < a.len() ==> text::white(#[trigger] a[k]),
        forall|k: int| 0 <= k < e.len() ==> #[trigger] e[k] == '\u{2026}',
        forall|k: int| 0 <= k < f.len() ==> #[trigger] f[k] == '\u{2026}',
        forall|k: int| 0 <= k < b.len() ==> text::white(#[trigger] b[k]),
        core.len() > 0,
        core[0] != '\u{2026}' && !text::white(core[0]),
        core.last() != '\u{2026}' && !text::white(core.last()),
    ensures
        bare(a + e + core + f + b) == core,
{
    let s = a + e + core + f + b;
    let t = e + core + f;
    let (lo, hi) = (a.len() as int, (a.len() + t.len()) as int);
    assert forall|k: int| 0 <= k < lo implies text::white(#[trigger] s[k]) by {
        assert(s[k] == a[k]);
    }
    assert forall|k: int| hi <= k < s.len() implies text::white(#[trigger] s[k]) by {
        assert(s[k] == b[k - hi]);
    }
    assert(s[lo] == t[0]);
    assert(s[hi - 1] == t[t.len() - 1]);
    if e.len() > 0 {
        assert(t[0] == e[0]);
    } else {
        assert(t[0] == core[0]);
    }
    if f.len() > 0 {
        assert(t[t.len() - 1] == f[f.len() - 1]);
    } else {
        assert(t[t.len() - 1] == core[core.len() - 1]);
    }
    text::law_trimmed(s, lo, hi);
    assert(s.subrange(lo, hi) =~= t);
    let n = e.len() as int;
    assert forall|k: int| 0 <= k < n implies ellipsis()(#[trigger] t[k]) by {
        assert(t[k] == e[k]);
    }
    assert(t[n] == core[0]);
    text::lemma_drop_front_skip(t, ellipsis(), n);
    let u = t.skip(n);
    assert(u =~= core + f);
    let m = core.len() as int;
    assert forall|k: int| m <= k < u.len() implies ellipsis()(#[trigger] u[k]) by {
        assert(u[k] == f[k - m]);
    }
    assert(u[m - 1] == core[m - 1]);
    text::lemma_drop_back_take(u, ellipsis(), m);
    assert(u.take(m) =~= core);
    text::law_trimmed(core, 0, m);
    assert(core.subrange(0, m) =~= core);
}

/// The tokens of a text are its words, each with the space before it, one after
/// the other at three tenths of a second.
pub proof fn law_tokens(t: Seq<WordSpan>, words: Seq<Seq<char>>, start: int, i: int)
    requires
        tokens_of(t, words, start),
        0 <= i < words.len(),
    ensures
        t.len() == words.len(),
        i == 0 ==> t[i].text@ == words[i],
        i > 0 ==> t[i].text@ == seq![' '] + words[i],
        t[i].start_ns == start + i * 300_000_000,
        t[i].end_ns == t[i].start_ns + 300_000_000,
        i > 0 ==> t[i - 1].end_ns == t[i].start_ns,
        t[i].prob_ppb == 1_000_000_000,
{
    assert(token_of(t[i], words, i, start));
    if i > 0 {
        assert(token_of(t[i - 1], words, i - 1, start));
    }
}

/// With the expected shift the left side ends on the word of the label: that word
/// stands last on the left, or was the last to be given over by the right. A case
/// whose cut is right expects none.
pub proof fn law_expected(
    verdict: Seq<char>,
    l: Seq<Seq<char>>,
    r: Seq<Seq<char>>,
    cut: Seq<char>,
    e: int,
)
    requires
        expected(verdict, l, r, cut, e),
    ensures
        verdict == "ok"@ ==> e == 0,
        verdict != "ok"@ ==> {
            let target = text::trimmed(cut);
            let left = if e <= 0 { l.take(l.len() + e) } else { l + r.take(e) };
            &&& left.len() > 0
            &&& left.last() == target
            &&& e > 0 ==> !l.contains(target) && forall|j: int|
                0 <= j < e - 1 ==> #[trigger] r[j] != target
            &&& e <= 0 ==> forall|j: int| l.len() + e <= j < l.len() ==> #[trigger] l[j] != target
        },
{
}

/// Which cases are not asked about by their label.
pub proof fn law_labels(c: Case)
    ensures
        labelled_skip(c) <==> c.verdict@ == "skip"@,
        labelled_merge(c) <==> c.verdict@ == "wrong"@ && c.correct_cut_after@.len() == 0,
        left_words(c) == text::split_ws(bare(c.left_tail@)),
        right_words(c) == text::split_ws(bare(c.right_head@)),
{
}

/// A reply chooses the shift of the option that it names; a number that is no
/// option, and a reply without one, choose nothing.
pub proof fn law_choice(reply: Seq<char>, shifts: Seq<int>, n: int)
    ensures
        boundary_prompt::keyed_number(reply, "cut"@) == Some(n) && 1 <= n <= shifts.len() ==> choice(
            reply,
            shifts,
        ) == Some(shifts[n - 1]),
        boundary_prompt::keyed_number(reply, "cut"@) == Some(n) && (n < 1 || n > shifts.len())
            ==> choice(reply, shifts) is None,
        boundary_prompt::keyed_number(reply, "cut"@) is None ==> choice(reply, shifts) is None,
{
}

} // verus!
