//! Tie-breaker for speaker-turn boundaries.
//!
//! Acoustic diarization is weakest at fast handovers: the first word of the
//! next speaker gets attributed to the previous one. A language model is asked
//! one tiny constrained question per suspicious boundary: a numbered list of
//! candidate cuts, answered with `{"cut": N}`. The transcript can only be
//! re-partitioned between turns, never altered.
use vstd::prelude::*;
use crate::diarization;
use crate::diarization::{SpeakerTurn, TurnView, WordSpan, concat_spans};
use crate::text;
use crate::text::{chars_of, is_white, trim};
use crate::timeline::{Nanos, midpoint};

verus! {

/// Only boundaries with a gap smaller than this between the last word of one
/// turn and the first word of the next are questioned.
pub const TIGHT_GAP_NS: i64 = 1_200_000_000;

/// How many words on each side of the current cut may move freely.
pub const MAX_SHIFT_WORDS: usize = 2;

/// Cuts right after sentence punctuation are offered up to this many words
/// from the current cut.
pub const PUNCT_SHIFT_WORDS: usize = 12;

/// A cut is trusted when the left side ends a sentence of at least this many
/// words; fragments are where the diarizer glues foreign words on.
pub const TRUSTED_SENTENCE_MIN_WORDS: usize = 3;

/// Cap on options shown per query.
pub const MAX_OPTIONS: usize = 7;

/// Words of context shown on each side of a candidate cut.
pub const CONTEXT_WORDS: usize = 12;

/// A turn of at most this many words between two turns of one other speaker
/// may be a diarization mistake.
pub const SANDWICH_MAX_WORDS: usize = 3;

/// Cap on queries of one refinement, and on the handovers it looks at.
pub const MAX_QUERIES: usize = 32;

// ---------------------------------------------------------------------
// Words of a turn

/// Token `i` opens a word: it is the first one, or its text starts with
/// whitespace.
pub open spec fn starts_word(words: Seq<WordSpan>, i: int) -> bool {
    i == 0 || (words[i].text@.len() > 0 && text::white(words[i].text@[0]))
}

/// The token ranges `[start, end)` of the words.
pub open spec fn ranges_of(words: Seq<WordSpan>) -> Seq<(int, int)>
    decreases words.len(),
{
    if words.len() == 0 {
        Seq::empty()
    } else {
        let i = words.len() - 1;
        let head = ranges_of(words.drop_last());
        if starts_word(words, i) {
            head.push((i, i + 1))
        } else {
            head.drop_last().push((head.last().0, i + 1))
        }
    }
}

/// Machine pairs as integer pairs.
pub open spec fn int_pairs(v: Seq<(usize, usize)>) -> Seq<(int, int)> {
    Seq::new(v.len(), |i: int| (v[i].0 as int, v[i].1 as int))
}

/// The ranges tile `[0, n)` without holes, each starting at a word start.
pub open spec fn tiles(words: Seq<WordSpan>, r: Seq<(int, int)>) -> bool {
    &&& r.len() <= words.len()
    &&& words.len() > 0 ==> r.len() > 0 && r[0].0 == 0 && r.last().1 == words.len()
    &&& forall|k: int| 0 <= k < r.len() ==> 0 <= (#[trigger] r[k]).0 < r[k].1 <= words.len()
    &&& forall|k: int| 0 <= k < r.len() ==> starts_word(words, (#[trigger] r[k]).0)
    &&& forall|k: int, m: int| 0 <= k < m < r.len() ==> (#[trigger] r[k]).1 <= (#[trigger] r[m]).0
    &&& forall|k: int| 0 <= k && k + 1 < r.len() ==> (#[trigger] r[k]).1 == r[k + 1].0
}

/// The words of a turn cover all of its tokens, in order, without overlap.
pub proof fn law_words_tile_the_turn(words: Seq<WordSpan>)
    ensures
        tiles(words, ranges_of(words)),
    decreases words.len(),
{
    if words.len() > 0 {
        let i = words.len() - 1;
        let init = words.drop_last();
        law_words_tile_the_turn(init);
        let head = ranges_of(init);
        let r = ranges_of(words);
        if !starts_word(words, i) {
            assert(init.len() > 0);
            assert(head.len() > 0);
        }
        assert forall|k: int| 0 <= k < r.len() implies starts_word(words, (#[trigger] r[k]).0) by {
            if k < head.len() {
                assert(r[k].0 == head[k].0);
                assert(starts_word(init, head[k].0));
                assert(init[head[k].0] == words[head[k].0]);
            }
        }
        assert forall|k: int| 0 <= k < r.len() implies 0 <= (#[trigger] r[k]).0 < r[k].1
            <= words.len() by {
            if k < head.len() {
                assert(r[k].0 == head[k].0);
                assert(0 <= head[k].0 < head[k].1 <= init.len());
            }
        }
        assert forall|k: int, m: int| 0 <= k < m < r.len() implies (#[trigger] r[k]).1 <= (
        #[trigger] r[m]).0 by {
            assert(r[k] == head[k]);
            if m < head.len() {
                assert(r[m].0 == head[m].0);
                assert(head[k].1 <= head[m].0);
            }
        }
        assert forall|k: int| 0 <= k && k + 1 < r.len() implies (#[trigger] r[k]).1 == r[k
            + 1].0 by {
            assert(r[k] == head[k]);
            if k + 1 < head.len() {
                assert(head[k].1 == head[k + 1].0);
                assert(r[k + 1].0 == head[k + 1].0);
            } else {
                assert(head[k] == head.last());
            }
        }
    }
}

/// Whether token `i` opens a word.
fn opens_word(words: &[WordSpan], i: usize) -> (r: bool)
    requires
        i < words.len(),
    ensures
        r == starts_word(words@, i as int),
{
    if i == 0 {
        return true;
    }
    let chars = chars_of(words[i].text.as_str());
    chars.len() > 0 && is_white(chars[0])
}

/// Group a turn's tokens into words: a word starts at token 0 or at a token
/// with leading whitespace. Returns `[start, end)` token ranges.
pub fn word_ranges(turn: &SpeakerTurn) -> (r: Vec<(usize, usize)>)
    ensures
        int_pairs(r@) == ranges_of(turn.words@),
{
    let mut ranges: Vec<(usize, usize)> = Vec::new();
    let mut i: usize = 0;
    assert(int_pairs(ranges@) =~= ranges_of(turn.words@.take(0)));
    while i < turn.words.len()
        invariant
            i <= turn.words.len(),
            int_pairs(ranges@) == ranges_of(turn.words@.take(i as int)),
        decreases turn.words.len() - i,
    {
        let ghost before = turn.words@.take(i as int);
        let ghost after = turn.words@.take(i + 1);
        let ghost held = ranges@;
        proof {
            assert(after.drop_last() =~= before);
            law_words_tile_the_turn(before);
        }
        if opens_word(&turn.words, i) {
            ranges.push((i, i + 1));
            assert(int_pairs(ranges@) =~= int_pairs(held).push((i as int, i + 1)));
        } else {
            let n: usize = ranges.len();
            assert(int_pairs(held).len() > 0);
            let start: usize = ranges[n - 1].0;
            ranges.set(n - 1, (start, i + 1));
            assert(int_pairs(held).last().0 == start);
            assert(int_pairs(ranges@) =~= int_pairs(held).drop_last().push(
                (start as int, i + 1),
            ));
        }
        i += 1;
    }
    assert(turn.words@.take(i as int) =~= turn.words@);
    ranges
}

/// The trimmed texts of the given token ranges.
pub open spec fn range_texts(words: Seq<WordSpan>, r: Seq<(int, int)>) -> Seq<Seq<char>> {
    Seq::new(
        r.len(),
        |k: int|
            text::trimmed(diarization::spans_text(words.subrange(r[k].0, r[k].1))),
    )
}

/// The trimmed words of a turn.
pub open spec fn turn_words(words: Seq<WordSpan>) -> Seq<Seq<char>> {
    range_texts(words, ranges_of(words))
}

/// The trimmed text of each token range.
pub fn words_text(turn: &SpeakerTurn, ranges: &[(usize, usize)]) -> (r: Vec<String>)
    requires
        forall|k: int|
            0 <= k < ranges@.len() ==> (#[trigger] ranges@[k]).0 <= ranges@[k].1
                <= turn.words@.len(),
    ensures
        text::views(r@) == range_texts(turn.words@, int_pairs(ranges@)),
{
    let mut out: Vec<String> = Vec::new();
    let mut k: usize = 0;
    let ghost all = range_texts(turn.words@, int_pairs(ranges@));
    assert(text::views(out@) =~= all.take(0));
    while k < ranges.len()
        invariant
            k <= ranges.len(),
            all == range_texts(turn.words@, int_pairs(ranges@)),
            text::views(out@) == all.take(k as int),
            forall|k: int|
                0 <= k < ranges@.len() ==> (#[trigger] ranges@[k]).0 <= ranges@[k].1
                    <= turn.words@.len(),
        decreases ranges.len() - k,
    {
        let (a, b) = ranges[k];
        assert(ranges@[k as int].0 <= ranges@[k as int].1);
        let word = trim(concat_spans(&turn.words, a, b).as_str());
        proof {
            text::lemma_views_push(out@, word);
            assert(all.take(k + 1) =~= all.take(k as int).push(word@));
        }
        out.push(word);
        k += 1;
    }
    assert(all.take(k as int) =~= all);
    out
}

/// The trimmed words of a turn.
pub fn words_of(turn: &SpeakerTurn) -> (r: Vec<String>)
    ensures
        text::views(r@) == turn_words(turn.words@),
        r@.len() == ranges_of(turn.words@).len(),
{
    let ranges = word_ranges(turn);
    proof {
        law_words_tile_the_turn(turn.words@);
        assert forall|k: int| 0 <= k < ranges@.len() implies (#[trigger] ranges@[k]).0 <= ranges@[k].1
            <= turn.words@.len() by {
            assert(int_pairs(ranges@)[k] == (ranges@[k].0 as int, ranges@[k].1 as int));
            assert(ranges_of(turn.words@)[k].0 < ranges_of(turn.words@)[k].1);
        }
    }
    let words = words_text(turn, &ranges);
    assert(text::views(words@).len() == words@.len());
    words
}

// ---------------------------------------------------------------------
// Candidate cuts

/// Quotes and brackets that may follow sentence punctuation.
pub open spec fn closer(c: char) -> bool {
    c == '"' || c == '\'' || c == ')' || c == ']' || c == '\u{bb}'
}

/// The class of closing quotes and brackets.
pub open spec fn closers() -> spec_fn(char) -> bool {
    |c: char| closer(c)
}

/// Punctuation that ends a sentence.
pub open spec fn terminator(c: char) -> bool {
    c == '.' || c == '?' || c == '!' || c == '\u{2026}'
}

/// The word ends in sentence punctuation, up to closing quotes and brackets.
pub open spec fn sentence_end(word: Seq<char>) -> bool {
    let core = text::drop_back(word, closers());
    core.len() > 0 && terminator(core.last())
}

/// True when a word plausibly ends a sentence, a natural cut point.
pub fn ends_sentence(word: &str) -> (r: bool)
    ensures
        r == sentence_end(word@),
{
    let chars = chars_of(word);
    let mut n: usize = chars.len();
    while n > 0 && (chars[n - 1] == '"' || chars[n - 1] == '\'' || chars[n - 1] == ')' || chars[n
        - 1] == ']' || chars[n - 1] == '\u{bb}')
        invariant
            n <= chars.len(),
            forall|k: int| n <= k < chars.len() ==> closer(#[trigger] chars@[k]),
        decreases n,
    {
        n -= 1;
    }
    proof {
        text::lemma_drop_back_take(chars@, closers(), n as int);
    }
    if n == 0 {
        return false;
    }
    let c = chars[n - 1];
    c == '.' || c == '?' || c == '!' || c == '\u{2026}'
}

/// How many words at the end of `l` do not end a sentence.
pub open spec fn open_tail(l: Seq<Seq<char>>) -> nat
    decreases l.len(),
{
    if l.len() == 0 || sentence_end(l.last()) {
        0
    } else {
        1 + open_tail(l.drop_last())
    }
}

/// The number of words of the sentence that the last word of `l` belongs to.
pub open spec fn last_sentence_len(l: Seq<Seq<char>>) -> nat {
    if l.len() == 0 {
        1
    } else {
        open_tail(l.drop_last()) + 1
    }
}

/// How far a cut may move: a short way when the left side already ends a
/// complete sentence, further otherwise.
pub open spec fn reach(l: Seq<Seq<char>>) -> int {
    if l.len() > 0 && sentence_end(l.last()) && last_sentence_len(l)
        >= TRUSTED_SENTENCE_MIN_WORDS {
        MAX_SHIFT_WORDS as int
    } else {
        PUNCT_SHIFT_WORDS as int
    }
}

/// How many words one side can give away: never its last one.
pub open spec fn spare(limit: int, n: nat) -> int {
    let free = if n > 0 {
        n - 1
    } else {
        0
    };
    if limit <= free {
        limit
    } else {
        free
    }
}

/// The last word of the left side after the cut moved by `s`.
pub open spec fn left_last(l: Seq<Seq<char>>, r: Seq<Seq<char>>, s: int) -> Seq<char> {
    if s > 0 {
        r[s - 1]
    } else {
        l[l.len() + s - 1]
    }
}

/// The magnitude of a shift.
pub open spec fn size_of(s: int) -> int {
    if s < 0 {
        -s
    } else {
        s
    }
}

/// The shift stays near the current cut or falls right after a sentence.
pub open spec fn plausible(l: Seq<Seq<char>>, r: Seq<Seq<char>>, s: int) -> bool {
    size_of(s) <= MAX_SHIFT_WORDS || sentence_end(left_last(l, r, s))
}

/// The plausible shifts from `lo` to `hi`, ascending.
pub open spec fn plausible_in(l: Seq<Seq<char>>, r: Seq<Seq<char>>, lo: int, hi: int) -> Seq<int>
    decreases hi - lo + 1,
{
    if hi < lo {
        Seq::empty()
    } else {
        let head = plausible_in(l, r, lo, hi - 1);
        if plausible(l, r, hi) {
            head.push(hi)
        } else {
            head
        }
    }
}

/// `a` is nearer to the current cut than `b`; of two opposite shifts the
/// negative one counts as nearer.
pub open spec fn nearer(a: int, b: int) -> bool {
    size_of(a) < size_of(b) || (size_of(a) == size_of(b) && a < b)
}

/// How many of `all` are nearer than `s`.
pub open spec fn nearer_count(all: Seq<int>, s: int) -> nat
    decreases all.len(),
{
    if all.len() == 0 {
        0
    } else {
        nearer_count(all.drop_last(), s) + if nearer(all.last(), s) {
            1nat
        } else {
            0nat
        }
    }
}

/// The members of `some` with fewer than `MAX_OPTIONS` nearer ones in `all`.
pub open spec fn nearest(all: Seq<int>, some: Seq<int>) -> Seq<int>
    decreases some.len(),
{
    if some.len() == 0 {
        Seq::empty()
    } else {
        let head = nearest(all, some.drop_last());
        if nearer_count(all, some.last()) < MAX_OPTIONS {
            head.push(some.last())
        } else {
            head
        }
    }
}

/// All plausible shifts of a boundary, before the cap on options.
pub open spec fn plausible_shifts(l: Seq<Seq<char>>, r: Seq<Seq<char>>) -> Seq<int> {
    plausible_in(l, r, -spare(reach(l), l.len()), spare(reach(l), r.len()))
}

/// The shifts offered for a boundary between the words `l` and `r`.
pub open spec fn shifts_of(l: Seq<Seq<char>>, r: Seq<Seq<char>>) -> Seq<int> {
    nearest(plausible_shifts(l, r), plausible_shifts(l, r))
}

/// Machine integers as integers.
pub open spec fn ints(v: Seq<i32>) -> Seq<int> {
    Seq::new(v.len(), |i: int| v[i] as int)
}

proof fn lemma_ints_push(v: Seq<i32>, x: i32)
    ensures
        ints(v.push(x)) == ints(v).push(x as int),
{
    assert(ints(v.push(x)) =~= ints(v).push(x as int));
}

/// How far a cut may move.
fn reach_of(l_words: &[String]) -> (r: usize)
    ensures
        r == reach(text::views(l_words@)),
{
    let n: usize = l_words.len();
    let ghost l = text::views(l_words@);
    if n == 0 || !ends_sentence(l_words[n - 1].as_str()) {
        assert(n > 0 ==> l.last() == l_words@[n - 1]@);
        return PUNCT_SHIFT_WORDS;
    }
    assert(l.last() == l_words@[n - 1]@);
    let mut k: usize = n - 1;
    assert(l.take(k as int) =~= l.drop_last());
    while k > 0 && !ends_sentence(l_words[k - 1].as_str())
        invariant
            n == l_words.len(),
            0 < n,
            k < n,
            l == text::views(l_words@),
            open_tail(l.drop_last()) == (n - 1 - k) + open_tail(l.take(k as int)),
        decreases k,
    {
        proof {
            let t = l.take(k as int);
            assert(t.last() == l_words@[k - 1]@);
            assert(t.drop_last() =~= l.take(k - 1));
        }
        k -= 1;
    }
    proof {
        let t = l.take(k as int);
        if k > 0 {
            assert(t.last() == l_words@[k - 1]@);
        }
        assert(open_tail(t) == 0);
    }
    if n - k >= TRUSTED_SENTENCE_MIN_WORDS {
        MAX_SHIFT_WORDS
    } else {
        PUNCT_SHIFT_WORDS
    }
}

/// How many words one side can give away.
fn spare_of(limit: usize, n: usize) -> (r: usize)
    ensures
        r == spare(limit as int, n as nat),
{
    let free: usize = if n > 0 {
        n - 1
    } else {
        0
    };
    if limit <= free {
        limit
    } else {
        free
    }
}

/// The magnitude of a shift.
fn abs_of(s: i32) -> (r: u32)
    ensures
        r == size_of(s as int),
{
    if s < 0 {
        (-(s as i64)) as u32
    } else {
        s as u32
    }
}

/// Whether shift `s` stays near the current cut or falls after a sentence.
fn is_plausible(l_words: &[String], r_words: &[String], s: i32) -> (b: bool)
    requires
        -(l_words@.len() as int) < s < r_words@.len() || size_of(s as int) <= MAX_SHIFT_WORDS,
    ensures
        b == plausible(text::views(l_words@), text::views(r_words@), s as int),
{
    if abs_of(s) as usize <= MAX_SHIFT_WORDS {
        return true;
    }
    if s > 0 {
        ends_sentence(r_words[s as usize - 1].as_str())
    } else {
        let back: usize = abs_of(s) as usize;
        ends_sentence(l_words[l_words.len() - back - 1].as_str())
    }
}

/// How many of `all` are nearer to the current cut than `s`.
fn count_nearer(all: &[i32], s: i32) -> (r: usize)
    ensures
        r == nearer_count(ints(all@), s as int),
{
    let mut n: usize = 0;
    let mut i: usize = 0;
    assert(ints(all@).take(0) =~= Seq::<int>::empty());
    while i < all.len()
        invariant
            i <= all.len(),
            n <= i,
            n == nearer_count(ints(all@).take(i as int), s as int),
        decreases all.len() - i,
    {
        let t: i32 = all[i];
        proof {
            let a = ints(all@).take(i + 1);
            assert(a.drop_last() =~= ints(all@).take(i as int));
            assert(a.last() == t);
        }
        let (at, as_): (u32, u32) = (abs_of(t), abs_of(s));
        if at < as_ || (at == as_ && t < s) {
            n += 1;
        }
        i += 1;
    }
    assert(ints(all@).take(i as int) =~= ints(all@));
    n
}

/// Candidate cut shifts for one boundary, in whole words. Negative = move
/// that many of the left turn's final words to the right turn; positive =
/// move that many of the right turn's leading words to the left. Each side
/// keeps at least one word. Of too many options the nearest are kept.
pub fn candidate_shifts(l_words: &[String], r_words: &[String]) -> (r: Vec<i32>)
    ensures
        ints(r@) == shifts_of(text::views(l_words@), text::views(r_words@)),
{
    let ghost l = text::views(l_words@);
    let ghost rw = text::views(r_words@);
    let limit: usize = reach_of(l_words);
    let lo: i32 = -(spare_of(limit, l_words.len()) as i32);
    let hi: i32 = spare_of(limit, r_words.len()) as i32;
    let mut base: Vec<i32> = Vec::new();
    let mut s: i32 = lo;
    assert(ints(base@) =~= plausible_in(l, rw, lo as int, lo - 1));
    while s <= hi
        invariant
            l == text::views(l_words@),
            rw == text::views(r_words@),
            -12 <= lo <= 0 <= hi <= 12,
            lo <= s <= hi + 1,
            -lo == spare(limit as int, l_words@.len()),
            hi == spare(limit as int, r_words@.len()),
            ints(base@) == plausible_in(l, rw, lo as int, s - 1),
        decreases hi - s + 1,
    {
        if is_plausible(l_words, r_words, s) {
            proof {
                lemma_ints_push(base@, s);
            }
            base.push(s);
        }
        s += 1;
    }
    let ghost all = ints(base@);
    assert(all == plausible_shifts(l, rw));
    let mut out: Vec<i32> = Vec::new();
    let mut i: usize = 0;
    assert(ints(out@) =~= nearest(all, all.take(0)));
    while i < base.len()
        invariant
            i <= base.len(),
            all == ints(base@),
            ints(out@) == nearest(all, all.take(i as int)),
        decreases base.len() - i,
    {
        let s: i32 = base[i];
        proof {
            assert(all.take(i + 1).drop_last() =~= all.take(i as int));
            assert(all.take(i + 1).last() == s);
        }
        if count_nearer(&base, s) < MAX_OPTIONS {
            proof {
                lemma_ints_push(out@, s);
            }
            out.push(s);
        }
        i += 1;
    }
    assert(all.take(i as int) =~= all);
    out
}

// ---------------------------------------------------------------------
// Laws of the candidate cuts

proof fn lemma_plausible_in_members(l: Seq<Seq<char>>, r: Seq<Seq<char>>, lo: int, hi: int)
    ensures
        forall|i: int|
            0 <= i < plausible_in(l, r, lo, hi).len() ==> lo <= #[trigger] plausible_in(l, r, lo, hi)[i]
                <= hi,
        forall|i: int, j: int|
            0 <= i < j < plausible_in(l, r, lo, hi).len() ==> #[trigger] plausible_in(l, r, lo, hi)[i]
                < #[trigger] plausible_in(l, r, lo, hi)[j],
        forall|s: int|
            lo <= s <= hi && plausible(l, r, s) ==> #[trigger] plausible_in(l, r, lo, hi).contains(s),
        forall|s: int|
            #[trigger] plausible_in(l, r, lo, hi).contains(s) ==> lo <= s <= hi && plausible(l, r, s),
    decreases hi - lo + 1,
{
    let all = plausible_in(l, r, lo, hi);
    if hi >= lo {
        lemma_plausible_in_members(l, r, lo, hi - 1);
        let head = plausible_in(l, r, lo, hi - 1);
        assert forall|s: int| lo <= s <= hi && plausible(l, r, s) implies #[trigger] all.contains(s) by {
            if s == hi {
                assert(all.last() == hi);
            } else {
                assert(head.contains(s));
                let k = choose|k: int| 0 <= k < head.len() && head[k] == s;
                assert(all[k] == s);
            }
        }
        assert forall|s: int| #[trigger] all.contains(s) implies lo <= s <= hi && plausible(
            l,
            r,
            s,
        ) by {
            let k = choose|k: int| 0 <= k < all.len() && all[k] == s;
            if k < head.len() {
                assert(head[k] == s);
                assert(head.contains(s));
            }
        }
    }
}

proof fn lemma_nearest_members(all: Seq<int>, some: Seq<int>)
    requires
        forall|i: int, j: int| 0 <= i < j < some.len() ==> some[i] < some[j],
    ensures
        forall|s: int|
            #[trigger] nearest(all, some).contains(s) <==> some.contains(s) && nearer_count(all, s)
                < MAX_OPTIONS,
        forall|i: int, j: int|
            0 <= i < j < nearest(all, some).len() ==> nearest(all, some)[i] < nearest(all, some)[j],
    decreases some.len(),
{
    if some.len() > 0 {
        let init = some.drop_last();
        lemma_nearest_members(all, init);
        let head = nearest(all, init);
        let out = nearest(all, some);
        assert forall|s: int| #[trigger] out.contains(s) <==> some.contains(s) && nearer_count(all, s)
            < MAX_OPTIONS by {
            if out.contains(s) {
                let k = choose|k: int| 0 <= k < out.len() && out[k] == s;
                if k < head.len() {
                    assert(head.contains(s));
                    let m = choose|m: int| 0 <= m < init.len() && init[m] == s;
                    assert(some[m] == s);
                } else {
                    assert(some[some.len() - 1] == s);
                }
            }
            if some.contains(s) && nearer_count(all, s) < MAX_OPTIONS {
                let k = choose|k: int| 0 <= k < some.len() && some[k] == s;
                if k < init.len() {
                    assert(init[k] == s);
                    assert(head.contains(s));
                    let m = choose|m: int| 0 <= m < head.len() && head[m] == s;
                    assert(out[m] == s);
                } else {
                    assert(out.last() == s);
                }
            }
        }
        assert forall|i: int, j: int| 0 <= i < j < out.len() implies out[i] < out[j] by {
            if j == head.len() {
                assert(head.contains(head[i]));
                let m = choose|m: int| 0 <= m < init.len() && init[m] == head[i];
                assert(some[m] == head[i]);
                assert(some[m] < some[some.len() - 1]);
            }
        }
    } else {
        assert forall|s: int| #[trigger] nearest(all, some).contains(s) <==> some.contains(s)
            && nearer_count(all, s) < MAX_OPTIONS by {
            assert(nearest(all, some) =~= Seq::<int>::empty());
        }
    }
}

/// A shift that is nearer than another one also has fewer nearer ones.
proof fn lemma_nearer_count_order(all: Seq<int>, a: int, b: int)
    requires
        nearer(a, b),
    ensures
        nearer_count(all, a) <= nearer_count(all, b),
        all.contains(a) ==> nearer_count(all, a) < nearer_count(all, b),
    decreases all.len(),
{
    if all.len() > 0 {
        let init = all.drop_last();
        lemma_nearer_count_order(init, a, b);
        if all.contains(a) && all.last() != a {
            let k = choose|k: int| 0 <= k < all.len() && all[k] == a;
            assert(init[k] == a);
            assert(init.contains(a));
        }
    }
}

/// Members of `all` nearer than `s` lie in the window around zero.
proof fn lemma_nearer_count_window(all: Seq<int>, s: int)
    requires
        forall|i: int, j: int| 0 <= i < j < all.len() ==> all[i] < all[j],
    ensures
        nearer_count(all, s) <= 2 * size_of(s),
    decreases all.len(),
{
    lemma_nearer_count_between(all, s, size_of(s) + 1);
}

/// Of an ascending list whose members are below `bound`, at most
/// `bound + |s| - 1` are nearer than `s` (and never more than `2 |s|`).
proof fn lemma_nearer_count_between(all: Seq<int>, s: int, bound: int)
    requires
        forall|i: int, j: int| 0 <= i < j < all.len() ==> all[i] < all[j],
        -size_of(s) <= bound <= size_of(s) + 1,
    ensures
        (forall|i: int| 0 <= i < all.len() ==> all[i] < bound) ==> nearer_count(all, s) <= bound
            + size_of(s),
        nearer_count(all, s) <= 2 * size_of(s),
    decreases all.len(),
{
    if all.len() > 0 {
        let init = all.drop_last();
        let last = all.last();
        assert forall|i: int| 0 <= i < init.len() implies init[i] < last by {
            assert(all[i] < all[all.len() - 1]);
        }
        if nearer(last, s) {
            lemma_nearer_count_between(init, s, last);
            if size_of(last) == size_of(s) {
                assert(last == -size_of(s));
            }
        } else {
            lemma_nearer_count_between(init, s, bound);
            if forall|i: int| 0 <= i < all.len() ==> all[i] < bound {
                assert forall|i: int| 0 <= i < init.len() implies init[i] < bound by {
                    assert(all[i] < bound);
                }
            }
        }
    } else if s == 0 {
    }
}

/// The options for a boundary are strictly ascending, leave at least one word
/// on each side that has any, and never number more than the cap. The current
/// cut and every local shift that leaves a word on both sides are always
/// among them; a farther option always cuts right after a sentence.
pub proof fn law_candidate_shifts(l: Seq<Seq<char>>, r: Seq<Seq<char>>)
    ensures
        forall|i: int, j: int|
            0 <= i < j < shifts_of(l, r).len() ==> shifts_of(l, r)[i] < shifts_of(l, r)[j],
        shifts_of(l, r).contains(0),
        shifts_of(l, r).len() <= MAX_OPTIONS,
        forall|s: int|
            #[trigger] shifts_of(l, r).contains(s) ==> {
                &&& s < 0 ==> -s < l.len()
                &&& s > 0 ==> s < r.len()
                &&& size_of(s) <= PUNCT_SHIFT_WORDS
                &&& size_of(s) > MAX_SHIFT_WORDS ==> sentence_end(left_last(l, r, s))
            },
        forall|s: int|
            size_of(s) <= MAX_SHIFT_WORDS && (s < 0 ==> -s < l.len()) && (s > 0 ==> s < r.len())
                ==> #[trigger] shifts_of(l, r).contains(s),
{
    let lo = -spare(reach(l), l.len());
    let hi = spare(reach(l), r.len());
    let all = plausible_shifts(l, r);
    let out = shifts_of(l, r);
    lemma_plausible_in_members(l, r, lo, hi);
    lemma_nearest_members(all, all);
    assert forall|s: int|
        size_of(s) <= MAX_SHIFT_WORDS && (s < 0 ==> -s < l.len()) && (s > 0 ==> s
            < r.len()) implies #[trigger] out.contains(s) by {
        assert(all.contains(s));
        lemma_nearer_count_window(all, s);
    }
    assert(out.contains(0));
    // The ranks of the kept shifts are distinct and below the cap.
    let rank = |s: int| nearer_count(all, s) as int;
    let ranks = Seq::new(out.len(), |i: int| rank(out[i]));
    assert(ranks.no_duplicates()) by {
        assert forall|i: int, j: int|
            0 <= i < ranks.len() && 0 <= j < ranks.len() && i != j implies ranks[i] != ranks[j] by {
            assert(out.contains(out[i]));
            assert(out.contains(out[j]));
            assert(out[i] != out[j]) by {
                if i < j {
                    assert(out[i] < out[j]);
                } else {
                    assert(out[j] < out[i]);
                }
            }
            if nearer(out[i], out[j]) {
                lemma_nearer_count_order(all, out[i], out[j]);
            } else {
                lemma_nearer_count_order(all, out[j], out[i]);
            }
        }
    }
    ranks.unique_seq_to_set();
    let cap = vstd::set_lib::set_int_range(0, MAX_OPTIONS as int);
    vstd::set_lib::lemma_int_range(0, MAX_OPTIONS as int);
    assert(ranks.to_set().subset_of(cap)) by {
        assert forall|x: int| ranks.to_set().contains(x) implies cap.contains(x) by {
            let i = choose|i: int| 0 <= i < ranks.len() && ranks[i] == x;
            assert(out.contains(out[i]));
        }
    }
    vstd::set_lib::lemma_len_subset(ranks.to_set(), cap);
}

// ---------------------------------------------------------------------
// Moving words across a cut

/// The token at which the conversation of two neighbouring turns is cut after
/// `shift` words moved.
pub open spec fn cut_token(left: Seq<WordSpan>, right: Seq<WordSpan>, shift: int) -> int {
    if shift < 0 {
        ranges_of(left)[ranges_of(left).len() + shift].0
    } else if shift > 0 {
        left.len() + ranges_of(right)[shift].0
    } else {
        left.len() as int
    }
}

/// `shift` names a word of the side it takes from, and leaves the right side
/// at least one.
pub open spec fn movable(left: Seq<WordSpan>, right: Seq<WordSpan>, shift: int) -> bool {
    &&& shift < 0 ==> -shift <= ranges_of(left).len()
    &&& shift > 0 ==> shift < ranges_of(right).len()
}

/// Move whole words across the boundary according to `shift` (see
/// [`candidate_shifts`]) and rebuild both turns' text and time bounds.
pub fn apply_shift(left: &mut SpeakerTurn, right: &mut SpeakerTurn, shift: i32)
    requires
        shift > i32::MIN,
        movable(old(left).words@, old(right).words@, shift as int),
    ensures
        shift == 0 ==> *final(left) == *old(left) && *final(right) == *old(right),
        shift != 0 ==> {
            let all = old(left).words@ + old(right).words@;
            let cut = cut_token(old(left).words@, old(right).words@, shift as int);
            &&& 0 <= cut <= all.len()
            &&& final(left)@ == diarization::with_words(old(left)@, all.take(cut))
            &&& final(right)@ == diarization::with_words(old(right)@, all.skip(cut))
        },
{
    if shift == 0 {
        return;
    }
    let ghost all = left.words@ + right.words@;
    if shift < 0 {
        let l_ranges = word_ranges(left);
        proof {
            assert(int_pairs(l_ranges@).len() == l_ranges@.len());
            law_words_tile_the_turn(left.words@);
        }
        let keep_words: usize = l_ranges.len() - (-shift) as usize;
        let cut: usize = l_ranges[keep_words].0;
        proof {
            assert(int_pairs(l_ranges@)[keep_words as int].0 == cut);
        }
        let mut moved = left.words.split_off(cut);
        moved.append(&mut right.words);
        right.words = moved;
        assert(left.words@ =~= all.take(cut as int));
        assert(right.words@ =~= all.skip(cut as int));
    } else {
        let r_ranges = word_ranges(right);
        proof {
            assert(int_pairs(r_ranges@).len() == r_ranges@.len());
            law_words_tile_the_turn(right.words@);
        }
        let cut: usize = r_ranges[shift as usize].0;
        proof {
            assert(int_pairs(r_ranges@)[shift as int].0 == cut);
        }
        let ghost at = left.words@.len() + cut;
        let rest = right.words.split_off(cut);
        left.words.append(&mut right.words);
        right.words = rest;
        assert(left.words@ =~= all.take(at));
        assert(right.words@ =~= all.skip(at));
    }
    left.rebuild_from_words();
    right.rebuild_from_words();
}

/// Moving a cut never changes what is said, only who says it: the two turns
/// still hold the same words in the same order.
pub proof fn law_cut_keeps_the_words(left: Seq<WordSpan>, right: Seq<WordSpan>, shift: int)
    requires
        movable(left, right, shift),
    ensures
        0 <= cut_token(left, right, shift) <= (left + right).len(),
        (left + right).take(cut_token(left, right, shift)) + (left + right).skip(
            cut_token(left, right, shift),
        ) == left + right,
{
    law_words_tile_the_turn(left);
    law_words_tile_the_turn(right);
    let all = left + right;
    let cut = cut_token(left, right, shift);
    if shift < 0 {
        assert(ranges_of(left)[ranges_of(left).len() + shift].0 < ranges_of(left)[ranges_of(
            left,
        ).len() + shift].1);
    } else if shift > 0 {
        assert(ranges_of(right)[shift].0 < ranges_of(right)[shift].1);
    }
    assert(all.take(cut) + all.skip(cut) =~= all);
}

/// Applying an offered shift leaves at least one token on each side.
pub proof fn law_offered_cut_keeps_both_sides(left: Seq<WordSpan>, right: Seq<WordSpan>, shift: int)
    requires
        left.len() > 0,
        right.len() > 0,
        shifts_of(turn_words(left), turn_words(right)).contains(shift),
    ensures
        movable(left, right, shift),
        0 < cut_token(left, right, shift) < (left + right).len(),
{
    law_candidate_shifts(turn_words(left), turn_words(right));
    law_words_tile_the_turn(left);
    law_words_tile_the_turn(right);
    let l = ranges_of(left);
    let r = ranges_of(right);
    assert(turn_words(left).len() == l.len());
    assert(turn_words(right).len() == r.len());
    if shift < 0 {
        let k = l.len() + shift;
        assert(l[0].1 <= l[k].0);
    } else if shift > 0 {
        assert(0 <= r[shift].0 < r[shift].1 <= right.len());
    }
}

/// The last instant of the left side and the first of the right side once
/// `shift` words have moved, when both sides keep a word.
pub open spec fn cut_edges(left: Seq<WordSpan>, right: Seq<WordSpan>, shift: int) -> Option<
    (Nanos, Nanos),
> {
    let l = ranges_of(left);
    let r = ranges_of(right);
    if shift < 0 {
        let keep = l.len() + shift;
        if keep <= 0 {
            None
        } else {
            Some((left[l[keep - 1].1 - 1].end_ns, left[l[keep].0].start_ns))
        }
    } else if shift > 0 {
        if shift >= r.len() {
            None
        } else {
            Some((right[r[shift - 1].1 - 1].end_ns, right[r[shift].0].start_ns))
        }
    } else if l.len() == 0 || r.len() == 0 {
        None
    } else {
        Some((left[l.last().1 - 1].end_ns, right[r[0].0].start_ns))
    }
}

/// The instant where the cut falls for a given shift: the middle of the gap
/// between the last word of the left side and the first of the right side.
/// Nothing when the shift would empty a side. The result is in nanoseconds,
/// like every instant of this crate.
pub fn cut_instant_ms(left: &SpeakerTurn, right: &SpeakerTurn, shift: i32) -> (r: Option<Nanos>)
    requires
        shift > i32::MIN,
    ensures
        match (r, cut_edges(left.words@, right.words@, shift as int)) {
            (Some(t), Some((a, b))) => t == (a + b) / 2,
            (None, None) => true,
            _ => false,
        },
{
    let l_ranges = word_ranges(left);
    let r_ranges = word_ranges(right);
    proof {
        assert(int_pairs(l_ranges@).len() == l_ranges@.len());
        assert(int_pairs(r_ranges@).len() == r_ranges@.len());
        law_words_tile_the_turn(left.words@);
        law_words_tile_the_turn(right.words@);
        assert forall|k: int| 0 <= k < l_ranges@.len() implies {
            &&& (#[trigger] l_ranges@[k]).0 == ranges_of(left.words@)[k].0
            &&& l_ranges@[k].1 == ranges_of(left.words@)[k].1
        } by {
            assert(int_pairs(l_ranges@)[k] == ranges_of(left.words@)[k]);
        }
        assert forall|k: int| 0 <= k < r_ranges@.len() implies {
            &&& (#[trigger] r_ranges@[k]).0 == ranges_of(right.words@)[k].0
            &&& r_ranges@[k].1 == ranges_of(right.words@)[k].1
        } by {
            assert(int_pairs(r_ranges@)[k] == ranges_of(right.words@)[k]);
        }
    }
    if shift < 0 {
        let back: usize = (-shift) as usize;
        if l_ranges.len() <= back {
            return None;
        }
        let keep: usize = l_ranges.len() - back;
        let a: Nanos = left.words[l_ranges[keep - 1].1 - 1].end_ns;
        let b: Nanos = left.words[l_ranges[keep].0].start_ns;
        Some(midpoint(a, b))
    } else if shift > 0 {
        let ahead: usize = shift as usize;
        if r_ranges.len() <= ahead {
            return None;
        }
        let a: Nanos = right.words[r_ranges[ahead - 1].1 - 1].end_ns;
        let b: Nanos = right.words[r_ranges[ahead].0].start_ns;
        Some(midpoint(a, b))
    } else {
        let n: usize = l_ranges.len();
        if n == 0 || r_ranges.len() == 0 {
            return None;
        }
        let a: Nanos = left.words[l_ranges[n - 1].1 - 1].end_ns;
        let b: Nanos = right.words[r_ranges[0].0].start_ns;
        Some(midpoint(a, b))
    }
}

/// The pick lies at the edge of the local window of the offered shifts.
pub open spec fn extreme(shift: int, shifts: Seq<int>) -> bool {
    &&& size_of(shift) == MAX_SHIFT_WORDS
    &&& shifts.len() > 0
    &&& (shifts[0] == shift || shifts.last() == shift)
}

/// A pick at the edge of the local window signals that the true cut may lie
/// beyond it: recenter and ask again. A far punctuation jump is final.
pub fn is_extreme_shift(shift: i32, shifts: &[i32]) -> (r: bool)
    ensures
        r == extreme(shift as int, ints(shifts@)),
{
    let n: usize = shifts.len();
    if n == 0 || abs_of(shift) as usize != MAX_SHIFT_WORDS {
        return false;
    }
    assert(ints(shifts@)[0] == shifts@[0] && ints(shifts@).last() == shifts@[n - 1]);
    shifts[0] == shift || shifts[n - 1] == shift
}

// ---------------------------------------------------------------------
// Tight handovers

/// The silence between the last word of one turn and the first of the next;
/// negative when they overlap.
pub open spec fn silence(left: TurnView, right: TurnView) -> int {
    right.words[0].start_ns - left.words.last().end_ns
}

/// Both turns have words and less than the tight gap lies between them.
pub open spec fn adjacent(left: TurnView, right: TurnView) -> bool {
    left.words.len() > 0 && right.words.len() > 0 && silence(left, right) < TIGHT_GAP_NS
}

/// Whether less than the tight gap lies between two turns with words.
fn is_adjacent(left: &SpeakerTurn, right: &SpeakerTurn) -> (r: bool)
    ensures
        r == adjacent(left@, right@),
{
    let n: usize = left.words.len();
    if n == 0 || right.words.len() == 0 {
        return false;
    }
    (right.words[0].start_ns as i128) - (left.words[n - 1].end_ns as i128) < TIGHT_GAP_NS as i128
}

/// The turns belong to two different known speakers and are adjacent.
pub open spec fn tight(left: TurnView, right: TurnView) -> bool {
    &&& left.speaker is Some
    &&& right.speaker is Some
    &&& left.speaker != right.speaker
    &&& adjacent(left, right)
}

/// The gap of a handover; overlapping turns have none.
pub open spec fn gap_of(left: TurnView, right: TurnView) -> int {
    if silence(left, right) > 0 {
        silence(left, right)
    } else {
        0
    }
}

/// The gap of a tight handover between two different speakers.
pub fn is_tight_boundary(left: &SpeakerTurn, right: &SpeakerTurn) -> (r: Option<Nanos>)
    ensures
        r is Some <==> tight(left@, right@),
        r matches Some(gap) ==> gap == gap_of(left@, right@),
{
    match (left.speaker, right.speaker) {
        (Some(a), Some(b)) => {
            if a == b || !is_adjacent(left, right) {
                return None;
            }
            let gap: i128 = (right.words[0].start_ns as i128) - (left.words[left.words.len()
                - 1].end_ns as i128);
            if gap > 0 {
                Some(gap as i64)
            } else {
                Some(0)
            }
        },
        _ => None,
    }
}

/// A boundary between turns `left_idx` and `left_idx + 1` worth asking about.
#[derive(Debug, Clone, Copy)]
pub struct Boundary {
    pub left_idx: usize,
    pub gap_ns: Nanos,
}

/// The tight handovers among the first `n` turns, in order.
pub open spec fn handovers(turns: Seq<TurnView>, n: int) -> Seq<(int, int)>
    decreases n,
{
    if n < 2 {
        Seq::empty()
    } else {
        let head = handovers(turns, n - 1);
        if tight(turns[n - 2], turns[n - 1]) {
            head.push((n - 2, gap_of(turns[n - 2], turns[n - 1])))
        } else {
            head
        }
    }
}

/// Handover `a` is tighter than `b`; of two equal gaps the earlier one.
pub open spec fn tighter(a: (int, int), b: (int, int)) -> bool {
    a.1 < b.1 || (a.1 == b.1 && a.0 < b.0)
}

/// How many of `all` are tighter than `b`.
pub open spec fn tighter_count(all: Seq<(int, int)>, b: (int, int)) -> nat
    decreases all.len(),
{
    if all.len() == 0 {
        0
    } else {
        tighter_count(all.drop_last(), b) + if tighter(all.last(), b) {
            1nat
        } else {
            0nat
        }
    }
}

/// The members of `some` with fewer than `MAX_QUERIES` tighter ones in `all`.
pub open spec fn tightest(all: Seq<(int, int)>, some: Seq<(int, int)>) -> Seq<(int, int)>
    decreases some.len(),
{
    if some.len() == 0 {
        Seq::empty()
    } else {
        let head = tightest(all, some.drop_last());
        if tighter_count(all, some.last()) < MAX_QUERIES {
            head.push(some.last())
        } else {
            head
        }
    }
}

/// The handovers to look at: the tightest ones, in order.
pub open spec fn boundaries_of(turns: Seq<TurnView>) -> Seq<(int, int)> {
    let all = handovers(turns, turns.len() as int);
    tightest(all, all)
}

/// Boundaries as index and gap.
pub open spec fn boundary_pairs(v: Seq<Boundary>) -> Seq<(int, int)> {
    Seq::new(v.len(), |i: int| (v[i].left_idx as int, v[i].gap_ns as int))
}

/// How many of `all` are tighter than `b`.
fn count_tighter(all: &[Boundary], b: Boundary) -> (r: usize)
    ensures
        r == tighter_count(boundary_pairs(all@), (b.left_idx as int, b.gap_ns as int)),
{
    let ghost pairs = boundary_pairs(all@);
    let mut n: usize = 0;
    let mut i: usize = 0;
    assert(pairs.take(0) =~= Seq::<(int, int)>::empty());
    while i < all.len()
        invariant
            i <= all.len(),
            n <= i,
            pairs == boundary_pairs(all@),
            n == tighter_count(pairs.take(i as int), (b.left_idx as int, b.gap_ns as int)),
        decreases all.len() - i,
    {
        proof {
            assert(pairs.take(i + 1).drop_last() =~= pairs.take(i as int));
            assert(pairs.take(i + 1).last() == pairs[i as int]);
        }
        let a: Boundary = all[i];
        if a.gap_ns < b.gap_ns || (a.gap_ns == b.gap_ns && a.left_idx < b.left_idx) {
            n += 1;
        }
        i += 1;
    }
    assert(pairs.take(i as int) =~= pairs);
    n
}

/// The tight handovers in order. Of too many, the tightest are kept: they are
/// the likeliest to be wrong.
pub fn find_boundaries(turns: &[SpeakerTurn]) -> (r: Vec<Boundary>)
    ensures
        boundary_pairs(r@) == boundaries_of(diarization::turn_views(turns@)),
{
    let ghost v = diarization::turn_views(turns@);
    let mut all: Vec<Boundary> = Vec::new();
    let mut i: usize = 1;
    assert(boundary_pairs(all@) =~= handovers(v, 1));
    if turns.len() == 0 {
        assert(boundary_pairs(all@) =~= boundaries_of(v));
        return all;
    }
    while i < turns.len()
        invariant
            1 <= i <= turns.len(),
            v == diarization::turn_views(turns@),
            boundary_pairs(all@) == handovers(v, i as int),
        decreases turns.len() - i,
    {
        let ghost held = all@;
        match is_tight_boundary(&turns[i - 1], &turns[i]) {
            Some(gap) => {
                all.push(Boundary { left_idx: i - 1, gap_ns: gap });
                assert(boundary_pairs(all@) =~= boundary_pairs(held).push((i - 1, gap as int)));
            },
            None => {},
        }
        i += 1;
    }
    let ghost pairs = boundary_pairs(all@);
    let mut out: Vec<Boundary> = Vec::new();
    let mut k: usize = 0;
    assert(boundary_pairs(out@) =~= tightest(pairs, pairs.take(0)));
    while k < all.len()
        invariant
            k <= all.len(),
            pairs == boundary_pairs(all@),
            boundary_pairs(out@) == tightest(pairs, pairs.take(k as int)),
        decreases all.len() - k,
    {
        proof {
            assert(pairs.take(k + 1).drop_last() =~= pairs.take(k as int));
            assert(pairs.take(k + 1).last() == pairs[k as int]);
        }
        if count_tighter(&all, all[k]) < MAX_QUERIES {
            let ghost held = out@;
            out.push(all[k]);
            assert(boundary_pairs(out@) =~= boundary_pairs(held).push(pairs[k as int]));
        }
        k += 1;
    }
    assert(pairs.take(k as int) =~= pairs);
    out
}

// ---------------------------------------------------------------------
// Laws of the tight handovers

proof fn lemma_handovers(turns: Seq<TurnView>, n: int)
    requires
        0 <= n <= turns.len(),
    ensures
        forall|i: int|
            0 <= i < handovers(turns, n).len() ==> {
                let b = #[trigger] handovers(turns, n)[i];
                0 <= b.0 && b.0 + 1 < n && tight(turns[b.0], turns[b.0 + 1]) && b.1 == gap_of(
                    turns[b.0],
                    turns[b.0 + 1],
                )
            },
        forall|i: int, j: int|
            0 <= i < j < handovers(turns, n).len() ==> (#[trigger] handovers(turns, n)[i]).0 < (
            #[trigger] handovers(turns, n)[j]).0,
        forall|k: int|
            0 <= k && k + 1 < n && tight(turns[k], #[trigger] turns[k + 1]) ==> handovers(
                turns,
                n,
            ).contains((k, gap_of(turns[k], turns[k + 1]))),
    decreases n,
{
    if n >= 2 {
        lemma_handovers(turns, n - 1);
        let head = handovers(turns, n - 1);
        let all = handovers(turns, n);
        assert forall|k: int| 0 <= k && k + 1 < n && tight(turns[k], #[trigger] turns[k + 1]) implies all.contains(
            (k, gap_of(turns[k], turns[k + 1])),
        ) by {
            let b = (k, gap_of(turns[k], turns[k + 1]));
            if k == n - 2 {
                assert(all.last() == b);
            } else {
                assert(head.contains(b));
                let i = choose|i: int| 0 <= i < head.len() && head[i] == b;
                assert(all[i] == b);
            }
        }
    }
}

proof fn lemma_tightest_members(all: Seq<(int, int)>, some: Seq<(int, int)>)
    requires
        forall|i: int, j: int| 0 <= i < j < some.len() ==> (#[trigger] some[i]).0 < (#[trigger] some[j]).0,
    ensures
        forall|b: (int, int)|
            #[trigger] tightest(all, some).contains(b) <==> some.contains(b) && tighter_count(all, b)
                < MAX_QUERIES,
        forall|i: int, j: int|
            0 <= i < j < tightest(all, some).len() ==> (#[trigger] tightest(all, some)[i]).0 < (
            #[trigger] tightest(all, some)[j]).0,
    decreases some.len(),
{
    let out = tightest(all, some);
    if some.len() > 0 {
        let init = some.drop_last();
        lemma_tightest_members(all, init);
        let head = tightest(all, init);
        assert forall|b: (int, int)| #[trigger] out.contains(b) <==> some.contains(b)
            && tighter_count(all, b) < MAX_QUERIES by {
            if out.contains(b) {
                let k = choose|k: int| 0 <= k < out.len() && out[k] == b;
                if k < head.len() {
                    assert(head.contains(b));
                    let m = choose|m: int| 0 <= m < init.len() && init[m] == b;
                    assert(some[m] == b);
                } else {
                    assert(some[some.len() - 1] == b);
                }
            }
            if some.contains(b) && tighter_count(all, b) < MAX_QUERIES {
                let k = choose|k: int| 0 <= k < some.len() && some[k] == b;
                if k < init.len() {
                    assert(init[k] == b);
                    assert(head.contains(b));
                    let m = choose|m: int| 0 <= m < head.len() && head[m] == b;
                    assert(out[m] == b);
                } else {
                    assert(out.last() == b);
                }
            }
        }
        assert forall|i: int, j: int| 0 <= i < j < out.len() implies (#[trigger] out[i]).0 < (
        #[trigger] out[j]).0 by {
            if j == head.len() {
                assert(head.contains(head[i]));
                let m = choose|m: int| 0 <= m < init.len() && init[m] == head[i];
                assert(some[m] == head[i]);
                assert(some[m].0 < some[some.len() - 1].0);
            } else {
                assert(head[i].0 < head[j].0);
            }
        }
    } else {
        assert(out =~= Seq::<(int, int)>::empty());
        assert forall|b: (int, int)| #[trigger] out.contains(b) <==> some.contains(b)
            && tighter_count(all, b) < MAX_QUERIES by {}
    }
}

proof fn lemma_tighter_count_order(all: Seq<(int, int)>, a: (int, int), b: (int, int))
    requires
        tighter(a, b),
    ensures
        tighter_count(all, a) <= tighter_count(all, b),
        all.contains(a) ==> tighter_count(all, a) < tighter_count(all, b),
    decreases all.len(),
{
    if all.len() > 0 {
        let init = all.drop_last();
        lemma_tighter_count_order(init, a, b);
        if all.contains(a) && all.last() != a {
            let k = choose|k: int| 0 <= k < all.len() && all[k] == a;
            assert(init[k] == a);
            assert(init.contains(a));
        }
    }
}

/// The handovers that are looked at are in order, each is a tight handover
/// between two different speakers, and there are at most as many as queries.
/// A tight handover that is left out has at least that many tighter ones.
pub proof fn law_boundaries(turns: Seq<TurnView>)
    ensures
        boundaries_of(turns).len() <= MAX_QUERIES,
        forall|i: int|
            0 <= i < boundaries_of(turns).len() ==> {
                let b = (#[trigger] boundaries_of(turns)[i]).0;
                0 <= b && b + 1 < turns.len() && tight(turns[b], turns[b + 1])
            },
        forall|i: int, j: int|
            0 <= i < j < boundaries_of(turns).len() ==> (#[trigger] boundaries_of(turns)[i]).0 < (
            #[trigger] boundaries_of(turns)[j]).0,
        forall|k: int|
            0 <= k && k + 1 < turns.len() && tight(turns[k], #[trigger] turns[k + 1])
                && !boundaries_of(turns).contains((k, gap_of(turns[k], turns[k + 1])))
                ==> tighter_count(
                handovers(turns, turns.len() as int),
                (k, gap_of(turns[k], turns[k + 1])),
            ) >= MAX_QUERIES,
{
    let all = handovers(turns, turns.len() as int);
    let out = boundaries_of(turns);
    lemma_handovers(turns, turns.len() as int);
    lemma_tightest_members(all, all);
    assert forall|i: int| 0 <= i < out.len() implies {
        let b = (#[trigger] out[i]).0;
        0 <= b && b + 1 < turns.len() && tight(turns[b], turns[b + 1])
    } by {
        assert(out.contains(out[i]));
        let k = choose|k: int| 0 <= k < all.len() && all[k] == out[i];
        assert(all[k].0 == out[i].0);
    }
    let ranks = Seq::new(out.len(), |i: int| tighter_count(all, out[i]) as int);
    assert(ranks.no_duplicates()) by {
        assert forall|i: int, j: int|
            0 <= i < ranks.len() && 0 <= j < ranks.len() && i != j implies ranks[i] != ranks[j] by {
            assert(out.contains(out[i]));
            assert(out.contains(out[j]));
            assert(out[i].0 != out[j].0) by {
                if i < j {
                    assert(out[i].0 < out[j].0);
                } else {
                    assert(out[j].0 < out[i].0);
                }
            }
            if tighter(out[i], out[j]) {
                lemma_tighter_count_order(all, out[i], out[j]);
            } else {
                lemma_tighter_count_order(all, out[j], out[i]);
            }
        }
    }
    ranks.unique_seq_to_set();
    let cap = vstd::set_lib::set_int_range(0, MAX_QUERIES as int);
    vstd::set_lib::lemma_int_range(0, MAX_QUERIES as int);
    assert(ranks.to_set().subset_of(cap)) by {
        assert forall|x: int| ranks.to_set().contains(x) implies cap.contains(x) by {
            let i = choose|i: int| 0 <= i < ranks.len() && ranks[i] == x;
            assert(out.contains(out[i]));
        }
    }
    vstd::set_lib::lemma_len_subset(ranks.to_set(), cap);
}

// ---------------------------------------------------------------------
// Phantom interjections

/// `mid` is a short turn of another speaker wedged inside one speaker's
/// speech, with tight gaps on both sides.
pub open spec fn sandwich(prev: TurnView, mid: TurnView, next: TurnView) -> bool {
    &&& prev.speaker is Some
    &&& mid.speaker is Some
    &&& prev.speaker == next.speaker
    &&& mid.speaker != prev.speaker
    &&& ranges_of(mid.words).len() <= SANDWICH_MAX_WORDS
    &&& adjacent(prev, mid)
    &&& adjacent(mid, next)
}

/// True when `mid` is a short different-speaker turn wedged inside one
/// speaker's speech with tight gaps on both sides.
pub fn is_sandwich(prev: &SpeakerTurn, mid: &SpeakerTurn, next: &SpeakerTurn) -> (r: bool)
    ensures
        r == sandwich(prev@, mid@, next@),
{
    match (prev.speaker, mid.speaker, next.speaker) {
        (Some(p), Some(m), Some(n)) => {
            if p != n || m == p {
                return false;
            }
            let ranges = word_ranges(mid);
            assert(int_pairs(ranges@).len() == ranges@.len());
            ranges.len() <= SANDWICH_MAX_WORDS && is_adjacent(prev, mid) && is_adjacent(mid, next)
        },
        _ => false,
    }
}

/// The turns after folding turns `mid` and `mid + 1` into turn `mid - 1`.
pub open spec fn folded(turns: Seq<TurnView>, mid: int) -> Seq<TurnView> {
    let words = turns[mid - 1].words + turns[mid].words + turns[mid + 1].words;
    turns.take(mid - 1).push(diarization::with_words(turns[mid - 1], words)) + turns.skip(mid + 2)
}

/// Fold `turns[mid_idx]` and `turns[mid_idx + 1]` into `turns[mid_idx - 1]`.
pub fn merge_sandwich(turns: &mut Vec<SpeakerTurn>, mid_idx: usize)
    requires
        1 <= mid_idx,
        mid_idx + 1 < old(turns)@.len(),
    ensures
        diarization::turn_views(final(turns)@) == folded(
            diarization::turn_views(old(turns)@),
            mid_idx as int,
        ),
{
    let ghost before = turns@;
    assert(mid_idx + 1 < turns.len());
    let mut next = turns.remove(mid_idx + 1);
    let mut mid = turns.remove(mid_idx);
    let mut prev = turns.remove(mid_idx - 1);
    prev.words.append(&mut mid.words);
    prev.words.append(&mut next.words);
    prev.rebuild_from_words();
    turns.insert(mid_idx - 1, prev);
    assert(diarization::turn_views(turns@) =~= folded(
        diarization::turn_views(before),
        mid_idx as int,
    ));
}

/// Folding a phantom interjection never changes what is said.
pub proof fn law_fold_keeps_the_words(turns: Seq<TurnView>, mid: int)
    requires
        1 <= mid,
        mid + 1 < turns.len(),
    ensures
        diarization::conversation(folded(turns, mid)) == diarization::conversation(turns),
{
    let head = turns.take(mid - 1);
    let tail = turns.skip(mid + 2);
    let core = seq![turns[mid - 1], turns[mid], turns[mid + 1]];
    let one = seq![folded(turns, mid)[mid - 1]];
    assert(turns =~= head + core + tail);
    assert(folded(turns, mid) =~= head + one + tail);
    diarization::lemma_conversation_concat(head + core, tail);
    diarization::lemma_conversation_concat(head + one, tail);
    diarization::lemma_conversation_concat(head, core);
    diarization::lemma_conversation_concat(head, one);
    reveal_with_fuel(diarization::conversation, 4);
    assert(core.drop_last() =~= seq![turns[mid - 1], turns[mid]]);
    assert(core.drop_last().drop_last() =~= seq![turns[mid - 1]]);
    assert(core.drop_last().drop_last().drop_last() =~= Seq::<TurnView>::empty());
    assert(one.drop_last() =~= Seq::<TurnView>::empty());
    assert(diarization::conversation(core) =~= turns[mid - 1].words + turns[mid].words + turns[mid
        + 1].words);
    assert(diarization::conversation(one) =~= one[0].words);
}

/// The turns after the cut behind turn `i` moved by `shift` words.
pub open spec fn recut(turns: Seq<TurnView>, i: int, shift: int) -> Seq<TurnView> {
    if shift == 0 {
        turns
    } else {
        let all = turns[i].words + turns[i + 1].words;
        let cut = cut_token(turns[i].words, turns[i + 1].words, shift);
        turns.update(i, diarization::with_words(turns[i], all.take(cut))).update(
            i + 1,
            diarization::with_words(turns[i + 1], all.skip(cut)),
        )
    }
}

/// Move the cut behind `turns[i]` by `shift` words.
pub fn move_cut(turns: &mut Vec<SpeakerTurn>, i: usize, shift: i32)
    requires
        i + 1 < old(turns)@.len(),
        shift > i32::MIN,
        movable(old(turns)@[i as int].words@, old(turns)@[i + 1].words@, shift as int),
    ensures
        diarization::turn_views(final(turns)@) == recut(
            diarization::turn_views(old(turns)@),
            i as int,
            shift as int,
        ),
{
    let ghost before = turns@;
    assert(i + 1 < turns.len());
    let mut right = turns.remove(i + 1);
    let mut left = turns.remove(i);
    apply_shift(&mut left, &mut right, shift);
    turns.insert(i, left);
    turns.insert(i + 1, right);
    assert(diarization::turn_views(turns@) =~= recut(
        diarization::turn_views(before),
        i as int,
        shift as int,
    ));
}

/// Moving a cut never changes what is said, and neither who speaks nor how
/// many turns there are.
pub proof fn law_recut_keeps_the_words(turns: Seq<TurnView>, i: int, shift: int)
    requires
        0 <= i,
        i + 1 < turns.len(),
        movable(turns[i].words, turns[i + 1].words, shift),
    ensures
        diarization::conversation(recut(turns, i, shift)) == diarization::conversation(turns),
        recut(turns, i, shift).len() == turns.len(),
        forall|k: int|
            0 <= k < turns.len() ==> (#[trigger] recut(turns, i, shift)[k]).speaker
                == turns[k].speaker,
        forall|k: int|
            0 <= k < turns.len() && k != i && k != i + 1 ==> #[trigger] recut(turns, i, shift)[k]
                == turns[k],
{
    if shift != 0 {
        let new = recut(turns, i, shift);
        let head = turns.take(i);
        let tail = turns.skip(i + 2);
        let two = seq![turns[i], turns[i + 1]];
        let cut = seq![new[i], new[i + 1]];
        assert(turns =~= head + two + tail);
        assert(new =~= head + cut + tail);
        diarization::lemma_conversation_concat(head + two, tail);
        diarization::lemma_conversation_concat(head + cut, tail);
        diarization::lemma_conversation_concat(head, two);
        diarization::lemma_conversation_concat(head, cut);
        reveal_with_fuel(diarization::conversation, 3);
        assert(two.drop_last() =~= seq![turns[i]]);
        assert(two.drop_last().drop_last() =~= Seq::<TurnView>::empty());
        assert(cut.drop_last() =~= seq![new[i]]);
        assert(cut.drop_last().drop_last() =~= Seq::<TurnView>::empty());
        assert(diarization::conversation(two) =~= turns[i].words + turns[i + 1].words);
        assert(diarization::conversation(cut) =~= new[i].words + new[i + 1].words);
        law_cut_keeps_the_words(turns[i].words, turns[i + 1].words, shift);
    }
}

// ---------------------------------------------------------------------
// What words, cuts and handovers are

/// Token `i` begins with whitespace.
pub open spec fn spaced_token(words: Seq<WordSpan>, i: int) -> bool {
    words[i].text@.len() > 0 && text::white(words[i].text@[0])
}

/// How many words some tokens make: the first token opens one, and so does every
/// token that begins with whitespace.
pub open spec fn word_total(words: Seq<WordSpan>) -> int
    decreases words.len(),
{
    if words.len() == 0 {
        0
    } else {
        word_total(words.drop_last()) + if words.len() == 1 || spaced_token(words, words.len() - 1) {
            1int
        } else {
            0
        }
    }
}

/// Every word start, and only that, opens a range, so there are as many ranges as
/// words, and before the range with number `k` there are `k` words.
pub proof fn law_every_word_is_a_range(words: Seq<WordSpan>, i: int, k: int)
    requires
        0 <= i < words.len(),
        0 <= k < ranges_of(words).len(),
    ensures
        ranges_of(words).len() == word_total(words),
        (exists|m: int| 0 <= m < ranges_of(words).len() && (#[trigger] ranges_of(words)[m]).0 == i)
            <==> i == 0 || spaced_token(words, i),
        0 <= ranges_of(words)[k].0 < ranges_of(words)[k].1 <= words.len(),
        word_total(words.take(ranges_of(words)[k].0)) == k,
        word_total(words.skip(ranges_of(words)[k].0)) == word_total(words) - k,
{
    law_words_tile_the_turn(words);
    lemma_ranges(words, i);
    lemma_ranges_take(words, k);
    let at = ranges_of(words)[k].0;
    assert(starts_word(words, at));
    lemma_word_total_split(words, at);
}

proof fn lemma_ranges(words: Seq<WordSpan>, i: int)
    requires
        0 <= i < words.len(),
    ensures
        ranges_of(words).len() == word_total(words),
        (exists|m: int| 0 <= m < ranges_of(words).len() && (#[trigger] ranges_of(words)[m]).0 == i)
            <==> starts_word(words, i),
    decreases words.len(),
{
    let n = words.len() - 1;
    let init = words.drop_last();
    let head = ranges_of(init);
    let r = ranges_of(words);
    law_words_tile_the_turn(init);
    law_words_tile_the_turn(words);
    if n > 0 {
        lemma_ranges(init, if i < n { i } else { 0 });
    } else {
        assert(word_total(init) == 0);
        assert(head.len() == 0);
    }
    if i < n {
        if exists|m: int| 0 <= m < head.len() && (#[trigger] head[m]).0 == i {
            let m = choose|m: int| 0 <= m < head.len() && (#[trigger] head[m]).0 == i;
            assert(r[m].0 == i);
        }
        if exists|m: int| 0 <= m < r.len() && (#[trigger] r[m]).0 == i {
            let m = choose|m: int| 0 <= m < r.len() && (#[trigger] r[m]).0 == i;
            assert(head[m].0 == i);
        }
    } else {
        if starts_word(words, n) {
            assert(r[head.len() as int].0 == n);
        } else if exists|m: int| 0 <= m < r.len() && (#[trigger] r[m]).0 == n {
            let m = choose|m: int| 0 <= m < r.len() && (#[trigger] r[m]).0 == n;
            assert(head[m].0 == n);
            assert(head[m].0 < init.len());
        }
    }
}

/// The words before a word are those of the tokens before it.
proof fn lemma_ranges_take(words: Seq<WordSpan>, k: int)
    requires
        0 <= k < ranges_of(words).len(),
    ensures
        word_total(words.take(ranges_of(words)[k].0)) == k,
    decreases words.len(),
{
    let n = words.len() - 1;
    let init = words.drop_last();
    let head = ranges_of(init);
    let r = ranges_of(words);
    law_words_tile_the_turn(init);
    law_words_tile_the_turn(words);
    if starts_word(words, n) && k == head.len() {
        assert(words.take(n) =~= init);
        if n > 0 {
            lemma_ranges(init, 0);
        }
    } else {
        assert(r[k].0 == head[k].0);
        lemma_ranges_take(init, k);
        assert(words.take(r[k].0) =~= init.take(head[k].0));
    }
}

/// Cut at a word start, the words of the two parts are those of the whole.
proof fn lemma_word_total_split(words: Seq<WordSpan>, at: int)
    requires
        0 <= at < words.len(),
        starts_word(words, at),
    ensures
        word_total(words) == word_total(words.take(at)) + word_total(words.skip(at)),
    decreases words.len(),
{
    let n = words.len() - 1;
    let init = words.drop_last();
    let tail = words.skip(at);
    assert(tail.drop_last() =~= init.skip(at));
    assert(tail[tail.len() - 1] == words[n]);
    if at < n {
        assert(starts_word(init, at));
        lemma_word_total_split(init, at);
        assert(init.take(at) =~= words.take(at));
        assert(tail.len() > 1);
    } else {
        assert(words.take(at) =~= init);
        assert(tail.len() == 1);
        assert(word_total(tail.drop_last()) == 0);
    }
}

/// A shift moves whole words, exactly so many of them: a positive one the leading
/// words of the right side to the left, a negative one the last words of the left
/// side to the right, and zero none. A cut stands before the first token of a
/// word.
pub proof fn law_shift_moves_words(left: Seq<WordSpan>, right: Seq<WordSpan>, shift: int)
    requires
        movable(left, right, shift),
    ensures
        ({
            let cut = cut_token(left, right, shift);
            &&& shift == 0 ==> cut == left.len()
            &&& shift > 0 ==> left.len() < cut < left.len() + right.len() && spaced_token(
                right,
                cut - left.len(),
            ) && word_total(right.take(cut - left.len())) == shift
            &&& shift < 0 ==> 0 <= cut < left.len() && (cut == 0 || spaced_token(left, cut))
                && word_total(left.skip(cut)) == -shift
        }),
{
    law_words_tile_the_turn(left);
    law_words_tile_the_turn(right);
    let (l, r) = (ranges_of(left), ranges_of(right));
    if shift > 0 {
        law_every_word_is_a_range(right, 0, shift);
        assert(starts_word(right, r[shift].0));
        assert(r[0].1 <= r[shift].0);
    } else if shift < 0 {
        let k = l.len() + shift;
        law_every_word_is_a_range(left, 0, k);
        assert(starts_word(left, l[k].0));
    }
}

/// A moved cut gives the left turn all that is said before it and the right turn
/// the rest, with the text and the times of those words. Nobody else's turn
/// changes.
pub proof fn law_recut(turns: Seq<TurnView>, i: int, shift: int, k: int)
    requires
        0 <= i,
        i + 1 < turns.len(),
        0 <= k < turns.len(),
        movable(turns[i].words, turns[i + 1].words, shift),
    ensures
        ({
            let now = recut(turns, i, shift);
            let all = turns[i].words + turns[i + 1].words;
            let cut = cut_token(turns[i].words, turns[i + 1].words, shift);
            &&& now.len() == turns.len()
            &&& now[i].words == all.take(cut)
            &&& now[i + 1].words == all.skip(cut)
            &&& now[i].speaker == turns[i].speaker
            &&& now[i + 1].speaker == turns[i + 1].speaker
            &&& shift == 0 ==> now == turns
            &&& shift != 0 ==> now[i].text == diarization::spans_text(all.take(cut))
                && now[i + 1].text == diarization::spans_text(all.skip(cut))
            &&& shift != 0 && cut > 0 ==> now[i].start_ns == all[0].start_ns && now[i].end_ns
                == all[cut - 1].end_ns
            &&& shift != 0 && cut < all.len() ==> now[i + 1].start_ns == all[cut].start_ns
                && now[i + 1].end_ns == all[all.len() - 1].end_ns
            &&& k != i && k != i + 1 ==> now[k] == turns[k]
        }),
{
    let all = turns[i].words + turns[i + 1].words;
    let cut = cut_token(turns[i].words, turns[i + 1].words, shift);
    law_cut_keeps_the_words(turns[i].words, turns[i + 1].words, shift);
    if shift == 0 {
        assert(all.take(cut) =~= turns[i].words);
        assert(all.skip(cut) =~= turns[i + 1].words);
    }
}

/// A cut falls between the last word before it and the first word behind it.
pub proof fn law_cut_edges(left: Seq<WordSpan>, right: Seq<WordSpan>, shift: int)
    requires
        left.len() > 0,
        right.len() > 0,
        movable(left, right, shift),
        cut_token(left, right, shift) > 0,
    ensures
        ({
            let all = left + right;
            let cut = cut_token(left, right, shift);
            cut_edges(left, right, shift) == Some((all[cut - 1].end_ns, all[cut].start_ns))
        }),
{
    law_words_tile_the_turn(left);
    law_words_tile_the_turn(right);
    let (l, r) = (ranges_of(left), ranges_of(right));
    if shift < 0 {
        let keep = l.len() + shift;
        if keep > 0 {
            assert(l[keep - 1].1 == l[keep - 1 + 1].0);
            assert(l[keep - 1].0 < l[keep - 1].1);
        } else {
            assert(l[0].0 == 0);
        }
    } else if shift > 0 {
        assert(r[shift - 1].1 == r[shift - 1 + 1].0);
        assert(r[shift - 1].0 < r[shift - 1].1);
    }
}

/// No cut falls where a side would be left without words.
pub proof fn law_no_cut_beside_an_empty_side(left: Seq<WordSpan>, right: Seq<WordSpan>, shift: int)
    ensures
        shift <= 0 && -shift >= word_total(left) ==> cut_edges(left, right, shift) is None,
        shift > 0 && shift >= word_total(right) ==> cut_edges(left, right, shift) is None,
        shift == 0 && right.len() == 0 ==> cut_edges(left, right, shift) is None,
{
    if left.len() > 0 {
        lemma_ranges(left, 0);
    }
    if right.len() > 0 {
        lemma_ranges(right, 0);
    }
}

/// A word ends a sentence exactly when one of the marks `.`, `?`, `!` and the
/// ellipsis stands in it with nothing but closing quotes and brackets behind.
pub proof fn law_sentence_end(word: Seq<char>)
    ensures
        sentence_end(word) <==> exists|j: int|
            #![trigger word[j]]
            0 <= j < word.len() && (word[j] == '.' || word[j] == '?' || word[j] == '!' || word[j]
                == '\u{2026}') && forall|m: int|
                j < m < word.len() ==> (#[trigger] word[m] == '"' || word[m] == '\'' || word[m]
                    == ')' || word[m] == ']' || word[m] == '\u{bb}'),
    decreases word.len(),
{
    if word.len() > 0 {
        let n = word.len() - 1;
        let init = word.drop_last();
        if closer(word[n]) {
            law_sentence_end(init);
            assert(text::drop_back(word, closers()) == text::drop_back(init, closers()));
            if sentence_end(init) {
                let j = choose|j: int|
                    #![trigger init[j]]
                    0 <= j < init.len() && (init[j] == '.' || init[j] == '?' || init[j] == '!'
                        || init[j] == '\u{2026}') && forall|m: int|
                        j < m < init.len() ==> (#[trigger] init[m] == '"' || init[m] == '\''
                            || init[m] == ')' || init[m] == ']' || init[m] == '\u{bb}');
                assert(word[j] == init[j]);
                assert forall|m: int| j < m < word.len() implies (#[trigger] word[m] == '"'
                    || word[m] == '\'' || word[m] == ')' || word[m] == ']' || word[m]
                    == '\u{bb}') by {
                    if m < n {
                        assert(init[m] == word[m]);
                    }
                }
            }
            if exists|j: int|
                #![trigger word[j]]
                0 <= j < word.len() && (word[j] == '.' || word[j] == '?' || word[j] == '!'
                    || word[j] == '\u{2026}') && forall|m: int|
                    j < m < word.len() ==> (#[trigger] word[m] == '"' || word[m] == '\'' || word[m]
                        == ')' || word[m] == ']' || word[m] == '\u{bb}') {
                let j = choose|j: int|
                    #![trigger word[j]]
                    0 <= j < word.len() && (word[j] == '.' || word[j] == '?' || word[j] == '!'
                        || word[j] == '\u{2026}') && forall|m: int|
                        j < m < word.len() ==> (#[trigger] word[m] == '"' || word[m] == '\''
                            || word[m] == ')' || word[m] == ']' || word[m] == '\u{bb}');
                assert(init[j] == word[j]);
                assert forall|m: int| j < m < init.len() implies (#[trigger] init[m] == '"'
                    || init[m] == '\'' || init[m] == ')' || init[m] == ']' || init[m]
                    == '\u{bb}') by {
                    assert(word[m] == init[m]);
                }
            }
        } else {
            assert(text::drop_back(word, closers()) == word);
            assert(word.last() == word[n]);
        }
    }
}

/// A cut is trusted, so that it may move two words only, exactly when the left
/// side ends with a sentence of three words or more.
pub proof fn law_reach(l: Seq<Seq<char>>)
    ensures
        ({
            let n = l.len() as int;
            let trusted = n >= 3 && sentence_end(l[n - 1]) && !sentence_end(l[n - 2])
                && !sentence_end(l[n - 3]);
            reach(l) == if trusted { 2int } else { 12 }
        }),
{
    reveal_with_fuel(open_tail, 4);
    let n = l.len() as int;
    if n >= 1 {
        let a = l.drop_last();
        if n >= 2 {
            assert(a.last() == l[n - 2]);
            let b = a.drop_last();
            if n >= 3 {
                assert(b.last() == l[n - 3]);
            }
        }
    }
}

/// A shift that may be offered: it leaves a word on the side that it takes from,
/// lies in reach, and is small or falls right behind a sentence.
pub open spec fn offerable(l: Seq<Seq<char>>, r: Seq<Seq<char>>, s: int) -> bool {
    &&& s < 0 ==> -s < l.len()
    &&& s > 0 ==> s < r.len()
    &&& -reach(l) <= s <= reach(l)
    &&& -2 <= s <= 2 || (s > 2 && sentence_end(r[s - 1])) || (s < -2 && sentence_end(
        l[l.len() + s - 1],
    ))
}

/// All that may be offered is offered, up to seven options, and nothing else. Of
/// too many the nearest to the current cut are: one that is left out is farther
/// away than all seven that are not, or as far on the other side.
pub proof fn law_offered_shifts(l: Seq<Seq<char>>, r: Seq<Seq<char>>, s: int, o: int)
    requires
        shifts_of(l, r).contains(o),
    ensures
        offerable(l, r, o),
        shifts_of(l, r).len() <= 7,
        offerable(l, r, s) && !shifts_of(l, r).contains(s) ==> {
            &&& shifts_of(l, r).len() == 7
            &&& -s < o < s || s < o < -s || (o < 0 && s == -o)
        },
{
    let lo = -spare(reach(l), l.len());
    let hi = spare(reach(l), r.len());
    let all = plausible_shifts(l, r);
    let out = shifts_of(l, r);
    lemma_plausible_in_members(l, r, lo, hi);
    lemma_nearest_members(all, all);
    law_candidate_shifts(l, r);
    assert(all.contains(o));
    if offerable(l, r, s) && !out.contains(s) {
        assert(plausible(l, r, s));
        assert(lo <= s <= hi);
        assert(all.contains(s));
        assert(nearer_count(all, s) >= MAX_OPTIONS);
        assert(nearer_count(all, o) < MAX_OPTIONS);
        assert(s != o);
        if nearer(s, o) {
            lemma_nearer_count_order(all, s, o);
        }
        assert(nearer(o, s));
        lemma_full(all, s);
    }
}

/// With seven or more nearer ones than some member, seven are offered.
proof fn lemma_full(all: Seq<int>, s: int)
    requires
        forall|i: int, j: int| 0 <= i < j < all.len() ==> #[trigger] all[i] < #[trigger] all[j],
        all.contains(s),
        nearer_count(all, s) >= MAX_OPTIONS,
    ensures
        nearest(all, all).len() >= MAX_OPTIONS,
{
    let out = nearest(all, all);
    lemma_nearest_members(all, all);
    let picks = Seq::new(MAX_OPTIONS as nat, |x: int| shift_pick(all, x));
    assert forall|x: int| 0 <= x < MAX_OPTIONS implies out.contains(#[trigger] picks[x])
        && nearer_count(all, picks[x]) == x by {
        lemma_nearer_bound(all, s);
        lemma_rank_taken(all, x);
    }
    assert(picks.no_duplicates()) by {
        assert forall|i: int, j: int|
            0 <= i < picks.len() && 0 <= j < picks.len() && i != j implies picks[i] != picks[j] by {
            assert(nearer_count(all, picks[i]) == i);
            assert(nearer_count(all, picks[j]) == j);
        }
    }
    picks.unique_seq_to_set();
    out.lemma_cardinality_of_set();
    assert(picks.to_set().subset_of(out.to_set())) by {
        assert forall|c: int| picks.to_set().contains(c) implies out.to_set().contains(c) by {
            let x = choose|x: int| 0 <= x < picks.len() && picks[x] == c;
            assert(out.contains(picks[x]));
        }
    }
    vstd::set_lib::lemma_len_subset(picks.to_set(), out.to_set());
}

/// The member with so many nearer ones.
spec fn shift_pick(all: Seq<int>, x: int) -> int {
    choose|c: int| #[trigger] all.contains(c) && nearer_count(all, c) == x
}

proof fn lemma_nearer_bound(all: Seq<int>, s: int)
    ensures
        nearer_count(all, s) <= all.len(),
        all.contains(s) ==> nearer_count(all, s) < all.len(),
    decreases all.len(),
{
    if all.len() > 0 {
        lemma_nearer_bound(all.drop_last(), s);
        if all.contains(s) && all.last() != s {
            let k = choose|k: int| 0 <= k < all.len() && all[k] == s;
            assert(all.drop_last()[k] == s);
        }
    }
}

/// Every number below that of the members is how many nearer ones some member
/// has.
proof fn lemma_rank_taken(all: Seq<int>, x: int)
    requires
        forall|i: int, j: int| 0 <= i < j < all.len() ==> #[trigger] all[i] < #[trigger] all[j],
        0 <= x < all.len(),
    ensures
        all.contains(shift_pick(all, x)),
        nearer_count(all, shift_pick(all, x)) == x,
{
    let n = all.len() as int;
    let ranks = Seq::new(all.len(), |i: int| nearer_count(all, all[i]) as int);
    assert(ranks.no_duplicates()) by {
        assert forall|i: int, j: int|
            0 <= i < ranks.len() && 0 <= j < ranks.len() && i != j implies ranks[i] != ranks[j] by {
            assert(all.contains(all[i]) && all.contains(all[j]));
            assert(all[i] != all[j]) by {
                if i < j {
                    assert(all[i] < all[j]);
                } else {
                    assert(all[j] < all[i]);
                }
            }
            if nearer(all[i], all[j]) {
                lemma_nearer_count_order(all, all[i], all[j]);
            } else {
                lemma_nearer_count_order(all, all[j], all[i]);
            }
        }
    }
    ranks.unique_seq_to_set();
    let range = vstd::set_lib::set_int_range(0, n);
    vstd::set_lib::lemma_int_range(0, n);
    assert(ranks.to_set().subset_of(range)) by {
        assert forall|c: int| ranks.to_set().contains(c) implies range.contains(c) by {
            let i = choose|i: int| 0 <= i < ranks.len() && ranks[i] == c;
            assert(all.contains(all[i]));
            lemma_nearer_bound(all, all[i]);
        }
    }
    vstd::set_lib::lemma_subset_equality(ranks.to_set(), range);
    assert(ranks.to_set().contains(x));
    let i = choose|i: int| 0 <= i < ranks.len() && ranks[i] == x;
    assert(all.contains(all[i]) && nearer_count(all, all[i]) == x);
}

/// A pick is at the edge exactly when it is two words away and the first or the
/// last of the options.
pub proof fn law_extreme(shift: int, shifts: Seq<int>)
    requires
        shifts.len() > 0,
    ensures
        extreme(shift, shifts) <==> (shift == 2 || shift == -2) && (shift == shifts[0] || shift
            == shifts[shifts.len() - 1]),
{
}

/// A handover is tight exactly when two different known speakers follow each
/// other within less than 1.2 seconds, from the last word of the one to the first
/// of the other. Its gap is the silence between them, and none where they overlap.
pub proof fn law_tight(left: TurnView, right: TurnView)
    ensures
        tight(left, right) <==> {
            &&& left.speaker is Some && right.speaker is Some
            &&& left.speaker->0 != right.speaker->0
            &&& left.words.len() > 0 && right.words.len() > 0
            &&& right.words[0].start_ns - left.words[left.words.len() - 1].end_ns < 1_200_000_000
        },
        left.words.len() > 0 && right.words.len() > 0 ==> {
            let d = right.words[0].start_ns - left.words[left.words.len() - 1].end_ns;
            gap_of(left, right) == if d > 0 { d } else { 0 }
        },
{
}

/// Every tight handover is looked at while there are at most thirty-two; of more
/// the tightest are, and of equally tight ones the earlier.
pub proof fn law_tightest_are_looked_at(turns: Seq<TurnView>, k: int, b: int)
    requires
        0 <= k,
        k + 1 < turns.len(),
        0 <= b < boundaries_of(turns).len(),
    ensures
        ({
            let (at, gap) = boundaries_of(turns)[b];
            let mine = gap_of(turns[k], turns[k + 1]);
            let all = boundaries_of(turns);
            &&& 0 <= at && at + 1 < turns.len() && tight(turns[at], turns[at + 1])
            &&& gap == gap_of(turns[at], turns[at + 1])
            &&& all.len() <= 32
            &&& all.contains((k, mine)) ==> tight(turns[k], turns[k + 1])
            &&& tight(turns[k], turns[k + 1]) && !all.contains((k, mine)) ==> all.len() == 32 && (gap
                < mine || (gap == mine && at < k))
        }),
{
    let all = handovers(turns, turns.len() as int);
    let out = boundaries_of(turns);
    let mine = (k, gap_of(turns[k], turns[k + 1]));
    law_boundaries(turns);
    lemma_handovers(turns, turns.len() as int);
    lemma_tightest_members(all, all);
    assert(out.contains(out[b]));
    let m = choose|m: int| 0 <= m < all.len() && all[m] == out[b];
    assert(all[m] == out[b]);
    if out.contains(mine) {
        let j = choose|j: int| 0 <= j < all.len() && all[j] == mine;
        assert(all[j].0 == k);
    }
    if tight(turns[k], turns[k + 1]) && !out.contains(mine) {
        assert(all.contains(mine));
        assert(tighter_count(all, mine) >= MAX_QUERIES);
        assert(tighter_count(all, out[b]) < MAX_QUERIES);
        if tighter(mine, out[b]) {
            lemma_tighter_count_order(all, mine, out[b]);
        }
        assert(out[b] != mine);
        if out[b].0 == k {
            assert(all[m].1 == gap_of(turns[k], turns[k + 1]));
        }
        lemma_full_boundaries(all, mine);
    }
}

/// With so many tighter ones than some handover, as many are looked at.
proof fn lemma_full_boundaries(all: Seq<(int, int)>, mine: (int, int))
    requires
        forall|i: int, j: int|
            0 <= i < j < all.len() ==> (#[trigger] all[i]).0 < (#[trigger] all[j]).0,
        all.contains(mine),
        tighter_count(all, mine) >= MAX_QUERIES,
    ensures
        tightest(all, all).len() >= MAX_QUERIES,
{
    let out = tightest(all, all);
    lemma_tightest_members(all, all);
    let picks = Seq::new(MAX_QUERIES as nat, |x: int| boundary_pick(all, x));
    assert forall|x: int| 0 <= x < MAX_QUERIES implies out.contains(#[trigger] picks[x])
        && tighter_count(all, picks[x]) == x by {
        lemma_tighter_bound(all, mine);
        lemma_boundary_rank(all, x);
    }
    assert(picks.no_duplicates()) by {
        assert forall|i: int, j: int|
            0 <= i < picks.len() && 0 <= j < picks.len() && i != j implies picks[i] != picks[j] by {
            assert(tighter_count(all, picks[i]) == i);
            assert(tighter_count(all, picks[j]) == j);
        }
    }
    picks.unique_seq_to_set();
    out.lemma_cardinality_of_set();
    assert(picks.to_set().subset_of(out.to_set())) by {
        assert forall|c: (int, int)| picks.to_set().contains(c) implies out.to_set().contains(c) by {
            let x = choose|x: int| 0 <= x < picks.len() && picks[x] == c;
            assert(out.contains(picks[x]));
        }
    }
    vstd::set_lib::lemma_len_subset(picks.to_set(), out.to_set());
}

/// The handover with so many tighter ones.
spec fn boundary_pick(all: Seq<(int, int)>, x: int) -> (int, int) {
    choose|c: (int, int)| #[trigger] all.contains(c) && tighter_count(all, c) == x
}

proof fn lemma_tighter_bound(all: Seq<(int, int)>, b: (int, int))
    ensures
        tighter_count(all, b) <= all.len(),
        all.contains(b) ==> tighter_count(all, b) < all.len(),
    decreases all.len(),
{
    if all.len() > 0 {
        lemma_tighter_bound(all.drop_last(), b);
        if all.contains(b) && all.last() != b {
            let k = choose|k: int| 0 <= k < all.len() && all[k] == b;
            assert(all.drop_last()[k] == b);
        }
    }
}

proof fn lemma_boundary_rank(all: Seq<(int, int)>, x: int)
    requires
        forall|i: int, j: int|
            0 <= i < j < all.len() ==> (#[trigger] all[i]).0 < (#[trigger] all[j]).0,
        0 <= x < all.len(),
    ensures
        all.contains(boundary_pick(all, x)),
        tighter_count(all, boundary_pick(all, x)) == x,
{
    let n = all.len() as int;
    let ranks = Seq::new(all.len(), |i: int| tighter_count(all, all[i]) as int);
    assert(ranks.no_duplicates()) by {
        assert forall|i: int, j: int|
            0 <= i < ranks.len() && 0 <= j < ranks.len() && i != j implies ranks[i] != ranks[j] by {
            assert(all.contains(all[i]) && all.contains(all[j]));
            assert(all[i].0 != all[j].0) by {
                if i < j {
                    assert(all[i].0 < all[j].0);
                } else {
                    assert(all[j].0 < all[i].0);
                }
            }
            if tighter(all[i], all[j]) {
                lemma_tighter_count_order(all, all[i], all[j]);
            } else {
                lemma_tighter_count_order(all, all[j], all[i]);
            }
        }
    }
    ranks.unique_seq_to_set();
    let range = vstd::set_lib::set_int_range(0, n);
    vstd::set_lib::lemma_int_range(0, n);
    assert(ranks.to_set().subset_of(range)) by {
        assert forall|c: int| ranks.to_set().contains(c) implies range.contains(c) by {
            let i = choose|i: int| 0 <= i < ranks.len() && ranks[i] == c;
            assert(all.contains(all[i]));
            lemma_tighter_bound(all, all[i]);
        }
    }
    vstd::set_lib::lemma_subset_equality(ranks.to_set(), range);
    assert(ranks.to_set().contains(x));
    let i = choose|i: int| 0 <= i < ranks.len() && ranks[i] == x;
    assert(all.contains(all[i]) && tighter_count(all, all[i]) == x);
}

/// A phantom interjection is a turn of three words at most between two turns of
/// one other speaker, both of them within less than 1.2 seconds.
pub proof fn law_sandwich(prev: TurnView, mid: TurnView, next: TurnView)
    ensures
        sandwich(prev, mid, next) <==> {
            &&& prev.speaker is Some && mid.speaker is Some && next.speaker is Some
            &&& prev.speaker->0 == next.speaker->0
            &&& mid.speaker->0 != prev.speaker->0
            &&& prev.words.len() > 0 && mid.words.len() > 0 && next.words.len() > 0
            &&& word_total(mid.words) <= 3
            &&& mid.words[0].start_ns - prev.words[prev.words.len() - 1].end_ns < 1_200_000_000
            &&& next.words[0].start_ns - mid.words[mid.words.len() - 1].end_ns < 1_200_000_000
        },
{
    if mid.words.len() > 0 {
        lemma_ranges(mid.words, 0);
    }
}

/// Folding makes one turn of the three, by the speaker around, with all their
/// words; the turns before stay and those behind move up.
pub proof fn law_folded(turns: Seq<TurnView>, mid: int, k: int)
    requires
        1 <= mid,
        mid + 1 < turns.len(),
        0 <= k < turns.len() - 2,
    ensures
        ({
            let now = folded(turns, mid);
            let words = turns[mid - 1].words + turns[mid].words + turns[mid + 1].words;
            &&& now.len() == turns.len() - 2
            &&& now[mid - 1].words == words
            &&& now[mid - 1].speaker == turns[mid - 1].speaker
            &&& now[mid - 1].text == diarization::spans_text(words)
            &&& words.len() > 0 ==> now[mid - 1].start_ns == words[0].start_ns && now[mid
                - 1].end_ns == words[words.len() - 1].end_ns
            &&& k < mid - 1 ==> now[k] == turns[k]
            &&& k > mid - 1 ==> now[k] == turns[k + 2]
        }),
{
}

/// Pairs and boundaries mean the numbers that they hold, in order.
pub proof fn law_pairs(v: Seq<(usize, usize)>, b: Seq<Boundary>, i: int, j: int)
    requires
        0 <= i < v.len(),
        0 <= j < b.len(),
    ensures
        int_pairs(v).len() == v.len(),
        int_pairs(v)[i].0 == v[i].0,
        int_pairs(v)[i].1 == v[i].1,
        boundary_pairs(b).len() == b.len(),
        boundary_pairs(b)[j].0 == b[j].left_idx,
        boundary_pairs(b)[j].1 == b[j].gap_ns,
{
}

/// How far a cut may move and how much is shown and asked.
pub proof fn law_limits()
    ensures
        TIGHT_GAP_NS * 10 == 12 * 1_000_000_000,
        MAX_SHIFT_WORDS == 2,
        PUNCT_SHIFT_WORDS == 12,
        TRUSTED_SENTENCE_MIN_WORDS == 3,
        MAX_OPTIONS == 7,
        CONTEXT_WORDS == 12,
        SANDWICH_MAX_WORDS == 3,
        MAX_QUERIES == 32,
{
}

} // verus!
