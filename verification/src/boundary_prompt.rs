//! The questions put to the language model about speaker-turn boundaries, and
//! the reading of its replies.
use vstd::prelude::*;
use crate::boundary_refine;
use crate::boundary_refine::{CONTEXT_WORDS, candidate_shifts, words_of};
use crate::diarization::{SpeakerTurn, TurnView};
use crate::text;
use crate::text::{chars_of, decimal_of, find, is_digit, join_words, parse_digits, same_text, slice_of, trim};

verus! {

/// What the model is told about its task.
pub const SYSTEM_PROMPT: &'static str = "You correct speaker-change points in conversation transcripts. Answer with JSON only, no explanation.";

/// The opening of every cut question.
pub const CUT_INTRO: &'static str = "A transcript was split between two speakers A and B, but the split point may be off by a word or two. Pick the option where each speaker's words read as natural, complete utterances.\n\n";

// ---------------------------------------------------------------------
// The cut question

/// Where the left side ends once `shift` words have moved, in its own words.
pub open spec fn a_end(l: Seq<Seq<char>>, shift: int) -> int {
    if shift < 0 {
        l.len() + shift
    } else {
        l.len() as int
    }
}

/// The first of the last `CONTEXT_WORDS` of `n` words.
pub open spec fn tail_start(n: int) -> int {
    if n > CONTEXT_WORDS {
        n - CONTEXT_WORDS
    } else {
        0
    }
}

/// The end of the first `CONTEXT_WORDS` of `n` words.
pub open spec fn head_end(n: int) -> int {
    if n > CONTEXT_WORDS {
        CONTEXT_WORDS as int
    } else {
        n
    }
}

/// The mark of words left out in front of an excerpt.
pub open spec fn lead_in(start: int) -> Seq<char> {
    if start > 0 {
        "... "@
    } else {
        Seq::empty()
    }
}

/// The mark of words left out behind an excerpt.
pub open spec fn lead_out(end: int, n: int) -> Seq<char> {
    if end < n {
        " ..."@
    } else {
        Seq::empty()
    }
}

/// The end of speaker A's words when the cut moves by `shift`.
pub open spec fn a_side(l: Seq<Seq<char>>, r: Seq<Seq<char>>, shift: int) -> Seq<char> {
    let end = a_end(l, shift);
    let start = tail_start(end);
    let own = lead_in(start) + text::join(l.subrange(start, end), " "@);
    if shift > 0 {
        own + " "@ + text::join(r.take(shift), " "@)
    } else {
        own
    }
}

/// The beginning of speaker B's words when the cut moves by `shift`.
pub open spec fn b_side(l: Seq<Seq<char>>, r: Seq<Seq<char>>, shift: int) -> Seq<char> {
    let start = if shift > 0 {
        shift
    } else {
        0
    };
    let head = head_end(r.len() as int);
    let end = if head > start {
        head
    } else {
        start
    };
    let given = if shift < 0 {
        text::join(l.skip(a_end(l, shift)), " "@) + " "@
    } else {
        Seq::empty()
    };
    given + text::join(r.subrange(start, end), " "@) + lead_out(head, r.len() as int)
}

/// Option `n`: both sides of the transcript with the cut moved by `shift`.
pub open spec fn option_block(l: Seq<Seq<char>>, r: Seq<Seq<char>>, shift: int, n: nat) -> Seq<char> {
    "Option "@ + text::decimal(n) + ":\nA: \""@ + text::trimmed(a_side(l, r, shift)) + "\"\nB: \""@
        + text::trimmed(b_side(l, r, shift)) + "\"\n\n"@
}

/// The options for all `shifts`, numbered from one.
pub open spec fn option_blocks(l: Seq<Seq<char>>, r: Seq<Seq<char>>, shifts: Seq<int>) -> Seq<char>
    decreases shifts.len(),
{
    if shifts.len() == 0 {
        Seq::empty()
    } else {
        option_blocks(l, r, shifts.drop_last()) + option_block(l, r, shifts.last(), shifts.len())
    }
}

/// The place of the unmoved cut among the options.
pub open spec fn current_place(shifts: Seq<int>) -> int {
    choose|i: int| 0 <= i < shifts.len() && shifts[i] == 0
}

/// What the question says of the current cut, in the wording `variant`:
/// `blind` hides it, `neutral` only names it, `clause` adds when to leave it.
pub open spec fn current_note(variant: Seq<char>, place: nat) -> Seq<char> {
    let named = "Option "@ + text::decimal(place);
    if variant == "blind"@ {
        Seq::empty()
    } else if variant == "neutral"@ {
        named + " is the current split, based on voice analysis.\n"@
    } else {
        let prefer = named
            + " is the current split, based on voice analysis. Prefer it unless it breaks a sentence mid-thought — a speaker change usually happens at a sentence boundary, not inside one.\n"@;
        if variant == "clause"@ {
            prefer
                + "But if the words right after the split clearly finish A's sentence, they belong to A — even if that moves the split several words.\n"@
        } else {
            prefer
        }
    }
}

/// The whole cut question between the words `l` and `r`.
pub open spec fn cut_question(l: Seq<Seq<char>>, r: Seq<Seq<char>>, variant: Seq<char>) -> Seq<char> {
    let shifts = boundary_refine::shifts_of(l, r);
    CUT_INTRO@ + option_blocks(l, r, shifts) + current_note(
        variant,
        (current_place(shifts) + 1) as nat,
    ) + "Reply with only JSON like {\"cut\": 1} choosing the best option (1-"@ + text::decimal(
        shifts.len(),
    ) + ")."@
}

proof fn lemma_views_subrange(v: Seq<String>, lo: int, hi: int)
    requires
        0 <= lo <= hi <= v.len(),
    ensures
        text::views(v.subrange(lo, hi)) == text::views(v).subrange(lo, hi),
{
    assert(text::views(v.subrange(lo, hi)) =~= text::views(v).subrange(lo, hi));
}

/// The words `[lo, hi)`, separated by spaces.
fn join_range(words: &[String], lo: usize, hi: usize) -> (r: String)
    requires
        lo <= hi <= words@.len(),
    ensures
        r@ == text::join(text::views(words@).subrange(lo as int, hi as int), " "@),
{
    proof {
        lemma_views_subrange(words@, lo as int, hi as int);
    }
    join_words(slice_of(words, lo, hi), " ")
}

/// The excerpt `[start, end)` with a mark of what is left out in front.
fn tail_excerpt(words: &[String], end: usize) -> (r: String)
    requires
        end <= words@.len(),
    ensures
        r@ == lead_in(tail_start(end as int)) + text::join(
            text::views(words@).subrange(tail_start(end as int), end as int),
            " "@,
        ),
{
    let start: usize = if end > CONTEXT_WORDS {
        end - CONTEXT_WORDS
    } else {
        0
    };
    let mut out = String::new();
    if start > 0 {
        out.append("... ");
    }
    assert(out@ =~= lead_in(start as int));
    out.append(join_range(words, start, end).as_str());
    out
}

/// The end of speaker A's words when the cut moves by `shift`.
fn a_text(l_words: &[String], r_words: &[String], shift: i32) -> (r: String)
    requires
        -(l_words@.len() as int) <= shift <= r_words@.len(),
    ensures
        r@ == a_side(text::views(l_words@), text::views(r_words@), shift as int),
{
    let end: usize = if shift < 0 {
        (l_words.len() as i128 + shift as i128) as usize
    } else {
        l_words.len()
    };
    let mut out = tail_excerpt(l_words, end);
    if shift > 0 {
        out.append(" ");
        let given = join_range(r_words, 0, shift as usize);
        proof {
            let r = text::views(r_words@);
            assert(r.subrange(0, shift as int) =~= r.take(shift as int));
        }
        out.append(given.as_str());
    }
    out
}

/// The beginning of speaker B's words when the cut moves by `shift`.
fn b_text(l_words: &[String], r_words: &[String], shift: i32) -> (r: String)
    requires
        -(l_words@.len() as int) <= shift <= r_words@.len(),
    ensures
        r@ == b_side(text::views(l_words@), text::views(r_words@), shift as int),
{
    let start: usize = if shift > 0 {
        shift as usize
    } else {
        0
    };
    let n: usize = r_words.len();
    let head: usize = if n > CONTEXT_WORDS {
        CONTEXT_WORDS
    } else {
        n
    };
    let end: usize = if head > start {
        head
    } else {
        start
    };
    let ghost l = text::views(l_words@);
    let ghost given: Seq<char> = if shift < 0 {
        text::join(l.skip(a_end(l, shift as int)), " "@) + " "@
    } else {
        Seq::empty()
    };
    let mut out = String::new();
    if shift < 0 {
        let from: usize = (l_words.len() as i128 + shift as i128) as usize;
        let mut moved = join_range(l_words, from, l_words.len());
        proof {
            assert(l.subrange(from as int, l.len() as int) =~= l.skip(from as int));
        }
        moved.append(" ");
        out = moved;
    }
    assert(out@ =~= given);
    out.append(join_range(r_words, start, end).as_str());
    if head < n {
        out.append(" ...");
    }
    assert(out@ =~= b_side(l, text::views(r_words@), shift as int));
    out
}

/// Append option `n` to the question.
fn push_option(out: &mut String, l_words: &[String], r_words: &[String], shift: i32, n: usize)
    requires
        -(l_words@.len() as int) <= shift <= r_words@.len(),
    ensures
        final(out)@ == old(out)@ + option_block(
            text::views(l_words@),
            text::views(r_words@),
            shift as int,
            n as nat,
        ),
{
    let ghost before = out@;
    out.append("Option ");
    out.append(decimal_of(n as u64).as_str());
    out.append(":\nA: \"");
    out.append(trim(a_text(l_words, r_words, shift).as_str()).as_str());
    out.append("\"\nB: \"");
    out.append(trim(b_text(l_words, r_words, shift).as_str()).as_str());
    out.append("\"\n\n");
    assert(out@ =~= before + option_block(
        text::views(l_words@),
        text::views(r_words@),
        shift as int,
        n as nat,
    ));
}

/// What the question says of the current cut.
fn note_text(variant: &str, place: usize) -> (r: String)
    ensures
        r@ == current_note(variant@, place as nat),
{
    let mut out = String::new();
    if same_text(variant, "blind") {
        assert(out@ =~= Seq::<char>::empty());
        return out;
    }
    out.append("Option ");
    out.append(decimal_of(place as u64).as_str());
    assert(out@ =~= "Option "@ + text::decimal(place as nat));
    if same_text(variant, "neutral") {
        out.append(" is the current split, based on voice analysis.\n");
        return out;
    }
    out.append(
        " is the current split, based on voice analysis. Prefer it unless it breaks a sentence mid-thought — a speaker change usually happens at a sentence boundary, not inside one.\n",
    );
    if same_text(variant, "clause") {
        out.append(
            "But if the words right after the split clearly finish A's sentence, they belong to A — even if that moves the split several words.\n",
        );
    }
    out
}

/// Render the numbered options of a boundary in the wording `variant`. Returns
/// the question and the shifts: `shifts[n - 1]` is the shift of option `n`.
/// Nothing when there is no choice.
pub fn build_prompt(left: &SpeakerTurn, right: &SpeakerTurn, variant: &str) -> (r: Option<
    (String, Vec<i32>),
>)
    ensures
        ({
            let l = boundary_refine::turn_words(left.words@);
            let w = boundary_refine::turn_words(right.words@);
            let shifts = boundary_refine::shifts_of(l, w);
            match r {
                Some((prompt, s)) => {
                    &&& shifts.len() >= 2
                    &&& boundary_refine::ints(s@) == shifts
                    &&& prompt@ == cut_question(l, w, variant@)
                },
                None => shifts.len() < 2,
            }
        }),
{
    let l_words = words_of(left);
    let r_words = words_of(right);
    let shifts = candidate_shifts(&l_words, &r_words);
    let ghost l = text::views(l_words@);
    let ghost w = text::views(r_words@);
    let ghost all = boundary_refine::ints(shifts@);
    assert(all.len() == shifts@.len());
    if shifts.len() < 2 {
        return None;
    }
    proof {
        boundary_refine::law_candidate_shifts(l, w);
    }
    let mut out = String::new();
    out.append(CUT_INTRO);
    let mut place: usize = 0;
    let mut i: usize = 0;
    assert(all.take(0) =~= Seq::<int>::empty());
    assert(out@ =~= CUT_INTRO@ + option_blocks(l, w, all.take(0)));
    while i < shifts.len()
        invariant
            i <= shifts@.len(),
            l == text::views(l_words@),
            w == text::views(r_words@),
            all == boundary_refine::ints(shifts@),
            all == boundary_refine::shifts_of(l, w),
            forall|s: int|
                #[trigger] boundary_refine::shifts_of(l, w).contains(s) ==> {
                    &&& s < 0 ==> -s < l.len()
                    &&& s > 0 ==> s < w.len()
                },
            out@ == CUT_INTRO@ + option_blocks(l, w, all.take(i as int)),
            (exists|k: int| 0 <= k < i && all[k] == 0) ==> place < i && all[place as int] == 0,
        decreases shifts@.len() - i,
    {
        let s: i32 = shifts[i];
        proof {
            assert(all[i as int] == s);
            assert(all.contains(s as int));
            assert(all.take(i + 1).drop_last() =~= all.take(i as int));
            assert(all.take(i + 1).last() == s);
        }
        push_option(&mut out, &l_words, &r_words, s, i + 1);
        assert(out@ =~= CUT_INTRO@ + option_blocks(l, w, all.take(i + 1)));
        if s == 0 {
            place = i;
        }
        i += 1;
    }
    proof {
        assert(all.take(i as int) =~= all);
        assert(all.contains(0));
        let k = choose|k: int| 0 <= k < all.len() && all[k] == 0;
        assert(all[place as int] == 0);
        let c = current_place(all);
        if c < place {
            assert(all[c] < all[place as int]);
        } else if place < c {
            assert(all[place as int] < all[c]);
        }
        assert(c == place);
    }
    out.append(note_text(variant, place + 1).as_str());
    out.append("Reply with only JSON like {\"cut\": 1} choosing the best option (1-");
    out.append(decimal_of(shifts.len() as u64).as_str());
    out.append(").");
    Some((out, shifts))
}

// ---------------------------------------------------------------------
// The merge question

/// The last words of a turn, with a mark of what is left out in front.
pub open spec fn turn_tail(w: Seq<Seq<char>>) -> Seq<char> {
    let n = w.len() as int;
    lead_in(tail_start(n)) + text::join(w.subrange(tail_start(n), n), " "@)
}

/// The first words of a turn, with a mark of what is left out behind.
pub open spec fn turn_head(w: Seq<Seq<char>>) -> Seq<char> {
    let n = w.len() as int;
    text::join(w.take(head_end(n)), " "@) + lead_out(head_end(n), n)
}

/// The question whether a short interjection belongs to the sentence around it.
pub open spec fn merge_question(prev: TurnView, mid: TurnView, next: TurnView) -> Seq<char> {
    "In this transcript excerpt the middle line was attributed to a second speaker B interrupting speaker A:\n\nA: \""@
        + turn_tail(boundary_refine::turn_words(prev.words)) + "\"\nB: \""@ + text::trimmed(
        mid.text,
    ) + "\"\nA: \""@ + turn_head(boundary_refine::turn_words(next.words))
        + "\"\n\nDoes the B line read as part of A's own continuous sentence (a diarization mistake) rather than another person actually speaking?\nReply with only JSON: {\"merge\": 1} if it is A's own sentence, {\"merge\": 0} if B is really another person."@
}

/// The first words of a turn, with a mark of what is left out behind.
fn head_excerpt(words: &[String]) -> (r: String)
    ensures
        r@ == turn_head(text::views(words@)),
{
    let n: usize = words.len();
    let end: usize = if n > CONTEXT_WORDS {
        CONTEXT_WORDS
    } else {
        n
    };
    let mut out = join_range(words, 0, end);
    proof {
        let w = text::views(words@);
        assert(w.subrange(0, end as int) =~= w.take(end as int));
    }
    if end < n {
        out.append(" ...");
    }
    assert(out@ =~= turn_head(text::views(words@)));
    out
}

/// Ask whether `mid` belongs to the sentence around it.
pub fn build_sandwich_prompt(prev: &SpeakerTurn, mid: &SpeakerTurn, next: &SpeakerTurn) -> (r: String)
    ensures
        r@ == merge_question(prev@, mid@, next@),
{
    let before = words_of(prev);
    let after = words_of(next);
    let mut out = String::new();
    out.append(
        "In this transcript excerpt the middle line was attributed to a second speaker B interrupting speaker A:\n\nA: \"",
    );
    out.append(tail_excerpt(&before, before.len()).as_str());
    out.append("\"\nB: \"");
    out.append(trim(mid.text.as_str()).as_str());
    out.append("\"\nA: \"");
    out.append(head_excerpt(&after).as_str());
    out.append(
        "\"\n\nDoes the B line read as part of A's own continuous sentence (a diarization mistake) rather than another person actually speaking?\nReply with only JSON: {\"merge\": 1} if it is A's own sentence, {\"merge\": 0} if B is really another person.",
    );
    assert(out@ =~= merge_question(prev@, mid@, next@));
    out
}

// ---------------------------------------------------------------------
// Replies

/// The class of characters that are not digits.
pub open spec fn non_digits() -> spec_fn(char) -> bool {
    |c: char| !text::digit(c)
}

/// The class of digits.
pub open spec fn digits() -> spec_fn(char) -> bool {
    |c: char| text::digit(c)
}

/// The first run of digits in `s`.
pub open spec fn first_run(s: Seq<char>) -> Seq<char> {
    let rest = text::drop_front(s, non_digits());
    rest.take(rest.len() - text::drop_front(rest, digits()).len())
}

/// What follows the first `key` in `reply`.
pub open spec fn behind(reply: Seq<char>, key: Seq<char>) -> Seq<char> {
    let at = choose|i: int| text::first_at(reply, key, i);
    reply.skip(at + key.len())
}

/// The number behind the first `key` in `reply`: the first run of digits
/// there, where it fits a machine word.
pub open spec fn keyed_number(reply: Seq<char>, key: Seq<char>) -> Option<int> {
    if text::occurs_nowhere(reply, key) {
        None
    } else {
        let run = first_run(behind(reply, key));
        if run.len() == 0 || text::numeral_value(run) > usize::MAX {
            None
        } else {
            Some(text::numeral_value(run))
        }
    }
}

/// The integer following `key` in the model's reply. Accepts any text that
/// contains the key followed by an integer, JSON or not.
pub fn parse_key(reply: &str, key: &str) -> (r: Option<usize>)
    ensures
        match (r, keyed_number(reply@, key@)) {
            (Some(n), Some(m)) => n == m,
            (None, None) => true,
            _ => false,
        },
{
    let chars = chars_of(reply);
    let pat = chars_of(key);
    match find(&chars, &pat) {
        None => None,
        Some(at) => {
            assert(at + pat.len() <= chars.len());
            let from: usize = at + pat.len();
            let ghost rest = chars@.skip(from as int);
            proof {
                let c = choose|i: int| text::first_at(reply@, key@, i);
                assert(text::first_at(reply@, key@, at as int));
                if c < at {
                    assert(text::occurs_at(reply@, key@, c));
                } else if at < c {
                    assert(text::occurs_at(reply@, key@, at as int));
                }
                assert(behind(reply@, key@) == rest);
            }
            let mut lo: usize = from;
            while lo < chars.len() && !is_digit(chars[lo])
                invariant
                    from <= lo <= chars@.len(),
                    forall|k: int| from <= k < lo ==> !text::digit(#[trigger] chars@[k]),
                decreases chars@.len() - lo,
            {
                lo += 1;
            }
            let mut hi: usize = lo;
            while hi < chars.len() && is_digit(chars[hi])
                invariant
                    lo <= hi <= chars@.len(),
                    forall|k: int| lo <= k < hi ==> text::digit(#[trigger] chars@[k]),
                decreases chars@.len() - hi,
            {
                hi += 1;
            }
            let run = slice_of(&chars, lo, hi);
            proof {
                let tail = chars@.skip(lo as int);
                text::lemma_drop_front_skip(rest, non_digits(), lo - from);
                assert(rest.skip(lo - from) =~= tail);
                text::lemma_drop_front_skip(tail, digits(), hi - lo);
                assert(tail.skip(hi - lo).len() == tail.len() - (hi - lo));
                assert(first_run(rest) =~= run@);
                assert forall|k: int| 0 <= k < run@.len() implies text::digit(#[trigger] run@[k]) by {
                    assert(run@[k] == chars@[lo + k]);
                }
            }
            match parse_digits(run) {
                Some(n) => {
                    if n <= usize::MAX as u64 {
                        Some(n as usize)
                    } else {
                        None
                    }
                },
                None => None,
            }
        },
    }
}

/// The option chosen by a cut reply.
pub fn parse_cut(reply: &str) -> (r: Option<usize>)
    ensures
        match (r, keyed_number(reply@, "cut"@)) {
            (Some(n), Some(m)) => n == m,
            (None, None) => true,
            _ => false,
        },
{
    parse_key(reply, "cut")
}

/// A reply in the requested form chooses the option that it names.
pub proof fn law_cut_reply_reads_back(n: nat)
    requires
        n <= usize::MAX,
    ensures
        keyed_number("{\"cut\": "@ + text::decimal(n) + "}"@, "cut"@) == Some(n as int),
{
    reveal_strlit("{\"cut\": ");
    reveal_strlit("}");
    reveal_strlit("cut");
    text::law_decimal_reads_back(n);
    let num = text::decimal(n);
    let reply = "{\"cut\": "@ + num + "}"@;
    let key = "cut"@;
    assert(reply.subrange(2, 5) =~= key);
    assert(text::occurs_at(reply, key, 2));
    assert forall|j: int| 0 <= j < 2 implies !#[trigger] text::occurs_at(reply, key, j) by {
        if text::occurs_at(reply, key, j) {
            assert(reply.subrange(j, j + 3)[0] == reply[j]);
        }
    }
    assert(text::first_at(reply, key, 2));
    let at = choose|i: int| text::first_at(reply, key, i);
    if at < 2 {
        assert(text::occurs_at(reply, key, at));
    } else if 2 < at {
        assert(text::occurs_at(reply, key, 2));
    }
    let rest = behind(reply, key);
    assert(rest =~= seq!['"', ':', ' '] + num + seq!['}']);
    text::lemma_drop_front_skip(rest, non_digits(), 3);
    let tail = rest.skip(3);
    assert(tail =~= num + seq!['}']);
    assert forall|k: int| 0 <= k < num.len() implies text::digit(#[trigger] tail[k]) by {
        assert(tail[k] == num[k]);
    }
    text::lemma_drop_front_skip(tail, digits(), num.len() as int);
    assert(tail.skip(num.len() as int).len() == 1);
    assert(first_run(rest) =~= num);
}

// ---------------------------------------------------------------------
// What is asked and what is read

/// Speaker A's side of an option is the last twelve words before the cut, with a
/// mark where there are more, and then the words that moved over. Speaker B's
/// side begins with the words that moved over the other way.
pub proof fn law_sides(l: Seq<Seq<char>>, r: Seq<Seq<char>>, shift: int)
    requires
        -(l.len() as int) <= shift <= r.len(),
    ensures
        ({
            let n = l.len() as int;
            let end = if shift < 0 { n + shift } else { n };
            let from = if end > 12 { end - 12 } else { 0 };
            let tail = text::join(l.subrange(from, end), " "@);
            let own = if end > 12 { "... "@ + tail } else { tail };
            &&& shift <= 0 ==> a_side(l, r, shift) == own
            &&& shift > 0 ==> a_side(l, r, shift) == own + " "@ + text::join(r.take(shift), " "@)
        }),
        ({
            let m = r.len() as int;
            let to = if m > 12 { 12 } else { m };
            let mark = if m > 12 { " ..."@ } else { Seq::empty() };
            &&& shift == 0 ==> b_side(l, r, shift) == text::join(r.take(to), " "@) + mark
            &&& shift < 0 ==> b_side(l, r, shift) == text::join(l.skip(l.len() + shift), " "@) + " "@
                + (text::join(r.take(to), " "@) + mark)
            &&& 0 < shift <= to ==> b_side(l, r, shift) == text::join(r.subrange(shift, to), " "@)
                + mark
        }),
{
    let n = l.len() as int;
    let end = if shift < 0 { n + shift } else { n };
    let from = if end > 12 { end - 12 } else { 0 };
    let tail = text::join(l.subrange(from, end), " "@);
    assert(end <= 12 ==> lead_in(from) + tail =~= tail);
    let m = r.len() as int;
    let to = if m > 12 { 12 } else { m };
    let mark = if m > 12 { " ..."@ } else { Seq::<char>::empty() };
    assert(lead_out(to, m) =~= mark);
    if shift <= 0 {
        assert(r.subrange(0, to) =~= r.take(to));
        let head = text::join(r.take(to), " "@);
        if shift == 0 {
            assert(b_side(l, r, shift) =~= head + mark);
        } else {
            let given = text::join(l.skip(l.len() + shift), " "@) + " "@;
            assert(given + head + mark =~= given + (head + mark));
        }
    } else if shift <= to {
        let head = text::join(r.subrange(shift, to), " "@);
        assert(b_side(l, r, shift) =~= head + mark);
    }
}

/// The options stand in the order of their shifts, numbered from one.
pub proof fn law_options(l: Seq<Seq<char>>, r: Seq<Seq<char>>, shifts: Seq<int>, s: int)
    ensures
        option_blocks(l, r, shifts.push(s)) == option_blocks(l, r, shifts) + ("Option "@
            + text::decimal(shifts.len() + 1) + ":\nA: \""@ + text::trimmed(a_side(l, r, s))
            + "\"\nB: \""@ + text::trimmed(b_side(l, r, s)) + "\"\n\n"@),
        option_blocks(l, r, Seq::empty()).len() == 0,
{
    assert(shifts.push(s).drop_last() =~= shifts);
}

/// A question shows all options and how many there are, and says of the current
/// cut what its wording says: nothing, its number, or its number and to prefer it.
pub proof fn law_cut_question(l: Seq<Seq<char>>, r: Seq<Seq<char>>, variant: Seq<char>, at: int)
    requires
        0 <= at < boundary_refine::shifts_of(l, r).len(),
        boundary_refine::shifts_of(l, r)[at] == 0,
    ensures
        ({
            let shifts = boundary_refine::shifts_of(l, r);
            let number = "Option "@ + text::decimal((at + 1) as nat);
            let note = current_note(variant, (at + 1) as nat);
            let prefer = number
                + " is the current split, based on voice analysis. Prefer it unless it breaks a sentence mid-thought — a speaker change usually happens at a sentence boundary, not inside one.\n"@;
            &&& cut_question(l, r, variant) == CUT_INTRO@ + option_blocks(l, r, shifts) + note
                + "Reply with only JSON like {\"cut\": 1} choosing the best option (1-"@
                + text::decimal(shifts.len()) + ")."@
            &&& variant == "blind"@ ==> note.len() == 0
            &&& variant == "neutral"@ ==> note == number
                + " is the current split, based on voice analysis.\n"@
            &&& variant == "clause"@ ==> note == prefer
                + "But if the words right after the split clearly finish A's sentence, they belong to A — even if that moves the split several words.\n"@
            &&& variant != "blind"@ && variant != "neutral"@ && variant != "clause"@ ==> note
                == prefer
        }),
{
    reveal_strlit("blind");
    reveal_strlit("neutral");
    reveal_strlit("clause");
    assert("blind"@.len() == 5 && "neutral"@.len() == 7 && "clause"@.len() == 6);
    boundary_refine::law_candidate_shifts(l, r);
    let shifts = boundary_refine::shifts_of(l, r);
    let c = current_place(shifts);
    assert(0 <= c < shifts.len() && shifts[c] == 0);
    if c < at {
        assert(shifts[c] < shifts[at]);
    } else if at < c {
        assert(shifts[at] < shifts[c]);
    }
}

/// The question about an interjection shows the last twelve words before it, the
/// interjection, and the first twelve words behind it, in this order.
pub proof fn law_merge_question(prev: TurnView, mid: TurnView, next: TurnView)
    ensures
        ({
            let p = boundary_refine::turn_words(prev.words);
            let n = boundary_refine::turn_words(next.words);
            let before = if p.len() > 12 {
                "... "@ + text::join(p.skip(p.len() - 12), " "@)
            } else {
                text::join(p, " "@)
            };
            let after = if n.len() > 12 {
                text::join(n.take(12), " "@) + " ..."@
            } else {
                text::join(n, " "@)
            };
            merge_question(prev, mid, next)
                == "In this transcript excerpt the middle line was attributed to a second speaker B interrupting speaker A:\n\nA: \""@
                + before + "\"\nB: \""@ + text::trimmed(mid.text) + "\"\nA: \""@ + after
                + "\"\n\nDoes the B line read as part of A's own continuous sentence (a diarization mistake) rather than another person actually speaking?\nReply with only JSON: {\"merge\": 1} if it is A's own sentence, {\"merge\": 0} if B is really another person."@
        }),
{
    let p = boundary_refine::turn_words(prev.words);
    let n = boundary_refine::turn_words(next.words);
    let from = tail_start(p.len() as int);
    assert(p.subrange(from, p.len() as int) =~= p.skip(from));
    assert(p.skip(0) =~= p);
    assert(p.len() <= 12 ==> turn_tail(p) =~= text::join(p, " "@));
    assert(n.take(n.len() as int) =~= n);
    assert(n.len() <= 12 ==> turn_head(n) =~= text::join(n, " "@));
}

/// The number of a reply is the first run of digits behind the first occurrence of
/// the key, whatever stands between and around them.
pub proof fn law_keyed_number(
    reply: Seq<char>,
    key: Seq<char>,
    at: int,
    gap: Seq<char>,
    run: Seq<char>,
    tail: Seq<char>,
)
    requires
        text::occurs_at(reply, key, at),
        forall|j: int| 0 <= j < at ==> !#[trigger] text::occurs_at(reply, key, j),
        reply.skip(at + key.len()) == gap + run + tail,
        forall|k: int| 0 <= k < gap.len() ==> !text::digit(#[trigger] gap[k]),
        text::all_digits(run),
        tail.len() > 0 ==> !text::digit(tail[0]),
        run.len() > 0,
    ensures
        text::numeral_value(run) <= usize::MAX ==> keyed_number(reply, key) == Some(
            text::numeral_value(run),
        ),
        text::numeral_value(run) > usize::MAX ==> keyed_number(reply, key) is None,
{
    assert(text::first_at(reply, key, at));
    let c = choose|i: int| text::first_at(reply, key, i);
    if c < at {
        assert(text::occurs_at(reply, key, c));
    } else if at < c {
        assert(text::occurs_at(reply, key, at));
    }
    let rest = behind(reply, key);
    let (n, m) = (gap.len() as int, run.len() as int);
    assert forall|k: int| 0 <= k < n implies non_digits()(#[trigger] rest[k]) by {
        assert(rest[k] == gap[k]);
    }
    assert(rest[n] == run[0]);
    assert(text::digit(run[0]));
    text::lemma_drop_front_skip(rest, non_digits(), n);
    let more = rest.skip(n);
    assert(more =~= run + tail);
    assert forall|k: int| 0 <= k < m implies digits()(#[trigger] more[k]) by {
        assert(more[k] == run[k]);
    }
    if m < more.len() {
        assert(more[m] == tail[0]);
    }
    text::lemma_drop_front_skip(more, digits(), m);
    assert(more.skip(m).len() == tail.len());
    assert(first_run(rest) =~= run);
}

/// A reply without the key, or without a digit behind it, names no number.
pub proof fn law_no_keyed_number(reply: Seq<char>, key: Seq<char>, at: int)
    requires
        text::occurs_nowhere(reply, key) || (text::occurs_at(reply, key, at) && (forall|j: int|
            0 <= j < at ==> !#[trigger] text::occurs_at(reply, key, j)) && (forall|k: int|
            at + key.len() <= k < reply.len() ==> !text::digit(#[trigger] reply[k]))),
    ensures
        keyed_number(reply, key) is None,
{
    if !text::occurs_nowhere(reply, key) {
        assert(text::first_at(reply, key, at));
        let c = choose|i: int| text::first_at(reply, key, i);
        if c < at {
            assert(text::occurs_at(reply, key, c));
        } else if at < c {
            assert(text::occurs_at(reply, key, at));
        }
        let rest = behind(reply, key);
        assert forall|k: int| 0 <= k < rest.len() implies non_digits()(#[trigger] rest[k]) by {
            assert(rest[k] == reply[at + key.len() + k]);
        }
        text::lemma_drop_front_skip(rest, non_digits(), rest.len() as int);
        let more = rest.skip(rest.len() as int);
        assert(more.len() == 0);
        text::lemma_drop_front_skip(more, digits(), 0);
        assert(first_run(rest).len() == 0);
    }
}

} // verus!
