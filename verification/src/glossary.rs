//! Self-learning vocabulary for the recognizer's initial prompt.
//!
//! After a transcription a language model extracts proper nouns and domain
//! terms from a sample of the transcript; they accumulate in the glossary, which
//! biases the next recognition toward them.
use vstd::prelude::*;
use crate::json;
use crate::text;
use crate::text::{byte_len, eq_ignore_ascii_case, join_words, split_whitespace, trim};
use crate::transcript_repair;
use crate::transcript_repair::braced_part;

verus! {

/// Cap on terms in the glossary.
pub const MAX_TERMS: usize = 40;

/// Cap on the transcript sample, in bytes.
pub const MAX_SAMPLE_CHARS: usize = 6000;

/// Shorter samples, in bytes, are too little to learn from.
pub const MIN_SAMPLE_BYTES: usize = 400;

/// Longest term, in bytes.
pub const MAX_TERM_BYTES: usize = 40;

/// Longest term, in words.
pub const MAX_TERM_WORDS: usize = 3;

/// Longest answer that is asked for, in tokens.
pub const MAX_REPLY_TOKENS: usize = 256;

/// Seconds that the extraction may take.
pub const EXTRACT_TIMEOUT_SECS: u64 = 120;

/// What the model is told about its task.
pub const SYSTEM_PROMPT: &'static str = "You extract vocabulary from meeting transcripts. Answer with JSON only, no explanation.";

// ---------------------------------------------------------------------
// The sample

/// The bytes of all rows with their line breaks.
pub open spec fn rows_bytes(rows: Seq<Seq<char>>) -> nat
    decreases rows.len(),
{
    if rows.len() == 0 {
        0
    } else {
        rows_bytes(rows.drop_last()) + text::bytes(rows.last()) + 1
    }
}

/// Which rows are sampled: every so many.
pub open spec fn stride(rows: Seq<Seq<char>>) -> nat {
    let n = rows_bytes(rows) / (MAX_SAMPLE_CHARS as nat);
    if n > 1 {
        n
    } else {
        1
    }
}

/// How many rows are left from row `i` on.
pub open spec fn left_over(rows: Seq<Seq<char>>, i: nat) -> nat {
    if i < rows.len() {
        (rows.len() - i) as nat
    } else {
        0
    }
}

/// `out` with the sampled rows from row `i` on, each with a line break, up to
/// the first one that does not fit.
pub open spec fn sampled(rows: Seq<Seq<char>>, step: nat, i: nat, out: Seq<char>) -> Seq<char>
    decreases left_over(rows, i),
{
    if i >= rows.len() || step == 0 || text::bytes(out) + text::bytes(rows[i as int])
        >= MAX_SAMPLE_CHARS {
        out
    } else {
        sampled(rows, step, i + step, out + rows[i as int] + "\n"@)
    }
}

/// The sample of the rows.
pub open spec fn sample_of(rows: Seq<Seq<char>>) -> Seq<char> {
    sampled(rows, stride(rows), 0, Seq::empty())
}

/// The bytes of all rows with their line breaks.
fn total_bytes(rows: &[String]) -> (r: u128)
    ensures
        r == rows_bytes(text::views(rows@)),
{
    let ghost all = text::views(rows@);
    let mut total: u128 = 0;
    let mut i: usize = 0;
    assert(all.take(0) =~= Seq::<Seq<char>>::empty());
    while i < rows.len()
        invariant
            i <= rows@.len(),
            all == text::views(rows@),
            total == rows_bytes(all.take(i as int)),
            total <= i * 0x1_0000_0000_0000_0000,
        decreases rows@.len() - i,
    {
        proof {
            assert(all.take(i + 1).drop_last() =~= all.take(i as int));
            assert(all.take(i + 1).last() == rows@[i as int]@);
        }
        total = total + byte_len(rows[i].as_str()) as u128 + 1;
        i += 1;
    }
    assert(all.take(i as int) =~= all);
    total
}

/// Evenly sample rows so that long meetings stay within `MAX_SAMPLE_CHARS`
/// bytes.
pub fn sample_rows(rows: &[String]) -> (r: String)
    ensures
        r@ == sample_of(text::views(rows@)),
{
    let ghost all = text::views(rows@);
    let per: u128 = total_bytes(rows) / 6000;
    let step: u128 = if per > 1 {
        per
    } else {
        1
    };
    let n: usize = rows.len();
    let mut out = String::new();
    let mut i: usize = 0;
    assert(out@ =~= Seq::<char>::empty());
    while i < n
        invariant
            i <= n == rows@.len(),
            all == text::views(rows@),
            step == stride(all),
            sampled(all, step as nat, i as nat, out@) == sample_of(all),
        decreases n - i,
    {
        let used: usize = byte_len(out.as_str());
        let more: usize = byte_len(rows[i].as_str());
        if used >= MAX_SAMPLE_CHARS || more >= MAX_SAMPLE_CHARS - used {
            return out;
        }
        out.append(rows[i].as_str());
        out.append("\n");
        if step >= (n - i) as u128 {
            proof {
                assert(sampled(all, step as nat, (i + step) as nat, out@) == out@);
            }
            return out;
        }
        i = i + step as usize;
    }
    out
}

proof fn lemma_sampled_short(rows: Seq<Seq<char>>, step: nat, i: nat, out: Seq<char>)
    requires
        text::bytes(out) <= MAX_SAMPLE_CHARS,
    ensures
        text::bytes(sampled(rows, step, i, out)) <= MAX_SAMPLE_CHARS,
    decreases left_over(rows, i),
{
    if !(i >= rows.len() || step == 0 || text::bytes(out) + text::bytes(rows[i as int])
        >= MAX_SAMPLE_CHARS) {
        let next = out + rows[i as int] + "\n"@;
        text::lemma_bytes_concat(out + rows[i as int], "\n"@);
        text::lemma_bytes_concat(out, rows[i as int]);
        text::lemma_newline_bytes();
        lemma_sampled_short(rows, step, i + step, next);
    }
}

/// However long the meeting, the sample stays within its cap.
pub proof fn law_sample_is_short(rows: Seq<Seq<char>>)
    ensures
        text::bytes(sample_of(rows)) <= MAX_SAMPLE_CHARS,
{
    lemma_sampled_short(rows, stride(rows), 0, Seq::empty());
}

// ---------------------------------------------------------------------
// Terms

/// A single word or a short phrase, nothing sentence-like.
pub open spec fn term_like(t: Seq<char>) -> bool {
    t.len() > 0 && text::bytes(t) <= MAX_TERM_BYTES && text::split_ws(t).len() <= MAX_TERM_WORDS
}

/// The trimmed entries that are terms.
pub open spec fn kept_terms(list: Seq<Seq<char>>) -> Seq<Seq<char>>
    decreases list.len(),
{
    if list.len() == 0 {
        Seq::empty()
    } else {
        let head = kept_terms(list.drop_last());
        let t = text::trimmed(list.last());
        if term_like(t) {
            head.push(t)
        } else {
            head
        }
    }
}

/// Keep the trimmed entries that are single words or short phrases.
pub fn keep_terms(list: &[String]) -> (r: Vec<String>)
    ensures
        text::views(r@) == kept_terms(text::views(list@)),
{
    let ghost all = text::views(list@);
    let mut out: Vec<String> = Vec::new();
    let mut i: usize = 0;
    assert(text::views(out@) =~= kept_terms(all.take(0)));
    while i < list.len()
        invariant
            i <= list@.len(),
            all == text::views(list@),
            text::views(out@) == kept_terms(all.take(i as int)),
        decreases list@.len() - i,
    {
        proof {
            assert(all.take(i + 1).drop_last() =~= all.take(i as int));
            assert(all.take(i + 1).last() == list@[i as int]@);
        }
        let t = trim(list[i].as_str());
        let n: usize = byte_len(t.as_str());
        let words = split_whitespace(t.as_str());
        assert(text::views(words@).len() == words@.len());
        if !t.as_str().is_empty() && n <= MAX_TERM_BYTES && words.len() <= MAX_TERM_WORDS {
            proof {
                text::lemma_views_push(out@, t);
            }
            out.push(t);
        }
        i += 1;
    }
    assert(all.take(i as int) =~= all);
    out
}

/// The terms that a reply offers: the `terms` member of the JSON in it.
pub open spec fn offered_terms(reply: Seq<char>) -> Seq<Seq<char>> {
    match transcript_repair::braced(reply) {
        Some(part) => match json::json_of(part) {
            Some(v) => if json::list_members(v).contains_key("terms"@) {
                kept_terms(json::list_members(v)["terms"@])
            } else {
                Seq::empty()
            },
            None => Seq::empty(),
        },
        None => Seq::empty(),
    }
}

/// The terms that a reply offers, tolerating surrounding noise.
pub fn parse_terms(reply: &str) -> (r: Vec<String>)
    ensures
        text::views(r@) == offered_terms(reply@),
{
    let none: Vec<String> = Vec::new();
    assert(text::views(none@) =~= Seq::<Seq<char>>::empty());
    match braced_part(reply) {
        Some(part) => match json::parse(part.as_str()) {
            Ok(value) => match json::list_member(&value, "terms") {
                Some(list) => keep_terms(&list),
                None => none,
            },
            Err(_) => none,
        },
        None => none,
    }
}

/// Some term equals `t` up to ASCII case.
pub open spec fn known(terms: Seq<Seq<char>>, t: Seq<char>) -> bool {
    exists|k: int| 0 <= k < terms.len() && text::same_ascii_fold(#[trigger] terms[k], t)
}

/// The existing terms followed by the new ones that are not known yet.
pub open spec fn joined(existing: Seq<Seq<char>>, new_terms: Seq<Seq<char>>) -> Seq<Seq<char>>
    decreases new_terms.len(),
{
    if new_terms.len() == 0 {
        existing
    } else {
        let head = joined(existing, new_terms.drop_last());
        if known(head, new_terms.last()) {
            head
        } else {
            head.push(new_terms.last())
        }
    }
}

/// The last `MAX_TERMS` terms.
pub open spec fn newest(terms: Seq<Seq<char>>) -> Seq<Seq<char>> {
    if terms.len() > MAX_TERMS {
        terms.skip(terms.len() - MAX_TERMS)
    } else {
        terms
    }
}

/// Whether some term equals `t` up to ASCII case.
fn is_known(terms: &Vec<String>, t: &str) -> (r: bool)
    ensures
        r == known(text::views(terms@), t@),
{
    let ghost all = text::views(terms@);
    let mut i: usize = 0;
    while i < terms.len()
        invariant
            i <= terms@.len(),
            all == text::views(terms@),
            forall|k: int| 0 <= k < i ==> !text::same_ascii_fold(#[trigger] all[k], t@),
        decreases terms@.len() - i,
    {
        assert(all[i as int] == terms@[i as int]@);
        if eq_ignore_ascii_case(terms[i].as_str(), t) {
            return true;
        }
        i += 1;
    }
    false
}

/// Fold new terms into the glossary: known ones are skipped, and the oldest
/// make room when there are too many.
pub fn merge_terms(existing: Vec<String>, new_terms: Vec<String>) -> (r: Vec<String>)
    ensures
        text::views(r@) == newest(joined(text::views(existing@), text::views(new_terms@))),
{
    let ghost old_terms = text::views(existing@);
    let ghost all = text::views(new_terms@);
    let mut merged = existing;
    let mut i: usize = 0;
    assert(all.take(0) =~= Seq::<Seq<char>>::empty());
    while i < new_terms.len()
        invariant
            i <= new_terms@.len(),
            all == text::views(new_terms@),
            text::views(merged@) == joined(old_terms, all.take(i as int)),
        decreases new_terms@.len() - i,
    {
        proof {
            assert(all.take(i + 1).drop_last() =~= all.take(i as int));
            assert(all.take(i + 1).last() == new_terms@[i as int]@);
        }
        if !is_known(&merged, new_terms[i].as_str()) {
            let t = new_terms[i].clone();
            proof {
                text::lemma_views_push(merged@, t);
            }
            merged.push(t);
        }
        i += 1;
    }
    proof {
        assert(all.take(i as int) =~= all);
        assert(text::views(merged@).len() == merged@.len());
    }
    if merged.len() > MAX_TERMS {
        let extra: usize = merged.len() - MAX_TERMS;
        let ghost held = text::views(merged@);
        let rest = merged.split_off(extra);
        assert(text::views(rest@) =~= held.skip(extra as int));
        return rest;
    }
    merged
}

/// No term equals another one up to ASCII case.
pub open spec fn distinct(terms: Seq<Seq<char>>) -> bool {
    forall|i: int, j: int|
        0 <= i < j < terms.len() ==> !text::same_ascii_fold(#[trigger] terms[i], #[trigger] terms[j])
}

proof fn lemma_joined(existing: Seq<Seq<char>>, new_terms: Seq<Seq<char>>)
    ensures
        joined(existing, new_terms).len() >= existing.len(),
        joined(existing, new_terms).take(existing.len() as int) == existing,
        distinct(existing) ==> distinct(joined(existing, new_terms)),
        forall|k: int|
            0 <= k < new_terms.len() ==> known(joined(existing, new_terms), #[trigger] new_terms[k]),
    decreases new_terms.len(),
{
    let all = joined(existing, new_terms);
    if new_terms.len() == 0 {
        assert(existing.take(existing.len() as int) =~= existing);
    } else {
        let init = new_terms.drop_last();
        let head = joined(existing, init);
        lemma_joined(existing, init);
        assert(all.take(existing.len() as int) =~= head.take(existing.len() as int));
        if distinct(existing) {
            assert forall|i: int, j: int| 0 <= i < j < all.len() implies !text::same_ascii_fold(
                #[trigger] all[i],
                #[trigger] all[j],
            ) by {
                if j == head.len() {
                    assert(head[i] == all[i]);
                } else {
                    assert(head[i] == all[i] && head[j] == all[j]);
                }
            }
        }
        assert forall|k: int| 0 <= k < new_terms.len() implies known(
            all,
            #[trigger] new_terms[k],
        ) by {
            if k < init.len() {
                assert(known(head, init[k]));
                let m = choose|m: int|
                    0 <= m < head.len() && text::same_ascii_fold(#[trigger] head[m], init[k]);
                assert(all[m] == head[m]);
            } else if known(head, new_terms[k]) {
                let m = choose|m: int|
                    0 <= m < head.len() && text::same_ascii_fold(#[trigger] head[m], new_terms[k]);
                assert(all[m] == head[m]);
            } else {
                assert(all.last() == new_terms[k]);
                assert forall|c: int| 0 <= c < new_terms[k].len() implies text::ascii_lower(
                    new_terms[k][c],
                ) == text::ascii_lower(new_terms[k][c]) by {}
                assert(text::same_ascii_fold(all[all.len() - 1], new_terms[k]));
            }
        }
    }
}

/// The glossary stays within its cap, keeps its terms distinct up to ASCII
/// case, and forgets the oldest first: as long as everything fits, the existing
/// terms lead in their order and every new term is known.
pub proof fn law_merge(existing: Seq<Seq<char>>, new_terms: Seq<Seq<char>>)
    ensures
        newest(joined(existing, new_terms)).len() <= MAX_TERMS,
        distinct(existing) ==> distinct(newest(joined(existing, new_terms))),
        joined(existing, new_terms).len() <= MAX_TERMS ==> {
            let merged = newest(joined(existing, new_terms));
            &&& merged.take(existing.len() as int) == existing
            &&& forall|k: int| 0 <= k < new_terms.len() ==> known(merged, #[trigger] new_terms[k])
        },
{
    lemma_joined(existing, new_terms);
    let all = joined(existing, new_terms);
    let merged = newest(all);
    if distinct(existing) && all.len() > MAX_TERMS {
        assert forall|i: int, j: int| 0 <= i < j < merged.len() implies !text::same_ascii_fold(
            #[trigger] merged[i],
            #[trigger] merged[j],
        ) by {
            let d = all.len() - MAX_TERMS;
            assert(merged[i] == all[d + i] && merged[j] == all[d + j]);
        }
    }
}

// ---------------------------------------------------------------------
// Prompts

/// The recognizer's initial prompt built from the glossary; nothing while it
/// is empty.
pub fn initial_prompt(terms: &[String]) -> (r: Option<String>)
    ensures
        r is None <==> terms@.len() == 0,
        r matches Some(p) ==> p@ == "Glossary: "@ + text::join(text::views(terms@), ", "@) + "."@,
{
    if terms.len() == 0 {
        return None;
    }
    let mut out = String::new();
    out.append("Glossary: ");
    out.append(join_words(terms, ", ").as_str());
    out.append(".");
    assert(out@ =~= "Glossary: "@ + text::join(text::views(terms@), ", "@) + "."@);
    Some(out)
}

/// The request to extract terms from a sample; nothing when the sample is too
/// short to learn from.
pub fn extraction_prompt(sample: &str) -> (r: Option<String>)
    ensures
        r is None <==> text::bytes(sample@) < MIN_SAMPLE_BYTES,
        r matches Some(p) ==> p@
            == "Excerpts from a work meeting transcript (mixed Russian and English):\n\n"@ + sample@
            + "\n\nList up to 12 proper nouns — people, companies, products — and technical terms from these excerpts that a speech recognizer should know, exactly as spelled. Skip ordinary words.\nReply with only JSON: {\"terms\": [\"...\"]}"@,
{
    if byte_len(sample) < MIN_SAMPLE_BYTES {
        return None;
    }
    let mut out = String::new();
    out.append("Excerpts from a work meeting transcript (mixed Russian and English):\n\n");
    out.append(sample);
    out.append(
        "\n\nList up to 12 proper nouns — people, companies, products — and technical terms from these excerpts that a speech recognizer should know, exactly as spelled. Skip ordinary words.\nReply with only JSON: {\"terms\": [\"...\"]}",
    );
    assert(out@
        =~= "Excerpts from a work meeting transcript (mixed Russian and English):\n\n"@ + sample@
        + "\n\nList up to 12 proper nouns — people, companies, products — and technical terms from these excerpts that a speech recognizer should know, exactly as spelled. Skip ordinary words.\nReply with only JSON: {\"terms\": [\"...\"]}"@);
    Some(out)
}

/// The glossary after a reply: nothing when the reply offers no terms.
pub fn learn(existing: Vec<String>, reply: &str) -> (r: Option<Vec<String>>)
    ensures
        r is None <==> offered_terms(reply@).len() == 0,
        r matches Some(v) ==> text::views(v@) == newest(
            joined(text::views(existing@), offered_terms(reply@)),
        ),
{
    let new_terms = parse_terms(reply);
    assert(text::views(new_terms@).len() == new_terms@.len());
    if new_terms.len() == 0 {
        return None;
    }
    Some(merge_terms(existing, new_terms))
}

// ---------------------------------------------------------------------
// What is sampled and learnt

/// The bytes of rows are those of each of them and one for its line break.
pub proof fn law_rows_bytes(a: Seq<Seq<char>>, b: Seq<Seq<char>>, row: Seq<char>)
    ensures
        rows_bytes(a + b) == rows_bytes(a) + rows_bytes(b),
        rows_bytes(seq![row]) == text::bytes(row) + 1,
        rows_bytes(Seq::empty()) == 0,
    decreases b.len(),
{
    let one = seq![row];
    assert(one.drop_last() =~= Seq::<Seq<char>>::empty());
    assert(rows_bytes(one.drop_last()) == 0);
    assert(one.last() == row);
    if b.len() == 0 {
        assert(a + b =~= a);
    } else {
        law_rows_bytes(a, b.drop_last(), row);
        assert((a + b).drop_last() =~= a + b.drop_last());
        assert((a + b).last() == b.last());
    }
}

/// The first `n` of every `step`-th row, each with a line break.
pub open spec fn lines(rows: Seq<Seq<char>>, step: int, n: int) -> Seq<char>
    decreases n,
{
    if n <= 0 {
        Seq::empty()
    } else {
        lines(rows, step, n - 1) + rows[(n - 1) * step] + "\n"@
    }
}

/// A sample holds whole rows at even distances from the first one on, and stops
/// only at the end or before the first that would reach six thousand bytes. The
/// distance is as many rows as the meeting is longer than that.
pub proof fn law_sample(rows: Seq<Seq<char>>)
    ensures
        stride(rows) == if rows_bytes(rows) >= 12_000 {
            rows_bytes(rows) / 6_000
        } else {
            1
        },
        exists|n: int|
            0 <= n && sample_of(rows) == #[trigger] lines(rows, stride(rows) as int, n) && (forall|k: int|
                0 <= k < n ==> #[trigger] (k * stride(rows)) < rows.len()) && (n * stride(rows)
                >= rows.len() || text::bytes(sample_of(rows)) + text::bytes(rows[n * stride(rows)])
                >= 6_000),
{
    let step = stride(rows) as int;
    assert(0 * step == 0) by (nonlinear_arith);
    assert(lines(rows, step, 0) =~= Seq::<char>::empty());
    let n = lemma_sampled(rows, step, 0);
    assert(sample_of(rows) == lines(rows, step, n));
}

proof fn lemma_sampled(rows: Seq<Seq<char>>, step: int, k: int) -> (n: int)
    requires
        step > 0,
        k >= 0,
        forall|j: int| 0 <= j < k ==> #[trigger] (j * step) < rows.len(),
    ensures
        n >= k,
        sampled(rows, step as nat, (k * step) as nat, lines(rows, step, k)) == lines(
            rows,
            step,
            n,
        ),
        forall|j: int| 0 <= j < n ==> #[trigger] (j * step) < rows.len(),
        n * step >= rows.len() || text::bytes(lines(rows, step, n)) + text::bytes(rows[n * step])
            >= 6_000,
    decreases left_over(rows, (k * step) as nat),
{
    let i = k * step;
    assert(i >= 0) by (nonlinear_arith)
        requires
            i == k * step,
            k >= 0,
            step > 0,
    ;
    let out = lines(rows, step, k);
    if i >= rows.len() || text::bytes(out) + text::bytes(rows[i]) >= MAX_SAMPLE_CHARS {
        k
    } else {
        assert((k + 1) * step == i + step) by (nonlinear_arith)
            requires
                i == k * step,
        ;
        assert(lines(rows, step, k + 1) == out + rows[k * step] + "\n"@);
        lemma_sampled(rows, step, k + 1)
    }
}

/// Entries are judged one by one: a trimmed entry of one to forty bytes and up to
/// three words is a term, in its place; anything else is dropped.
pub proof fn law_kept_terms(a: Seq<Seq<char>>, b: Seq<Seq<char>>, x: Seq<char>)
    ensures
        kept_terms(a + b) == kept_terms(a) + kept_terms(b),
        ({
            let t = text::trimmed(x);
            let fits = t.len() > 0 && text::bytes(t) <= 40 && text::split_ws(t).len() <= 3;
            kept_terms(seq![x]) == if fits { seq![t] } else { Seq::empty() }
        }),
        kept_terms(Seq::empty()).len() == 0,
    decreases b.len(),
{
    let one = seq![x];
    assert(one.drop_last() =~= Seq::<Seq<char>>::empty());
    assert(kept_terms(one.drop_last()) =~= Seq::<Seq<char>>::empty());
    assert(one.last() == x);
    if term_like(text::trimmed(x)) {
        assert(kept_terms(one) =~= seq![text::trimmed(x)]);
    }
    if b.len() == 0 {
        assert(a + b =~= a);
        assert(kept_terms(a + b) =~= kept_terms(a) + kept_terms(b));
    } else {
        law_kept_terms(a, b.drop_last(), x);
        assert((a + b).drop_last() =~= a + b.drop_last());
        assert((a + b).last() == b.last());
        assert(kept_terms(a + b) =~= kept_terms(a) + kept_terms(b));
    }
}

/// A reply offers the terms of its JSON's list of that name; without one, none.
pub proof fn law_offered_terms(reply: Seq<char>)
    ensures
        transcript_repair::braced(reply) is None ==> offered_terms(reply).len() == 0,
        transcript_repair::braced(reply) matches Some(part) ==> {
            &&& json::json_of(part) is None ==> offered_terms(reply).len() == 0
            &&& json::json_of(part) matches Some(v) ==> offered_terms(reply) == if json::list_members(
                v,
            ).contains_key("terms"@) {
                kept_terms(json::list_members(v)["terms"@])
            } else {
                Seq::empty()
            }
        },
{
}

/// A merged glossary is the existing terms and then every new term, as it is
/// spelled, that does not equal an earlier one up to ASCII case; of more than
/// forty the last forty stay. Nothing else gets in.
pub proof fn law_merge_adds_what_is_new(existing: Seq<Seq<char>>, new_terms: Seq<Seq<char>>, t: Seq<char>)
    ensures
        ({
            let all = joined(existing, new_terms);
            let more = joined(existing, new_terms.push(t));
            let seen = exists|k: int|
                0 <= k < all.len() && text::same_ascii_fold(#[trigger] all[k], t);
            &&& joined(existing, Seq::empty()) == existing
            &&& seen ==> more == all
            &&& !seen ==> more == all.push(t)
            &&& newest(all).len() == if all.len() <= 40 { all.len() } else { 40 }
            &&& forall|i: int|
                0 <= i < newest(all).len() ==> #[trigger] newest(all)[i] == all[all.len() - newest(
                    all,
                ).len() + i]
        }),
{
    assert(new_terms.push(t).drop_last() =~= new_terms);
    let all = joined(existing, new_terms);
    if known(all, t) {
        let k = choose|k: int| 0 <= k < all.len() && text::same_ascii_fold(#[trigger] all[k], t);
        assert(text::same_ascii_fold(all[k], t));
    }
}

/// How much is read, how much is learned, and how long it may take.
pub proof fn law_limits()
    ensures
        MAX_TERMS == 40,
        MAX_SAMPLE_CHARS == 6_000,
        MIN_SAMPLE_BYTES == 400,
        MAX_TERM_BYTES == 40,
        MAX_TERM_WORDS == 3,
        MAX_REPLY_TOKENS == 256,
        EXTRACT_TIMEOUT_SECS == 2 * 60,
{
}

} // verus!
