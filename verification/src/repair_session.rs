//! The course of one transcript repair.
//!
//! Improbable sentences are shown to the model one after the other, the least
//! probable ones where there are too many. The session decides; whoever drives
//! it performs the [`RepairAction`] and hands the outcome back. Only the text of
//! turns changes: words, timings and speakers stay what they were.
use vstd::prelude::*;
use crate::boundary_refine;
use crate::diarization;
use crate::diarization::{SpeakerTurn, TurnView};
use crate::text;
use crate::text::{join_words, split_whitespace};
use crate::transcript_repair;
use crate::transcript_repair::{
    MAX_CONSECUTIVE_FAILURES, MAX_REPAIRS, RepairStats, Sentence, SentenceView, accept_repair,
    build_prompt, is_flagged, max_reply_tokens, parse_text_reply, sentences_of,
};

verus! {

// ---------------------------------------------------------------------
// The queue

/// A flagged sentence: its place and its probability as a fraction.
#[derive(Debug, Clone, Copy)]
pub struct Flag {
    pub turn: usize,
    pub sentence: usize,
    pub sum_ppb: u128,
    pub words: usize,
}

/// The sentences of all turns.
pub open spec fn all_sentences(turns: Seq<TurnView>) -> Seq<Seq<SentenceView>> {
    Seq::new(turns.len(), |t: int| transcript_repair::turn_sentences(turns[t].words))
}

/// The flagged sentences among the first `n` of turn `t`.
pub open spec fn flags_in(sentences: Seq<SentenceView>, t: int, n: int) -> Seq<(int, int)>
    decreases n,
{
    if n <= 0 {
        Seq::empty()
    } else {
        let head = flags_in(sentences, t, n - 1);
        if transcript_repair::flagged(sentences[n - 1]) {
            head.push((t, n - 1))
        } else {
            head
        }
    }
}

/// The flagged sentences of the first `n` turns, in order.
pub open spec fn flags_upto(sentences: Seq<Seq<SentenceView>>, n: int) -> Seq<(int, int)>
    decreases n,
{
    if n <= 0 {
        Seq::empty()
    } else {
        flags_upto(sentences, n - 1) + flags_in(
            sentences[n - 1],
            n - 1,
            sentences[n - 1].len() as int,
        )
    }
}

/// The flagged sentences, in order.
pub open spec fn flags_of(sentences: Seq<Seq<SentenceView>>) -> Seq<(int, int)> {
    flags_upto(sentences, sentences.len() as int)
}

/// Flag `j` is worse than flag `k`: its words are less probable on average, or
/// equally probable and it comes earlier.
pub open spec fn worse(
    sentences: Seq<Seq<SentenceView>>,
    flags: Seq<(int, int)>,
    j: int,
    k: int,
) -> bool {
    let a = sentences[flags[j].0][flags[j].1];
    let b = sentences[flags[k].0][flags[k].1];
    a.sum_ppb * b.word_count < b.sum_ppb * a.word_count || (a.sum_ppb * b.word_count == b.sum_ppb
        * a.word_count && j < k)
}

/// How many of the first `n` flags are worse than flag `k`.
pub open spec fn worse_count(
    sentences: Seq<Seq<SentenceView>>,
    flags: Seq<(int, int)>,
    k: int,
    n: int,
) -> nat
    decreases n,
{
    if n <= 0 {
        0
    } else {
        worse_count(sentences, flags, k, n - 1) + if worse(sentences, flags, n - 1, k) {
            1nat
        } else {
            0nat
        }
    }
}

/// Of the first `n` flags those with fewer than `MAX_REPAIRS` worse ones.
pub open spec fn worst(
    sentences: Seq<Seq<SentenceView>>,
    flags: Seq<(int, int)>,
    n: int,
) -> Seq<(int, int)>
    decreases n,
{
    if n <= 0 {
        Seq::empty()
    } else {
        let head = worst(sentences, flags, n - 1);
        if worse_count(sentences, flags, n - 1, flags.len() as int) < MAX_REPAIRS {
            head.push(flags[n - 1])
        } else {
            head
        }
    }
}

/// The sentences to ask about: the worst flagged ones, in order.
pub open spec fn queue_of(sentences: Seq<Seq<SentenceView>>) -> Seq<(int, int)> {
    let flags = flags_of(sentences);
    worst(sentences, flags, flags.len() as int)
}

/// Flags as places.
pub open spec fn places(v: Seq<Flag>) -> Seq<(int, int)> {
    Seq::new(v.len(), |i: int| (v[i].turn as int, v[i].sentence as int))
}

/// The contents of the sentences of all turns.
pub open spec fn sentence_table(v: Seq<Vec<Sentence>>) -> Seq<Seq<SentenceView>> {
    Seq::new(v.len(), |t: int| transcript_repair::sentence_views(v[t]@))
}

/// The flags carry the fractions of their sentences.
spec fn carried(sentences: Seq<Seq<SentenceView>>, v: Seq<Flag>) -> bool {
    forall|i: int|
        0 <= i < v.len() ==> {
            let f = #[trigger] v[i];
            let s = sentences[f.turn as int][f.sentence as int];
            &&& f.turn < sentences.len()
            &&& f.sentence < sentences[f.turn as int].len()
            &&& f.sum_ppb == s.sum_ppb
            &&& f.words == s.word_count
            &&& f.words <= 40
            &&& f.sum_ppb <= 40 * u32::MAX
            &&& transcript_repair::flagged(s)
        }
}

/// The flagged sentences, in order.
fn find_flags(table: &Vec<Vec<Sentence>>) -> (r: Vec<Flag>)
    requires
        forall|t: int, s: int|
            0 <= t < table@.len() && 0 <= s < table@[t]@.len() ==> (#[trigger] table@[t]@[s]).sum_ppb
                <= table@[t]@[s].word_count * u32::MAX,
    ensures
        places(r@) == flags_of(sentence_table(table@)),
        carried(sentence_table(table@), r@),
{
    let ghost all = sentence_table(table@);
    let mut out: Vec<Flag> = Vec::new();
    let mut t: usize = 0;
    assert(places(out@) =~= flags_upto(all, 0));
    while t < table.len()
        invariant
            t <= table@.len(),
            all == sentence_table(table@),
            forall|t: int, s: int|
                0 <= t < table@.len() && 0 <= s < table@[t]@.len() ==> (
                #[trigger] table@[t]@[s]).sum_ppb <= table@[t]@[s].word_count * u32::MAX,
            places(out@) == flags_upto(all, t as int),
            carried(all, out@),
        decreases table@.len() - t,
    {
        let ghost before = places(out@);
        let mut s: usize = 0;
        assert(places(out@) =~= before + flags_in(all[t as int], t as int, 0));
        while s < table[t].len()
            invariant
                t < table@.len(),
                s <= table@[t as int]@.len(),
                all == sentence_table(table@),
                forall|t: int, s: int|
                    0 <= t < table@.len() && 0 <= s < table@[t]@.len() ==> (
                    #[trigger] table@[t]@[s]).sum_ppb <= table@[t]@[s].word_count * u32::MAX,
                places(out@) == before + flags_in(all[t as int], t as int, s as int),
                carried(all, out@),
            decreases table@[t as int]@.len() - s,
        {
            let sent: &Sentence = &table[t][s];
            let ghost held = places(out@);
            assert(all[t as int][s as int] == sent@);
            assert(table@[t as int]@[s as int].sum_ppb <= table@[t as int]@[s as int].word_count
                * u32::MAX);
            if is_flagged(sent) {
                assert(sent.word_count * u32::MAX <= 40 * u32::MAX) by (nonlinear_arith)
                    requires
                        sent.word_count <= 40,
                ;
                out.push(
                    Flag { turn: t, sentence: s, sum_ppb: sent.sum_ppb, words: sent.word_count },
                );
                assert(places(out@) =~= held.push((t as int, s as int)));
                assert(places(out@) =~= before + flags_in(all[t as int], t as int, s + 1));
            }
            s += 1;
        }
        t += 1;
    }
    out
}

/// How many flags are worse than flag `k`.
fn count_worse(table: &Vec<Vec<Sentence>>, flags: &Vec<Flag>, k: usize) -> (r: usize)
    requires
        k < flags@.len(),
        carried(sentence_table(table@), flags@),
    ensures
        r == worse_count(
            sentence_table(table@),
            places(flags@),
            k as int,
            flags@.len() as int,
        ),
{
    let ghost all = sentence_table(table@);
    let mut n: usize = 0;
    let mut j: usize = 0;
    let b: Flag = flags[k];
    while j < flags.len()
        invariant
            k < flags@.len(),
            b == flags@[k as int],
            j <= flags@.len(),
            n <= j,
            all == sentence_table(table@),
            carried(all, flags@),
            n == worse_count(all, places(flags@), k as int, j as int),
        decreases flags@.len() - j,
    {
        let a: Flag = flags[j];
        proof {
            assert(places(flags@)[j as int] == (a.turn as int, a.sentence as int));
            assert(places(flags@)[k as int] == (b.turn as int, b.sentence as int));
            let fa = flags@[j as int];
            let fb = flags@[k as int];
            assert(a.sum_ppb * b.words <= 40 * u32::MAX * 40) by (nonlinear_arith)
                requires
                    a.sum_ppb <= 40 * u32::MAX,
                    b.words <= 40,
            ;
            assert(b.sum_ppb * a.words <= 40 * u32::MAX * 40) by (nonlinear_arith)
                requires
                    b.sum_ppb <= 40 * u32::MAX,
                    a.words <= 40,
            ;
        }
        let x: u128 = a.sum_ppb * b.words as u128;
        let y: u128 = b.sum_ppb * a.words as u128;
        if x < y || (x == y && j < k) {
            n += 1;
        }
        j += 1;
    }
    n
}

/// The worst flags, in order.
fn pick_worst(table: &Vec<Vec<Sentence>>, flags: &Vec<Flag>) -> (r: Vec<(usize, usize)>)
    requires
        carried(sentence_table(table@), flags@),
    ensures
        boundary_refine::int_pairs(r@) == worst(
            sentence_table(table@),
            places(flags@),
            flags@.len() as int,
        ),
{
    let ghost all = sentence_table(table@);
    let mut out: Vec<(usize, usize)> = Vec::new();
    let mut k: usize = 0;
    assert(boundary_refine::int_pairs(out@) =~= worst(all, places(flags@), 0));
    while k < flags.len()
        invariant
            k <= flags@.len(),
            all == sentence_table(table@),
            carried(all, flags@),
            boundary_refine::int_pairs(out@) == worst(all, places(flags@), k as int),
        decreases flags@.len() - k,
    {
        if count_worse(table, flags, k) < MAX_REPAIRS {
            let f: Flag = flags[k];
            let ghost held = out@;
            out.push((f.turn, f.sentence));
            assert(boundary_refine::int_pairs(out@)
                =~= boundary_refine::int_pairs(held).push(places(flags@)[k as int]));
        }
        k += 1;
    }
    out
}

// ---------------------------------------------------------------------
// Laws of the queue

/// Place `a` comes before place `b`.
pub open spec fn earlier(a: (int, int), b: (int, int)) -> bool {
    a.0 < b.0 || (a.0 == b.0 && a.1 < b.1)
}

/// The places are in order, none occurs twice.
pub open spec fn in_order(q: Seq<(int, int)>) -> bool {
    forall|i: int, j: int| 0 <= i < j < q.len() ==> earlier(#[trigger] q[i], #[trigger] q[j])
}

proof fn lemma_flags_in(sentences: Seq<SentenceView>, t: int, n: int)
    requires
        0 <= n <= sentences.len(),
    ensures
        in_order(flags_in(sentences, t, n)),
        forall|i: int|
            0 <= i < flags_in(sentences, t, n).len() ==> {
                let f = #[trigger] flags_in(sentences, t, n)[i];
                f.0 == t && 0 <= f.1 < n && transcript_repair::flagged(sentences[f.1])
            },
    decreases n,
{
    if n > 0 {
        lemma_flags_in(sentences, t, n - 1);
    }
}

proof fn lemma_flags_upto(sentences: Seq<Seq<SentenceView>>, n: int)
    requires
        0 <= n <= sentences.len(),
    ensures
        in_order(flags_upto(sentences, n)),
        forall|i: int|
            0 <= i < flags_upto(sentences, n).len() ==> {
                let f = #[trigger] flags_upto(sentences, n)[i];
                &&& 0 <= f.0 < n
                &&& 0 <= f.1 < sentences[f.0].len()
                &&& transcript_repair::flagged(sentences[f.0][f.1])
            },
    decreases n,
{
    if n > 0 {
        lemma_flags_upto(sentences, n - 1);
        lemma_flags_in(sentences[n - 1], n - 1, sentences[n - 1].len() as int);
        let head = flags_upto(sentences, n - 1);
        let tail = flags_in(sentences[n - 1], n - 1, sentences[n - 1].len() as int);
        let all = flags_upto(sentences, n);
        assert forall|i: int, j: int| 0 <= i < j < all.len() implies earlier(
            #[trigger] all[i],
            #[trigger] all[j],
        ) by {
            if j < head.len() {
                assert(earlier(head[i], head[j]));
            } else if i < head.len() {
                assert(all[i] == head[i]);
                assert(all[j] == tail[j - head.len()]);
            } else {
                assert(earlier(tail[i - head.len()], tail[j - head.len()]));
            }
        }
        assert forall|i: int| 0 <= i < all.len() implies {
            let f = #[trigger] all[i];
            &&& 0 <= f.0 < n
            &&& 0 <= f.1 < sentences[f.0].len()
            &&& transcript_repair::flagged(sentences[f.0][f.1])
        } by {
            if i < head.len() {
                assert(all[i] == head[i]);
            } else {
                assert(all[i] == tail[i - head.len()]);
            }
        }
    }
}

/// The flags in a turn are its flagged sentences.
proof fn lemma_flags_in_all(sentences: Seq<SentenceView>, t: int, n: int, s: int)
    requires
        0 <= n <= sentences.len(),
    ensures
        flags_in(sentences, t, n).contains((t, s)) <==> 0 <= s < n && transcript_repair::flagged(
            sentences[s],
        ),
    decreases n,
{
    let all = flags_in(sentences, t, n);
    if n > 0 {
        lemma_flags_in_all(sentences, t, n - 1, s);
        let head = flags_in(sentences, t, n - 1);
        if all.contains((t, s)) {
            let k = choose|k: int| 0 <= k < all.len() && all[k] == (t, s);
            if k < head.len() {
                assert(head[k] == (t, s));
            }
        }
        if head.contains((t, s)) {
            let k = choose|k: int| 0 <= k < head.len() && head[k] == (t, s);
            assert(all[k] == (t, s));
        }
        if s == n - 1 && transcript_repair::flagged(sentences[s]) {
            assert(all[head.len() as int] == (t, s));
        }
    }
}

proof fn lemma_flags_upto_all(sentences: Seq<Seq<SentenceView>>, n: int, t: int, s: int)
    requires
        0 <= n <= sentences.len(),
    ensures
        flags_upto(sentences, n).contains((t, s)) <==> 0 <= t < n && 0 <= s < sentences[t].len()
            && transcript_repair::flagged(sentences[t][s]),
    decreases n,
{
    let all = flags_upto(sentences, n);
    if n > 0 {
        lemma_flags_upto_all(sentences, n - 1, t, s);
        let m = sentences[n - 1].len() as int;
        let head = flags_upto(sentences, n - 1);
        let tail = flags_in(sentences[n - 1], n - 1, m);
        lemma_flags_in_all(sentences[n - 1], n - 1, m, s);
        lemma_flags_in(sentences[n - 1], n - 1, m);
        if all.contains((t, s)) {
            let k = choose|k: int| 0 <= k < all.len() && all[k] == (t, s);
            if k < head.len() {
                assert(head[k] == (t, s));
            } else {
                assert(tail[k - head.len()] == (t, s));
                assert(tail.contains((t, s)));
            }
        }
        if head.contains((t, s)) {
            let k = choose|k: int| 0 <= k < head.len() && head[k] == (t, s);
            assert(all[k] == (t, s));
        }
        if t == n - 1 && tail.contains((t, s)) {
            let k = choose|k: int| 0 <= k < tail.len() && tail[k] == (t, s);
            assert(all[head.len() + k] == (t, s));
        }
    }
}

/// Every doubtful sentence is flagged, once, and nothing else is: one of three
/// to forty words, with a word less probable than 45 percent or less than 70
/// percent on average. The flags come in the order of the transcript.
pub proof fn law_flags(sentences: Seq<Seq<SentenceView>>, t: int, s: int)
    ensures
        flags_of(sentences).contains((t, s)) <==> {
            &&& 0 <= t < sentences.len()
            &&& 0 <= s < sentences[t].len()
            &&& 3 <= sentences[t][s].word_count <= 40
            &&& sentences[t][s].min_ppb < 450_000_000 || sentences[t][s].sum_ppb < 700_000_000
                * sentences[t][s].word_count
        },
        forall|i: int, j: int|
            0 <= i < j < flags_of(sentences).len() ==> {
                let (a, b) = (#[trigger] flags_of(sentences)[i], #[trigger] flags_of(sentences)[j]);
                a.0 < b.0 || (a.0 == b.0 && a.1 < b.1)
            },
{
    lemma_flags_upto_all(sentences, sentences.len() as int, t, s);
    lemma_flags_upto(sentences, sentences.len() as int);
    assert forall|i: int, j: int| 0 <= i < j < flags_of(sentences).len() implies {
        let (a, b) = (#[trigger] flags_of(sentences)[i], #[trigger] flags_of(sentences)[j]);
        a.0 < b.0 || (a.0 == b.0 && a.1 < b.1)
    } by {
        assert(earlier(flags_of(sentences)[i], flags_of(sentences)[j]));
    }
}

/// The flags that are kept, as indices into the list of flags.
spec fn kept(sentences: Seq<Seq<SentenceView>>, flags: Seq<(int, int)>, n: int) -> Seq<int>
    decreases n,
{
    if n <= 0 {
        Seq::empty()
    } else {
        let head = kept(sentences, flags, n - 1);
        if worse_count(sentences, flags, n - 1, flags.len() as int) < MAX_REPAIRS {
            head.push(n - 1)
        } else {
            head
        }
    }
}

proof fn lemma_kept(sentences: Seq<Seq<SentenceView>>, flags: Seq<(int, int)>, n: int)
    requires
        0 <= n <= flags.len(),
    ensures
        kept(sentences, flags, n).len() == worst(sentences, flags, n).len(),
        forall|i: int|
            0 <= i < kept(sentences, flags, n).len() ==> {
                let k = #[trigger] kept(sentences, flags, n)[i];
                &&& 0 <= k < n
                &&& worst(sentences, flags, n)[i] == flags[k]
                &&& worse_count(sentences, flags, k, flags.len() as int) < MAX_REPAIRS
            },
        forall|i: int, j: int|
            0 <= i < j < kept(sentences, flags, n).len() ==> #[trigger] kept(sentences, flags, n)[i]
                < #[trigger] kept(sentences, flags, n)[j],
        forall|k: int|
            0 <= k < n && worse_count(sentences, flags, k, flags.len() as int) < MAX_REPAIRS
                ==> #[trigger] kept(sentences, flags, n).contains(k),
    decreases n,
{
    if n > 0 {
        lemma_kept(sentences, flags, n - 1);
        let head = kept(sentences, flags, n - 1);
        let all = kept(sentences, flags, n);
        assert forall|k: int|
            0 <= k < n && worse_count(sentences, flags, k, flags.len() as int)
                < MAX_REPAIRS implies #[trigger] all.contains(k) by {
            if k < n - 1 {
                assert(head.contains(k));
                let i = choose|i: int| 0 <= i < head.len() && head[i] == k;
                assert(all[i] == k);
            } else {
                assert(all[all.len() - 1] == k);
            }
        }
    }
}

/// Fractions with positive denominators are ordered transitively.
proof fn lemma_fractions(a: int, m: int, b: int, n: int, c: int, p: int)
    requires
        m > 0,
        n > 0,
        p > 0,
        a * n <= b * m,
        b * p <= c * n,
    ensures
        a * p <= c * m,
        a * n < b * m || b * p < c * n ==> a * p < c * m,
{
    assert(a * n * p <= b * m * p) by (nonlinear_arith)
        requires
            a * n <= b * m,
            p > 0,
    ;
    assert(b * p * m <= c * n * m) by (nonlinear_arith)
        requires
            b * p <= c * n,
            m > 0,
    ;
    assert(b * m * p == b * p * m) by (nonlinear_arith);
    assert(a * p <= c * m) by (nonlinear_arith)
        requires
            a * n * p <= c * n * m,
            n > 0,
    ;
    if a * n < b * m || b * p < c * n {
        if a * n < b * m {
            assert(a * n * p < b * m * p) by (nonlinear_arith)
                requires
                    a * n < b * m,
                    p > 0,
            ;
        } else {
            assert(b * p * m < c * n * m) by (nonlinear_arith)
                requires
                    b * p < c * n,
                    m > 0,
            ;
        }
        assert(a * p < c * m) by (nonlinear_arith)
            requires
                a * n * p < c * n * m,
                n > 0,
        ;
    }
}

/// Of two flags the worse one has fewer worse ones.
proof fn lemma_worse_count_order(
    sentences: Seq<Seq<SentenceView>>,
    flags: Seq<(int, int)>,
    j: int,
    k: int,
    n: int,
)
    requires
        0 <= n <= flags.len(),
        0 <= j < flags.len(),
        0 <= k < flags.len(),
        worse(sentences, flags, j, k),
        forall|i: int|
            0 <= i < flags.len() ==> sentences[(#[trigger] flags[i]).0][flags[i].1].word_count > 0,
    ensures
        worse_count(sentences, flags, j, n) <= worse_count(sentences, flags, k, n),
        j < n ==> worse_count(sentences, flags, j, n) < worse_count(sentences, flags, k, n),
    decreases n,
{
    if n > 0 {
        lemma_worse_count_order(sentences, flags, j, k, n - 1);
        let i = n - 1;
        let x = sentences[flags[i].0][flags[i].1];
        let y = sentences[flags[j].0][flags[j].1];
        let z = sentences[flags[k].0][flags[k].1];
        if worse(sentences, flags, i, j) {
            lemma_fractions(
                x.sum_ppb,
                x.word_count,
                y.sum_ppb,
                y.word_count,
                z.sum_ppb,
                z.word_count,
            );
        }
    }
}

/// Every number below the number of flags is the rank of some flag.
proof fn lemma_rank_of(sentences: Seq<Seq<SentenceView>>, flags: Seq<(int, int)>, x: int) -> (k: int)
    requires
        0 <= x < flags.len(),
        forall|i: int|
            0 <= i < flags.len() ==> sentences[(#[trigger] flags[i]).0][flags[i].1].word_count > 0,
    ensures
        0 <= k < flags.len(),
        worse_count(sentences, flags, k, flags.len() as int) == x,
{
    let n = flags.len() as int;
    let ranks = Seq::new(flags.len(), |i: int| worse_count(sentences, flags, i, n) as int);
    assert(ranks.no_duplicates()) by {
        assert forall|i: int, j: int|
            0 <= i < ranks.len() && 0 <= j < ranks.len() && i != j implies ranks[i] != ranks[j] by {
            if worse(sentences, flags, i, j) {
                lemma_worse_count_order(sentences, flags, i, j, n);
            } else {
                lemma_worse_count_order(sentences, flags, j, i, n);
            }
        }
    }
    ranks.unique_seq_to_set();
    let range = vstd::set_lib::set_int_range(0, n);
    vstd::set_lib::lemma_int_range(0, n);
    assert(ranks.to_set().subset_of(range)) by {
        assert forall|r: int| ranks.to_set().contains(r) implies range.contains(r) by {
            let i = choose|i: int| 0 <= i < ranks.len() && ranks[i] == r;
            lemma_worse_count_bound(sentences, flags, i, n);
        }
    }
    vstd::set_lib::lemma_subset_equality(ranks.to_set(), range);
    assert(ranks.to_set().contains(x));
    let k = choose|k: int| 0 <= k < ranks.len() && ranks[k] == x;
    k
}

/// The queue holds flagged sentences in order, each at most once: all of them
/// while there are few, else as many as the cap allows.
pub proof fn law_queue(sentences: Seq<Seq<SentenceView>>)
    ensures
        queue_of(sentences).len() == if flags_of(sentences).len() < MAX_REPAIRS {
            flags_of(sentences).len()
        } else {
            MAX_REPAIRS as nat
        },
        in_order(queue_of(sentences)),
        forall|i: int|
            0 <= i < queue_of(sentences).len() ==> {
                let f = #[trigger] queue_of(sentences)[i];
                &&& 0 <= f.0 < sentences.len()
                &&& 0 <= f.1 < sentences[f.0].len()
                &&& transcript_repair::flagged(sentences[f.0][f.1])
            },
        flags_of(sentences).len() <= MAX_REPAIRS ==> queue_of(sentences) == flags_of(sentences),
{
    let flags = flags_of(sentences);
    let n = flags.len() as int;
    let queue = queue_of(sentences);
    let idx = kept(sentences, flags, n);
    lemma_flags_upto(sentences, sentences.len() as int);
    lemma_kept(sentences, flags, n);
    assert forall|i: int, j: int| 0 <= i < j < queue.len() implies earlier(
        #[trigger] queue[i],
        #[trigger] queue[j],
    ) by {
        assert(idx[i] < idx[j]);
        assert(earlier(flags[idx[i]], flags[idx[j]]));
    }
    assert forall|i: int| 0 <= i < queue.len() implies {
        let f = #[trigger] queue[i];
        &&& 0 <= f.0 < sentences.len()
        &&& 0 <= f.1 < sentences[f.0].len()
        &&& transcript_repair::flagged(sentences[f.0][f.1])
    } by {
        assert(queue[i] == flags[idx[i]]);
    }
    assert forall|i: int| 0 <= i < flags.len() implies sentences[(#[trigger] flags[i]).0][flags[i].1].word_count
        > 0 by {
        assert(transcript_repair::flagged(sentences[flags[i].0][flags[i].1]));
    }
    let ranks = Seq::new(idx.len(), |i: int| worse_count(sentences, flags, idx[i], n) as int);
    assert(ranks.no_duplicates()) by {
        assert forall|i: int, j: int|
            0 <= i < ranks.len() && 0 <= j < ranks.len() && i != j implies ranks[i] != ranks[j] by {
            assert(idx[i] != idx[j]) by {
                if i < j {
                    assert(idx[i] < idx[j]);
                } else {
                    assert(idx[j] < idx[i]);
                }
            }
            if worse(sentences, flags, idx[i], idx[j]) {
                lemma_worse_count_order(sentences, flags, idx[i], idx[j], n);
            } else {
                lemma_worse_count_order(sentences, flags, idx[j], idx[i], n);
            }
        }
    }
    ranks.unique_seq_to_set();
    let cap = vstd::set_lib::set_int_range(0, MAX_REPAIRS as int);
    vstd::set_lib::lemma_int_range(0, MAX_REPAIRS as int);
    assert(ranks.to_set().subset_of(cap)) by {
        assert forall|x: int| ranks.to_set().contains(x) implies cap.contains(x) by {
            let i = choose|i: int| 0 <= i < ranks.len() && ranks[i] == x;
            assert(ranks[i] == worse_count(sentences, flags, idx[i], n));
        }
    }
    lemma_few(sentences, flags, n);
    if n >= MAX_REPAIRS {
        assert(cap.subset_of(ranks.to_set())) by {
            assert forall|x: int| cap.contains(x) implies ranks.to_set().contains(x) by {
                let k = lemma_rank_of(sentences, flags, x);
                assert(idx.contains(k));
                let i = choose|i: int| 0 <= i < idx.len() && idx[i] == k;
                assert(ranks[i] == x);
            }
        }
        assert(ranks.to_set() =~= cap);
    } else {
        assert(flags.take(n) =~= flags);
    }
}

proof fn lemma_worse_count_bound(
    sentences: Seq<Seq<SentenceView>>,
    flags: Seq<(int, int)>,
    k: int,
    n: int,
)
    requires
        0 <= n,
        0 <= k,
    ensures
        worse_count(sentences, flags, k, n) <= n,
        k < n ==> worse_count(sentences, flags, k, n) < n,
    decreases n,
{
    if n > 0 {
        lemma_worse_count_bound(sentences, flags, k, n - 1);
    }
}

proof fn lemma_few(sentences: Seq<Seq<SentenceView>>, flags: Seq<(int, int)>, n: int)
    requires
        0 <= n <= flags.len(),
    ensures
        flags.len() <= MAX_REPAIRS ==> worst(sentences, flags, n) == flags.take(n),
    decreases n,
{
    if n > 0 {
        lemma_few(sentences, flags, n - 1);
        lemma_worse_count_bound(sentences, flags, n - 1, flags.len() as int);
        assert(flags.take(n) =~= flags.take(n - 1).push(flags[n - 1]));
    }
    if n == flags.len() {
        assert(flags.take(n) =~= flags);
    }
}

/// With at most fifteen flagged sentences all of them are asked about, else
/// fifteen of them: no flagged sentence that is left out is less probable on
/// average than one that is asked about, and of equally probable ones the later
/// one is left out.
pub proof fn law_queue_holds_the_worst(sentences: Seq<Seq<SentenceView>>, p: (int, int), q: (int, int))
    requires
        flags_of(sentences).contains(p),
        queue_of(sentences).contains(q),
    ensures
        queue_of(sentences).len() == if flags_of(sentences).len() < 15 {
            flags_of(sentences).len()
        } else {
            15
        },
        flags_of(sentences).len() <= 15 ==> queue_of(sentences).contains(p),
        flags_of(sentences).contains(q),
        !queue_of(sentences).contains(p) ==> {
            let (a, b) = (sentences[q.0][q.1], sentences[p.0][p.1]);
            &&& a.sum_ppb * b.word_count <= b.sum_ppb * a.word_count
            &&& a.sum_ppb * b.word_count == b.sum_ppb * a.word_count ==> q.0 < p.0 || (q.0 == p.0
                && q.1 < p.1)
        },
{
    let flags = flags_of(sentences);
    let n = flags.len() as int;
    let idx = kept(sentences, flags, n);
    let queue = queue_of(sentences);
    law_queue(sentences);
    lemma_flags_upto(sentences, sentences.len() as int);
    lemma_kept(sentences, flags, n);
    assert forall|i: int| 0 <= i < flags.len() implies sentences[(#[trigger] flags[i]).0][flags[i].1].word_count
        > 0 by {
        assert(transcript_repair::flagged(sentences[flags[i].0][flags[i].1]));
    }
    let at = choose|i: int| 0 <= i < queue.len() && queue[i] == q;
    let k = idx[at];
    assert(flags[k] == q);
    let j = choose|j: int| 0 <= j < n && flags[j] == p;
    if !queue.contains(p) {
        assert(!idx.contains(j)) by {
            if idx.contains(j) {
                let i = choose|i: int| 0 <= i < idx.len() && idx[i] == j;
                assert(queue[i] == p);
            }
        }
        assert(worse_count(sentences, flags, j, n) >= MAX_REPAIRS);
        assert(worse_count(sentences, flags, k, n) < MAX_REPAIRS);
        if worse(sentences, flags, j, k) {
            lemma_worse_count_order(sentences, flags, j, k, n);
        }
        assert(j != k);
        if k < j {
            assert(earlier(flags[k], flags[j]));
        }
    }
}

// ---------------------------------------------------------------------
// The session

/// What the session is waiting for.
#[derive(Debug, Clone, Copy, PartialEq, Eq, Structural)]
pub enum RepairPhase {
    /// Whether to go on with the next sentence.
    Check,
    /// The reply to a question.
    Asked,
    /// Nothing: the repair is over.
    Over,
}

/// What the driver has to do next.
#[derive(Debug)]
pub enum RepairAction {
    /// There is nothing to repair.
    Idle,
    /// Find out whether to stop; then call `checked`.
    Check,
    /// Report that `done` of `total` sentences are through and put `prompt` to
    /// the model, asking for at most `max_tokens`; then call `replied`.
    Ask { prompt: String, max_tokens: i32, done: usize, total: usize },
    /// Report that all `total` sentences are through.
    Finished { total: usize },
}

/// The contents of an action.
pub enum RepairActionView {
    Idle,
    Check,
    Ask { prompt: Seq<char>, max_tokens: int, done: int, total: int },
    Finished { total: int },
}

impl View for RepairAction {
    type V = RepairActionView;

    open spec fn view(&self) -> RepairActionView {
        match self {
            RepairAction::Idle => RepairActionView::Idle,
            RepairAction::Check => RepairActionView::Check,
            RepairAction::Ask { prompt, max_tokens, done, total } => RepairActionView::Ask {
                prompt: prompt@,
                max_tokens: *max_tokens as int,
                done: *done as int,
                total: *total as int,
            },
            RepairAction::Finished { total } => RepairActionView::Finished {
                total: *total as int,
            },
        }
    }
}

/// What came of a question.
#[derive(Debug)]
pub enum Outcome {
    /// The query failed.
    Failed,
    /// The reply holds no text.
    Unreadable,
    /// The reply offers this text.
    Offer(String),
}

/// The contents of an outcome.
pub enum OutcomeView {
    Failed,
    Unreadable,
    Offer(Seq<char>),
}

impl View for Outcome {
    type V = OutcomeView;

    open spec fn view(&self) -> OutcomeView {
        match self {
            Outcome::Failed => OutcomeView::Failed,
            Outcome::Unreadable => OutcomeView::Unreadable,
            Outcome::Offer(s) => OutcomeView::Offer(s@),
        }
    }
}

/// What a reply comes to.
pub open spec fn outcome_of(reply: Option<Seq<char>>) -> OutcomeView {
    match reply {
        None => OutcomeView::Failed,
        Some(reply) => match transcript_repair::reply_text(reply) {
            None => OutcomeView::Unreadable,
            Some(t) => OutcomeView::Offer(t),
        },
    }
}

/// One repair of a list of turns.
#[derive(Debug)]
pub struct RepairSession {
    turns: Vec<SpeakerTurn>,
    /// The sentences of each turn, as repaired so far.
    sentences: Vec<Vec<String>>,
    /// The places to ask about.
    queue: Vec<(usize, usize)>,
    done: usize,
    consecutive_failures: usize,
    /// The turns with a repaired sentence.
    changed: Vec<usize>,
    stats: RepairStats,
    phase: RepairPhase,
}

/// The contents of a session.
pub struct RepairView {
    pub turns: Seq<TurnView>,
    pub sentences: Seq<Seq<Seq<char>>>,
    pub queue: Seq<(int, int)>,
    pub done: int,
    pub consecutive_failures: usize,
    pub changed: Seq<int>,
    pub stats: RepairStats,
    pub phase: RepairPhase,
}

/// The contents of a table of texts.
pub open spec fn text_table(v: Seq<Vec<String>>) -> Seq<Seq<Seq<char>>> {
    Seq::new(v.len(), |t: int| text::views(v[t]@))
}

/// The texts of a table of sentences.
pub open spec fn sentence_texts(table: Seq<Seq<SentenceView>>) -> Seq<Seq<Seq<char>>> {
    Seq::new(table.len(), |t: int| Seq::new(table[t].len(), |s: int| table[t][s].text))
}

/// Indices as integers.
pub open spec fn int_indices(v: Seq<usize>) -> Seq<int> {
    Seq::new(v.len(), |i: int| v[i] as int)
}

impl View for RepairSession {
    type V = RepairView;

    closed spec fn view(&self) -> RepairView {
        RepairView {
            turns: diarization::turn_views(self.turns@),
            sentences: text_table(self.sentences@),
            queue: boundary_refine::int_pairs(self.queue@),
            done: self.done as int,
            consecutive_failures: self.consecutive_failures,
            changed: int_indices(self.changed@),
            stats: self.stats,
            phase: self.phase,
        }
    }
}

/// One more, as the counters count.
pub open spec fn inc(n: usize) -> usize {
    (n + 1) as usize
}

/// The sentence before place `(t, s)`; empty at the beginning of a turn behind
/// one without sentences.
pub open spec fn text_before(sentences: Seq<Seq<Seq<char>>>, t: int, s: int) -> Seq<char> {
    if s > 0 {
        sentences[t][s - 1]
    } else if t > 0 && sentences[t - 1].len() > 0 {
        sentences[t - 1].last()
    } else {
        Seq::empty()
    }
}

/// The sentence after place `(t, s)`; empty at the end of a turn before one
/// without sentences.
pub open spec fn text_after(sentences: Seq<Seq<Seq<char>>>, t: int, s: int) -> Seq<char> {
    if s + 1 < sentences[t].len() {
        sentences[t][s + 1]
    } else if t + 1 < sentences.len() && sentences[t + 1].len() > 0 {
        sentences[t + 1][0]
    } else {
        Seq::empty()
    }
}

/// A question shows the sentences next to the one that is asked about: the one
/// before it, in the same turn or at the end of the turn before, and the one
/// after it, in the same turn or at the beginning of the next.
pub proof fn law_neighbours(sentences: Seq<Seq<Seq<char>>>, t: int, s: int)
    requires
        0 <= t < sentences.len(),
        0 <= s < sentences[t].len(),
    ensures
        s > 0 ==> text_before(sentences, t, s) == sentences[t][s - 1],
        s == 0 && t > 0 && sentences[t - 1].len() > 0 ==> text_before(sentences, t, s)
            == sentences[t - 1][sentences[t - 1].len() - 1],
        s == 0 && (t == 0 || sentences[t - 1].len() == 0) ==> text_before(sentences, t, s).len()
            == 0,
        s + 1 < sentences[t].len() ==> text_after(sentences, t, s) == sentences[t][s + 1],
        s + 1 == sentences[t].len() && t + 1 < sentences.len() && sentences[t + 1].len() > 0
            ==> text_after(sentences, t, s) == sentences[t + 1][0],
        s + 1 == sentences[t].len() && (t + 1 == sentences.len() || sentences[t + 1].len() == 0)
            ==> text_after(sentences, t, s).len() == 0,
{
}

/// A reply is a failure when there is none, an offer when it holds a text, and
/// unreadable otherwise.
pub proof fn law_outcomes(reply: Seq<char>)
    ensures
        outcome_of(None) == OutcomeView::Failed,
        transcript_repair::reply_text(reply) is None ==> outcome_of(Some(reply))
            == OutcomeView::Unreadable,
        transcript_repair::reply_text(reply) is Some ==> outcome_of(Some(reply))
            == OutcomeView::Offer(transcript_repair::reply_text(reply)->0),
{
}

/// The turns with the repaired sentences put in.
pub open spec fn patched(
    turns: Seq<TurnView>,
    sentences: Seq<Seq<Seq<char>>>,
    changed: Seq<int>,
) -> Seq<TurnView> {
    Seq::new(
        turns.len(),
        |t: int|
            if changed.contains(t) {
                TurnView { text: text::join(sentences[t], " "@), ..turns[t] }
            } else {
                turns[t]
            },
    )
}

impl RepairView {
    /// The first step.
    pub open spec fn begun(turns: Seq<TurnView>) -> (RepairView, RepairActionView) {
        let table = all_sentences(turns);
        let s = RepairView {
            turns,
            sentences: sentence_texts(table),
            queue: queue_of(table),
            done: 0,
            consecutive_failures: 0,
            changed: Seq::empty(),
            stats: RepairStats {
                flagged: flags_of(table).len() as usize,
                ..transcript_repair::no_stats()
            },
            phase: RepairPhase::Check,
        };
        if flags_of(table).len() == 0 {
            (RepairView { phase: RepairPhase::Over, ..s }, RepairActionView::Idle)
        } else {
            (s, RepairActionView::Check)
        }
    }

    /// The place that is asked about.
    pub open spec fn place(self) -> (int, int) {
        self.queue[self.done]
    }

    /// The sentence that is asked about.
    pub open spec fn sentence(self) -> Seq<char> {
        self.sentences[self.place().0][self.place().1]
    }

    /// Put the repaired sentences into the turns and stop.
    pub open spec fn finish(self) -> (RepairView, RepairActionView) {
        (
            RepairView {
                turns: patched(self.turns, self.sentences, self.changed),
                phase: RepairPhase::Over,
                ..self
            },
            RepairActionView::Finished { total: self.queue.len() as int },
        )
    }

    /// The driver found out whether to stop: the user cancelled, or the time is
    /// up.
    pub open spec fn checked(self, stop: bool) -> (RepairView, RepairActionView) {
        if stop || self.consecutive_failures >= MAX_CONSECUTIVE_FAILURES {
            self.finish()
        } else {
            let (t, s) = self.place();
            (
                RepairView {
                    stats: RepairStats { queried: inc(self.stats.queried), ..self.stats },
                    phase: RepairPhase::Asked,
                    ..self
                },
                RepairActionView::Ask {
                    prompt: transcript_repair::repair_question(
                        text_before(self.sentences, t, s),
                        self.sentence(),
                        text_after(self.sentences, t, s),
                    ),
                    max_tokens: transcript_repair::reply_tokens(
                        text::split_ws(self.sentence()).len(),
                    ) as int,
                    done: self.done,
                    total: self.queue.len() as int,
                },
            )
        }
    }

    /// The session with the outcome of the open question taken in.
    pub open spec fn taken(self, outcome: OutcomeView) -> RepairView {
        let failed = RepairStats { failures: inc(self.stats.failures), ..self.stats };
        match outcome {
            OutcomeView::Failed => RepairView {
                stats: failed,
                consecutive_failures: inc(self.consecutive_failures),
                ..self
            },
            OutcomeView::Unreadable => RepairView {
                stats: failed,
                consecutive_failures: 0,
                ..self
            },
            OutcomeView::Offer(fixed) => {
                let (t, s) = self.place();
                let answered = RepairView { consecutive_failures: 0, ..self };
                if transcript_repair::acceptable(self.sentence(), fixed) {
                    RepairView {
                        sentences: self.sentences.update(t, self.sentences[t].update(s, fixed)),
                        changed: self.changed.push(t),
                        stats: RepairStats { repaired: inc(self.stats.repaired), ..self.stats },
                        ..answered
                    }
                } else {
                    answered
                }
            },
        }
    }

    /// The outcome of the open question is known.
    pub open spec fn settled(self, outcome: OutcomeView) -> (RepairView, RepairActionView) {
        let s = RepairView { done: self.done + 1, ..self.taken(outcome) };
        if s.done < s.queue.len() {
            (RepairView { phase: RepairPhase::Check, ..s }, RepairActionView::Check)
        } else {
            s.finish()
        }
    }

    /// What holds of a session at any time.
    pub open spec fn wf(self) -> bool {
        let open_query: int = if self.phase == RepairPhase::Asked {
            1
        } else {
            0
        };
        &&& self.queue.len() == if self.stats.flagged < MAX_REPAIRS {
            self.stats.flagged
        } else {
            MAX_REPAIRS
        }
        &&& self.changed.len() == self.stats.repaired
        &&& 0 <= self.done <= self.queue.len()
        &&& self.phase != RepairPhase::Over ==> self.done < self.queue.len()
        &&& self.stats.queried == self.done + open_query
        &&& self.stats.repaired + self.stats.failures <= self.done
        &&& self.consecutive_failures <= MAX_CONSECUTIVE_FAILURES
        &&& self.phase == RepairPhase::Asked ==> self.consecutive_failures
            < MAX_CONSECUTIVE_FAILURES
        &&& self.sentences.len() == self.turns.len()
        &&& in_order(self.queue)
        &&& forall|i: int|
            0 <= i < self.queue.len() ==> 0 <= (#[trigger] self.queue[i]).0 < self.sentences.len()
                && 0 <= self.queue[i].1 < self.sentences[self.queue[i].0].len()
        &&& forall|i: int|
            0 <= i < self.changed.len() ==> 0 <= #[trigger] self.changed[i] < self.turns.len()
    }

    /// How many steps a session can still take at most.
    pub open spec fn steps_left(self) -> int {
        let places = self.queue.len() - self.done;
        match self.phase {
            RepairPhase::Check => 2 * places,
            RepairPhase::Asked => 2 * places - 1,
            RepairPhase::Over => 0,
        }
    }

    /// A repair ends: every step leaves fewer steps, and none are left only when
    /// it is over.
    pub proof fn law_repair_ends(self, stop: bool, outcome: OutcomeView)
        requires
            self.wf(),
        ensures
            self.steps_left() >= 0,
            self.steps_left() == 0 <==> self.phase == RepairPhase::Over,
            self.phase == RepairPhase::Check ==> self.checked(stop).0.steps_left()
                < self.steps_left(),
            self.phase == RepairPhase::Asked ==> self.settled(outcome).0.steps_left()
                < self.steps_left(),
    {
    }

    /// Everything but the text of turns is as before.
    pub open spec fn same_speech(self, other: RepairView) -> bool {
        &&& self.turns.len() == other.turns.len()
        &&& forall|t: int|
            0 <= t < self.turns.len() ==> {
                let (a, b) = (#[trigger] self.turns[t], other.turns[t]);
                b == TurnView { text: b.text, ..a }
            }
    }

    /// Every sentence is the original one or an acceptable patch of it, and
    /// those still to be asked about are the original ones.
    pub open spec fn close_to(self, original: Seq<Seq<Seq<char>>>) -> bool {
        &&& self.sentences.len() == original.len()
        &&& forall|t: int|
            0 <= t < original.len() ==> (#[trigger] self.sentences[t]).len() == original[t].len()
        &&& forall|t: int, s: int|
            0 <= t < original.len() && 0 <= s < original[t].len() ==> {
                let now = #[trigger] self.sentences[t][s];
                now == original[t][s] || transcript_repair::acceptable(original[t][s], now)
            }
        &&& self.phase != RepairPhase::Over ==> forall|i: int|
            self.done <= i < self.queue.len() ==> {
                let (t, s) = #[trigger] self.queue[i];
                self.sentences[t][s] == original[t][s]
            }
    }

    /// A new session is well-formed, holds the given turns and their original
    /// sentences, and has something to ask whenever a sentence is flagged.
    pub proof fn law_begun(turns: Seq<TurnView>)
        requires
            flags_of(all_sentences(turns)).len() <= usize::MAX,
        ensures
            RepairView::begun(turns).0.wf(),
            RepairView::begun(turns).0.turns == turns,
            RepairView::begun(turns).0.close_to(sentence_texts(all_sentences(turns))),
    {
        law_queue(all_sentences(turns));
        let table = all_sentences(turns);
        let s = RepairView::begun(turns).0;
        assert forall|i: int| 0 <= i < s.queue.len() implies 0 <= (#[trigger] s.queue[i]).0
            < s.sentences.len() && 0 <= s.queue[i].1 < s.sentences[s.queue[i].0].len() by {
            let f = queue_of(table)[i];
            assert(s.sentences[f.0].len() == table[f.0].len());
        }
    }

    /// A repair begins with all that is flagged still to be asked about, and is
    /// idle exactly when no sentence is flagged.
    pub proof fn law_begins_with_the_flags(turns: Seq<TurnView>, t: int, s: int)
        requires
            flags_of(all_sentences(turns)).len() <= usize::MAX,
        ensures
            ({
                let (now, action) = RepairView::begun(turns);
                let table = all_sentences(turns);
                &&& now.turns == turns
                &&& now.done == 0
                &&& now.changed.len() == 0
                &&& now.stats.flagged == flags_of(table).len()
                &&& now.stats.queried == 0 && now.stats.repaired == 0 && now.stats.failures == 0
                &&& action == RepairActionView::Idle <==> flags_of(table).len() == 0
                &&& action == RepairActionView::Check <==> flags_of(table).len() > 0
                &&& flags_of(table).len() <= 15 && flags_of(table).contains((t, s))
                    ==> now.queue.contains((t, s))
                &&& now.queue.contains((t, s)) ==> flags_of(table).contains((t, s))
                &&& now.sentences.len() == turns.len()
                &&& 0 <= t < turns.len() && 0 <= s < table[t].len() ==> now.sentences[t].len()
                    == table[t].len() && now.sentences[t][s] == table[t][s].text
            }),
    {
        let table = all_sentences(turns);
        law_queue(table);
        if queue_of(table).contains((t, s)) {
            let i = choose|i: int| 0 <= i < queue_of(table).len() && queue_of(table)[i] == (t, s);
            lemma_flags_upto_all(table, table.len() as int, t, s);
        }
    }

    /// Going on asks about the next sentence of the queue, between its
    /// neighbours, and counts one question. Stopping, or two failures in a row,
    /// ends the repair without a question.
    pub proof fn law_asks_in_turn(self, stop: bool)
        requires
            self.wf(),
            self.phase == RepairPhase::Check,
        ensures
            ({
                let (now, action) = self.checked(stop);
                let (t, s) = self.queue[self.done];
                &&& stop || self.consecutive_failures >= 2 ==> now.phase == RepairPhase::Over
                    && action == (RepairActionView::Finished { total: self.queue.len() as int })
                    && now.stats == self.stats
                &&& !stop && self.consecutive_failures < 2 ==> {
                    &&& now.phase == RepairPhase::Asked
                    &&& now.stats.queried == self.stats.queried + 1
                    &&& now.stats.repaired == self.stats.repaired
                    &&& now.stats.failures == self.stats.failures
                    &&& now.turns == self.turns
                    &&& now.queue == self.queue
                    &&& now.done == self.done
                    &&& now.changed == self.changed
                    &&& action matches RepairActionView::Ask { prompt, max_tokens, done, total } && prompt
                        == transcript_repair::repair_question(
                        text_before(self.sentences, t, s),
                        self.sentences[t][s],
                        text_after(self.sentences, t, s),
                    ) && max_tokens == transcript_repair::reply_tokens(
                        text::split_ws(self.sentences[t][s]).len(),
                    ) && done == self.done && total == self.queue.len()
                }
                &&& now.sentences == self.sentences
            }),
    {
    }

    /// An acceptable offer takes the place of the sentence that was asked about
    /// and of no other one; any other outcome leaves all sentences as they are.
    /// Each outcome counts as what it is.
    pub proof fn law_outcome_counts(self, outcome: OutcomeView, t: int, s: int)
        requires
            self.wf(),
            self.phase == RepairPhase::Asked,
            0 <= t < self.sentences.len(),
            0 <= s < self.sentences[t].len(),
        ensures
            ({
                let now = self.settled(outcome).0;
                let (at, place) = self.queue[self.done];
                let asked = self.sentences[at][place];
                let taken = outcome matches OutcomeView::Offer(fixed)
                    && transcript_repair::acceptable(asked, fixed);
                &&& now.done == self.done + 1
                &&& now.stats.queried == self.stats.queried
                &&& now.stats.flagged == self.stats.flagged
                &&& now.queue == self.queue
                &&& taken ==> now.sentences[at][place] == outcome->Offer_0 && now.stats.repaired
                    == self.stats.repaired + 1 && now.stats.failures == self.stats.failures
                    && now.changed.contains(at) && now.consecutive_failures == 0
                &&& !taken ==> now.sentences[at][place] == asked && now.stats.repaired
                    == self.stats.repaired && now.changed == self.changed
                &&& (t, s) != (at, place) ==> now.sentences[t][s] == self.sentences[t][s]
                &&& outcome is Offer ==> now.stats.failures == self.stats.failures
                    && now.consecutive_failures == 0
                &&& outcome is Unreadable ==> now.stats.failures == self.stats.failures + 1
                    && now.consecutive_failures == 0
                &&& outcome is Failed ==> now.stats.failures == self.stats.failures + 1
                    && now.consecutive_failures == self.consecutive_failures + 1
                &&& now.phase == RepairPhase::Over <==> self.done + 1 == self.queue.len()
                &&& now.phase == RepairPhase::Check <==> self.done + 1 < self.queue.len()
            }),
    {
        let (at, place) = self.queue[self.done];
        let now = self.taken(outcome);
        if outcome is Offer && transcript_repair::acceptable(
            self.sentences[at][place],
            outcome->Offer_0,
        ) {
            assert(now.changed[self.changed.len() as int] == at);
        }
    }

    /// A finished repair shows its sentences: the text of a turn with a repaired
    /// sentence is its sentences, one after the other, and all else stays.
    pub proof fn law_finish_shows_the_repairs(self, t: int)
        requires
            self.wf(),
            0 <= t < self.turns.len(),
        ensures
            self.finish().0.turns.len() == self.turns.len(),
            self.changed.contains(t) ==> self.finish().0.turns[t].text == text::join(
                self.sentences[t],
                " "@,
            ),
            !self.changed.contains(t) ==> self.finish().0.turns[t] == self.turns[t],
            self.finish().0.turns[t].words == self.turns[t].words,
            self.finish().0.sentences == self.sentences,
            self.finish().0.stats == self.stats,
            self.finish().1 == (RepairActionView::Finished { total: self.queue.len() as int }),
    {
    }

    /// A check keeps the session well-formed, alters nothing but texts of
    /// turns, and rewrites no sentence.
    pub proof fn law_checked(self, stop: bool, original: Seq<Seq<Seq<char>>>)
        requires
            self.wf(),
            self.phase == RepairPhase::Check,
        ensures
            self.checked(stop).0.wf(),
            self.same_speech(self.checked(stop).0),
            self.close_to(original) ==> self.checked(stop).0.close_to(original),
    {
    }

    /// Whatever the model offers, each sentence stays within two word edits of
    /// the original one, and no word, timing or speaker changes.
    pub proof fn law_settled(self, outcome: OutcomeView, original: Seq<Seq<Seq<char>>>)
        requires
            self.wf(),
            self.phase == RepairPhase::Asked,
        ensures
            self.settled(outcome).0.wf(),
            self.same_speech(self.settled(outcome).0),
            self.close_to(original) ==> self.settled(outcome).0.close_to(original),
    {
        let (t0, s0) = self.place();
        let next = self.settled(outcome).0;
        assert(self.queue[self.done] == (t0, s0));
        let sent = self.taken(outcome).sentences;
        assert(sent.len() == self.sentences.len());
        assert forall|t: int| 0 <= t < sent.len() implies (#[trigger] sent[t]).len()
            == self.sentences[t].len() by {}
        assert forall|i: int| 0 <= i < next.queue.len() implies 0 <= (#[trigger] next.queue[i]).0
            < next.sentences.len() && 0 <= next.queue[i].1 < next.sentences[next.queue[i].0].len() by {
            assert(next.queue[i] == self.queue[i]);
            assert(sent[self.queue[i].0].len() == self.sentences[self.queue[i].0].len());
        }
        if self.close_to(original) {
            assert forall|t: int, s: int|
                0 <= t < original.len() && 0 <= s < original[t].len() implies {
                let now = #[trigger] next.sentences[t][s];
                now == original[t][s] || transcript_repair::acceptable(original[t][s], now)
            } by {
                let was = self.sentences[t][s];
                if t == t0 && s == s0 {
                    assert(self.sentences[t0][s0] == original[t0][s0]);
                }
            }
            assert forall|i: int| next.done <= i < next.queue.len() implies {
                let (t, s) = #[trigger] next.queue[i];
                next.sentences[t][s] == original[t][s]
            } by {
                let (t, s) = self.queue[i];
                assert(earlier(self.queue[self.done], self.queue[i]));
            }
        }
    }
}

// ---------------------------------------------------------------------
// Driving the session

/// The sentences of all turns.
fn split_turns(turns: &Vec<SpeakerTurn>) -> (r: Vec<Vec<Sentence>>)
    ensures
        sentence_table(r@) == all_sentences(diarization::turn_views(turns@)),
        forall|t: int, s: int|
            0 <= t < r@.len() && 0 <= s < r@[t]@.len() ==> (#[trigger] r@[t]@[s]).sum_ppb
                <= r@[t]@[s].word_count * u32::MAX,
{
    let mut out: Vec<Vec<Sentence>> = Vec::new();
    let mut t: usize = 0;
    while t < turns.len()
        invariant
            t <= turns@.len(),
            out@.len() == t,
            forall|k: int|
                0 <= k < t ==> transcript_repair::sentence_views((#[trigger] out@[k])@)
                    == transcript_repair::turn_sentences(turns@[k].words@),
            forall|k: int, s: int|
                0 <= k < t && 0 <= s < out@[k]@.len() ==> (#[trigger] out@[k]@[s]).sum_ppb
                    <= out@[k]@[s].word_count * u32::MAX,
        decreases turns@.len() - t,
    {
        let sentences = sentences_of(&turns[t]);
        let ghost held = out@;
        out.push(sentences);
        assert forall|k: int, s: int| 0 <= k < t + 1 && 0 <= s < out@[k]@.len() implies (
        #[trigger] out@[k]@[s]).sum_ppb <= out@[k]@[s].word_count * u32::MAX by {
            if k < t {
                assert(out@[k] == held[k]);
            } else {
                assert(out@[k] == sentences);
            }
        }
        t += 1;
    }
    assert(sentence_table(out@) =~= all_sentences(diarization::turn_views(turns@)));
    out
}

/// The texts of one turn's sentences.
fn texts_of(sentences: &Vec<Sentence>) -> (r: Vec<String>)
    ensures
        r@.len() == sentences@.len(),
        forall|s: int| 0 <= s < r@.len() ==> (#[trigger] r@[s])@ == sentences@[s].text@,
{
    let mut out: Vec<String> = Vec::new();
    let mut s: usize = 0;
    while s < sentences.len()
        invariant
            s <= sentences@.len(),
            out@.len() == s,
            forall|k: int| 0 <= k < s ==> (#[trigger] out@[k])@ == sentences@[k].text@,
        decreases sentences@.len() - s,
    {
        out.push(sentences[s].text.clone());
        s += 1;
    }
    out
}

/// The texts of all turns' sentences.
fn table_texts(table: &Vec<Vec<Sentence>>) -> (r: Vec<Vec<String>>)
    ensures
        text_table(r@) == sentence_texts(sentence_table(table@)),
{
    let mut out: Vec<Vec<String>> = Vec::new();
    let mut t: usize = 0;
    let ghost all = sentence_texts(sentence_table(table@));
    while t < table.len()
        invariant
            t <= table@.len(),
            out@.len() == t,
            all == sentence_texts(sentence_table(table@)),
            forall|k: int| 0 <= k < t ==> text::views((#[trigger] out@[k])@) == all[k],
        decreases table@.len() - t,
    {
        let texts = texts_of(&table[t]);
        assert(text::views(texts@) =~= all[t as int]);
        out.push(texts);
        t += 1;
    }
    assert(text_table(out@) =~= all);
    out
}

impl RepairSession {
    /// Begin to repair `turns`.
    pub fn start(turns: Vec<SpeakerTurn>) -> (r: (RepairSession, RepairAction))
        ensures
            (r.0@, r.1@) == RepairView::begun(diarization::turn_views(turns@)),
            r.0@.wf(),
    {
        let ghost v = diarization::turn_views(turns@);
        let table = split_turns(&turns);
        let flags = find_flags(&table);
        let queue = pick_worst(&table, &flags);
        let sentences = table_texts(&table);
        let mut stats = RepairStats::default();
        stats.flagged = flags.len();
        assert(places(flags@).len() == flags@.len());
        let mut s = RepairSession {
            turns,
            sentences,
            queue,
            done: 0,
            consecutive_failures: 0,
            changed: Vec::new(),
            stats,
            phase: RepairPhase::Check,
        };
        proof {
            assert(int_indices(s.changed@) =~= Seq::<int>::empty());
            RepairView::law_begun(v);
        }
        if flags.len() == 0 {
            s.phase = RepairPhase::Over;
            return (s, RepairAction::Idle);
        }
        (s, RepairAction::Check)
    }

    /// Put the repaired sentences into the turns and stop.
    fn finish(&mut self) -> (r: RepairAction)
        requires
            old(self)@.sentences.len() == old(self)@.turns.len(),
            forall|i: int|
                0 <= i < old(self)@.changed.len() ==> 0 <= #[trigger] old(self)@.changed[i]
                    < old(self)@.turns.len(),
        ensures
            (final(self)@, r@) == old(self)@.finish(),
    {
        let ghost before = self@;
        let mut i: usize = 0;
        assert(diarization::turn_views(self.turns@) =~= patched(
            before.turns,
            before.sentences,
            before.changed.take(0),
        ));
        while i < self.changed.len()
            invariant
                i <= self.changed@.len(),
                before.sentences == text_table(self.sentences@),
                before.changed == int_indices(self.changed@),
                before.queue == boundary_refine::int_pairs(self.queue@),
                before.done == self.done,
                before.consecutive_failures == self.consecutive_failures,
                before.stats == self.stats,
                before.phase == self.phase,
                before.sentences.len() == before.turns.len(),
                forall|i: int|
                    0 <= i < before.changed.len() ==> 0 <= #[trigger] before.changed[i]
                        < before.turns.len(),
                diarization::turn_views(self.turns@) == patched(
                    before.turns,
                    before.sentences,
                    before.changed.take(i as int),
                ),
            decreases self.changed@.len() - i,
        {
            let t: usize = self.changed[i];
            let ghost held = diarization::turn_views(self.turns@);
            let ghost some = before.changed.take(i as int);
            let ghost more = before.changed.take(i + 1);
            proof {
                assert(before.changed[i as int] == t);
                assert(held.len() == before.turns.len());
                assert(self.turns@.len() == held.len());
                assert(self.sentences@.len() == before.sentences.len());
                assert(before.sentences[t as int] == text::views(self.sentences@[t as int]@));
            }
            let full = join_words(&self.sentences[t], " ");
            let mut turn = self.turns.remove(t);
            turn.text = full;
            self.turns.insert(t, turn);
            proof {
                let now = diarization::turn_views(self.turns@);
                let want = patched(before.turns, before.sentences, more);
                assert(more =~= some.push(t as int));
                assert forall|k: int| 0 <= k < now.len() implies now[k] == want[k] by {
                    if k == t {
                        assert(more[i as int] == t);
                        assert(more.contains(k));
                        assert(held[k] == patched(before.turns, before.sentences, some)[k]);
                    } else {
                        assert(held[k] == now[k]);
                        if more.contains(k) {
                            let j = choose|j: int| 0 <= j < more.len() && more[j] == k;
                            assert(some[j] == k);
                            assert(some.contains(k));
                        }
                        if some.contains(k) {
                            let j = choose|j: int| 0 <= j < some.len() && some[j] == k;
                            assert(more[j] == k);
                            assert(more.contains(k));
                        }
                    }
                }
                assert(now =~= want);
            }
            i += 1;
        }
        assert(before.changed.take(i as int) =~= before.changed);
        self.phase = RepairPhase::Over;
        let total: usize = self.queue.len();
        assert(boundary_refine::int_pairs(self.queue@).len() == total);
        RepairAction::Finished { total }
    }

    /// The sentence before place `(t, s)`.
    fn before(&self, t: usize, s: usize) -> (r: String)
        requires
            t < self.sentences@.len(),
            s < self.sentences@[t as int]@.len(),
        ensures
            r@ == text_before(self@.sentences, t as int, s as int),
    {
        if s > 0 {
            return self.sentences[t][s - 1].clone();
        }
        if t > 0 {
            let n: usize = self.sentences[t - 1].len();
            if n > 0 {
                return self.sentences[t - 1][n - 1].clone();
            }
        }
        let r = String::new();
        assert(r@ =~= Seq::<char>::empty());
        r
    }

    /// The sentence after place `(t, s)`.
    fn after(&self, t: usize, s: usize) -> (r: String)
        requires
            t < self.sentences@.len(),
            s < self.sentences@[t as int]@.len(),
        ensures
            r@ == text_after(self@.sentences, t as int, s as int),
    {
        let n: usize = self.sentences[t].len();
        if s < n - 1 {
            return self.sentences[t][s + 1].clone();
        }
        let m: usize = self.sentences.len();
        if t < m - 1 && self.sentences[t + 1].len() > 0 {
            return self.sentences[t + 1][0].clone();
        }
        let r = String::new();
        assert(r@ =~= Seq::<char>::empty());
        r
    }

    /// Whether to stop: the user cancelled, or the time is up.
    pub fn checked(&mut self, stop: bool) -> (r: RepairAction)
        requires
            old(self)@.wf(),
            old(self)@.phase == RepairPhase::Check,
        ensures
            (final(self)@, r@) == old(self)@.checked(stop),
            final(self)@.wf(),
            old(self)@.same_speech(final(self)@),
    {
        let ghost v = self@;
        proof {
            v.law_checked(stop, v.sentences);
        }
        if stop || self.consecutive_failures >= MAX_CONSECUTIVE_FAILURES {
            return self.finish();
        }
        let (t, s) = self.queue[self.done];
        proof {
            assert(v.queue[v.done] == (t as int, s as int));
            assert(v.sentences[t as int] == text::views(self.sentences@[t as int]@));
        }
        let before = self.before(t, s);
        let after = self.after(t, s);
        let prompt = build_prompt(before.as_str(), self.sentences[t][s].as_str(), after.as_str());
        let words = split_whitespace(self.sentences[t][s].as_str());
        assert(text::views(words@).len() == words@.len());
        let max_tokens: i32 = max_reply_tokens(words.len());
        let total: usize = self.queue.len();
        self.stats.queried = self.stats.queried + 1;
        self.phase = RepairPhase::Asked;
        RepairAction::Ask { prompt, max_tokens, done: self.done, total }
    }

    /// The outcome of the open question is known.
    pub fn settled(&mut self, outcome: Outcome) -> (r: RepairAction)
        requires
            old(self)@.wf(),
            old(self)@.phase == RepairPhase::Asked,
        ensures
            (final(self)@, r@) == old(self)@.settled(outcome@),
            final(self)@.wf(),
            old(self)@.same_speech(final(self)@),
    {
        let ghost v = self@;
        proof {
            v.law_settled(outcome@, v.sentences);
        }
        let (t, s) = self.queue[self.done];
        proof {
            assert(v.queue[v.done] == (t as int, s as int));
            assert(v.sentences[t as int] == text::views(self.sentences@[t as int]@));
        }
        match outcome {
            Outcome::Failed => {
                self.stats.failures = self.stats.failures + 1;
                self.consecutive_failures = self.consecutive_failures + 1;
            },
            Outcome::Unreadable => {
                self.stats.failures = self.stats.failures + 1;
                self.consecutive_failures = 0;
            },
            Outcome::Offer(fixed) => {
                self.consecutive_failures = 0;
                if accept_repair(self.sentences[t][s].as_str(), fixed.as_str()) {
                    let ghost text = fixed@;
                    let ghost row_before = self.sentences@[t as int]@;
                    let mut row = self.sentences.remove(t);
                    row.set(s, fixed);
                    let ghost row_now = row@;
                    self.sentences.insert(t, row);
                    let ghost changed = self.changed@;
                    self.changed.push(t);
                    self.stats.repaired = self.stats.repaired + 1;
                    proof {
                        assert(text::views(row_now) =~= text::views(row_before).update(
                            s as int,
                            text,
                        ));
                        assert(text_table(self.sentences@) =~= v.sentences.update(
                            t as int,
                            v.sentences[t as int].update(s as int, text),
                        ));
                        assert(int_indices(self.changed@) =~= int_indices(changed).push(t as int));
                    }
                }
            },
        }
        self.done = self.done + 1;
        assert(boundary_refine::int_pairs(self.queue@).len() == self.queue@.len());
        if self.done < self.queue.len() {
            self.phase = RepairPhase::Check;
            RepairAction::Check
        } else {
            let action = self.finish();
            action
        }
    }

    /// The model's reply to the open question, or nothing when the query
    /// failed.
    pub fn replied(&mut self, reply: Option<String>) -> (r: RepairAction)
        requires
            old(self)@.wf(),
            old(self)@.phase == RepairPhase::Asked,
        ensures
            (final(self)@, r@) == old(self)@.settled(outcome_of(text::opt(reply))),
            final(self)@.wf(),
            old(self)@.same_speech(final(self)@),
    {
        let outcome = match reply {
            None => Outcome::Failed,
            Some(reply) => match parse_text_reply(reply.as_str()) {
                None => Outcome::Unreadable,
                Some(fixed) => Outcome::Offer(fixed),
            },
        };
        self.settled(outcome)
    }

    /// What the session did so far.
    pub fn stats(&self) -> (r: RepairStats)
        ensures
            r == self@.stats,
    {
        self.stats
    }

    /// Give the turns back.
    pub fn into_turns(self) -> (r: Vec<SpeakerTurn>)
        ensures
            diarization::turn_views(r@) == self@.turns,
    {
        self.turns
    }
}

/// The tables of sentences and of texts hold those of each turn, in order.
pub proof fn law_tables(v: Seq<Vec<Sentence>>, w: Seq<Vec<String>>, t: int, i: int, j: int)
    requires
        0 <= t < v.len() == w.len(),
        0 <= i < v[t]@.len(),
        0 <= j < w[t]@.len(),
    ensures
        sentence_table(v).len() == v.len(),
        sentence_table(v)[t].len() == v[t]@.len(),
        sentence_table(v)[t][i].text == v[t]@[i].text@,
        sentence_table(v)[t][i].min_ppb == v[t]@[i].min_ppb,
        sentence_table(v)[t][i].sum_ppb == v[t]@[i].sum_ppb,
        sentence_table(v)[t][i].word_count == v[t]@[i].word_count,
        text_table(w).len() == w.len(),
        text_table(w)[t].len() == w[t]@.len(),
        text_table(w)[t][j] == w[t]@[j]@,
{
}

} // verus!
