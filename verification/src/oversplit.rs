//! Repair of over-split speaker clusters.
//!
//! Clustering routinely shatters one voice into several clusters. Clusters with
//! enough clean speech are majors; the closest pair of majors is merged while it
//! is close enough, and the remaining debris is folded into the majors by voice
//! or by adjacency. Voices are compared outside; this module decides.
use vstd::prelude::*;
use crate::diarization::HelperSegment;
use crate::timeline::Nanos;

verus! {

/// Shorter spans do not vote on a cluster's identity.
pub const CLEAN_MIN_NS: i64 = 1_500_000_000;

/// Longer spans are cropped to this length around their middle.
pub const CLEAN_CAP_NS: i64 = 12_000_000_000;

/// Clean speech that makes a cluster a major one.
pub const MAJOR_MIN_CLEAN_NS: i64 = 10_000_000_000;

/// Shorter debris is not compared by voice.
pub const DEBRIS_MIN_NS: i64 = 250_000_000;

/// Similarity, in billionths, from which debris joins a major by voice.
pub const DEBRIS_VOICE_FLOOR: i64 = 600_000_000;

// ---------------------------------------------------------------------
// Clean spans

/// The length of a segment.
pub open spec fn span(s: HelperSegment) -> int {
    s.end - s.start
}

/// Two segments overlap in time.
pub open spec fn overlapping(a: HelperSegment, b: HelperSegment) -> bool {
    a.start < b.end && b.start < a.end
}

/// Segment `i` is long enough and overlaps no other one.
pub open spec fn clean(segs: Seq<HelperSegment>, i: int) -> bool {
    &&& span(segs[i]) >= CLEAN_MIN_NS
    &&& forall|j: int| 0 <= j < segs.len() && j != i ==> !overlapping(segs[i], #[trigger] segs[j])
}

/// The length of a segment.
fn length(s: &HelperSegment) -> (r: i128)
    ensures
        r == span(*s),
{
    s.end as i128 - s.start as i128
}

/// Whether segment `i` is long enough and overlaps no other one.
fn is_clean(segs: &[HelperSegment], i: usize) -> (r: bool)
    requires
        i < segs@.len(),
    ensures
        r == clean(segs@, i as int),
{
    let a: HelperSegment = segs[i];
    if length(&a) < CLEAN_MIN_NS as i128 {
        return false;
    }
    let mut j: usize = 0;
    while j < segs.len()
        invariant
            i < segs@.len(),
            j <= segs@.len(),
            a == segs@[i as int],
            forall|k: int| 0 <= k < j && k != i ==> !overlapping(a, #[trigger] segs@[k]),
        decreases segs@.len() - j,
    {
        let b: HelperSegment = segs[j];
        if j != i && a.start < b.end && b.start < a.end {
            assert(overlapping(segs@[i as int], segs@[j as int]));
            return false;
        }
        j += 1;
    }
    true
}

/// Which segments may vote on their cluster's identity.
pub fn clean_spans(segs: &[HelperSegment]) -> (r: Vec<bool>)
    ensures
        r@ == Seq::new(segs@.len(), |i: int| clean(segs@, i)),
{
    let mut out: Vec<bool> = Vec::new();
    let mut i: usize = 0;
    while i < segs.len()
        invariant
            i <= segs@.len(),
            out@ == Seq::new(i as nat, |k: int| clean(segs@, k)),
        decreases segs@.len() - i,
    {
        out.push(is_clean(segs, i));
        assert(out@ =~= Seq::new((i + 1) as nat, |k: int| clean(segs@, k)));
        i += 1;
    }
    out
}

/// Which segments vote: the clean ones of which a voice could be had.
pub open spec fn votes_of(segs: Seq<HelperSegment>, embedded: Seq<bool>) -> Seq<bool> {
    Seq::new(segs.len(), |i: int| clean(segs, i) && embedded[i])
}

/// Which segments vote on their cluster's identity. `embedded` tells of which
/// segments a voice could be had.
pub fn votes(segs: &[HelperSegment], embedded: &[bool]) -> (r: Vec<bool>)
    requires
        embedded@.len() == segs@.len(),
    ensures
        r@ == votes_of(segs@, embedded@),
{
    let mut out: Vec<bool> = Vec::new();
    let mut i: usize = 0;
    while i < segs.len()
        invariant
            i <= segs@.len() == embedded@.len(),
            out@ == votes_of(segs@, embedded@).take(i as int),
        decreases segs@.len() - i,
    {
        out.push(embedded[i] && is_clean(segs, i));
        assert(out@ =~= votes_of(segs@, embedded@).take(i + 1));
        i += 1;
    }
    assert(out@ =~= votes_of(segs@, embedded@));
    out
}

/// Only clean spans vote: a segment that votes is long enough and overlaps no
/// other one, and whether a voice could be had of any other segment makes no
/// difference.
pub proof fn law_only_clean_spans_vote(
    segs: Seq<HelperSegment>,
    embedded: Seq<bool>,
    others: Seq<bool>,
)
    requires
        embedded.len() == segs.len(),
        others.len() == segs.len(),
        forall|i: int| 0 <= i < segs.len() && clean(segs, i) ==> #[trigger] embedded[i] == others[i],
    ensures
        forall|i: int, j: int|
            0 <= i < segs.len() && 0 <= j < segs.len() && i != j && votes_of(segs, embedded)[i]
                ==> span(segs[i]) >= CLEAN_MIN_NS && !overlapping(
                #[trigger] segs[i],
                #[trigger] segs[j],
            ),
        votes_of(segs, embedded) == votes_of(segs, others),
        forall|c: int|
            clean_total(segs, votes_of(segs, embedded), c, segs.len() as int) == #[trigger] clean_total(
                segs,
                votes_of(segs, others),
                c,
                segs.len() as int,
            ),
{
    assert forall|i: int| 0 <= i < segs.len() implies votes_of(segs, embedded)[i] == votes_of(
        segs,
        others,
    )[i] by {
        if clean(segs, i) {
            assert(embedded[i] == others[i]);
        }
    }
    assert(votes_of(segs, embedded) =~= votes_of(segs, others));
}

/// The span cropped around its middle.
pub open spec fn cropped(start: int, end: int) -> (int, int) {
    if end - start > CLEAN_CAP_NS {
        let mid = (start + end) / 2;
        (mid - CLEAN_CAP_NS / 2, mid + CLEAN_CAP_NS / 2)
    } else {
        (start, end)
    }
}

/// The sample at an instant, within a recording of so many samples.
pub open spec fn sample_at(t: int, rate: int, len: int) -> int {
    if t <= 0 {
        0
    } else if t * rate / 1_000_000_000 < len {
        t * rate / 1_000_000_000
    } else {
        len
    }
}

/// The sample at an instant, within a recording of so many samples.
fn sample_index(t: i128, rate: u32, len: usize) -> (r: usize)
    requires
        t <= 0x1_0000_0000_0000_0000,
    ensures
        r == sample_at(t as int, rate as int, len as int),
{
    if t <= 0 {
        return 0;
    }
    proof {
        assert(t * rate <= 0x1_0000_0000_0000_0000 * 0x1_0000_0000) by (nonlinear_arith)
            requires
                0 <= t <= 0x1_0000_0000_0000_0000,
                0 <= rate <= 0x1_0000_0000,
        ;
        assert(0 <= t * rate) by (nonlinear_arith)
            requires
                0 <= t,
                0 <= rate,
        ;
    }
    let at: u128 = t as u128 * rate as u128 / 1_000_000_000;
    if at < len as u128 {
        at as usize
    } else {
        len
    }
}

/// The samples of a span to take its voice from: at most the cap around its
/// middle.
pub fn span_samples(start: Nanos, end: Nanos, rate: u32, len: usize) -> (r: (usize, usize))
    requires
        start <= end,
    ensures
        r.0 == sample_at(cropped(start as int, end as int).0, rate as int, len as int),
        r.1 == sample_at(cropped(start as int, end as int).1, rate as int, len as int),
        r.0 <= r.1 <= len,
{
    let mut s: i128 = start as i128;
    let mut e: i128 = end as i128;
    if e - s > CLEAN_CAP_NS as i128 {
        let mid: i128 = crate::timeline::midpoint(start, end) as i128;
        s = mid - 6_000_000_000;
        e = mid + 6_000_000_000;
    }
    proof {
        if s > 0 {
            assert(s * rate / 1_000_000_000 <= e * rate / 1_000_000_000) by (nonlinear_arith)
                requires
                    0 < s <= e,
                    0 <= rate,
            ;
        }
        if e > 0 {
            assert(0 <= e * rate / 1_000_000_000) by (nonlinear_arith)
                requires
                    0 < e,
                    0 <= rate,
            ;
        }
    }
    (sample_index(s, rate, len), sample_index(e, rate, len))
}

// ---------------------------------------------------------------------
// Major clusters

/// The clean speech of cluster `c` among the first `n` segments, as far as its
/// voice could be taken.
pub open spec fn clean_total(segs: Seq<HelperSegment>, voiced: Seq<bool>, c: int, n: int) -> int
    decreases n,
{
    if n <= 0 {
        0
    } else {
        clean_total(segs, voiced, c, n - 1) + if voiced[n - 1] && segs[n - 1].speaker == c {
            span(segs[n - 1])
        } else {
            0
        }
    }
}

/// The clean speech of a cluster, as far as its voice could be taken.
pub fn clean_speech(segs: &[HelperSegment], voiced: &[bool], cluster: i32) -> (r: i128)
    requires
        voiced@.len() == segs@.len(),
        segs@.len() <= 0x1000_0000_0000_0000,
    ensures
        r == clean_total(segs@, voiced@, cluster as int, segs@.len() as int),
{
    let mut total: i128 = 0;
    let mut i: usize = 0;
    while i < segs.len()
        invariant
            i <= segs@.len() == voiced@.len(),
            segs@.len() <= 0x1000_0000_0000_0000,
            total == clean_total(segs@, voiced@, cluster as int, i as int),
            -0x1_0000_0000_0000_0000 * i <= total <= 0x1_0000_0000_0000_0000 * i,
        decreases segs@.len() - i,
    {
        if voiced[i] && segs[i].speaker == cluster {
            total = total + length(&segs[i]);
        }
        i += 1;
    }
    total
}

/// The clusters are in ascending order, none occurs twice.
pub open spec fn ascending(v: Seq<i32>) -> bool {
    forall|i: int, j: int| 0 <= i < j < v.len() ==> #[trigger] v[i] < #[trigger] v[j]
}

/// Put `x` into an ascending list, unless it is there.
fn insert_ascending(v: &mut Vec<i32>, x: i32)
    requires
        ascending(old(v)@),
    ensures
        ascending(final(v)@),
        forall|c: i32| #[trigger] final(v)@.contains(c) <==> old(v)@.contains(c) || c == x,
{
    let ghost before = v@;
    let mut i: usize = 0;
    while i < v.len() && v[i] < x
        invariant
            v@ == before,
            i <= before.len(),
            forall|k: int| 0 <= k < i ==> #[trigger] before[k] < x,
        decreases before.len() - i,
    {
        i += 1;
    }
    if i < v.len() && v[i] == x {
        assert(before[i as int] == x);
        return;
    }
    v.insert(i, x);
    proof {
        let now = v@;
        assert forall|a: int, b: int| 0 <= a < b < now.len() implies #[trigger] now[a]
            < #[trigger] now[b] by {
            if a < i && b > i {
                assert(before[a] < before[b - 1]);
            } else if a < i && b < i {
                assert(before[a] < before[b]);
            } else if a == i {
                assert(now[b] == before[b - 1]);
                if b - 1 > i {
                    assert(before[i as int] < before[b - 1]);
                }
            } else if a > i {
                assert(before[a - 1] < before[b - 1]);
            }
        }
        assert forall|c: i32| #[trigger] now.contains(c) <==> before.contains(c) || c == x by {
            if now.contains(c) {
                let k = choose|k: int| 0 <= k < now.len() && now[k] == c;
                if k < i {
                    assert(before[k] == c);
                } else if k > i {
                    assert(before[k - 1] == c);
                }
            }
            if before.contains(c) {
                let k = choose|k: int| 0 <= k < before.len() && before[k] == c;
                if k < i {
                    assert(now[k] == c);
                } else {
                    assert(now[k + 1] == c);
                }
            }
            assert(now[i as int] == x);
        }
    }
}

/// Cluster `c` is a major one: a segment of it votes, its centroid is usable, and it has enough clean speech.
pub open spec fn major(
    segs: Seq<HelperSegment>,
    voiced: Seq<bool>,
    usable: Seq<bool>,
    c: i32,
) -> bool {
    &&& exists|i: int| 0 <= i < segs.len() && voiced[i] && #[trigger] usable[i] && segs[i].speaker == c
    &&& clean_total(segs, voiced, c as int, segs.len() as int) >= MAJOR_MIN_CLEAN_NS
}

/// The major clusters, in ascending order. `voiced` tells which segments vote,
/// `usable` whether the centroid of a segment's cluster is usable.
pub fn major_clusters(segs: &[HelperSegment], voiced: &[bool], usable: &[bool]) -> (r: Vec<i32>)
    requires
        voiced@.len() == segs@.len(),
        usable@.len() == segs@.len(),
        segs@.len() <= 0x1000_0000_0000_0000,
    ensures
        ascending(r@),
        forall|c: i32| #[trigger] r@.contains(c) <==> major(segs@, voiced@, usable@, c),
{
    let mut out: Vec<i32> = Vec::new();
    let mut i: usize = 0;
    while i < segs.len()
        invariant
            i <= segs@.len(),
            voiced@.len() == segs@.len(),
            usable@.len() == segs@.len(),
            segs@.len() <= 0x1000_0000_0000_0000,
            ascending(out@),
            forall|c: i32| #[trigger]
                out@.contains(c) ==> major(segs@, voiced@, usable@, c),
            forall|k: int|
                0 <= k < i && voiced@[k] && usable@[k] && major(
                    segs@,
                    voiced@,
                    usable@,
                    (#[trigger] segs@[k]).speaker,
                ) ==> out@.contains(segs@[k].speaker),
        decreases segs@.len() - i,
    {
        let c: i32 = segs[i].speaker;
        if voiced[i] && usable[i] {
            assert(usable@[i as int]);
            if clean_speech(segs, voiced, c) >= MAJOR_MIN_CLEAN_NS as i128 {
                insert_ascending(&mut out, c);
                assert(out@.contains(c));
            }
        }
        i += 1;
    }
    assert forall|c: i32| major(segs@, voiced@, usable@, c) implies #[trigger] out@.contains(c) by {
        let k = choose|k: int|
            0 <= k < segs@.len() && voiced@[k] && #[trigger] usable@[k] && segs@[k].speaker == c;
        assert(segs@[k].speaker == c);
    }
    out
}

/// The clean speech of each of some clusters.
pub open spec fn weights_of(segs: Seq<HelperSegment>, voiced: Seq<bool>, majors: Seq<i32>) -> Seq<i128> {
    Seq::new(
        majors.len(),
        |i: int| clean_total(segs, voiced, majors[i] as int, segs.len() as int) as i128,
    )
}

/// The clean speech of some clusters among the first `n` segments together.
spec fn clean_sum(segs: Seq<HelperSegment>, voiced: Seq<bool>, majors: Seq<i32>, n: int) -> int
    decreases majors.len(),
{
    if majors.len() == 0 {
        0
    } else {
        clean_sum(segs, voiced, majors.drop_last(), n) + clean_total(
            segs,
            voiced,
            majors.last() as int,
            n,
        )
    }
}

/// One more segment adds its length at most once to the clean speech of
/// different clusters.
proof fn lemma_clean_sum_step(segs: Seq<HelperSegment>, voiced: Seq<bool>, majors: Seq<i32>, n: int)
    requires
        ascending(majors),
        0 < n <= segs.len(),
        voiced.len() == segs.len(),
        voiced[n - 1] ==> span(segs[n - 1]) >= 0,
    ensures
        clean_sum(segs, voiced, majors, n) == clean_sum(segs, voiced, majors, n - 1) + if voiced[n
            - 1] && majors.contains(segs[n - 1].speaker) {
            span(segs[n - 1])
        } else {
            0
        },
    decreases majors.len(),
{
    if majors.len() > 0 {
        let init = majors.drop_last();
        assert(ascending(init)) by {
            assert forall|i: int, j: int| 0 <= i < j < init.len() implies #[trigger] init[i]
                < #[trigger] init[j] by {
                assert(majors[i] < majors[j]);
            }
        }
        lemma_clean_sum_step(segs, voiced, init, n);
        let c = segs[n - 1].speaker;
        if init.contains(c) {
            let k = choose|k: int| 0 <= k < init.len() && init[k] == c;
            assert(majors[k] == c);
            assert(majors[k] < majors[majors.len() - 1]);
        }
        if majors.contains(c) && majors.last() != c {
            let k = choose|k: int| 0 <= k < majors.len() && majors[k] == c;
            assert(init[k] == c);
        }
        if majors.last() == c {
            assert(majors[majors.len() - 1] == c);
        }
    }
}

/// The clean speech of different clusters together fits a machine number, and
/// none of it is negative.
proof fn lemma_clean_fits(segs: Seq<HelperSegment>, voiced: Seq<bool>, majors: Seq<i32>, n: int)
    requires
        ascending(majors),
        0 <= n <= segs.len() <= 0x1000_0000_0000_0000,
        voiced.len() == segs.len(),
        forall|i: int| 0 <= i < segs.len() && voiced[i] ==> span(#[trigger] segs[i]) >= 0,
    ensures
        clean_sum(segs, voiced, majors, n) <= n * 0x1_0000_0000_0000_0000,
        n == segs.len() ==> no_negative(weights_of(segs, voiced, majors)) && sum_of(
            weights_of(segs, voiced, majors),
        ) <= i128::MAX,
    decreases n,
{
    if n > 0 {
        lemma_clean_fits(segs, voiced, majors, n - 1);
        lemma_clean_sum_step(segs, voiced, majors, n);
        assert(span(segs[n - 1]) <= 0x1_0000_0000_0000_0000);
    } else {
        lemma_no_clean(segs, voiced, majors);
    }
    if n == segs.len() {
        lemma_clean_weights(segs, voiced, majors);
    }
}

/// Without segments there is no clean speech.
proof fn lemma_no_clean(segs: Seq<HelperSegment>, voiced: Seq<bool>, majors: Seq<i32>)
    ensures
        clean_sum(segs, voiced, majors, 0) == 0,
    decreases majors.len(),
{
    if majors.len() > 0 {
        lemma_no_clean(segs, voiced, majors.drop_last());
    }
}

/// The clean speech of one cluster is not negative, and limited.
proof fn lemma_clean_total(segs: Seq<HelperSegment>, voiced: Seq<bool>, c: int, n: int)
    requires
        0 <= n <= segs.len(),
        voiced.len() == segs.len(),
        forall|i: int| 0 <= i < segs.len() && voiced[i] ==> span(#[trigger] segs[i]) >= 0,
    ensures
        0 <= clean_total(segs, voiced, c, n) <= n * 0x1_0000_0000_0000_0000,
    decreases n,
{
    if n > 0 {
        lemma_clean_total(segs, voiced, c, n - 1);
        assert(span(segs[n - 1]) <= 0x1_0000_0000_0000_0000);
    }
}

/// The weights of clusters are their clean speech, cluster by cluster.
proof fn lemma_clean_weights(segs: Seq<HelperSegment>, voiced: Seq<bool>, majors: Seq<i32>)
    requires
        segs.len() <= 0x1000_0000_0000_0000,
        voiced.len() == segs.len(),
        forall|i: int| 0 <= i < segs.len() && voiced[i] ==> span(#[trigger] segs[i]) >= 0,
    ensures
        no_negative(weights_of(segs, voiced, majors)),
        sum_of(weights_of(segs, voiced, majors)) == clean_sum(
            segs,
            voiced,
            majors,
            segs.len() as int,
        ),
    decreases majors.len(),
{
    let w = weights_of(segs, voiced, majors);
    assert forall|i: int| 0 <= i < w.len() implies #[trigger] w[i] >= 0 by {
        lemma_clean_total(segs, voiced, majors[i] as int, segs.len() as int);
    }
    if majors.len() > 0 {
        lemma_clean_weights(segs, voiced, majors.drop_last());
        lemma_clean_total(segs, voiced, majors.last() as int, segs.len() as int);
        assert(w.drop_last() =~= weights_of(segs, voiced, majors.drop_last()));
    }
}

// ---------------------------------------------------------------------
// Merging

/// The pair `(x, y)` is the closest one, the first one of equally close pairs.
pub open spec fn closest(sims: Seq<Vec<i64>>, x: int, y: int) -> bool {
    &&& 0 <= x < y < sims.len()
    &&& forall|a: int, b: int|
        0 <= a < b < sims.len() ==> #[trigger] sims[a]@[b] <= sims[x]@[y]
    &&& forall|a: int, b: int|
        0 <= a < b < sims.len() && (a < x || (a == x && b < y)) ==> #[trigger] sims[a]@[b]
            < sims[x]@[y]
}

/// The table holds a similarity for every pair.
pub open spec fn square(sims: Seq<Vec<i64>>, n: nat) -> bool {
    &&& sims.len() == n
    &&& forall|a: int| 0 <= a < n ==> (#[trigger] sims[a])@.len() == n
}

/// The closest pair.
fn closest_pair(sims: &Vec<Vec<i64>>) -> (r: (usize, usize))
    requires
        sims@.len() >= 2,
        square(sims@, sims@.len()),
    ensures
        closest(sims@, r.0 as int, r.1 as int),
{
    let n: usize = sims.len();
    let mut best: (usize, usize) = (0, 1);
    let mut x: usize = 0;
    while x < n
        invariant
            n == sims@.len() >= 2,
            square(sims@, n as nat),
            x <= n,
            best.0 < best.1 < n,
            best.0 < x || best == (0usize, 1usize),
            forall|a: int, b: int|
                0 <= a < b < n && a < x ==> #[trigger] sims@[a]@[b]
                    <= sims@[best.0 as int]@[best.1 as int],
            forall|a: int, b: int|
                0 <= a < b < n && (a < best.0 || (a == best.0 && b < best.1))
                    ==> #[trigger] sims@[a]@[b] < sims@[best.0 as int]@[best.1 as int],
        decreases n - x,
    {
        let mut y: usize = x + 1;
        while y < n
            invariant
                n == sims@.len() >= 2,
                square(sims@, n as nat),
                x < n,
                x < y <= n,
                best.0 < best.1 < n,
                best.0 <= x,
                best.0 == x ==> best.1 < y || best == (0usize, 1usize),
                forall|a: int, b: int|
                    0 <= a < b < n && (a < x || (a == x && b < y)) ==> #[trigger] sims@[a]@[b]
                        <= sims@[best.0 as int]@[best.1 as int],
                forall|a: int, b: int|
                    0 <= a < b < n && (a < best.0 || (a == best.0 && b < best.1))
                        ==> #[trigger] sims@[a]@[b] < sims@[best.0 as int]@[best.1 as int],
            decreases n - y,
        {
            assert(sims@[x as int]@.len() == n);
            assert(sims@[best.0 as int]@.len() == n);
            if sims[x][y] > sims[best.0][best.1] {
                let ghost was = sims@[best.0 as int]@[best.1 as int];
                best = (x, y);
                proof {
                    assert forall|a: int, b: int|
                        0 <= a < b < n && (a < best.0 || (a == best.0 && b < best.1)) implies #[trigger] sims@[a]@[b]
                        < sims@[best.0 as int]@[best.1 as int] by {
                        assert(sims@[a]@[b] <= was);
                    }
                }
            }
            y += 1;
        }
        x += 1;
    }
    best
}

/// The major clusters and where merged ones went.
#[derive(Debug)]
pub struct Oversplit {
    majors: Vec<i32>,
    /// Clean speech of each major.
    weights: Vec<i128>,
    /// Merged clusters and the majors they belong to now.
    remap: Vec<(i32, i32)>,
}

/// The contents of a repair.
pub struct OversplitView {
    pub majors: Seq<i32>,
    pub weights: Seq<i128>,
    pub remap: Seq<(i32, i32)>,
}

impl View for Oversplit {
    type V = OversplitView;

    closed spec fn view(&self) -> OversplitView {
        OversplitView { majors: self.majors@, weights: self.weights@, remap: self.remap@ }
    }
}

/// Two majors that are one voice.
#[derive(Debug, Clone, Copy, PartialEq, Eq, Structural)]
pub struct Merge {
    pub keep: i32,
    pub gone: i32,
    pub keep_weight: i128,
    pub gone_weight: i128,
}

/// Where cluster `c` went: the entry for it, or itself.
pub open spec fn lookup(remap: Seq<(i32, i32)>, c: i32) -> i32
    decreases remap.len(),
{
    if remap.len() == 0 {
        c
    } else if remap.last().0 == c {
        remap.last().1
    } else {
        lookup(remap.drop_last(), c)
    }
}

/// The sum of weights.
pub open spec fn sum_of(v: Seq<i128>) -> int
    decreases v.len(),
{
    if v.len() == 0 {
        0
    } else {
        sum_of(v.drop_last()) + v.last()
    }
}

/// No weight is negative.
pub open spec fn no_negative(v: Seq<i128>) -> bool {
    forall|i: int| 0 <= i < v.len() ==> #[trigger] v[i] >= 0
}

/// Taking one weight out takes it off the sum.
proof fn lemma_sum_remove(v: Seq<i128>, i: int)
    requires
        0 <= i < v.len(),
    ensures
        sum_of(v.remove(i)) == sum_of(v) - v[i],
    decreases v.len(),
{
    let rest = v.remove(i);
    if i < v.len() - 1 {
        lemma_sum_remove(v.drop_last(), i);
        assert(rest.drop_last() =~= v.drop_last().remove(i));
        assert(rest.last() == v.last());
    } else {
        assert(rest =~= v.drop_last());
    }
}

/// Changing one weight changes the sum by as much.
proof fn lemma_sum_update(v: Seq<i128>, i: int, x: i128)
    requires
        0 <= i < v.len(),
    ensures
        sum_of(v.update(i, x)) == sum_of(v) - v[i] + x,
    decreases v.len(),
{
    let now = v.update(i, x);
    if i < v.len() - 1 {
        lemma_sum_update(v.drop_last(), i, x);
        assert(now.drop_last() =~= v.drop_last().update(i, x));
        assert(now.last() == v.last());
    } else {
        assert(now.drop_last() =~= v.drop_last());
    }
}

/// Two weights are no more than the sum of all.
proof fn lemma_sum_of_two(v: Seq<i128>, x: int, y: int)
    requires
        no_negative(v),
        0 <= x < y < v.len(),
    ensures
        v[x] + v[y] <= sum_of(v),
{
    lemma_sum_remove(v, y);
    let rest = v.remove(y);
    assert(rest[x] == v[x]);
    lemma_sum_remove(rest, x);
    assert(no_negative(rest.remove(x))) by {
        assert forall|i: int| 0 <= i < rest.remove(x).len() implies #[trigger] rest.remove(x)[i]
            >= 0 by {
            let a = if i < x { i } else { i + 1 };
            let b = if a < y { a } else { a + 1 };
            assert(rest.remove(x)[i] == v[b]);
        }
    }
    lemma_sum_not_negative(rest.remove(x));
}

/// A sum of weights that are not negative is not negative.
proof fn lemma_sum_not_negative(v: Seq<i128>)
    requires
        no_negative(v),
    ensures
        sum_of(v) >= 0,
    decreases v.len(),
{
    if v.len() > 0 {
        assert(no_negative(v.drop_last())) by {
            assert forall|i: int| 0 <= i < v.drop_last().len() implies #[trigger] v.drop_last()[i]
                >= 0 by {
                assert(v.drop_last()[i] == v[i]);
            }
        }
        lemma_sum_not_negative(v.drop_last());
        assert(v[v.len() - 1] >= 0);
    }
}

/// The entries with `gone` led on to `keep`.
pub open spec fn redirected(remap: Seq<(i32, i32)>, keep: i32, gone: i32) -> Seq<(i32, i32)> {
    Seq::new(
        remap.len(),
        |i: int|
            if remap[i].1 == gone {
                (remap[i].0, keep)
            } else {
                remap[i]
            },
    )
}

impl OversplitView {
    /// What holds at any time: the majors ascend, each has a weight, and merged
    /// clusters are no majors themselves but belong to one. The weights add up
    /// to what a machine number holds.
    pub open spec fn wf(self) -> bool {
        &&& ascending(self.majors)
        &&& self.weights.len() == self.majors.len()
        &&& no_negative(self.weights)
        &&& sum_of(self.weights) <= i128::MAX
        &&& forall|i: int|
            0 <= i < self.remap.len() ==> self.majors.contains((#[trigger] self.remap[i]).1)
                && !self.majors.contains(self.remap[i].0)
    }

    /// Major `y` merged into major `x`.
    pub open spec fn merged(self, x: int, y: int) -> OversplitView {
        let keep = self.majors[x];
        let gone = self.majors[y];
        OversplitView {
            majors: self.majors.remove(y),
            weights: self.weights.update(x, (self.weights[x] + self.weights[y]) as i128).remove(y),
            remap: redirected(self.remap, keep, gone).push((gone, keep)),
        }
    }

    /// Merging loses no voice: what belonged to a major before belongs to one
    /// after, everything that belonged to the merged cluster belongs to the
    /// other one, and nothing else moves. The majors after are among those
    /// before. No clean speech is lost either.
    pub proof fn law_merged(self, x: int, y: int)
        requires
            self.wf(),
            0 <= x < y < self.majors.len(),
        ensures
            self.merged(x, y).wf(),
            self.merged(x, y).majors.len() == self.majors.len() - 1,
            sum_of(self.merged(x, y).weights) == sum_of(self.weights),
            forall|c: i32| #[trigger]
                self.merged(x, y).majors.contains(c) ==> self.majors.contains(c) && c
                    != self.majors[y],
            forall|c: i32|
                self.majors.contains(lookup(self.remap, c)) ==> {
                    let now = #[trigger] lookup(self.merged(x, y).remap, c);
                    &&& self.merged(x, y).majors.contains(now)
                    &&& lookup(self.remap, c) == self.majors[y] ==> now == self.majors[x]
                    &&& lookup(self.remap, c) != self.majors[y] ==> now == lookup(self.remap, c)
                },
    {
        let m = self.merged(x, y);
        let keep = self.majors[x];
        let gone = self.majors[y];
        let both = (self.weights[x] + self.weights[y]) as i128;
        lemma_sum_of_two(self.weights, x, y);
        assert(both == self.weights[x] + self.weights[y]);
        lemma_sum_update(self.weights, x, both);
        lemma_sum_remove(self.weights.update(x, both), y);
        assert forall|i: int| 0 <= i < m.weights.len() implies #[trigger] m.weights[i] >= 0 by {
            let a = if i < y { i } else { i + 1 };
            assert(m.weights[i] == self.weights.update(x, both)[a]);
            assert(self.weights[a] >= 0);
            assert(self.weights[x] >= 0 && self.weights[y] >= 0);
        }
        assert forall|i: int, j: int| 0 <= i < j < m.majors.len() implies #[trigger] m.majors[i]
            < #[trigger] m.majors[j] by {
            let a = if i < y { i } else { i + 1 };
            let b = if j < y { j } else { j + 1 };
            assert(m.majors[i] == self.majors[a] && m.majors[j] == self.majors[b]);
            assert(self.majors[a] < self.majors[b]);
        }
        assert(m.majors[x] == keep);
        assert(m.majors.contains(keep));
        assert forall|c: i32| #[trigger] self.majors.contains(c) && c != gone implies m.majors.contains(
            c,
        ) by {
            let k = choose|k: int| 0 <= k < self.majors.len() && self.majors[k] == c;
            if k < y {
                assert(m.majors[k] == c);
            } else {
                assert(m.majors[k - 1] == c);
            }
        }
        assert forall|c: i32| #[trigger] m.majors.contains(c) implies self.majors.contains(c) && c
            != gone by {
            let k = choose|k: int| 0 <= k < m.majors.len() && m.majors[k] == c;
            if k < y {
                assert(self.majors[k] == c);
                assert(self.majors[k] < self.majors[y]);
            } else {
                assert(self.majors[k + 1] == c);
                assert(self.majors[y] < self.majors[k + 1]);
            }
        }
        assert(self.majors.contains(gone));
        assert forall|i: int| 0 <= i < m.remap.len() implies m.majors.contains(
            (#[trigger] m.remap[i]).1,
        ) && !m.majors.contains(m.remap[i].0) by {
            if i < self.remap.len() {
                assert(self.majors.contains(self.remap[i].1));
                assert(!self.majors.contains(self.remap[i].0));
            }
        }
        assert forall|c: i32| self.majors.contains(lookup(self.remap, c)) implies {
            let now = #[trigger] lookup(m.remap, c);
            &&& m.majors.contains(now)
            &&& lookup(self.remap, c) == gone ==> now == keep
            &&& lookup(self.remap, c) != gone ==> now == lookup(self.remap, c)
        } by {
            assert(m.remap.drop_last() =~= redirected(self.remap, keep, gone));
            lemma_redirected(self.remap, keep, gone, c);
            if c == gone {
                lemma_lookup_absent(self.remap, self.majors, gone);
            }
        }
    }
}

/// A major has no entry, so it stands for itself.
proof fn lemma_lookup_absent(remap: Seq<(i32, i32)>, majors: Seq<i32>, c: i32)
    requires
        majors.contains(c),
        forall|i: int| 0 <= i < remap.len() ==> !majors.contains((#[trigger] remap[i]).0),
    ensures
        lookup(remap, c) == c,
    decreases remap.len(),
{
    if remap.len() > 0 {
        assert(!majors.contains(remap[remap.len() - 1].0));
        assert forall|i: int| 0 <= i < remap.drop_last().len() implies !majors.contains(
            (#[trigger] remap.drop_last()[i]).0,
        ) by {
            assert(remap.drop_last()[i] == remap[i]);
        }
        lemma_lookup_absent(remap.drop_last(), majors, c);
    }
}

/// Looking up in redirected entries.
proof fn lemma_redirected(remap: Seq<(i32, i32)>, keep: i32, gone: i32, c: i32)
    ensures
        has_entry(remap, c) ==> lookup(redirected(remap, keep, gone), c) == if lookup(remap, c)
            == gone {
            keep
        } else {
            lookup(remap, c)
        },
        !has_entry(remap, c) ==> lookup(redirected(remap, keep, gone), c) == c && lookup(remap, c)
            == c,
    decreases remap.len(),
{
    if remap.len() > 0 {
        let init = remap.drop_last();
        lemma_redirected(init, keep, gone, c);
        assert(redirected(remap, keep, gone).drop_last() =~= redirected(init, keep, gone));
        if has_entry(init, c) {
            let i = choose|i: int| 0 <= i < init.len() && (#[trigger] init[i]).0 == c;
            assert(remap[i].0 == c);
        }
        if has_entry(remap, c) && remap.last().0 != c {
            let i = choose|i: int| 0 <= i < remap.len() && (#[trigger] remap[i]).0 == c;
            assert(init[i].0 == c);
        }
        if remap.last().0 == c {
            assert(remap[remap.len() - 1].0 == c);
        }
    }
}

/// Cluster `c` has an entry.
spec fn has_entry(remap: Seq<(i32, i32)>, c: i32) -> bool {
    exists|i: int| 0 <= i < remap.len() && (#[trigger] remap[i]).0 == c
}

impl Oversplit {
    /// A repair of the given segments, if there is anything to repair: two
    /// segments or more, and a major cluster among theirs. `embedded` tells of
    /// which segments a voice could be had; only clean ones of them vote.
    /// `usable` tells whether the centroid of a segment's cluster is usable. The
    /// weight of a major is its clean speech.
    pub fn begin(segs: &[HelperSegment], embedded: &[bool], usable: &[bool]) -> (r: Option<Oversplit>)
        requires
            embedded@.len() == segs@.len(),
            usable@.len() == segs@.len(),
            segs@.len() <= 0x1000_0000_0000_0000,
        ensures
            r is None <==> segs@.len() < 2 || forall|c: i32|
                !#[trigger] major(segs@, votes_of(segs@, embedded@), usable@, c),
            r matches Some(o) ==> {
                &&& o@.wf()
                &&& o@.remap.len() == 0
                &&& forall|c: i32| #[trigger] o@.majors.contains(c) <==> major(
                    segs@,
                    votes_of(segs@, embedded@),
                    usable@,
                    c,
                )
                &&& o@.weights == weights_of(segs@, votes_of(segs@, embedded@), o@.majors)
                &&& exists|k: int| 0 <= k < segs@.len() && #[trigger] belongs(o@, segs@, k)
            },
    {
        if segs.len() < 2 {
            return None;
        }
        let voting = votes(segs, embedded);
        let voiced: &[bool] = voting.as_slice();
        let majors = major_clusters(segs, voiced, usable);
        if majors.len() == 0 {
            assert forall|c: i32| !#[trigger] major(segs@, voiced@, usable@, c) by {
                assert(!majors@.contains(c));
            }
            return None;
        }
        let mut weights: Vec<i128> = Vec::new();
        let mut i: usize = 0;
        while i < majors.len()
            invariant
                i <= majors@.len(),
                voiced@.len() == segs@.len(),
                segs@.len() <= 0x1000_0000_0000_0000,
                weights@.len() == i,
                forall|k: int|
                    0 <= k < i ==> #[trigger] weights@[k] == clean_total(
                        segs@,
                        voiced@,
                        majors@[k] as int,
                        segs@.len() as int,
                    ),
            decreases majors@.len() - i,
        {
            weights.push(clean_speech(segs, voiced, majors[i]));
            i += 1;
        }
        let o = Oversplit { majors, weights, remap: Vec::new() };
        proof {
            assert forall|i: int| 0 <= i < segs@.len() && voiced@[i] implies span(
                #[trigger] segs@[i],
            ) >= 0 by {}
            lemma_clean_fits(segs@, voiced@, majors@, segs@.len() as int);
            assert(weights@ =~= weights_of(segs@, voiced@, majors@)) by {
                assert forall|k: int| 0 <= k < majors@.len() implies weights@[k] == #[trigger] weights_of(
                    segs@,
                    voiced@,
                    majors@,
                )[k] by {}
            }
            let c = majors@[0];
            assert(majors@.contains(c));
            assert(major(segs@, voiced@, usable@, c));
            let k = choose|k: int|
                0 <= k < segs@.len() && voiced@[k] && #[trigger] usable@[k] && segs@[k].speaker == c;
            assert(lookup(o@.remap, c) == c);
            assert(belongs(o@, segs@, k));
        }
        Some(o)
    }

    /// Merge the closest pair of majors when it is as close as `threshold`, in
    /// billionths. `sims` holds the similarity of every pair of majors. Tells
    /// what was merged; nothing when no pair is close enough.
    pub fn step(&mut self, sims: &Vec<Vec<i64>>, threshold: i64) -> (r: Option<Merge>)
        requires
            old(self)@.wf(),
            square(sims@, old(self)@.majors.len()),
        ensures
            final(self)@.wf(),
            r is None ==> final(self)@ == old(self)@ && (old(self)@.majors.len() < 2 || forall|
                x: int,
                y: int,
            |
                #[trigger] closest(sims@, x, y) ==> sims@[x]@[y] < threshold),
            r matches Some(m) ==> exists|x: int, y: int|
                #[trigger] closest(sims@, x, y) && sims@[x]@[y] >= threshold && final(self)@
                    == old(self)@.merged(x, y) && m.keep == old(self)@.majors[x] && m.gone == old(
                    self,
                )@.majors[y] && m.keep_weight == old(self)@.weights[x] && m.gone_weight == old(
                    self,
                )@.weights[y],
    {
        let ghost before = self@;
        if self.majors.len() < 2 {
            return None;
        }
        let (x, y) = closest_pair(sims);
        assert(sims@[x as int]@.len() == sims@.len());
        if sims[x][y] < threshold {
            proof {
                assert forall|a: int, b: int| #[trigger] closest(sims@, a, b) implies sims@[a]@[b]
                    < threshold by {
                    assert(sims@[a]@[b] <= sims@[x as int]@[y as int]);
                }
            }
            return None;
        }
        proof {
            before.law_merged(x as int, y as int);
            lemma_sum_of_two(before.weights, x as int, y as int);
        }
        let keep: i32 = self.majors[x];
        let gone: i32 = self.majors[y];
        let wk: i128 = self.weights[x];
        let wg: i128 = self.weights[y];
        self.weights.set(x, wk + wg);
        self.weights.remove(y);
        self.majors.remove(y);
        let n: usize = self.remap.len();
        let mut i: usize = 0;
        while i < n
            invariant
                n == before.remap.len(),
                i <= n,
                self.remap@.len() == n,
                self.majors@ == before.majors.remove(y as int),
                self.weights@ == before.weights.update(x as int, (wk + wg) as i128).remove(y as int),
                forall|k: int|
                    0 <= k < i ==> #[trigger] self.remap@[k] == redirected(
                        before.remap,
                        keep,
                        gone,
                    )[k],
                forall|k: int| i <= k < n ==> #[trigger] self.remap@[k] == before.remap[k],
            decreases n - i,
        {
            let (from, to) = self.remap[i];
            if to == gone {
                self.remap.set(i, (from, keep));
            }
            i += 1;
        }
        self.remap.push((gone, keep));
        assert(self.remap@ =~= redirected(before.remap, keep, gone).push((gone, keep)));
        assert(self@ == before.merged(x as int, y as int));
        assert(closest(sims@, x as int, y as int));
        Some(Merge { keep, gone, keep_weight: wk, gone_weight: wg })
    }

    /// The majors as they stand.
    pub fn majors(&self) -> (r: &Vec<i32>)
        ensures
            r@ == self@.majors,
    {
        &self.majors
    }

    /// Where a cluster went.
    pub fn target(&self, cluster: i32) -> (r: i32)
        ensures
            r == lookup(self@.remap, cluster),
    {
        let mut i: usize = self.remap.len();
        assert(self.remap@.take(i as int) =~= self.remap@);
        while i > 0
            invariant
                i <= self.remap@.len(),
                lookup(self.remap@, cluster) == lookup(self.remap@.take(i as int), cluster),
            decreases i,
        {
            proof {
                let t = self.remap@.take(i as int);
                assert(t.last() == self.remap@[i - 1]);
                assert(t.drop_last() =~= self.remap@.take(i - 1));
            }
            if self.remap[i - 1].0 == cluster {
                return self.remap[i - 1].1;
            }
            i -= 1;
        }
        cluster
    }

    /// Whether a cluster is a major one.
    fn is_major(&self, cluster: i32) -> (r: bool)
        ensures
            r == self@.majors.contains(cluster),
    {
        let mut i: usize = 0;
        while i < self.majors.len()
            invariant
                i <= self.majors@.len(),
                forall|k: int| 0 <= k < i ==> #[trigger] self.majors@[k] != cluster,
            decreases self.majors@.len() - i,
        {
            if self.majors[i] == cluster {
                assert(self.majors@[i as int] == cluster);
                return true;
            }
            i += 1;
        }
        false
    }
}

// ---------------------------------------------------------------------
// Folding

/// Segment `i` belongs to a major, itself or by merging.
pub open spec fn belongs(o: OversplitView, segs: Seq<HelperSegment>, i: int) -> bool {
    o.majors.contains(lookup(o.remap, segs[i].speaker))
}

/// `k` has the greatest similarity, the first one of equal similarities.
pub open spec fn best_match(v: Seq<i64>, k: int) -> bool {
    &&& 0 <= k < v.len()
    &&& forall|j: int| 0 <= j < v.len() ==> #[trigger] v[j] <= v[k]
    &&& forall|j: int| 0 <= j < k ==> #[trigger] v[j] < v[k]
}

/// Debris segment `s` sounds like major number `k`.
pub open spec fn sounds_like(s: HelperSegment, voice: Option<Vec<i64>>, k: int) -> bool {
    &&& span(s) >= DEBRIS_MIN_NS
    &&& voice matches Some(v) && best_match(v@, k) && v@[k] >= DEBRIS_VOICE_FLOOR
}

/// Twice the distance between the middles of segments `i` and `j`.
pub open spec fn apart_twice(segs: Seq<HelperSegment>, i: int, j: int) -> int {
    let d = segs[i].start + segs[i].end - (segs[j].start + segs[j].end);
    if d < 0 {
        -d
    } else {
        d
    }
}

/// Of the segments of majors `j` is the one nearest to segment `i`, the first
/// one of equally near ones.
pub open spec fn nearest_major(o: OversplitView, segs: Seq<HelperSegment>, i: int, j: int) -> bool {
    &&& 0 <= j < segs.len()
    &&& belongs(o, segs, j)
    &&& forall|k: int|
        0 <= k < segs.len() && #[trigger] belongs(o, segs, k) ==> apart_twice(segs, i, j)
            <= apart_twice(segs, i, k)
    &&& forall|k: int|
        0 <= k < j && #[trigger] belongs(o, segs, k) ==> apart_twice(segs, i, j) < apart_twice(
            segs,
            i,
            k,
        )
}

/// `label` is the final speaker of segment `i`: the major it belongs to, else
/// the major it sounds like, else the one of the nearest segment of a major.
pub open spec fn labelled(
    o: OversplitView,
    segs: Seq<HelperSegment>,
    voices: Seq<Option<Vec<i64>>>,
    i: int,
    label: i32,
) -> bool {
    if belongs(o, segs, i) {
        label == lookup(o.remap, segs[i].speaker)
    } else if exists|k: int| #[trigger] sounds_like(segs[i], voices[i], k) {
        exists|k: int| #[trigger] sounds_like(segs[i], voices[i], k) && label == o.majors[k]
    } else {
        exists|j: int|
            #[trigger] nearest_major(o, segs, i, j) && label == lookup(o.remap, segs[j].speaker)
    }
}

/// The major that debris segment `s` sounds like.
fn match_voice(s: &HelperSegment, voice: &Option<Vec<i64>>) -> (r: Option<usize>)
    ensures
        match r {
            Some(k) => sounds_like(*s, *voice, k as int),
            None => forall|k: int| !#[trigger] sounds_like(*s, *voice, k),
        },
{
    if length(s) < DEBRIS_MIN_NS as i128 {
        return None;
    }
    match voice {
        None => None,
        Some(v) => {
            if v.len() == 0 {
                return None;
            }
            let mut best: usize = 0;
            let mut k: usize = 1;
            while k < v.len()
                invariant
                    best < k <= v@.len(),
                    forall|j: int| 0 <= j < k ==> #[trigger] v@[j] <= v@[best as int],
                    forall|j: int| 0 <= j < best ==> #[trigger] v@[j] < v@[best as int],
                decreases v@.len() - k,
            {
                if v[k] > v[best] {
                    best = k;
                }
                k += 1;
            }
            assert(best_match(v@, best as int));
            if v[best] >= DEBRIS_VOICE_FLOOR {
                Some(best)
            } else {
                assert forall|c: int| !#[trigger] sounds_like(*s, *voice, c) by {
                    if sounds_like(*s, *voice, c) {
                        assert(v@[c] <= v@[best as int]);
                    }
                }
                None
            }
        },
    }
}

/// How debris was folded.
#[derive(Debug, Clone, Copy, PartialEq, Eq, Structural)]
pub struct FoldStats {
    pub by_voice: usize,
    pub by_time: usize,
}

impl Oversplit {
    /// Which segments belong to no major; the longer ones are to be compared by
    /// voice.
    pub fn debris(&self, segs: &[HelperSegment]) -> (r: Vec<bool>)
        ensures
            r@ == Seq::new(segs@.len(), |i: int| !belongs(self@, segs@, i)),
    {
        let mut out: Vec<bool> = Vec::new();
        let mut i: usize = 0;
        while i < segs.len()
            invariant
                i <= segs@.len(),
                out@ == Seq::new(i as nat, |k: int| !belongs(self@, segs@, k)),
            decreases segs@.len() - i,
        {
            let t: i32 = self.target(segs[i].speaker);
            out.push(!self.is_major(t));
            assert(out@ =~= Seq::new((i + 1) as nat, |k: int| !belongs(self@, segs@, k)));
            i += 1;
        }
        out
    }

    /// The segment of a major nearest to segment `i`.
    fn nearest(&self, segs: &[HelperSegment], i: usize) -> (r: usize)
        requires
            i < segs@.len(),
            exists|k: int| 0 <= k < segs@.len() && #[trigger] belongs(self@, segs@, k),
        ensures
            nearest_major(self@, segs@, i as int, r as int),
    {
        let mid: i128 = segs[i].start as i128 + segs[i].end as i128;
        let mut best: Option<usize> = None;
        let mut least: i128 = 0;
        let mut j: usize = 0;
        while j < segs.len()
            invariant
                i < segs@.len(),
                j <= segs@.len(),
                mid == segs@[i as int].start + segs@[i as int].end,
                match best {
                    Some(b) => {
                        &&& b < j
                        &&& belongs(self@, segs@, b as int)
                        &&& least == apart_twice(segs@, i as int, b as int)
                        &&& forall|k: int|
                            0 <= k < j && #[trigger] belongs(self@, segs@, k) ==> least
                                <= apart_twice(segs@, i as int, k)
                        &&& forall|k: int|
                            0 <= k < b && #[trigger] belongs(self@, segs@, k) ==> least
                                < apart_twice(segs@, i as int, k)
                    },
                    None => forall|k: int| 0 <= k < j ==> !#[trigger] belongs(self@, segs@, k),
                },
            decreases segs@.len() - j,
        {
            let t: i32 = self.target(segs[j].speaker);
            if self.is_major(t) {
                let d: i128 = mid - (segs[j].start as i128 + segs[j].end as i128);
                let off: i128 = if d < 0 {
                    -d
                } else {
                    d
                };
                assert(belongs(self@, segs@, j as int));
                assert(off == apart_twice(segs@, i as int, j as int));
                let nearer: bool = match best {
                    Some(_) => off < least,
                    None => true,
                };
                if nearer {
                    best = Some(j);
                    least = off;
                }
            } else {
                assert(!belongs(self@, segs@, j as int));
            }
            j += 1;
        }
        match best {
            Some(b) => b,
            None => {
                proof {
                    let k = choose|k: int|
                        0 <= k < segs@.len() && #[trigger] belongs(self@, segs@, k);
                    assert(belongs(self@, segs@, k));
                }
                0
            },
        }
    }

    /// Give every segment its final speaker. `voices` holds the similarities of
    /// a debris segment's voice to the majors, where it could be taken.
    pub fn fold(&self, segs: &[HelperSegment], voices: &[Option<Vec<i64>>]) -> (r: (
        Vec<HelperSegment>,
        FoldStats,
    ))
        requires
            self@.wf(),
            voices@.len() == segs@.len(),
            forall|i: int|
                0 <= i < voices@.len() ==> (#[trigger] voices@[i] matches Some(v) ==> v@.len()
                    == self@.majors.len()),
            exists|k: int| 0 <= k < segs@.len() && #[trigger] belongs(self@, segs@, k),
        ensures
            r.0@.len() == segs@.len(),
            forall|i: int|
                0 <= i < segs@.len() ==> {
                    let x = #[trigger] r.0@[i];
                    &&& x.start == segs@[i].start
                    &&& x.end == segs@[i].end
                    &&& labelled(self@, segs@, voices@, i, x.speaker)
                    &&& self@.majors.contains(x.speaker)
                },
            r.1.by_voice == count_debris(self@, segs@, voices@, segs@.len() as int, true),
            r.1.by_time == count_debris(self@, segs@, voices@, segs@.len() as int, false),
    {
        let mut out: Vec<HelperSegment> = Vec::new();
        let mut by_voice: usize = 0;
        let mut by_time: usize = 0;
        let mut i: usize = 0;
        while i < segs.len()
            invariant
                i <= segs@.len(),
                self@.wf(),
                voices@.len() == segs@.len(),
                forall|i: int|
                    0 <= i < voices@.len() ==> (#[trigger] voices@[i] matches Some(v) ==> v@.len()
                        == self@.majors.len()),
                exists|k: int| 0 <= k < segs@.len() && #[trigger] belongs(self@, segs@, k),
                out@.len() == i,
                by_voice + by_time <= i,
                by_voice == count_debris(self@, segs@, voices@, i as int, true),
                by_time == count_debris(self@, segs@, voices@, i as int, false),
                forall|k: int|
                    0 <= k < i ==> {
                        let x = #[trigger] out@[k];
                        &&& x.start == segs@[k].start
                        &&& x.end == segs@[k].end
                        &&& labelled(self@, segs@, voices@, k, x.speaker)
                        &&& self@.majors.contains(x.speaker)
                    },
            decreases segs@.len() - i,
        {
            let s: HelperSegment = segs[i];
            let t: i32 = self.target(s.speaker);
            let speaker: i32 = if self.is_major(t) {
                t
            } else {
                match match_voice(&s, &voices[i]) {
                    Some(k) => {
                        by_voice += 1;
                        assert(sounds_like(segs@[i as int], voices@[i as int], k as int));
                        assert(self@.majors[k as int] == self.majors@[k as int]);
                        assert(self@.majors.contains(self@.majors[k as int]));
                        self.majors[k]
                    },
                    None => {
                        by_time += 1;
                        let j: usize = self.nearest(segs, i);
                        assert(nearest_major(self@, segs@, i as int, j as int));
                        assert(belongs(self@, segs@, j as int));
                        self.target(segs[j].speaker)
                    },
                }
            };
            assert(labelled(self@, segs@, voices@, i as int, speaker));
            out.push(HelperSegment { start: s.start, end: s.end, speaker });
            i += 1;
        }
        (out, FoldStats { by_voice, by_time })
    }
}

/// Segment `i` belongs to no major, and is folded by voice or, if not so, by
/// time.
pub open spec fn folded_by(
    o: OversplitView,
    segs: Seq<HelperSegment>,
    voices: Seq<Option<Vec<i64>>>,
    i: int,
    by_voice: bool,
) -> bool {
    !belongs(o, segs, i) && by_voice == (exists|k: int| #[trigger]
        sounds_like(segs[i], voices[i], k))
}

/// How many of the first `n` segments are folded by voice or, if not so, by time.
pub open spec fn count_debris(
    o: OversplitView,
    segs: Seq<HelperSegment>,
    voices: Seq<Option<Vec<i64>>>,
    n: int,
    by_voice: bool,
) -> nat
    decreases n,
{
    if n <= 0 {
        0
    } else {
        count_debris(o, segs, voices, n - 1, by_voice) + if folded_by(
            o,
            segs,
            voices,
            n - 1,
            by_voice,
        ) {
            1nat
        } else {
            0nat
        }
    }
}

/// While every major is the cluster of some segment, by name or by merging,
/// folding finds a major for all debris; merging keeps that so.
pub proof fn law_majors_stay_heard(o: OversplitView, segs: Seq<HelperSegment>, x: int, y: int)
    requires
        o.wf(),
        0 <= x < y < o.majors.len(),
        exists|k: int| 0 <= k < segs.len() && #[trigger] belongs(o, segs, k),
    ensures
        exists|k: int| 0 <= k < segs.len() && #[trigger] belongs(o.merged(x, y), segs, k),
{
    o.law_merged(x, y);
    let k = choose|k: int| 0 <= k < segs.len() && #[trigger] belongs(o, segs, k);
    let now = lookup(o.merged(x, y).remap, segs[k].speaker);
    assert(belongs(o.merged(x, y), segs, k));
}

/// Every major is the cluster of some segment.
pub open spec fn drawn(majors: Seq<i32>, segs: Seq<HelperSegment>) -> bool {
    forall|c: i32| #[trigger] majors.contains(c) ==> spoken(segs, c)
}

/// A segment of cluster `c` is there.
pub open spec fn spoken(segs: Seq<HelperSegment>, c: i32) -> bool {
    exists|k: int| 0 <= k < segs.len() && (#[trigger] segs[k]).speaker == c
}

/// The majors that a repair begins with are clusters of segments, and merging
/// keeps that so.
pub proof fn law_majors_stay_drawn(
    o: OversplitView,
    segs: Seq<HelperSegment>,
    votes: Seq<bool>,
    usable: Seq<bool>,
    x: int,
    y: int,
)
    requires
        o.wf(),
        drawn(o.majors, segs),
        0 <= x < y < o.majors.len(),
    ensures
        forall|c: i32| #[trigger] major(segs, votes, usable, c) ==> spoken(segs, c),
        drawn(o.merged(x, y).majors, segs),
{
    assert forall|c: i32| #[trigger] major(segs, votes, usable, c) implies spoken(segs, c) by {
        let k = choose|k: int|
            0 <= k < segs.len() && votes[k] && #[trigger] usable[k] && segs[k].speaker == c;
        assert(segs[k].speaker == c);
    }
    o.law_merged(x, y);
}

/// Repairing invents no speaker: every final label is a major, and the cluster
/// of some segment.
pub proof fn law_labels_are_old(
    o: OversplitView,
    segs: Seq<HelperSegment>,
    voices: Seq<Option<Vec<i64>>>,
    i: int,
    label: i32,
)
    requires
        o.wf(),
        drawn(o.majors, segs),
        0 <= i < segs.len() == voices.len(),
        voices[i] matches Some(v) ==> v@.len() == o.majors.len(),
        labelled(o, segs, voices, i, label),
    ensures
        o.majors.contains(label),
        spoken(segs, label),
{
    if !belongs(o, segs, i) && exists|k: int| #[trigger] sounds_like(segs[i], voices[i], k) {
        let k = choose|k: int| #[trigger]
            sounds_like(segs[i], voices[i], k) && label == o.majors[k];
        assert(o.majors[k] == label);
    }
}

// ---------------------------------------------------------------------
// Numbering

/// The speakers of the first `n` segments in the order of their first
/// appearance.
pub open spec fn cast_upto(segs: Seq<HelperSegment>, n: int) -> Seq<i32>
    decreases n,
{
    if n <= 0 {
        Seq::empty()
    } else {
        let head = cast_upto(segs, n - 1);
        if head.contains(segs[n - 1].speaker) {
            head
        } else {
            head.push(segs[n - 1].speaker)
        }
    }
}

/// The speakers in the order of their first appearance.
pub open spec fn cast(segs: Seq<HelperSegment>) -> Seq<i32> {
    cast_upto(segs, segs.len() as int)
}

proof fn lemma_cast(segs: Seq<HelperSegment>, n: int)
    requires
        0 <= n <= segs.len(),
    ensures
        cast_upto(segs, n).no_duplicates(),
        cast_upto(segs, n).len() <= n,
        forall|k: int| 0 <= k < n ==> cast_upto(segs, n).contains((#[trigger] segs[k]).speaker),
    decreases n,
{
    if n > 0 {
        lemma_cast(segs, n - 1);
        let head = cast_upto(segs, n - 1);
        let all = cast_upto(segs, n);
        assert forall|k: int| 0 <= k < n implies all.contains((#[trigger] segs[k]).speaker) by {
            if k < n - 1 {
                assert(head.contains(segs[k].speaker));
                let j = choose|j: int| 0 <= j < head.len() && head[j] == segs[k].speaker;
                assert(all[j] == segs[k].speaker);
            } else if head.contains(segs[k].speaker) {
            } else {
                assert(all.last() == segs[k].speaker);
            }
        }
    }
}

/// The place of a speaker in a list.
fn place_of(ids: &Vec<i32>, speaker: i32) -> (r: Option<usize>)
    ensures
        match r {
            Some(k) => k < ids@.len() && ids@[k as int] == speaker,
            None => !ids@.contains(speaker),
        },
{
    let mut k: usize = 0;
    while k < ids.len()
        invariant
            k <= ids@.len(),
            forall|j: int| 0 <= j < k ==> #[trigger] ids@[j] != speaker,
        decreases ids@.len() - k,
    {
        if ids[k] == speaker {
            return Some(k);
        }
        k += 1;
    }
    None
}

/// Number the speakers from zero in the order of their first appearance. Gives
/// the segments and the number of speakers.
pub fn renumber(segs: &[HelperSegment]) -> (r: (Vec<HelperSegment>, i32))
    requires
        segs@.len() <= i32::MAX,
    ensures
        r.1 == cast(segs@).len(),
        r.0@.len() == segs@.len(),
        forall|i: int|
            0 <= i < segs@.len() ==> {
                let x = #[trigger] r.0@[i];
                &&& x.start == segs@[i].start
                &&& x.end == segs@[i].end
                &&& 0 <= x.speaker < r.1
                &&& cast(segs@)[x.speaker as int] == segs@[i].speaker
            },
{
    let mut ids: Vec<i32> = Vec::new();
    let mut i: usize = 0;
    while i < segs.len()
        invariant
            i <= segs@.len(),
            ids@ == cast_upto(segs@, i as int),
        decreases segs@.len() - i,
    {
        if place_of(&ids, segs[i].speaker).is_none() {
            ids.push(segs[i].speaker);
        } else {
            assert(ids@.contains(segs@[i as int].speaker));
        }
        i += 1;
    }
    proof {
        lemma_cast(segs@, segs@.len() as int);
    }
    let mut out: Vec<HelperSegment> = Vec::new();
    let mut j: usize = 0;
    while j < segs.len()
        invariant
            j <= segs@.len(),
            segs@.len() <= i32::MAX,
            ids@ == cast(segs@),
            ids@.len() <= segs@.len(),
            forall|k: int|
                0 <= k < segs@.len() ==> cast(segs@).contains((#[trigger] segs@[k]).speaker),
            out@.len() == j,
            forall|k: int|
                0 <= k < j ==> {
                    let x = #[trigger] out@[k];
                    &&& x.start == segs@[k].start
                    &&& x.end == segs@[k].end
                    &&& 0 <= x.speaker < ids@.len()
                    &&& cast(segs@)[x.speaker as int] == segs@[k].speaker
                },
        decreases segs@.len() - j,
    {
        let s: HelperSegment = segs[j];
        assert(cast(segs@).contains(segs@[j as int].speaker));
        let number: i32 = match place_of(&ids, s.speaker) {
            Some(k) => k as i32,
            None => 0,
        };
        out.push(HelperSegment { start: s.start, end: s.end, speaker: number });
        j += 1;
    }
    (out, ids.len() as i32)
}

/// Numbering tells speakers apart exactly as before.
pub proof fn law_renumbered(segs: Seq<HelperSegment>, i: int, j: int, a: int, b: int)
    requires
        0 <= i < segs.len(),
        0 <= j < segs.len(),
        0 <= a < cast(segs).len(),
        0 <= b < cast(segs).len(),
        cast(segs)[a] == segs[i].speaker,
        cast(segs)[b] == segs[j].speaker,
    ensures
        a == b <==> segs[i].speaker == segs[j].speaker,
{
    lemma_cast(segs, segs.len() as int);
}

// ---------------------------------------------------------------------
// What a repair is for

/// A segment votes exactly when a voice could be had of it, it lasts a second
/// and a half or more, and nobody else speaks at the same time.
pub proof fn law_votes(segs: Seq<HelperSegment>, embedded: Seq<bool>, i: int)
    requires
        embedded.len() == segs.len(),
        0 <= i < segs.len(),
    ensures
        votes_of(segs, embedded).len() == segs.len(),
        votes_of(segs, embedded)[i] <==> {
            &&& embedded[i]
            &&& segs[i].end - segs[i].start >= 1_500_000_000
            &&& forall|j: int|
                0 <= j < segs.len() && j != i ==> (#[trigger] segs[j]).end <= segs[i].start
                    || segs[i].end <= segs[j].start
        },
        Seq::new(segs.len(), |k: int| clean(segs, k))[i] <==> {
            &&& segs[i].end - segs[i].start >= 1_500_000_000
            &&& forall|j: int|
                0 <= j < segs.len() && j != i ==> (#[trigger] segs[j]).end <= segs[i].start
                    || segs[i].end <= segs[j].start
        },
{
    if clean(segs, i) {
        assert forall|j: int| 0 <= j < segs.len() && j != i implies (#[trigger] segs[j]).end
            <= segs[i].start || segs[i].end <= segs[j].start by {
            assert(!overlapping(segs[i], segs[j]));
        }
    }
}

/// The clean speech of a cluster is that of its voting segments: every one of
/// them adds its length, no other segment adds anything, and a cluster without
/// one has none.
pub proof fn law_clean_total(segs: Seq<HelperSegment>, voiced: Seq<bool>, c: int, n: int)
    requires
        0 <= n <= segs.len() == voiced.len(),
    ensures
        n == 0 ==> clean_total(segs, voiced, c, n) == 0,
        n < segs.len() && voiced[n] && segs[n].speaker == c ==> clean_total(segs, voiced, c, n + 1)
            == clean_total(segs, voiced, c, n) + (segs[n].end - segs[n].start),
        n < segs.len() && !(voiced[n] && segs[n].speaker == c) ==> clean_total(
            segs,
            voiced,
            c,
            n + 1,
        ) == clean_total(segs, voiced, c, n),
        (forall|k: int| 0 <= k < n && #[trigger] voiced[k] ==> segs[k].speaker != c) ==> clean_total(
            segs,
            voiced,
            c,
            n,
        ) == 0,
        forall|k: int|
            0 <= k < n && (forall|m: int|
                0 <= m < n && #[trigger] voiced[m] ==> segs[m].start <= segs[m].end) && voiced[k]
                && segs[k].speaker == c ==> (#[trigger] segs[k]).end - segs[k].start <= clean_total(
                segs,
                voiced,
                c,
                n,
            ),
    decreases n,
{
    if n > 0 {
        law_clean_total(segs, voiced, c, n - 1);
        if forall|m: int| 0 <= m < n && #[trigger] voiced[m] ==> segs[m].start <= segs[m].end {
            assert forall|k: int| 0 <= k < n && voiced[k] && segs[k].speaker == c implies (
            #[trigger] segs[k]).end - segs[k].start <= clean_total(segs, voiced, c, n) by {
                lemma_clean_not_negative(segs, voiced, c, n - 1);
                assert(voiced[n - 1] ==> segs[n - 1].start <= segs[n - 1].end);
            }
        }
    }
}

proof fn lemma_clean_not_negative(segs: Seq<HelperSegment>, voiced: Seq<bool>, c: int, n: int)
    requires
        0 <= n <= segs.len() == voiced.len(),
        forall|m: int| 0 <= m < n && #[trigger] voiced[m] ==> segs[m].start <= segs[m].end,
    ensures
        clean_total(segs, voiced, c, n) >= 0,
    decreases n,
{
    if n > 0 {
        lemma_clean_not_negative(segs, voiced, c, n - 1);
        assert(voiced[n - 1] ==> segs[n - 1].start <= segs[n - 1].end);
    }
}

/// A cluster is a major one exactly when a usable segment of it votes and its
/// clean speech lasts ten seconds or more.
pub proof fn law_major(
    segs: Seq<HelperSegment>,
    voiced: Seq<bool>,
    usable: Seq<bool>,
    majors: Seq<i32>,
    c: i32,
)
    requires
        voiced.len() == segs.len() == usable.len(),
    ensures
        (exists|i: int|
            0 <= i < segs.len() && voiced[i] && usable[i] && (#[trigger] segs[i]).speaker == c)
            && clean_total(segs, voiced, c as int, segs.len() as int) >= 10_000_000_000 <==> major(
            segs,
            voiced,
            usable,
            c,
        ),
        weights_of(segs, voiced, majors).len() == majors.len(),
        forall|k: int|
            0 <= k < majors.len() ==> #[trigger] weights_of(segs, voiced, majors)[k] as int
                == clean_total(segs, voiced, majors[k] as int, segs.len() as int) as i128,
{
    if exists|i: int|
        0 <= i < segs.len() && voiced[i] && usable[i] && (#[trigger] segs[i]).speaker == c {
        let i = choose|i: int|
            0 <= i < segs.len() && voiced[i] && usable[i] && (#[trigger] segs[i]).speaker == c;
        assert(usable[i]);
    }
    if major(segs, voiced, usable, c) {
        let i = choose|i: int|
            0 <= i < segs.len() && voiced[i] && #[trigger] usable[i] && segs[i].speaker == c;
        assert(segs[i].speaker == c);
    }
}

/// No pair of majors is closer than the one that is merged, and of equally
/// close ones it is the first.
pub proof fn law_closest(sims: Seq<Vec<i64>>, x: int, y: int, a: int, b: int)
    requires
        closest(sims, x, y),
        0 <= a < b < sims.len(),
    ensures
        0 <= x < y < sims.len(),
        sims[a]@[b] <= sims[x]@[y],
        sims[a]@[b] == sims[x]@[y] ==> x < a || (x == a && y <= b),
{
}

/// A merge gives the one that stays the clean speech of both, leaves all others
/// theirs, and lets only the later one of the two go.
pub proof fn law_merged_weights(o: OversplitView, x: int, y: int, k: int)
    requires
        o.wf(),
        0 <= x < y < o.majors.len(),
        0 <= k < o.majors.len(),
        k != y,
    ensures
        exists|m: int|
            0 <= m < o.merged(x, y).majors.len() && #[trigger] o.merged(x, y).majors[m]
                == o.majors[k] && o.merged(x, y).weights[m] == if k == x {
                o.weights[x] + o.weights[y]
            } else {
                o.weights[k] as int
            },
{
    let m = if k < y { k } else { k - 1 };
    lemma_sum_of_two(o.weights, x, y);
    assert(o.merged(x, y).majors[m] == o.majors[k]);
}

/// A cluster that was never merged stands for itself, and so does every major.
/// A merged one stands for what its entry says.
pub proof fn law_targets(o: OversplitView, c: i32)
    requires
        o.wf(),
    ensures
        o.majors.contains(c) ==> lookup(o.remap, c) == c,
        (forall|i: int| 0 <= i < o.remap.len() ==> (#[trigger] o.remap[i]).0 != c) ==> lookup(
            o.remap,
            c,
        ) == c,
        lookup(o.remap, c) != c ==> o.remap.contains((c, lookup(o.remap, c))),
{
    if o.majors.contains(c) {
        lemma_lookup_absent(o.remap, o.majors, c);
    }
    lemma_lookup(o.remap, c);
}

proof fn lemma_lookup(remap: Seq<(i32, i32)>, c: i32)
    ensures
        (forall|i: int| 0 <= i < remap.len() ==> (#[trigger] remap[i]).0 != c) ==> lookup(remap, c)
            == c,
        lookup(remap, c) != c ==> remap.contains((c, lookup(remap, c))),
    decreases remap.len(),
{
    if remap.len() > 0 {
        let init = remap.drop_last();
        let n = remap.len() - 1;
        lemma_lookup(init, c);
        if remap[n].0 == c {
            assert(remap[n] == (c, lookup(remap, c)));
        } else {
            if forall|i: int| 0 <= i < remap.len() ==> (#[trigger] remap[i]).0 != c {
                assert forall|i: int| 0 <= i < init.len() implies (#[trigger] init[i]).0 != c by {
                    assert(remap[i].0 != c);
                }
            }
            if lookup(remap, c) != c {
                let k = choose|k: int| 0 <= k < init.len() && init[k] == (c, lookup(init, c));
                assert(remap[k] == (c, lookup(remap, c)));
            }
        }
    }
}

/// A segment of a major keeps that speaker, and a segment of a merged cluster
/// gets the major that its cluster went into.
pub proof fn law_majors_keep_their_segments(
    o: OversplitView,
    segs: Seq<HelperSegment>,
    voices: Seq<Option<Vec<i64>>>,
    i: int,
    label: i32,
)
    requires
        o.wf(),
        0 <= i < segs.len() == voices.len(),
        labelled(o, segs, voices, i, label),
    ensures
        o.majors.contains(segs[i].speaker) ==> label == segs[i].speaker,
        o.majors.contains(lookup(o.remap, segs[i].speaker)) ==> label == lookup(
            o.remap,
            segs[i].speaker,
        ),
{
    law_targets(o, segs[i].speaker);
}

/// Debris that sounds like a major joins the one that it sounds most like, the
/// first of equals, whatever stands next to it in time.
pub proof fn law_debris_joins_the_voice(
    o: OversplitView,
    segs: Seq<HelperSegment>,
    voices: Seq<Option<Vec<i64>>>,
    i: int,
    label: i32,
    v: Seq<i64>,
    loud: int,
)
    requires
        o.wf(),
        0 <= i < segs.len() == voices.len(),
        labelled(o, segs, voices, i, label),
        !o.majors.contains(lookup(o.remap, segs[i].speaker)),
        segs[i].end - segs[i].start >= 250_000_000,
        voices[i] matches Some(w) && w@ == v,
        0 <= loud < v.len(),
        v[loud] >= 600_000_000,
    ensures
        exists|k: int|
            0 <= k < v.len() && label == o.majors[k] && v[loud] <= (#[trigger] v[k]) && (forall|m: int|
                0 <= m < v.len() ==> #[trigger] v[m] <= v[k]) && (forall|m: int|
                0 <= m < k ==> #[trigger] v[m] < v[k]),
{
    let best = lemma_first_greatest(v, v.len() as int);
    assert(best_match(v, best));
    assert(v[loud] <= v[best]);
    assert(sounds_like(segs[i], voices[i], best));
    let k = choose|k: int| #[trigger]
        sounds_like(segs[i], voices[i], k) && label == o.majors[k];
    assert(v[loud] <= v[k]);
}

/// The first greatest of the first `n` values.
proof fn lemma_first_greatest(v: Seq<i64>, n: int) -> (k: int)
    requires
        0 < n <= v.len(),
    ensures
        0 <= k < n,
        forall|m: int| 0 <= m < n ==> #[trigger] v[m] <= v[k],
        forall|m: int| 0 <= m < k ==> #[trigger] v[m] < v[k],
    decreases n,
{
    if n == 1 {
        0
    } else {
        let k = lemma_first_greatest(v, n - 1);
        if v[n - 1] > v[k] {
            n - 1
        } else {
            k
        }
    }
}

/// Debris that sounds like no major joins the temporally nearest one: the
/// distance between the middles to the segment whose speaker it takes is, before
/// and behind it alike, no greater than that to any segment of a major, and less
/// than that to any earlier one.
pub proof fn law_debris_joins_the_nearest(
    o: OversplitView,
    segs: Seq<HelperSegment>,
    voices: Seq<Option<Vec<i64>>>,
    i: int,
    label: i32,
)
    requires
        o.wf(),
        0 <= i < segs.len() == voices.len(),
        labelled(o, segs, voices, i, label),
        !o.majors.contains(lookup(o.remap, segs[i].speaker)),
        voices[i] matches Some(w) ==> segs[i].end - segs[i].start < 250_000_000 || forall|k: int|
            0 <= k < w@.len() ==> #[trigger] w@[k] < 600_000_000,
    ensures
        exists|j: int|
            0 <= j < segs.len() && label == lookup(o.remap, (#[trigger] segs[j]).speaker)
                && o.majors.contains(label) && (forall|k: int|
                0 <= k < segs.len() && o.majors.contains(
                    lookup(o.remap, (#[trigger] segs[k]).speaker),
                ) ==> {
                    let near = (segs[i].start + segs[i].end) - (segs[j].start + segs[j].end);
                    let far = (segs[i].start + segs[i].end) - (segs[k].start + segs[k].end);
                    &&& near <= far || near <= -far
                    &&& -near <= far || -near <= -far
                    &&& k < j ==> near != far && near != -far
                }),
{
    if exists|k: int| #[trigger] sounds_like(segs[i], voices[i], k) {
        let k = choose|k: int| #[trigger] sounds_like(segs[i], voices[i], k);
        let w = voices[i]->0;
        assert(w@[k] >= 600_000_000);
    }
    let j = choose|j: int|
        #[trigger] nearest_major(o, segs, i, j) && label == lookup(o.remap, segs[j].speaker);
    assert(belongs(o, segs, j));
    assert forall|k: int|
        0 <= k < segs.len() && o.majors.contains(
            lookup(o.remap, (#[trigger] segs[k]).speaker),
        ) implies {
        let near = (segs[i].start + segs[i].end) - (segs[j].start + segs[j].end);
        let far = (segs[i].start + segs[i].end) - (segs[k].start + segs[k].end);
        &&& near <= far || near <= -far
        &&& -near <= far || -near <= -far
        &&& k < j ==> near != far && near != -far
    } by {
        assert(belongs(o, segs, k));
    }
    assert(label == lookup(o.remap, segs[j].speaker));
}

/// Every segment of no major is counted once: by voice when it lasts a quarter
/// of a second and is as similar to a major as it takes, else by time. The
/// others are not counted.
pub proof fn law_fold_counts(
    o: OversplitView,
    segs: Seq<HelperSegment>,
    voices: Seq<Option<Vec<i64>>>,
    n: int,
)
    requires
        o.wf(),
        0 <= n < segs.len() == voices.len(),
    ensures
        count_debris(o, segs, voices, 0, true) == 0,
        count_debris(o, segs, voices, 0, false) == 0,
        ({
            let stray = !o.majors.contains(lookup(o.remap, segs[n].speaker));
            let heard = segs[n].end - segs[n].start >= 250_000_000 && (voices[n] matches Some(v)
                && exists|k: int| 0 <= k < v@.len() && #[trigger] v@[k] >= 600_000_000);
            &&& count_debris(o, segs, voices, n + 1, true) - count_debris(o, segs, voices, n, true)
                == if stray && heard { 1int } else { 0 }
            &&& count_debris(o, segs, voices, n + 1, false) - count_debris(
                o,
                segs,
                voices,
                n,
                false,
            ) == if stray && !heard { 1int } else { 0 }
        }),
{
    let heard = segs[n].end - segs[n].start >= 250_000_000 && (voices[n] matches Some(v)
        && exists|k: int| 0 <= k < v@.len() && #[trigger] v@[k] >= 600_000_000);
    if heard {
        let v = voices[n]->0@;
        let loud = choose|k: int| 0 <= k < v.len() && #[trigger] v[k] >= 600_000_000;
        let best = lemma_first_greatest(v, v.len() as int);
        assert(v[loud] <= v[best]);
        assert(sounds_like(segs[n], voices[n], best));
    }
    if exists|k: int| #[trigger] sounds_like(segs[n], voices[n], k) {
        let k = choose|k: int| #[trigger] sounds_like(segs[n], voices[n], k);
        let w = voices[n]->0;
        assert(w@[k] >= 600_000_000);
    }
}

/// Speakers are numbered in the order in which they are first heard, and no
/// number goes unused.
pub proof fn law_numbered_by_appearance(segs: Seq<HelperSegment>, i: int, j: int, a: int, b: int)
    requires
        0 <= i < j < segs.len(),
        0 <= a < cast(segs).len(),
        0 <= b < cast(segs).len(),
        cast(segs)[a] == segs[i].speaker,
        cast(segs)[b] == segs[j].speaker,
        forall|k: int| 0 <= k < j ==> (#[trigger] segs[k]).speaker != segs[j].speaker,
    ensures
        a < b,
        cast(segs).len() <= segs.len(),
        forall|c: int|
            0 <= c < cast(segs).len() ==> exists|k: int|
                0 <= k < segs.len() && (#[trigger] segs[k]).speaker == #[trigger] cast(segs)[c],
{
    let n = segs.len() as int;
    lemma_cast(segs, n);
    lemma_cast_grows(segs, j, n);
    lemma_cast(segs, j);
    lemma_cast_heard(segs, j);
    lemma_cast_heard(segs, n);
    let head = cast_upto(segs, j);
    assert(head.contains(segs[i].speaker));
    let at = choose|at: int| 0 <= at < head.len() && head[at] == segs[i].speaker;
    assert(cast(segs)[at] == head[at]);
    assert(a == at);
    if b < head.len() {
        assert(head[b] == segs[j].speaker);
        let k = choose|k: int| 0 <= k < j && (#[trigger] segs[k]).speaker == head[b];
        assert(segs[k].speaker != segs[j].speaker);
    }
}

/// Later segments only add to the list of speakers.
proof fn lemma_cast_grows(segs: Seq<HelperSegment>, m: int, n: int)
    requires
        0 <= m <= n <= segs.len(),
    ensures
        cast_upto(segs, m).len() <= cast_upto(segs, n).len(),
        forall|k: int|
            0 <= k < cast_upto(segs, m).len() ==> #[trigger] cast_upto(segs, n)[k] == cast_upto(
                segs,
                m,
            )[k],
    decreases n,
{
    if m < n {
        lemma_cast_grows(segs, m, n - 1);
    }
}

/// Every speaker in the list is heard.
proof fn lemma_cast_heard(segs: Seq<HelperSegment>, n: int)
    requires
        0 <= n <= segs.len(),
    ensures
        forall|c: int|
            0 <= c < cast_upto(segs, n).len() ==> exists|k: int|
                0 <= k < n && (#[trigger] segs[k]).speaker == #[trigger] cast_upto(segs, n)[c],
    decreases n,
{
    if n > 0 {
        lemma_cast_heard(segs, n - 1);
        let head = cast_upto(segs, n - 1);
        let all = cast_upto(segs, n);
        assert forall|c: int| 0 <= c < all.len() implies exists|k: int|
            0 <= k < n && (#[trigger] segs[k]).speaker == #[trigger] all[c] by {
            if c < head.len() {
                assert(all[c] == head[c]);
                let k = choose|k: int| 0 <= k < n - 1 && (#[trigger] segs[k]).speaker == head[c];
                assert(segs[k].speaker == all[c]);
            } else {
                assert(segs[n - 1].speaker == all[c]);
            }
        }
    }
}

/// The samples that a voice is taken from: all of a span of up to twelve
/// seconds, else the twelve seconds around its middle, as far as there are
/// samples.
pub proof fn law_span_samples(start: Nanos, end: Nanos, rate: int, len: int, t: int, u: int)
    requires
        start <= end,
        rate > 0,
        len >= 0,
    ensures
        end - start <= 12_000_000_000 ==> cropped(start as int, end as int) == (
            start as int,
            end as int,
        ),
        end - start > 12_000_000_000 ==> {
            let (s, e) = cropped(start as int, end as int);
            &&& e - s == 12_000_000_000
            &&& start <= s && e <= end
            &&& 0 <= (start + end) - (s + e) <= 1
        },
        0 <= sample_at(t, rate, len) <= len,
        t <= 0 ==> sample_at(t, rate, len) == 0,
        t <= u ==> sample_at(t, rate, len) <= sample_at(u, rate, len),
        0 <= t && t * rate < len * 1_000_000_000 ==> {
            let at = sample_at(t, rate, len);
            at * 1_000_000_000 <= t * rate < (at + 1) * 1_000_000_000
        },
        0 <= t && t * rate >= len * 1_000_000_000 ==> sample_at(t, rate, len) == len,
{
    if t > 0 {
        assert(0 <= t * rate) by (nonlinear_arith)
            requires
                t > 0,
                rate > 0,
        ;
        if t <= u {
            assert(t * rate <= u * rate) by (nonlinear_arith)
                requires
                    t <= u,
                    rate > 0,
            ;
        }
    }
    if u > 0 {
        assert(0 <= u * rate) by (nonlinear_arith)
            requires
                u > 0,
                rate > 0,
        ;
    }
    if t == 0 {
        assert(t * rate == 0) by (nonlinear_arith)
            requires
                t == 0,
        ;
    }
}

// ---------------------------------------------------------------------
// Progress and threads

/// The progress to report after a chunk, when it is more than what was
/// reported last.
pub fn chunk_progress(processed: i32, total: i32, last_pct: i32) -> (r: Option<i32>)
    ensures
        total <= 0 ==> r is None,
        total > 0 ==> {
            let pct = if processed <= 0 {
                0
            } else if processed >= total {
                100
            } else {
                processed * 100 / total as int
            };
            r == if pct > last_pct {
                Some(pct as i32)
            } else {
                None
            }
        },
{
    if total <= 0 {
        return None;
    }
    let pct: i32 = if processed <= 0 {
        0
    } else if processed >= total {
        100
    } else {
        proof {
            assert(0 <= processed * 100 / total as int <= 100) by (nonlinear_arith)
                requires
                    0 < processed < total,
            ;
        }
        (processed as u64 * 100 / total as u64) as i32
    };
    if pct > last_pct {
        Some(pct)
    } else {
        None
    }
}

/// The number of threads to use: the performance cores where they are known, up
/// to eight, else half of the logical ones, up to four.
pub fn default_num_threads(performance_cores: Option<i32>, logical: i32) -> (r: i32)
    ensures
        match performance_cores {
            Some(p) => r == if p < 1 {
                1
            } else if p > 8 {
                8
            } else {
                p as int
            },
            None => r == if logical < 2 {
                1
            } else if logical / 2 > 4 {
                4
            } else {
                logical / 2
            },
        },
{
    match performance_cores {
        Some(p) => {
            if p < 1 {
                1
            } else if p > 8 {
                8
            } else {
                p
            }
        },
        None => {
            if logical < 2 {
                1
            } else if logical / 2 > 4 {
                4
            } else {
                logical / 2
            }
        },
    }
}

} // verus!
