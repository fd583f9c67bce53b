//! Channel identity of stereo recordings.
//!
//! Recordings are saved with the local microphone on the left channel and
//! system audio, all remote parties, on the right. The left channel is thus a
//! ground-truth signal for the local user speaking. Its activity is overlaid as
//! a speaker of its own onto the segments found in the system channel.
use vstd::prelude::*;
use crate::diarization::{DiarizedSegment, LOCAL_SPEAKER};
use crate::json;
use crate::text;
use crate::timeline::Nanos;

verus! {

/// The metadata marker of stereo recordings with channel identity.
pub const MIC_SYSTEM_LAYOUT: &'static str = "mic-left-system-right";

/// Analysis frame length in milliseconds.
pub const FRAME_MS: u64 = 50;

/// Speech threshold of the microphone channel: root mean square amplitude in
/// billionths of full scale.
pub const MIC_RMS_THRESHOLD: u64 = 10_000_000;

/// Gaps up to this many milliseconds between active frames are bridged.
pub const MERGE_GAP_MS: u64 = 400;

/// Active islands shorter than this many milliseconds are dropped.
pub const MIN_ON_MS: u64 = 200;

/// Remote pieces shorter than this many nanoseconds are dropped.
pub const MIN_PIECE_NS: i64 = 50_000_000;

// ---------------------------------------------------------------------
// Layout

/// The channel layout that a metadata text names.
pub open spec fn layout_of(raw: Seq<char>) -> Option<Seq<char>> {
    match json::json_of(raw) {
        Some(v) => json::member_text(v, "channel_layout"@),
        None => None,
    }
}

/// Read the channel layout from the text of a recording's metadata.
pub fn channel_layout(raw: &str) -> (r: Option<String>)
    ensures
        text::opt(r) == layout_of(raw@),
{
    match json::parse(raw) {
        Ok(value) => json::string_member(&value, "channel_layout"),
        Err(_) => None,
    }
}

/// Split interleaved stereo samples into microphone and system channel.
/// Nothing for other channel counts. A last sample without partner is dropped.
pub fn split_channels_16k<T: Copy>(samples: &[T], channels: u16) -> (r: Option<(Vec<T>, Vec<T>)>)
    ensures
        r is Some <==> channels == 2,
        r matches Some((mic, sys)) ==> {
            &&& mic@ == Seq::new(samples@.len() / 2, |i: int| samples@[2 * i])
            &&& sys@ == Seq::new(samples@.len() / 2, |i: int| samples@[2 * i + 1])
        },
{
    if channels != 2 {
        return None;
    }
    let n: usize = samples.len() / 2;
    let mut left: Vec<T> = Vec::new();
    let mut right: Vec<T> = Vec::new();
    let mut i: usize = 0;
    while i < n
        invariant
            i <= n,
            n == samples@.len() / 2,
            left@.len() == i,
            right@.len() == i,
            forall|k: int| 0 <= k < i ==> #[trigger] left@[k] == samples@[2 * k],
            forall|k: int| 0 <= k < i ==> #[trigger] right@[k] == samples@[2 * k + 1],
        decreases n - i,
    {
        assert(2 * i + 1 < samples.len());
        left.push(samples[2 * i]);
        right.push(samples[2 * i + 1]);
        i += 1;
    }
    assert(left@ =~= Seq::new(samples@.len() / 2, |i: int| samples@[2 * i]));
    assert(right@ =~= Seq::new(samples@.len() / 2, |i: int| samples@[2 * i + 1]));
    Some((left, right))
}

// ---------------------------------------------------------------------
// Activity of the microphone

/// The sum of the squared samples.
pub open spec fn energy(s: Seq<i32>) -> int
    decreases s.len(),
{
    if s.len() == 0 {
        0
    } else {
        energy(s.drop_last()) + s.last() * s.last()
    }
}

/// Samples per analysis frame.
pub open spec fn frame_len(rate: int) -> int {
    let n = rate * FRAME_MS / 1000;
    if n > 1 {
        n
    } else {
        1
    }
}

/// A microphone frame carries the local user's speech: its root mean square
/// lies above the threshold and is over six tenths of that of the system frame.
/// Loudspeaker bleed is a strongly attenuated copy, so it fails the ratio.
pub open spec fn active(mic: Seq<i32>, sys: Seq<i32>) -> bool {
    &&& energy(mic) > MIC_RMS_THRESHOLD * MIC_RMS_THRESHOLD * mic.len()
    &&& sys.len() == 0 || 25 * energy(mic) * sys.len() > 9 * energy(sys) * mic.len()
}

/// The lesser of two positions.
pub open spec fn lesser(a: int, b: int) -> int {
    if a <= b {
        a
    } else {
        b
    }
}

/// The intervals with `[start, end)` taken in: a short gap is bridged.
pub open spec fn extended(acc: Seq<(int, int)>, start: int, end: int, rate: int) -> Seq<(int, int)> {
    if acc.len() > 0 && (start - acc.last().1) * 1000 <= MERGE_GAP_MS * rate {
        acc.drop_last().push((acc.last().0, end))
    } else {
        acc.push((start, end))
    }
}

/// The frame of a channel from `start` to `end`, as far as there are samples.
pub open spec fn frame(s: Seq<i32>, start: int, end: int) -> Seq<i32> {
    s.subrange(lesser(start, s.len() as int), lesser(end, s.len() as int))
}

/// The active stretches, in samples, from `start` on, behind those in `acc`.
pub open spec fn stretches(
    mic: Seq<i32>,
    sys: Seq<i32>,
    rate: int,
    start: int,
    acc: Seq<(int, int)>,
) -> Seq<(int, int)>
    decreases mic.len() - start,
{
    if start >= mic.len() {
        acc
    } else {
        let end = lesser(start + frame_len(rate), mic.len() as int);
        let next = if active(frame(mic, start, end), frame(sys, start, end)) {
            extended(acc, start, end, rate)
        } else {
            acc
        };
        stretches(mic, sys, rate, end, next)
    }
}

/// A stretch is long enough to be speech.
pub open spec fn long_enough(x: (int, int), rate: int) -> bool {
    (x.1 - x.0) * 1000 >= MIN_ON_MS * rate
}

/// The instant of a sample position, rounded down.
pub open spec fn sample_ns(at: int, rate: int) -> int {
    at * 1_000_000_000 / rate
}

/// The active stretches that are long enough, in samples.
pub open spec fn speech_stretches(mic: Seq<i32>, sys: Seq<i32>, rate: int) -> Seq<(int, int)> {
    stretches(mic, sys, rate, 0, Seq::empty()).filter(|x: (int, int)| long_enough(x, rate))
}

/// The sum of the squared samples of `s[lo..hi]`.
fn energy_of(s: &[i32], lo: usize, hi: usize) -> (r: u128)
    requires
        lo <= hi <= s@.len(),
        hi - lo <= 0x1000_0000,
    ensures
        r == energy(s@.subrange(lo as int, hi as int)),
        r <= (hi - lo) * 0x4000_0000_0000_0000,
{
    let mut total: u128 = 0;
    let mut i: usize = lo;
    assert(s@.subrange(lo as int, lo as int) =~= Seq::<i32>::empty());
    while i < hi
        invariant
            lo <= i <= hi <= s@.len(),
            hi - lo <= 0x1000_0000,
            total == energy(s@.subrange(lo as int, i as int)),
            total <= (i - lo) * 0x4000_0000_0000_0000,
        decreases hi - i,
    {
        let x: i128 = s[i] as i128;
        proof {
            let t = s@.subrange(lo as int, i + 1);
            assert(t.drop_last() =~= s@.subrange(lo as int, i as int));
            assert(t.last() == s@[i as int]);
            assert(0 <= x * x <= 0x4000_0000_0000_0000) by (nonlinear_arith)
                requires
                    -0x8000_0000 <= x <= 0x7fff_ffff,
            ;
            assert((i - lo) * 0x4000_0000_0000_0000 + 0x4000_0000_0000_0000 == (i + 1 - lo)
                * 0x4000_0000_0000_0000) by (nonlinear_arith);
        }
        total = total + (x * x) as u128;
        i += 1;
    }
    total
}

/// Whether the frame `[start, end)` carries the local user's speech.
fn is_active(mic: &[i32], sys: &[i32], start: usize, end: usize) -> (r: bool)
    requires
        start < end <= mic@.len(),
        end - start <= 0x1000_0000,
    ensures
        r == active(
            frame(mic@, start as int, end as int),
            frame(sys@, start as int, end as int),
        ),
{
    let lo: usize = if start <= sys.len() {
        start
    } else {
        sys.len()
    };
    let hi: usize = if end <= sys.len() {
        end
    } else {
        sys.len()
    };
    let n: u128 = (end - start) as u128;
    let m: u128 = (hi - lo) as u128;
    let a: u128 = energy_of(mic, start, end);
    let b: u128 = energy_of(sys, lo, hi);
    proof {
        assert(n * 100_000_000_000_000 <= 0x1000_0000 * 100_000_000_000_000) by (nonlinear_arith)
            requires
                n <= 0x1000_0000,
        ;
        assert(a <= 0x1000_0000 * 0x4000_0000_0000_0000) by (nonlinear_arith)
            requires
                a <= n * 0x4000_0000_0000_0000,
                n <= 0x1000_0000,
        ;
        assert(b <= 0x1000_0000 * 0x4000_0000_0000_0000) by (nonlinear_arith)
            requires
                b <= m * 0x4000_0000_0000_0000,
                m <= 0x1000_0000,
        ;
        assert(25 * a * m <= 25 * (0x1000_0000 * 0x4000_0000_0000_0000) * 0x1000_0000)
            by (nonlinear_arith)
            requires
                a <= 0x1000_0000 * 0x4000_0000_0000_0000,
                m <= 0x1000_0000,
        ;
        assert(9 * b * n <= 9 * (0x1000_0000 * 0x4000_0000_0000_0000) * 0x1000_0000)
            by (nonlinear_arith)
            requires
                b <= 0x1000_0000 * 0x4000_0000_0000_0000,
                n <= 0x1000_0000,
        ;
        assert(MIC_RMS_THRESHOLD * MIC_RMS_THRESHOLD == 100_000_000_000_000) by (nonlinear_arith)
            requires
                MIC_RMS_THRESHOLD == 10_000_000,
        ;
    }
    if a <= 100_000_000_000_000u128 * n {
        return false;
    }
    m == 0 || 25 * a * m > 9 * b * n
}

/// The instant of a sample position, rounded down.
fn ns_of(at: usize, rate: u32) -> (r: Nanos)
    requires
        rate > 0,
        at * 1_000_000_000 <= i64::MAX * rate,
    ensures
        r == sample_ns(at as int, rate as int),
{
    let x: u128 = at as u128 * 1_000_000_000 / rate as u128;
    proof {
        assert(at * 1_000_000_000 / rate as int <= i64::MAX) by (nonlinear_arith)
            requires
                rate > 0,
                at * 1_000_000_000 <= i64::MAX * rate,
        ;
    }
    x as i64
}

/// The intervals in which the microphone channel carries the local user's
/// speech. Both channels are sampled at `sample_rate`.
pub fn mic_activity_intervals(mic: &[i32], sys: &[i32], sample_rate: u32) -> (r: Vec<(Nanos, Nanos)>)
    requires
        sample_rate > 0,
        mic@.len() * 1_000_000_000 <= i64::MAX * sample_rate,
    ensures
        ({
            let found = speech_stretches(mic@, sys@, sample_rate as int);
            &&& r@.len() == found.len()
            &&& forall|i: int|
                0 <= i < r@.len() ==> {
                    &&& (#[trigger] r@[i]).0 == sample_ns(found[i].0, sample_rate as int)
                    &&& r@[i].1 == sample_ns(found[i].1, sample_rate as int)
                }
        }),
{
    let rate: u64 = sample_rate as u64;
    let per: u64 = rate * 50 / 1000;
    let step: usize = if per > 1 {
        per as usize
    } else {
        1
    };
    let n: usize = mic.len();
    let mut found: Vec<(usize, usize)> = Vec::new();
    let ghost mut acc: Seq<(int, int)> = Seq::empty();
    let ghost whole = stretches(mic@, sys@, rate as int, 0, Seq::empty());
    let mut start: usize = 0;
    while start < n
        invariant
            n == mic@.len(),
            start <= n,
            rate == sample_rate,
            step == frame_len(rate as int),
            1 <= step <= 0x1000_0000,
            acc == pairs(found@),
            ends_by(acc, start as int),
            stretches(mic@, sys@, rate as int, start as int, acc) == whole,
        decreases n - start,
    {
        let end: usize = if n - start > step {
            start + step
        } else {
            n
        };
        if is_active(mic, sys, start, end) {
            let k: usize = found.len();
            let ghost held = found@;
            let bridge: bool = k > 0 && (start - found[k - 1].1) as u128 * 1000 <= 400 * rate as u128;
            if bridge {
                let first: usize = found[k - 1].0;
                found.set(k - 1, (first, end));
                assert(pairs(found@) =~= pairs(held).drop_last().push((first as int, end as int)));
            } else {
                found.push((start, end));
                assert(pairs(found@) =~= pairs(held).push((start as int, end as int)));
            }
            proof {
                acc = extended(acc, start as int, end as int, rate as int);
            }
        }
        start = end;
    }
    let mut out: Vec<(Nanos, Nanos)> = Vec::new();
    let ghost pred = |x: (int, int)| long_enough(x, rate as int);
    let mut i: usize = 0;
    reveal(Seq::filter);
    while i < found.len()
        invariant
            i <= found@.len(),
            rate == sample_rate,
            sample_rate > 0,
            mic@.len() * 1_000_000_000 <= i64::MAX * sample_rate,
            pred == (|x: (int, int)| long_enough(x, rate as int)),
            acc == pairs(found@),
            ends_by(acc, mic@.len() as int),
            ({
                let some = acc.take(i as int).filter(pred);
                &&& out@.len() == some.len()
                &&& forall|k: int|
                    0 <= k < out@.len() ==> {
                        &&& (#[trigger] out@[k]).0 == sample_ns(some[k].0, rate as int)
                        &&& out@[k].1 == sample_ns(some[k].1, rate as int)
                    }
            }),
        decreases found@.len() - i,
    {
        let (s, e) = found[i];
        proof {
            reveal(Seq::filter);
            assert(acc[i as int] == (s as int, e as int));
            assert(acc.take(i + 1).drop_last() =~= acc.take(i as int));
            assert(s * 1_000_000_000 <= mic@.len() * 1_000_000_000);
            assert(e * 1_000_000_000 <= mic@.len() * 1_000_000_000);
        }
        if (e - s) as u128 * 1000 >= 200 * rate as u128 {
            out.push((ns_of(s, sample_rate), ns_of(e, sample_rate)));
        }
        i += 1;
    }
    assert(acc.take(i as int) =~= acc);
    out
}

/// Machine pairs as integer pairs.
pub open spec fn pairs(v: Seq<(usize, usize)>) -> Seq<(int, int)> {
    Seq::new(v.len(), |i: int| (v[i].0 as int, v[i].1 as int))
}

/// The stretches are in order and apart, none is empty, and all end by `at`.
pub open spec fn ends_by(acc: Seq<(int, int)>, at: int) -> bool {
    &&& forall|i: int| 0 <= i < acc.len() ==> 0 <= (#[trigger] acc[i]).0 < acc[i].1 <= at
    &&& forall|i: int, j: int| 0 <= i < j < acc.len() ==> (#[trigger] acc[i]).1 < (#[trigger] acc[j]).0
}

/// Stretch `b` begins more than the bridged gap after the end of `a`.
pub open spec fn far_behind(a: (int, int), b: (int, int), rate: int) -> bool {
    (b.0 - a.1) * 1000 > MERGE_GAP_MS * rate
}

/// Any two stretches are further apart than the gap that is bridged.
pub open spec fn spaced(acc: Seq<(int, int)>, rate: int) -> bool {
    forall|i: int, j: int|
        0 <= i < j < acc.len() ==> far_behind(#[trigger] acc[i], #[trigger] acc[j], rate)
}

/// One more frame keeps the stretches in order and spaced.
proof fn lemma_extended(acc: Seq<(int, int)>, start: int, end: int, rate: int)
    requires
        rate > 0,
        0 <= start < end,
        ends_by(acc, start),
        spaced(acc, rate),
    ensures
        ends_by(extended(acc, start, end, rate), end),
        spaced(extended(acc, start, end, rate), rate),
{
    let next = extended(acc, start, end, rate);
    let n = acc.len() as int;
    if n > 0 && (start - acc.last().1) * 1000 <= MERGE_GAP_MS * rate {
        assert(next.len() == n);
        assert forall|i: int, j: int| 0 <= i < j < n implies far_behind(
            #[trigger] next[i],
            #[trigger] next[j],
            rate,
        ) && next[i].1 < next[j].0 by {
            assert(next[i] == acc[i] && next[j].0 == acc[j].0);
            assert(far_behind(acc[i], acc[j], rate));
        }
        assert forall|i: int| 0 <= i < n implies 0 <= (#[trigger] next[i]).0 < next[i].1 <= end by {
            assert(0 <= acc[i].0 < acc[i].1 <= start);
        }
    } else {
        assert(next.len() == n + 1);
        assert forall|i: int, j: int| 0 <= i < j < n + 1 implies far_behind(
            #[trigger] next[i],
            #[trigger] next[j],
            rate,
        ) && next[i].1 < next[j].0 by {
            assert(next[i] == acc[i]);
            if j < n {
                assert(next[j] == acc[j]);
                assert(far_behind(acc[i], acc[j], rate));
            } else if i < n - 1 {
                assert(acc[i].1 < acc[n - 1].0 < acc[n - 1].1);
            }
        }
        assert forall|i: int| 0 <= i < n + 1 implies 0 <= (#[trigger] next[i]).0 < next[i].1
            <= end by {
            if i < n {
                assert(next[i] == acc[i]);
                assert(0 <= acc[i].0 < acc[i].1 <= start);
            }
        }
    }
}

proof fn lemma_stretches(
    mic: Seq<i32>,
    sys: Seq<i32>,
    rate: int,
    start: int,
    acc: Seq<(int, int)>,
)
    requires
        rate > 0,
        0 <= start <= mic.len(),
        ends_by(acc, start),
        spaced(acc, rate),
    ensures
        ends_by(stretches(mic, sys, rate, start, acc), mic.len() as int),
        spaced(stretches(mic, sys, rate, start, acc), rate),
    decreases mic.len() - start,
{
    if start < mic.len() {
        let end = lesser(start + frame_len(rate), mic.len() as int);
        if active(frame(mic, start, end), frame(sys, start, end)) {
            lemma_extended(acc, start, end, rate);
            lemma_stretches(mic, sys, rate, end, extended(acc, start, end, rate));
        } else {
            lemma_stretches(mic, sys, rate, end, acc);
        }
    }
}

/// The local user's stretches lie inside the recording, in order, further apart
/// than the gap that is bridged, and each lasts at least the minimum.
pub proof fn law_speech_stretches(mic: Seq<i32>, sys: Seq<i32>, rate: int)
    requires
        rate > 0,
    ensures
        ends_by(speech_stretches(mic, sys, rate), mic.len() as int),
        spaced(speech_stretches(mic, sys, rate), rate),
        forall|i: int|
            0 <= i < speech_stretches(mic, sys, rate).len() ==> long_enough(
                #[trigger] speech_stretches(mic, sys, rate)[i],
                rate,
            ),
{
    let all = stretches(mic, sys, rate, 0, Seq::empty());
    let pred = |x: (int, int)| long_enough(x, rate);
    lemma_stretches(mic, sys, rate, 0, Seq::empty());
    lemma_filter_stretches(all, pred, mic.len() as int, rate);
}

/// Dropping stretches keeps the others in order and spaced.
proof fn lemma_filter_stretches(
    all: Seq<(int, int)>,
    pred: spec_fn((int, int)) -> bool,
    at: int,
    rate: int,
)
    requires
        ends_by(all, at),
        spaced(all, rate),
    ensures
        ends_by(all.filter(pred), at),
        spaced(all.filter(pred), rate),
        forall|i: int| 0 <= i < all.filter(pred).len() ==> pred(#[trigger] all.filter(pred)[i]),
        forall|i: int|
            0 <= i < all.filter(pred).len() ==> all.contains(#[trigger] all.filter(pred)[i]),
    decreases all.len(),
{
    reveal(Seq::filter);
    if all.len() > 0 {
        let n = all.len() - 1;
        let init = all.drop_last();
        assert(ends_by(init, at)) by {
            assert forall|i: int, j: int| 0 <= i < j < init.len() implies (#[trigger] init[i]).1 < (
            #[trigger] init[j]).0 by {
                assert(all[i].1 < all[j].0);
            }
            assert forall|i: int| 0 <= i < init.len() implies 0 <= (#[trigger] init[i]).0
                < init[i].1 <= at by {
                assert(0 <= all[i].0 < all[i].1 <= at);
            }
        }
        assert(spaced(init, rate)) by {
            assert forall|i: int, j: int| 0 <= i < j < init.len() implies far_behind(
                #[trigger] init[i],
                #[trigger] init[j],
                rate,
            ) by {
                assert(far_behind(all[i], all[j], rate));
            }
        }
        lemma_filter_stretches(init, pred, at, rate);
        let head = init.filter(pred);
        let out = all.filter(pred);
        assert forall|i: int| 0 <= i < out.len() implies all.contains(#[trigger] out[i]) by {
            if i < head.len() {
                assert(out[i] == head[i]);
                let k = choose|k: int| 0 <= k < init.len() && init[k] == head[i];
                assert(all[k] == out[i]);
            } else {
                assert(all[n] == out[i]);
            }
        }
        assert forall|i: int, j: int| 0 <= i < j < out.len() implies far_behind(
            #[trigger] out[i],
            #[trigger] out[j],
            rate,
        ) && out[i].1 < out[j].0 by {
            assert(out[i] == head[i]);
            if j < head.len() {
                assert(out[j] == head[j]);
                assert(far_behind(head[i], head[j], rate));
                assert(head[i].1 < head[j].0);
            } else {
                let k = choose|k: int| 0 <= k < init.len() && init[k] == head[i];
                assert(all[k] == head[i]);
                assert(far_behind(all[k], all[n], rate));
                assert(all[k].1 < all[n].0);
            }
        }
    }
}

/// The energy of joined parts is that of the parts together, one sample counts
/// its square, and silence has none.
pub proof fn law_energy(a: Seq<i32>, b: Seq<i32>, x: i32)
    ensures
        energy(a + b) == energy(a) + energy(b),
        energy(seq![x]) == x * x,
        (forall|k: int| 0 <= k < a.len() ==> #[trigger] a[k] == 0) ==> energy(a) == 0,
    decreases a.len() + b.len(),
{
    let none = Seq::<i32>::empty();
    assert(seq![x].drop_last() =~= none);
    assert(energy(none) == 0);
    assert(energy(seq![x]) == energy(none) + seq![x].last() * seq![x].last());
    if b.len() == 0 {
        assert(a + b =~= a);
        if a.len() > 0 {
            law_energy(a.drop_last(), b, x);
            assert(a.last() == a[a.len() - 1]);
            if forall|k: int| 0 <= k < a.len() ==> #[trigger] a[k] == 0 {
                assert forall|k: int| 0 <= k < a.drop_last().len() implies #[trigger] a.drop_last()[k]
                    == 0 by {
                    assert(a[k] == 0);
                }
                assert(a.last() * a.last() == 0) by (nonlinear_arith)
                    requires
                        a.last() == 0,
                ;
            }
        }
    } else {
        law_energy(a, b.drop_last(), x);
        assert((a + b).drop_last() =~= a + b.drop_last());
        assert((a + b).last() == b.last());
    }
}

/// A frame of fifty milliseconds, or one sample where that is none.
pub open spec fn frame_step(rate: int) -> int {
    if rate * 50 / 1000 > 1 {
        rate * 50 / 1000
    } else {
        1
    }
}

/// Where the frame that starts at `f` ends.
pub open spec fn frame_end(len: int, rate: int, f: int) -> int {
    if f + frame_step(rate) <= len {
        f + frame_step(rate)
    } else {
        len
    }
}

/// A frame starts at sample `f`, and the local user speaks in it: the mean
/// square of the microphone is above that of a hundredth of full scale, and
/// above nine twenty-fifths of that of the system channel, as far as that goes.
pub open spec fn heard_at(mic: Seq<i32>, sys: Seq<i32>, rate: int, f: int) -> bool {
    let e = frame_end(mic.len() as int, rate, f);
    let m = mic.subrange(f, e);
    let from = if f <= sys.len() { f } else { sys.len() as int };
    let to = if e <= sys.len() { e } else { sys.len() as int };
    let s = sys.subrange(from, to);
    &&& 0 <= f < mic.len()
    &&& f % frame_step(rate) == 0
    &&& energy(m) > 100_000_000_000_000 * m.len()
    &&& s.len() == 0 || 25 * energy(m) * s.len() > 9 * energy(s) * m.len()
}

/// The samples from `a` to `b` lie inside one of the stretches.
pub open spec fn inside_some(all: Seq<(int, int)>, a: int, b: int) -> bool {
    exists|k: int| 0 <= k < all.len() && (#[trigger] all[k]).0 <= a && b <= all[k].1
}

/// The stretch starts and ends with frames in which the local user speaks, and
/// no sample of it is further than the bridged gap behind such a frame.
pub open spec fn grounded(mic: Seq<i32>, sys: Seq<i32>, rate: int, x: (int, int)) -> bool {
    &&& heard_at(mic, sys, rate, x.0)
    &&& exists|g: int|
        x.0 <= g < x.1 && frame_end(mic.len() as int, rate, g) == x.1 && #[trigger] heard_at(
            mic,
            sys,
            rate,
            g,
        )
    &&& forall|p: int|
        x.0 <= p < x.1 ==> #[trigger] close_behind(mic, sys, rate, x.0, p)
}

/// Sample `p` stands in or at most four tenths of a second behind a frame, not
/// before `from`, in which the local user speaks.
pub open spec fn close_behind(mic: Seq<i32>, sys: Seq<i32>, rate: int, from: int, p: int) -> bool {
    exists|g: int|
        from <= g <= p && (p - frame_end(mic.len() as int, rate, g)) * 1000 <= 400 * rate
            && #[trigger] heard_at(mic, sys, rate, g)
}

/// One more frame in which the local user speaks keeps every stretch grounded
/// and what they hold.
proof fn lemma_extended_grounded(
    mic: Seq<i32>,
    sys: Seq<i32>,
    rate: int,
    acc: Seq<(int, int)>,
    start: int,
    end: int,
)
    requires
        rate > 0,
        0 <= start < end,
        end == frame_end(mic.len() as int, rate, start),
        heard_at(mic, sys, rate, start),
        ends_by(acc, start),
        forall|i: int| 0 <= i < acc.len() ==> grounded(mic, sys, rate, #[trigger] acc[i]),
    ensures
        forall|i: int|
            0 <= i < extended(acc, start, end, rate).len() ==> grounded(
                mic,
                sys,
                rate,
                #[trigger] extended(acc, start, end, rate)[i],
            ),
        inside_some(extended(acc, start, end, rate), start, end),
        forall|a: int, b: int| #[trigger]
            inside_some(acc, a, b) ==> inside_some(extended(acc, start, end, rate), a, b),
{
    let next = extended(acc, start, end, rate);
    let n = acc.len() as int;
    let len = mic.len() as int;
    if n > 0 && (start - acc.last().1) * 1000 <= MERGE_GAP_MS * rate {
        let x = next[n - 1];
        let was = acc[n - 1];
        assert(x == (was.0, end));
        assert(grounded(mic, sys, rate, was));
        assert(grounded(mic, sys, rate, x)) by {
            assert(heard_at(mic, sys, rate, start) && frame_end(len, rate, start) == x.1);
            assert forall|p: int| x.0 <= p < x.1 implies #[trigger] close_behind(
                mic,
                sys,
                rate,
                x.0,
                p,
            ) by {
                if p < was.1 {
                    assert(close_behind(mic, sys, rate, was.0, p));
                } else if p < start {
                    let g = choose|g: int|
                        was.0 <= g < was.1 && frame_end(len, rate, g) == was.1 && #[trigger] heard_at(
                            mic,
                            sys,
                            rate,
                            g,
                        );
                    assert((p - was.1) * 1000 <= 400 * rate);
                } else {
                    assert((p - end) * 1000 <= 400 * rate);
                    assert(heard_at(mic, sys, rate, start));
                }
            }
        }
        assert forall|i: int| 0 <= i < next.len() implies grounded(
            mic,
            sys,
            rate,
            #[trigger] next[i],
        ) by {
            if i < n - 1 {
                assert(next[i] == acc[i]);
            }
        }
        assert(x.0 <= start && end <= x.1);
        assert forall|a: int, b: int| #[trigger] inside_some(acc, a, b) implies inside_some(
            next,
            a,
            b,
        ) by {
            let k = choose|k: int| 0 <= k < acc.len() && (#[trigger] acc[k]).0 <= a && b <= acc[k].1;
            assert(next[k].0 == acc[k].0 && acc[k].1 <= next[k].1);
        }
    } else {
        let x = next[n];
        assert(x == (start, end));
        assert(grounded(mic, sys, rate, x)) by {
            assert(heard_at(mic, sys, rate, start) && frame_end(len, rate, start) == x.1);
            assert forall|p: int| x.0 <= p < x.1 implies #[trigger] close_behind(
                mic,
                sys,
                rate,
                x.0,
                p,
            ) by {
                assert((p - end) * 1000 <= 400 * rate);
                assert(heard_at(mic, sys, rate, start));
            }
        }
        assert forall|i: int| 0 <= i < next.len() implies grounded(
            mic,
            sys,
            rate,
            #[trigger] next[i],
        ) by {
            if i < n {
                assert(next[i] == acc[i]);
            }
        }
        assert(x.0 <= start && end <= x.1);
        assert forall|a: int, b: int| #[trigger] inside_some(acc, a, b) implies inside_some(
            next,
            a,
            b,
        ) by {
            let k = choose|k: int| 0 <= k < acc.len() && (#[trigger] acc[k]).0 <= a && b <= acc[k].1;
            assert(next[k] == acc[k]);
        }
    }
}

/// A frame is active exactly when the local user speaks in it.
proof fn lemma_active(mic: Seq<i32>, sys: Seq<i32>, rate: int, f: int)
    requires
        rate > 0,
        0 <= f < mic.len(),
        f % frame_step(rate) == 0,
    ensures
        lesser(f + frame_len(rate), mic.len() as int) == frame_end(mic.len() as int, rate, f),
        f < frame_end(mic.len() as int, rate, f) <= mic.len(),
        active(
            frame(mic, f, frame_end(mic.len() as int, rate, f)),
            frame(sys, f, frame_end(mic.len() as int, rate, f)),
        ) <==> heard_at(mic, sys, rate, f),
{
    assert(MIC_RMS_THRESHOLD * MIC_RMS_THRESHOLD == 100_000_000_000_000) by (nonlinear_arith)
        requires
            MIC_RMS_THRESHOLD == 10_000_000,
    ;
}

proof fn lemma_stretches_hear(
    mic: Seq<i32>,
    sys: Seq<i32>,
    rate: int,
    start: int,
    acc: Seq<(int, int)>,
)
    requires
        rate > 0,
        0 <= start <= mic.len(),
        start < mic.len() ==> start % frame_step(rate) == 0,
        ends_by(acc, start),
        spaced(acc, rate),
        forall|i: int| 0 <= i < acc.len() ==> grounded(mic, sys, rate, #[trigger] acc[i]),
    ensures
        forall|i: int|
            0 <= i < stretches(mic, sys, rate, start, acc).len() ==> grounded(
                mic,
                sys,
                rate,
                #[trigger] stretches(mic, sys, rate, start, acc)[i],
            ),
        forall|a: int, b: int| #[trigger]
            inside_some(acc, a, b) ==> inside_some(stretches(mic, sys, rate, start, acc), a, b),
        forall|f: int|
            start <= f && #[trigger] heard_at(mic, sys, rate, f) ==> inside_some(
                stretches(mic, sys, rate, start, acc),
                f,
                frame_end(mic.len() as int, rate, f),
            ),
    decreases mic.len() - start,
{
    let len = mic.len() as int;
    if start < len {
        let step = frame_step(rate);
        let end = frame_end(len, rate, start);
        lemma_active(mic, sys, rate, start);
        if end < len {
            assert(end % step == 0) by (nonlinear_arith)
                requires
                    start % step == 0,
                    end == start + step,
                    step > 0,
            ;
        }
        let now = heard_at(mic, sys, rate, start);
        let next = if now {
            extended(acc, start, end, rate)
        } else {
            acc
        };
        if now {
            lemma_extended(acc, start, end, rate);
            lemma_extended_grounded(mic, sys, rate, acc, start, end);
        }
        lemma_stretches_hear(mic, sys, rate, end, next);
        let out = stretches(mic, sys, rate, start, acc);
        assert(out == stretches(mic, sys, rate, end, next));
        assert forall|f: int| start <= f && #[trigger] heard_at(mic, sys, rate, f) implies inside_some(
            out,
            f,
            frame_end(len, rate, f),
        ) by {
            if f == start {
                assert(inside_some(next, start, end));
            } else if f < end {
                assert(false) by (nonlinear_arith)
                    requires
                        start % step == 0,
                        f % step == 0,
                        start < f < start + step,
                        step > 0,
                ;
            }
        }
    }
}

/// No speech is lost, and none invented: every frame in which the local user
/// speaks lies inside a stretch, every stretch starts and ends with such a
/// frame, and inside it no sample is more than the bridged gap behind one.
pub proof fn law_no_speech_is_lost(mic: Seq<i32>, sys: Seq<i32>, rate: int, f: int, k: int)
    requires
        rate > 0,
    ensures
        heard_at(mic, sys, rate, f) ==> inside_some(
            stretches(mic, sys, rate, 0, Seq::empty()),
            f,
            frame_end(mic.len() as int, rate, f),
        ),
        0 <= k < stretches(mic, sys, rate, 0, Seq::empty()).len() ==> grounded(
            mic,
            sys,
            rate,
            stretches(mic, sys, rate, 0, Seq::empty())[k],
        ),
        0 <= k < speech_stretches(mic, sys, rate).len() ==> grounded(
            mic,
            sys,
            rate,
            speech_stretches(mic, sys, rate)[k],
        ),
{
    let all = stretches(mic, sys, rate, 0, Seq::empty());
    assert(0int % frame_step(rate) == 0) by (nonlinear_arith)
        requires
            frame_step(rate) > 0,
    ;
    lemma_stretches_hear(mic, sys, rate, 0, Seq::empty());
    lemma_stretches(mic, sys, rate, 0, Seq::empty());
    let pred = |x: (int, int)| long_enough(x, rate);
    lemma_filter_stretches(all, pred, mic.len() as int, rate);
    if 0 <= k < speech_stretches(mic, sys, rate).len() {
        assert(all.contains(all.filter(pred)[k]));
    }
}

/// Two frames in which the local user speaks, no further apart than the bridged
/// gap, lie inside one stretch.
pub proof fn law_short_gaps_are_bridged(mic: Seq<i32>, sys: Seq<i32>, rate: int, f: int, g: int)
    requires
        rate > 0,
        f <= g,
        heard_at(mic, sys, rate, f),
        heard_at(mic, sys, rate, g),
        (g - frame_end(mic.len() as int, rate, f)) * 1000 <= 400 * rate,
    ensures
        inside_some(
            stretches(mic, sys, rate, 0, Seq::empty()),
            f,
            frame_end(mic.len() as int, rate, g),
        ),
{
    let all = stretches(mic, sys, rate, 0, Seq::empty());
    let len = mic.len() as int;
    let (a, b) = (frame_end(len, rate, f), frame_end(len, rate, g));
    law_no_speech_is_lost(mic, sys, rate, f, -1);
    law_no_speech_is_lost(mic, sys, rate, g, -1);
    lemma_stretches(mic, sys, rate, 0, Seq::empty());
    let i = choose|i: int| 0 <= i < all.len() && (#[trigger] all[i]).0 <= f && a <= all[i].1;
    let j = choose|j: int| 0 <= j < all.len() && (#[trigger] all[j]).0 <= g && b <= all[j].1;
    if i < j {
        assert(far_behind(all[i], all[j], rate));
    } else if j < i {
        assert(all[j].1 < all[i].0);
    }
    assert(all[i].0 <= f && b <= all[i].1);
}

/// A run of frames in which the local user speaks on and on, for a fifth of a
/// second or more, lies inside one of the intervals that are found.
pub proof fn law_long_speech_is_found(mic: Seq<i32>, sys: Seq<i32>, rate: int, f: int, g: int)
    requires
        rate > 0,
        f <= g < mic.len(),
        0 <= f,
        f % frame_step(rate) == 0,
        g % frame_step(rate) == 0,
        forall|p: int|
            f <= p <= g && p % frame_step(rate) == 0 ==> #[trigger] heard_at(mic, sys, rate, p),
        (frame_end(mic.len() as int, rate, g) - f) * 1000 >= 200 * rate,
    ensures
        inside_some(speech_stretches(mic, sys, rate), f, frame_end(mic.len() as int, rate, g)),
{
    let all = stretches(mic, sys, rate, 0, Seq::empty());
    let len = mic.len() as int;
    let b = frame_end(len, rate, g);
    lemma_run(mic, sys, rate, f, g);
    let i = choose|i: int| 0 <= i < all.len() && (#[trigger] all[i]).0 <= f && b <= all[i].1;
    let pred = |x: (int, int)| long_enough(x, rate);
    assert(long_enough(all[i], rate));
    lemma_filter_keeps(all, pred, i);
    let found = all.filter(pred);
    let k = choose|k: int| 0 <= k < found.len() && found[k] == all[i];
    assert(found[k].0 <= f && b <= found[k].1);
}

proof fn lemma_run(mic: Seq<i32>, sys: Seq<i32>, rate: int, f: int, g: int)
    requires
        rate > 0,
        0 <= f <= g < mic.len(),
        f % frame_step(rate) == 0,
        g % frame_step(rate) == 0,
        forall|p: int|
            f <= p <= g && p % frame_step(rate) == 0 ==> #[trigger] heard_at(mic, sys, rate, p),
    ensures
        inside_some(
            stretches(mic, sys, rate, 0, Seq::empty()),
            f,
            frame_end(mic.len() as int, rate, g),
        ),
    decreases g - f,
{
    let all = stretches(mic, sys, rate, 0, Seq::empty());
    let len = mic.len() as int;
    let step = frame_step(rate);
    assert(heard_at(mic, sys, rate, f));
    assert(heard_at(mic, sys, rate, g));
    if f == g {
        law_no_speech_is_lost(mic, sys, rate, f, -1);
    } else {
        let h = g - step;
        assert(h % step == 0) by (nonlinear_arith)
            requires
                g % step == 0,
                h == g - step,
                step > 0,
        ;
        assert(f <= h) by (nonlinear_arith)
            requires
                f % step == 0,
                g % step == 0,
                f < g,
                h == g - step,
                step > 0,
        ;
        lemma_run(mic, sys, rate, f, h);
        assert(heard_at(mic, sys, rate, h));
        law_short_gaps_are_bridged(mic, sys, rate, h, g);
        lemma_stretches(mic, sys, rate, 0, Seq::empty());
        let b = frame_end(len, rate, g);
        let i = choose|i: int| 0 <= i < all.len() && (#[trigger] all[i]).0 <= f && frame_end(
            len,
            rate,
            h,
        ) <= all[i].1;
        let j = choose|j: int| 0 <= j < all.len() && (#[trigger] all[j]).0 <= h && b <= all[j].1;
        if i < j {
            assert(all[i].1 < all[j].0);
        } else if j < i {
            assert(all[j].1 < all[i].0);
        }
        assert(all[i].0 <= f && b <= all[i].1);
    }
}

/// What passes the test stays.
proof fn lemma_filter_keeps(all: Seq<(int, int)>, pred: spec_fn((int, int)) -> bool, i: int)
    requires
        0 <= i < all.len(),
        pred(all[i]),
    ensures
        all.filter(pred).contains(all[i]),
    decreases all.len(),
{
    reveal(Seq::filter);
    let n = all.len() - 1;
    let init = all.drop_last();
    let head = init.filter(pred);
    let out = all.filter(pred);
    if i < n {
        lemma_filter_keeps(init, pred, i);
        let k = choose|k: int| 0 <= k < head.len() && head[k] == init[i];
        assert(out[k] == all[i]);
    } else {
        assert(out[head.len() as int] == all[i]);
    }
}

/// Short islands are dropped: every interval that is found lasts a fifth of a
/// second or more, and any two of them are more than four tenths apart.
pub proof fn law_found_intervals(mic: Seq<i32>, sys: Seq<i32>, rate: int, i: int, j: int, at: int)
    requires
        rate > 0,
        0 <= i < j < speech_stretches(mic, sys, rate).len(),
        at >= 0,
    ensures
        ({
            let found = speech_stretches(mic, sys, rate);
            &&& (found[i].1 - found[i].0) * 1000 >= 200 * rate
            &&& (found[j].0 - found[i].1) * 1000 > 400 * rate
            &&& 0 <= found[i].0 < found[i].1 < found[j].0 < found[j].1 <= mic.len()
        }),
        sample_ns(at, rate) * rate <= at * 1_000_000_000 < (sample_ns(at, rate) + 1) * rate,
{
    law_speech_stretches(mic, sys, rate);
    let found = speech_stretches(mic, sys, rate);
    assert(far_behind(found[i], found[j], rate));
    assert(long_enough(found[i], rate));
    let x = at * 1_000_000_000;
    assert((x / rate) * rate <= x < (x / rate + 1) * rate) by (nonlinear_arith)
        requires
            rate > 0,
    ;
}

// ---------------------------------------------------------------------
// Overlay

/// What is left of the piece `p` outside `m`.
pub open spec fn cut_out(p: (Nanos, Nanos), m: (Nanos, Nanos)) -> Seq<(Nanos, Nanos)> {
    if apart(p, m) {
        seq![p]
    } else {
        let before = if m.0 > p.0 {
            seq![(p.0, m.0)]
        } else {
            Seq::empty()
        };
        let after = if m.1 < p.1 {
            seq![(m.1, p.1)]
        } else {
            Seq::empty()
        };
        before + after
    }
}

/// The piece and the interval do not overlap.
pub open spec fn apart(p: (Nanos, Nanos), m: (Nanos, Nanos)) -> bool {
    m.1 <= p.0 || m.0 >= p.1
}

/// What is left of all pieces outside `m`.
pub open spec fn cut_all(pieces: Seq<(Nanos, Nanos)>, m: (Nanos, Nanos)) -> Seq<(Nanos, Nanos)>
    decreases pieces.len(),
{
    if pieces.len() == 0 {
        Seq::empty()
    } else {
        cut_all(pieces.drop_last(), m) + cut_out(pieces.last(), m)
    }
}

/// What is left of a segment outside all intervals.
pub open spec fn pieces_of(seg: (Nanos, Nanos), mic: Seq<(Nanos, Nanos)>) -> Seq<(Nanos, Nanos)>
    decreases mic.len(),
{
    if mic.len() == 0 {
        seq![seg]
    } else {
        cut_all(pieces_of(seg, mic.drop_last()), mic.last())
    }
}

/// The pieces that are long enough, as segments of `speaker`.
pub open spec fn as_segments(pieces: Seq<(Nanos, Nanos)>, speaker: usize) -> Seq<DiarizedSegment>
    decreases pieces.len(),
{
    if pieces.len() == 0 {
        Seq::empty()
    } else {
        let head = as_segments(pieces.drop_last(), speaker);
        let p = pieces.last();
        if p.1 - p.0 >= MIN_PIECE_NS {
            head.push(DiarizedSegment { start: p.0, end: p.1, speaker })
        } else {
            head
        }
    }
}

/// The remote segments outside the intervals, segment by segment.
pub open spec fn remote_pieces(remote: Seq<DiarizedSegment>, mic: Seq<(Nanos, Nanos)>) -> Seq<
    DiarizedSegment,
>
    decreases remote.len(),
{
    if remote.len() == 0 {
        Seq::empty()
    } else {
        let seg = remote.last();
        remote_pieces(remote.drop_last(), mic) + as_segments(
            pieces_of((seg.start, seg.end), mic),
            seg.speaker,
        )
    }
}

/// The intervals as segments of the local speaker.
pub open spec fn local_segments(mic: Seq<(Nanos, Nanos)>) -> Seq<DiarizedSegment> {
    Seq::new(
        mic.len(),
        |i: int| DiarizedSegment { start: mic[i].0, end: mic[i].1, speaker: LOCAL_SPEAKER },
    )
}

/// `x` put behind the segments of `s` that do not start later.
pub open spec fn placed(s: Seq<DiarizedSegment>, x: DiarizedSegment) -> Seq<DiarizedSegment>
    decreases s.len(),
{
    if s.len() == 0 || s.last().start <= x.start {
        s.push(x)
    } else {
        placed(s.drop_last(), x).push(s.last())
    }
}

/// The segments ordered by start; equal starts keep their order.
pub open spec fn by_start(s: Seq<DiarizedSegment>) -> Seq<DiarizedSegment>
    decreases s.len(),
{
    if s.len() == 0 {
        Seq::empty()
    } else {
        placed(by_start(s.drop_last()), s.last())
    }
}

/// Microphone activity laid over the remote segments.
pub open spec fn overlaid(remote: Seq<DiarizedSegment>, mic: Seq<(Nanos, Nanos)>) -> Seq<
    DiarizedSegment,
> {
    by_start(remote_pieces(remote, mic) + local_segments(mic))
}

/// What is left of all pieces outside `m`.
fn cut_pieces(pieces: &Vec<(Nanos, Nanos)>, m: (Nanos, Nanos)) -> (r: Vec<(Nanos, Nanos)>)
    ensures
        r@ == cut_all(pieces@, m),
{
    let mut out: Vec<(Nanos, Nanos)> = Vec::new();
    let mut i: usize = 0;
    assert(pieces@.take(0) =~= Seq::<(Nanos, Nanos)>::empty());
    while i < pieces.len()
        invariant
            i <= pieces@.len(),
            out@ == cut_all(pieces@.take(i as int), m),
        decreases pieces@.len() - i,
    {
        let p: (Nanos, Nanos) = pieces[i];
        let ghost held = out@;
        proof {
            assert(pieces@.take(i + 1).drop_last() =~= pieces@.take(i as int));
            assert(pieces@.take(i + 1).last() == p);
        }
        if m.1 <= p.0 || m.0 >= p.1 {
            out.push(p);
        } else {
            if m.0 > p.0 {
                out.push((p.0, m.0));
            }
            if m.1 < p.1 {
                out.push((m.1, p.1));
            }
        }
        assert(out@ =~= held + cut_out(p, m));
        i += 1;
    }
    assert(pieces@.take(i as int) =~= pieces@);
    out
}

/// Put a segment behind those that do not start later.
fn place(s: &mut Vec<DiarizedSegment>, x: DiarizedSegment)
    ensures
        final(s)@ == placed(old(s)@, x),
{
    let ghost before = s@;
    let mut i: usize = s.len();
    proof {
        assert(before.take(i as int) =~= before);
        assert(before.skip(i as int) =~= Seq::<DiarizedSegment>::empty());
        assert(placed(before, x) =~= placed(before.take(i as int), x) + before.skip(i as int));
    }
    while i > 0 && s[i - 1].start > x.start
        invariant
            s@ == before,
            i <= before.len(),
            placed(before, x) == placed(before.take(i as int), x) + before.skip(i as int),
        decreases i,
    {
        proof {
            let t = before.take(i as int);
            assert(t.last() == before[i - 1]);
            assert(t.drop_last() =~= before.take(i - 1));
            assert(placed(t, x) == placed(before.take(i - 1), x).push(before[i - 1]));
            assert(placed(before, x) =~= placed(before.take(i - 1), x) + before.skip(i - 1));
        }
        i -= 1;
    }
    proof {
        let t = before.take(i as int);
        if i > 0 {
            assert(t.last() == before[i - 1]);
        }
        assert(placed(t, x) == t.push(x));
        assert(before.insert(i as int, x) =~= t.push(x) + before.skip(i as int));
    }
    s.insert(i, x);
}

/// Overlay microphone intervals onto system-channel diarization: time of the
/// microphone belongs to the local speaker, remote segments are clipped around
/// it, and slivers are dropped. The result is ordered by start.
pub fn overlay_local_speaker(remote: &[DiarizedSegment], mic_intervals: &[(Nanos, Nanos)]) -> (r: Vec<
    DiarizedSegment,
>)
    ensures
        r@ == overlaid(remote@, mic_intervals@),
{
    let mut all: Vec<DiarizedSegment> = Vec::new();
    let mut i: usize = 0;
    assert(remote@.take(0) =~= Seq::<DiarizedSegment>::empty());
    while i < remote.len()
        invariant
            i <= remote@.len(),
            all@ == remote_pieces(remote@.take(i as int), mic_intervals@),
        decreases remote@.len() - i,
    {
        let seg: DiarizedSegment = remote[i];
        proof {
            assert(remote@.take(i + 1).drop_last() =~= remote@.take(i as int));
            assert(remote@.take(i + 1).last() == seg);
        }
        let mut pieces: Vec<(Nanos, Nanos)> = Vec::new();
        pieces.push((seg.start, seg.end));
        let mut k: usize = 0;
        assert(pieces@ =~= pieces_of((seg.start, seg.end), mic_intervals@.take(0)));
        while k < mic_intervals.len()
            invariant
                k <= mic_intervals@.len(),
                pieces@ == pieces_of((seg.start, seg.end), mic_intervals@.take(k as int)),
            decreases mic_intervals@.len() - k,
        {
            proof {
                assert(mic_intervals@.take(k + 1).drop_last() =~= mic_intervals@.take(k as int));
            }
            pieces = cut_pieces(&pieces, mic_intervals[k]);
            k += 1;
        }
        assert(mic_intervals@.take(k as int) =~= mic_intervals@);
        let ghost before = all@;
        let mut p: usize = 0;
        assert(all@ =~= before + as_segments(pieces@.take(0), seg.speaker));
        while p < pieces.len()
            invariant
                p <= pieces@.len(),
                all@ == before + as_segments(pieces@.take(p as int), seg.speaker),
            decreases pieces@.len() - p,
        {
            let (s, e) = pieces[p];
            let ghost held = all@;
            proof {
                assert(pieces@.take(p + 1).drop_last() =~= pieces@.take(p as int));
                assert(pieces@.take(p + 1).last() == (s, e));
            }
            if e as i128 - s as i128 >= MIN_PIECE_NS as i128 {
                all.push(DiarizedSegment { start: s, end: e, speaker: seg.speaker });
            }
            assert(all@ =~= before + as_segments(pieces@.take(p + 1), seg.speaker));
            p += 1;
        }
        assert(pieces@.take(p as int) =~= pieces@);
        i += 1;
    }
    assert(remote@.take(i as int) =~= remote@);
    let ghost pieces = all@;
    let mut k: usize = 0;
    assert(all@ =~= pieces + local_segments(mic_intervals@.take(0)));
    while k < mic_intervals.len()
        invariant
            k <= mic_intervals@.len(),
            all@ == pieces + local_segments(mic_intervals@.take(k as int)),
        decreases mic_intervals@.len() - k,
    {
        let (s, e) = mic_intervals[k];
        all.push(DiarizedSegment { start: s, end: e, speaker: LOCAL_SPEAKER });
        assert(all@ =~= pieces + local_segments(mic_intervals@.take(k + 1)));
        k += 1;
    }
    assert(mic_intervals@.take(k as int) =~= mic_intervals@);
    let mut out: Vec<DiarizedSegment> = Vec::new();
    let mut j: usize = 0;
    assert(all@.take(0) =~= Seq::<DiarizedSegment>::empty());
    while j < all.len()
        invariant
            j <= all@.len(),
            out@ == by_start(all@.take(j as int)),
        decreases all@.len() - j,
    {
        assert(all@.take(j + 1).drop_last() =~= all@.take(j as int));
        place(&mut out, all[j]);
        j += 1;
    }
    assert(all@.take(j as int) =~= all@);
    out
}

// ---------------------------------------------------------------------
// Laws of the overlay

/// The segments are ordered by start.
pub open spec fn ordered(s: Seq<DiarizedSegment>) -> bool {
    forall|i: int, j: int| 0 <= i < j < s.len() ==> (#[trigger] s[i]).start <= (#[trigger] s[j]).start
}

proof fn lemma_placed(s: Seq<DiarizedSegment>, x: DiarizedSegment)
    requires
        ordered(s),
    ensures
        ordered(placed(s, x)),
        placed(s, x).len() == s.len() + 1,
        placed(s, x).to_multiset() == s.to_multiset().insert(x),
        s.len() > 0 ==> placed(s, x).last().start >= s.last().start,
        placed(s, x).last().start >= x.start,
    decreases s.len(),
{
    broadcast use vstd::seq_lib::group_to_multiset_ensures;

    if s.len() == 0 || s.last().start <= x.start {
        assert forall|i: int, j: int| 0 <= i < j < placed(s, x).len() implies (
        #[trigger] placed(s, x)[i]).start <= (#[trigger] placed(s, x)[j]).start by {
            if j == s.len() && i < s.len() - 1 {
                assert(s[i].start <= s[s.len() - 1].start);
            }
        }
    } else {
        let init = s.drop_last();
        assert(ordered(init)) by {
            assert forall|i: int, j: int| 0 <= i < j < init.len() implies (#[trigger] init[i]).start
                <= (#[trigger] init[j]).start by {
                assert(s[i].start <= s[j].start);
            }
        }
        lemma_placed(init, x);
        let head = placed(init, x);
        assert(s =~= init.push(s.last()));
        assert(head.last().start <= s.last().start) by {
            lemma_placed_last(init, x);
            if init.len() > 0 {
                assert(s[init.len() - 1].start <= s[s.len() - 1].start);
            }
        }
        assert forall|i: int, j: int| 0 <= i < j < placed(s, x).len() implies (
        #[trigger] placed(s, x)[i]).start <= (#[trigger] placed(s, x)[j]).start by {
            if j == head.len() {
                if i < head.len() - 1 {
                    assert(head[i].start <= head[head.len() - 1].start);
                }
            } else {
                assert(head[i].start <= head[j].start);
            }
        }
        assert(s.to_multiset() == init.to_multiset().insert(s.last()));
        assert(placed(s, x).to_multiset() == head.to_multiset().insert(s.last()));
        assert(placed(s, x).to_multiset() =~= s.to_multiset().insert(x));
    }
}

proof fn lemma_placed_last(s: Seq<DiarizedSegment>, x: DiarizedSegment)
    ensures
        placed(s, x).len() > 0,
        placed(s, x).last() == x || (s.len() > 0 && placed(s, x).last() == s.last()),
{
}

/// Ordering by start loses and invents no segment.
pub proof fn law_by_start(s: Seq<DiarizedSegment>)
    ensures
        ordered(by_start(s)),
        by_start(s).to_multiset() == s.to_multiset(),
        by_start(s).len() == s.len(),
    decreases s.len(),
{
    broadcast use vstd::seq_lib::group_to_multiset_ensures;

    if s.len() > 0 {
        let init = s.drop_last();
        law_by_start(init);
        lemma_placed(by_start(init), s.last());
        assert(s =~= init.push(s.last()));
        assert(s.to_multiset() == init.to_multiset().insert(s.last()));
    }
}

/// Every piece of a cut lies inside the piece that was cut and apart from the
/// interval.
proof fn lemma_cut_all(pieces: Seq<(Nanos, Nanos)>, m: (Nanos, Nanos))
    ensures
        forall|i: int|
            0 <= i < cut_all(pieces, m).len() ==> apart(#[trigger] cut_all(pieces, m)[i], m)
                && within_some(cut_all(pieces, m)[i], pieces),
    decreases pieces.len(),
{
    let out = cut_all(pieces, m);
    if pieces.len() > 0 {
        let init = pieces.drop_last();
        let head = cut_all(init, m);
        let tail = cut_out(pieces.last(), m);
        lemma_cut_all(init, m);
        assert forall|i: int| 0 <= i < out.len() implies apart(#[trigger] out[i], m) && within_some(
            out[i],
            pieces,
        ) by {
            if i < head.len() {
                assert(out[i] == head[i]);
                let k = choose|k: int| 0 <= k < init.len() && within(head[i], #[trigger] init[k]);
                assert(within(out[i], pieces[k]));
            } else {
                assert(out[i] == tail[i - head.len()]);
                assert(within(out[i], pieces[pieces.len() - 1]));
            }
        }
    }
}

/// Piece `p` lies inside `q`.
pub open spec fn within(p: (Nanos, Nanos), q: (Nanos, Nanos)) -> bool {
    q.0 <= p.0 && p.1 <= q.1
}

/// Piece `p` lies inside one of `pieces`.
pub open spec fn within_some(p: (Nanos, Nanos), pieces: Seq<(Nanos, Nanos)>) -> bool {
    exists|k: int| 0 <= k < pieces.len() && within(p, #[trigger] pieces[k])
}

proof fn lemma_pieces(seg: (Nanos, Nanos), mic: Seq<(Nanos, Nanos)>)
    ensures
        forall|i: int|
            0 <= i < pieces_of(seg, mic).len() ==> within(#[trigger] pieces_of(seg, mic)[i], seg),
        forall|i: int, k: int|
            0 <= i < pieces_of(seg, mic).len() && 0 <= k < mic.len() ==> apart(
                #[trigger] pieces_of(seg, mic)[i],
                #[trigger] mic[k],
            ),
    decreases mic.len(),
{
    if mic.len() > 0 {
        let init = mic.drop_last();
        let before = pieces_of(seg, init);
        let out = pieces_of(seg, mic);
        lemma_pieces(seg, init);
        lemma_cut_all(before, mic.last());
        assert forall|i: int| 0 <= i < out.len() implies within(#[trigger] out[i], seg) by {
            let k = choose|k: int| 0 <= k < before.len() && within(out[i], #[trigger] before[k]);
            assert(within(before[k], seg));
        }
        assert forall|i: int, k: int| 0 <= i < out.len() && 0 <= k < mic.len() implies apart(
            #[trigger] out[i],
            #[trigger] mic[k],
        ) by {
            if k < init.len() {
                let b = choose|b: int| 0 <= b < before.len() && within(out[i], #[trigger] before[b]);
                assert(init[k] == mic[k]);
                assert(apart(before[b], init[k]));
            }
        }
    }
}

/// The segment comes from the remote ones: it lies inside a segment of the same
/// speaker, apart from all microphone intervals, and is no sliver.
pub open spec fn clipped(
    x: DiarizedSegment,
    remote: Seq<DiarizedSegment>,
    mic: Seq<(Nanos, Nanos)>,
) -> bool {
    &&& x.end - x.start >= MIN_PIECE_NS
    &&& exists|k: int|
        0 <= k < remote.len() && (#[trigger] remote[k]).speaker == x.speaker && remote[k].start
            <= x.start && x.end <= remote[k].end
    &&& forall|k: int| 0 <= k < mic.len() ==> apart((x.start, x.end), #[trigger] mic[k])
}

proof fn lemma_as_segments(pieces: Seq<(Nanos, Nanos)>, speaker: usize)
    ensures
        forall|i: int|
            0 <= i < as_segments(pieces, speaker).len() ==> {
                let x = #[trigger] as_segments(pieces, speaker)[i];
                &&& x.speaker == speaker
                &&& x.end - x.start >= MIN_PIECE_NS
                &&& pieces.contains((x.start, x.end))
            },
    decreases pieces.len(),
{
    if pieces.len() > 0 {
        let init = pieces.drop_last();
        lemma_as_segments(init, speaker);
        let head = as_segments(init, speaker);
        let all = as_segments(pieces, speaker);
        assert forall|i: int| 0 <= i < all.len() implies {
            let x = #[trigger] all[i];
            &&& x.speaker == speaker
            &&& x.end - x.start >= MIN_PIECE_NS
            &&& pieces.contains((x.start, x.end))
        } by {
            if i < head.len() {
                assert(all[i] == head[i]);
                let k = choose|k: int|
                    0 <= k < init.len() && init[k] == (head[i].start, head[i].end);
                assert(pieces[k] == (all[i].start, all[i].end));
            } else {
                assert(pieces[pieces.len() - 1] == (all[i].start, all[i].end));
            }
        }
    }
}

proof fn lemma_remote_pieces(remote: Seq<DiarizedSegment>, mic: Seq<(Nanos, Nanos)>)
    ensures
        forall|i: int|
            0 <= i < remote_pieces(remote, mic).len() ==> clipped(
                #[trigger] remote_pieces(remote, mic)[i],
                remote,
                mic,
            ),
    decreases remote.len(),
{
    if remote.len() > 0 {
        let init = remote.drop_last();
        let seg = remote.last();
        let head = remote_pieces(init, mic);
        let pieces = pieces_of((seg.start, seg.end), mic);
        let tail = as_segments(pieces, seg.speaker);
        let all = remote_pieces(remote, mic);
        lemma_remote_pieces(init, mic);
        lemma_pieces((seg.start, seg.end), mic);
        lemma_as_segments(pieces, seg.speaker);
        assert forall|i: int| 0 <= i < all.len() implies clipped(#[trigger] all[i], remote, mic) by {
            if i < head.len() {
                assert(all[i] == head[i]);
                let k = choose|k: int|
                    0 <= k < init.len() && (#[trigger] init[k]).speaker == head[i].speaker
                        && init[k].start <= head[i].start && head[i].end <= init[k].end;
                assert(remote[k] == init[k]);
            } else {
                let x = tail[i - head.len()];
                assert(all[i] == x);
                let p = choose|p: int| 0 <= p < pieces.len() && pieces[p] == (x.start, x.end);
                assert(within(pieces[p], (seg.start, seg.end)));
                assert(remote[remote.len() - 1].speaker == x.speaker);
                assert forall|k: int| 0 <= k < mic.len() implies apart(
                    (x.start, x.end),
                    #[trigger] mic[k],
                ) by {
                    assert(apart(pieces[p], mic[k]));
                }
            }
        }
    }
}

/// A stretch apart from the interval lies in what a cut leaves.
proof fn lemma_cut_keeps(pieces: Seq<(Nanos, Nanos)>, m: (Nanos, Nanos), q: (Nanos, Nanos))
    requires
        q.0 < q.1,
        apart(q, m),
        within_some(q, pieces),
    ensures
        within_some(q, cut_all(pieces, m)),
    decreases pieces.len(),
{
    let k = choose|k: int| 0 <= k < pieces.len() && within(q, #[trigger] pieces[k]);
    let init = pieces.drop_last();
    let head = cut_all(init, m);
    let tail = cut_out(pieces.last(), m);
    let out = cut_all(pieces, m);
    if k < init.len() {
        assert(within(q, init[k]));
        lemma_cut_keeps(init, m, q);
        let h = choose|h: int| 0 <= h < head.len() && within(q, #[trigger] head[h]);
        assert(within(q, out[h]));
    } else {
        let p = pieces.last();
        let j: int = if apart(p, m) {
            0
        } else if q.1 <= m.0 {
            assert(tail[0] == (p.0, m.0));
            0
        } else {
            assert(tail[tail.len() - 1] == (m.1, p.1));
            tail.len() - 1
        };
        assert(within(q, tail[j]));
        assert(out[head.len() + j] == tail[j]);
    }
}

/// A stretch of a segment apart from all intervals lies in one of its pieces.
proof fn lemma_pieces_keep(seg: (Nanos, Nanos), mic: Seq<(Nanos, Nanos)>, q: (Nanos, Nanos))
    requires
        q.0 < q.1,
        within(q, seg),
        forall|k: int| 0 <= k < mic.len() ==> apart(q, #[trigger] mic[k]),
    ensures
        within_some(q, pieces_of(seg, mic)),
    decreases mic.len(),
{
    if mic.len() == 0 {
        assert(within(q, pieces_of(seg, mic)[0]));
    } else {
        let init = mic.drop_last();
        assert forall|k: int| 0 <= k < init.len() implies apart(q, #[trigger] init[k]) by {
            assert(init[k] == mic[k]);
        }
        lemma_pieces_keep(seg, init, q);
        assert(apart(q, mic[mic.len() - 1]));
        lemma_cut_keeps(pieces_of(seg, init), mic.last(), q);
    }
}

/// A segment of `speaker` among `all` covers the stretch.
pub open spec fn covered(q: (Nanos, Nanos), speaker: usize, all: Seq<DiarizedSegment>) -> bool {
    exists|i: int|
        0 <= i < all.len() && (#[trigger] all[i]).speaker == speaker && within(
            q,
            (all[i].start, all[i].end),
        )
}

/// A long enough piece becomes a segment.
proof fn lemma_segments_keep(pieces: Seq<(Nanos, Nanos)>, speaker: usize, q: (Nanos, Nanos))
    requires
        q.1 - q.0 >= MIN_PIECE_NS,
        within_some(q, pieces),
    ensures
        covered(q, speaker, as_segments(pieces, speaker)),
    decreases pieces.len(),
{
    let k = choose|k: int| 0 <= k < pieces.len() && within(q, #[trigger] pieces[k]);
    let init = pieces.drop_last();
    let head = as_segments(init, speaker);
    let all = as_segments(pieces, speaker);
    if k < init.len() {
        assert(within(q, init[k]));
        lemma_segments_keep(init, speaker, q);
        let h = choose|h: int|
            0 <= h < head.len() && (#[trigger] head[h]).speaker == speaker && within(
                q,
                (head[h].start, head[h].end),
            );
        assert(all[h] == head[h]);
    } else {
        let x = all[all.len() - 1];
        assert(x.speaker == speaker && within(q, (x.start, x.end)));
    }
}

/// A long enough stretch of a remote segment apart from all intervals is kept.
proof fn lemma_remote_keep(
    remote: Seq<DiarizedSegment>,
    mic: Seq<(Nanos, Nanos)>,
    k: int,
    q: (Nanos, Nanos),
)
    requires
        0 <= k < remote.len(),
        within(q, (remote[k].start, remote[k].end)),
        q.1 - q.0 >= MIN_PIECE_NS,
        forall|j: int| 0 <= j < mic.len() ==> apart(q, #[trigger] mic[j]),
    ensures
        covered(q, remote[k].speaker, remote_pieces(remote, mic)),
    decreases remote.len(),
{
    let init = remote.drop_last();
    let seg = remote.last();
    let head = remote_pieces(init, mic);
    let tail = as_segments(pieces_of((seg.start, seg.end), mic), seg.speaker);
    let all = remote_pieces(remote, mic);
    let speaker = remote[k].speaker;
    if k < init.len() {
        assert(init[k] == remote[k]);
        lemma_remote_keep(init, mic, k, q);
        let h = choose|h: int|
            0 <= h < head.len() && (#[trigger] head[h]).speaker == speaker && within(
                q,
                (head[h].start, head[h].end),
            );
        assert(all[h] == head[h]);
    } else {
        lemma_pieces_keep((seg.start, seg.end), mic, q);
        lemma_segments_keep(pieces_of((seg.start, seg.end), mic), seg.speaker, q);
        let h = choose|h: int|
            0 <= h < tail.len() && (#[trigger] tail[h]).speaker == speaker && within(
                q,
                (tail[h].start, tail[h].end),
            );
        assert(all[head.len() + h] == tail[h]);
    }
}

/// Time of the microphone belongs to the local speaker alone: the overlay is
/// ordered by start, each microphone interval is in it, and every other
/// segment is a clipped remote one that overlaps no microphone interval. All
/// other remote speech is kept: every stretch of a remote segment that overlaps
/// no microphone interval and is no sliver lies in a segment of its speaker.
pub proof fn law_overlay(remote: Seq<DiarizedSegment>, mic: Seq<(Nanos, Nanos)>)
    ensures
        ordered(overlaid(remote, mic)),
        forall|k: int|
            0 <= k < mic.len() ==> overlaid(remote, mic).contains(
                (DiarizedSegment {
                    start: (#[trigger] mic[k]).0,
                    end: mic[k].1,
                    speaker: LOCAL_SPEAKER,
                }),
            ),
        forall|i: int|
            0 <= i < overlaid(remote, mic).len() ==> {
                let x = #[trigger] overlaid(remote, mic)[i];
                clipped(x, remote, mic) || (x.speaker == LOCAL_SPEAKER && mic.contains(
                    (x.start, x.end),
                ))
            },
        forall|k: int, q: (Nanos, Nanos)|
            0 <= k < remote.len() && #[trigger] within(q, (remote[k].start, remote[k].end)) && q.1
                - q.0 >= MIN_PIECE_NS && (forall|j: int|
                0 <= j < mic.len() ==> apart(q, #[trigger] mic[j])) ==> covered(
                q,
                remote[k].speaker,
                overlaid(remote, mic),
            ),
{
    broadcast use vstd::seq_lib::group_to_multiset_ensures;

    let parts = remote_pieces(remote, mic);
    let local = local_segments(mic);
    let all = parts + local;
    let out = overlaid(remote, mic);
    law_by_start(all);
    lemma_remote_pieces(remote, mic);
    assert forall|k: int| 0 <= k < mic.len() implies out.contains(
        (DiarizedSegment {
            start: (#[trigger] mic[k]).0,
            end: mic[k].1,
            speaker: LOCAL_SPEAKER,
        }),
    ) by {
        let x = local[k];
        assert(all[parts.len() + k] == x);
        assert(all.contains(x));
        assert(all.to_multiset().count(x) > 0);
        assert(out.to_multiset().count(x) > 0);
    }
    assert forall|i: int| 0 <= i < out.len() implies {
        let x = #[trigger] out[i];
        clipped(x, remote, mic) || (x.speaker == LOCAL_SPEAKER && mic.contains((x.start, x.end)))
    } by {
        let x = out[i];
        assert(out.contains(x));
        assert(out.to_multiset().count(x) > 0);
        assert(all.contains(x));
        let k = choose|k: int| 0 <= k < all.len() && all[k] == x;
        if k < parts.len() {
            assert(clipped(parts[k], remote, mic));
        } else {
            assert(local[k - parts.len()] == x);
            assert(mic[k - parts.len()] == (x.start, x.end));
        }
    }
    assert forall|k: int, q: (Nanos, Nanos)|
        0 <= k < remote.len() && #[trigger] within(q, (remote[k].start, remote[k].end)) && q.1 - q.0
            >= MIN_PIECE_NS && (forall|j: int|
            0 <= j < mic.len() ==> apart(q, #[trigger] mic[j])) implies covered(
        q,
        remote[k].speaker,
        out,
    ) by {
        lemma_remote_keep(remote, mic, k, q);
        let speaker = remote[k].speaker;
        let h = choose|h: int|
            0 <= h < parts.len() && (#[trigger] parts[h]).speaker == speaker && within(
                q,
                (parts[h].start, parts[h].end),
            );
        let x = parts[h];
        assert(all[h] == x);
        assert(all.contains(x));
        assert(all.to_multiset().count(x) > 0);
        assert(out.to_multiset().count(x) > 0);
        assert(out.contains(x));
        let i = choose|i: int| 0 <= i < out.len() && out[i] == x;
        assert(out[i].speaker == speaker);
    }
}

// ---------------------------------------------------------------------
// What the overlay keeps

/// The segments that start at `v`.
pub open spec fn starting_at(v: Nanos) -> spec_fn(DiarizedSegment) -> bool {
    |x: DiarizedSegment| x.start == v
}

proof fn lemma_placed_behind_equals(s: Seq<DiarizedSegment>, x: DiarizedSegment, v: Nanos)
    ensures
        placed(s, x).filter(starting_at(v)) == s.filter(starting_at(v)) + (if x.start == v {
            seq![x]
        } else {
            Seq::empty()
        }),
    decreases s.len(),
{
    reveal(Seq::filter);
    if s.len() == 0 || s.last().start <= x.start {
        assert(s.push(x).drop_last() =~= s);
    } else {
        lemma_placed_behind_equals(s.drop_last(), x, v);
        let head = placed(s.drop_last(), x);
        assert(head.push(s.last()).drop_last() =~= head);
    }
}

/// Segments that start together keep their order.
pub proof fn law_starts_together(s: Seq<DiarizedSegment>, v: Nanos)
    ensures
        by_start(s).filter(starting_at(v)) == s.filter(starting_at(v)),
    decreases s.len(),
{
    reveal(Seq::filter);
    if s.len() > 0 {
        law_starts_together(s.drop_last(), v);
        lemma_placed_behind_equals(by_start(s.drop_last()), s.last(), v);
    }
}

/// The pieces are no intervals of negative length and follow one another.
pub open spec fn in_order(p: Seq<(Nanos, Nanos)>) -> bool {
    &&& forall|i: int| 0 <= i < p.len() ==> (#[trigger] p[i]).0 <= p[i].1
    &&& forall|i: int, j: int| 0 <= i < j < p.len() ==> (#[trigger] p[i]).1 <= (#[trigger] p[j]).0
}

proof fn lemma_cut_in_order(pieces: Seq<(Nanos, Nanos)>, m: (Nanos, Nanos))
    requires
        in_order(pieces),
        m.0 <= m.1,
    ensures
        in_order(cut_all(pieces, m)),
    decreases pieces.len(),
{
    if pieces.len() > 0 {
        let init = pieces.drop_last();
        let p = pieces.last();
        let head = cut_all(init, m);
        let tail = cut_out(p, m);
        let out = cut_all(pieces, m);
        lemma_cut_in_order(init, m);
        lemma_cut_all(init, m);
        assert forall|i: int| 0 <= i < head.len() implies (#[trigger] head[i]).1 <= p.0 by {
            let k = choose|k: int| 0 <= k < init.len() && within(head[i], #[trigger] init[k]);
            assert(init[k] == pieces[k]);
            assert(pieces[k].1 <= pieces[pieces.len() - 1].0);
        }
        assert forall|i: int| 0 <= i < out.len() implies (#[trigger] out[i]).0 <= out[i].1 by {
            if i < head.len() {
                assert(out[i] == head[i]);
            } else {
                assert(out[i] == tail[i - head.len()]);
            }
        }
        assert forall|i: int, j: int| 0 <= i < j < out.len() implies (#[trigger] out[i]).1 <= (
        #[trigger] out[j]).0 by {
            if j < head.len() {
                assert(out[i] == head[i] && out[j] == head[j]);
            } else {
                assert(out[j] == tail[j - head.len()]);
                if i < head.len() {
                    assert(out[i] == head[i]);
                } else {
                    assert(out[i] == tail[i - head.len()]);
                }
            }
        }
    }
}

proof fn lemma_pieces_in_order(seg: (Nanos, Nanos), mic: Seq<(Nanos, Nanos)>)
    requires
        seg.0 <= seg.1,
        forall|k: int| 0 <= k < mic.len() ==> (#[trigger] mic[k]).0 <= mic[k].1,
    ensures
        in_order(pieces_of(seg, mic)),
    decreases mic.len(),
{
    if mic.len() > 0 {
        let init = mic.drop_last();
        assert forall|k: int| 0 <= k < init.len() implies (#[trigger] init[k]).0 <= init[k].1 by {
            assert(init[k] == mic[k]);
        }
        assert(mic[mic.len() - 1].0 <= mic[mic.len() - 1].1);
        lemma_pieces_in_order(seg, init);
        lemma_cut_in_order(pieces_of(seg, init), mic.last());
    }
}

/// The pieces of one segment follow one another: no time of it is given twice.
pub proof fn law_pieces_in_order(seg: (Nanos, Nanos), mic: Seq<(Nanos, Nanos)>, i: int, j: int)
    requires
        seg.0 <= seg.1,
        forall|k: int| 0 <= k < mic.len() ==> (#[trigger] mic[k]).0 <= mic[k].1,
        0 <= i < j < pieces_of(seg, mic).len(),
    ensures
        pieces_of(seg, mic)[i].1 <= pieces_of(seg, mic)[j].0,
{
    lemma_pieces_in_order(seg, mic);
}

/// Each segment of the overlay is an interval of the microphone, or remote speech
/// of at least fifty milliseconds that touches none of them. The intervals of the
/// microphone are in it once each.
pub proof fn law_overlay_time(remote: Seq<DiarizedSegment>, mic: Seq<(Nanos, Nanos)>, i: int)
    requires
        0 <= i < overlaid(remote, mic).len(),
    ensures
        ({
            let x = overlaid(remote, mic)[i];
            ||| x.speaker == usize::MAX && mic.contains((x.start, x.end))
            ||| {
                &&& x.end - x.start >= 50_000_000
                &&& forall|k: int|
                    0 <= k < mic.len() ==> (#[trigger] mic[k]).1 <= x.start || mic[k].0 >= x.end
                &&& exists|k: int|
                    0 <= k < remote.len() && (#[trigger] remote[k]).speaker == x.speaker
                        && remote[k].start <= x.start && x.end <= remote[k].end
            }
        }),
        overlaid(remote, mic).len() == remote_pieces(remote, mic).len() + mic.len(),
{
    law_overlay(remote, mic);
    law_by_start(remote_pieces(remote, mic) + local_segments(mic));
    let x = overlaid(remote, mic)[i];
    if clipped(x, remote, mic) {
        assert forall|k: int| 0 <= k < mic.len() implies (#[trigger] mic[k]).1 <= x.start
            || mic[k].0 >= x.end by {
            assert(apart((x.start, x.end), mic[k]));
        }
    }
}

/// Remote speech of at least fifty milliseconds while the microphone is silent
/// stays with its speaker.
pub proof fn law_overlay_keeps(
    remote: Seq<DiarizedSegment>,
    mic: Seq<(Nanos, Nanos)>,
    k: int,
    from: Nanos,
    to: Nanos,
)
    requires
        0 <= k < remote.len(),
        remote[k].start <= from,
        to <= remote[k].end,
        to - from >= 50_000_000,
        forall|j: int| 0 <= j < mic.len() ==> (#[trigger] mic[j]).1 <= from || mic[j].0 >= to,
    ensures
        exists|i: int|
            0 <= i < overlaid(remote, mic).len() && (#[trigger] overlaid(remote, mic)[i]).speaker
                == remote[k].speaker && overlaid(remote, mic)[i].start <= from && to <= overlaid(
                remote,
                mic,
            )[i].end,
{
    law_overlay(remote, mic);
    let q = (from, to);
    assert(within(q, (remote[k].start, remote[k].end)));
    assert forall|j: int| 0 <= j < mic.len() implies apart(q, #[trigger] mic[j]) by {
        assert(mic[j].1 <= from || mic[j].0 >= to);
    }
    assert(covered(q, remote[k].speaker, overlaid(remote, mic)));
}

proof fn lemma_uncut(remote: Seq<DiarizedSegment>)
    requires
        forall|k: int|
            0 <= k < remote.len() ==> (#[trigger] remote[k]).end - remote[k].start >= 50_000_000,
    ensures
        remote_pieces(remote, Seq::empty()) == remote,
    decreases remote.len(),
{
    let none = Seq::<(Nanos, Nanos)>::empty();
    if remote.len() > 0 {
        let init = remote.drop_last();
        let seg = remote.last();
        assert forall|k: int| 0 <= k < init.len() implies (#[trigger] init[k]).end - init[k].start
            >= 50_000_000 by {
            assert(init[k] == remote[k]);
        }
        lemma_uncut(init);
        assert(remote[remote.len() - 1].end - remote[remote.len() - 1].start >= 50_000_000);
        let pieces = pieces_of((seg.start, seg.end), none);
        assert(pieces =~= seq![(seg.start, seg.end)]);
        assert(pieces.drop_last() =~= none);
        assert(as_segments(none, seg.speaker) =~= Seq::<DiarizedSegment>::empty());
        assert(as_segments(pieces, seg.speaker) =~= seq![seg]);
        assert(remote_pieces(remote, none) =~= remote);
    }
}

/// Without microphone activity the overlay is the remote segments, each once,
/// ordered by start.
pub proof fn law_silent_microphone(remote: Seq<DiarizedSegment>)
    requires
        forall|k: int|
            0 <= k < remote.len() ==> (#[trigger] remote[k]).end - remote[k].start >= 50_000_000,
    ensures
        overlaid(remote, Seq::empty()).to_multiset() == remote.to_multiset(),
        ordered(overlaid(remote, Seq::empty())),
{
    let none = Seq::<(Nanos, Nanos)>::empty();
    lemma_uncut(remote);
    assert(remote_pieces(remote, none) + local_segments(none) =~= remote);
    law_by_start(remote);
}

/// The layout of the channels is what the metadata says under that name.
pub proof fn law_layout_of(raw: Seq<char>)
    ensures
        json::json_of(raw) matches Some(v) ==> layout_of(raw) == json::member_text(
            v,
            "channel_layout"@,
        ),
        json::json_of(raw) is None ==> layout_of(raw) is None,
{
}

} // verus!
