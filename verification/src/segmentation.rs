//! Frame-level voice-change evidence.
//!
//! A segmentation model classifies every frame of a ten-second window:
//! silence, three single speakers, three overlaps. Its labels are consistent
//! within one window. The evidence is used asymmetrically: it may move a cut
//! onto a pause between two different sustained voices, or confirm a cut that
//! is already there. It never deletes a boundary.
use vstd::prelude::*;
use crate::boundary_refine;
use crate::boundary_refine::cut_instant_ms;
use crate::diarization::{SpeakerTurn, WordSpan};
use crate::timeline::Nanos;

verus! {

/// Samples per second of the analysed audio.
pub const SAMPLE_RATE: usize = 16_000;

/// Nanoseconds per sample at [`SAMPLE_RATE`].
pub const SAMPLE_NS: i64 = 62_500;

/// The model consumes fixed windows of this length.
pub const WINDOW_NS: i64 = 10_000_000_000;

/// Samples in one window.
pub const WINDOW_SAMPLES: usize = 160_000;

/// A local voice run must last this long to count as a real turn.
pub const MIN_SUSTAINED_NS: i64 = 500_000_000;

/// The pause between two different sustained voices must be at least this
/// long for a cut to be attributed to it.
pub const MIN_GAP_NS: i64 = 200_000_000;

/// A candidate instant must sit this far inside the pause.
pub const GAP_MARGIN_NS: i64 = 50_000_000;

/// A pause holds less speech than this.
pub const MAX_SPEECH_INSIDE_NS: i64 = 50_000_000;

/// Word timestamps can be off by this much: a current cut this close to the
/// pause may already be correct.
pub const CURRENT_CUT_SLOP_NS: i64 = 250_000_000;

/// One run of consecutive frames sharing a class. Classes: 0 silence, 1-3
/// single speakers (labels only meaningful within one window), 4-6 overlaps.
#[derive(Debug, Clone, Copy, PartialEq, Eq, Structural)]
pub struct VoiceRun {
    pub start: Nanos,
    pub end: Nanos,
    pub class: usize,
}

// ---------------------------------------------------------------------
// One window of the model

/// The samples of the window that starts at `window_start`, filled up with
/// `silence` past the end of the audio.
pub fn window_chunk<T: Copy>(audio: &[T], window_start: Nanos, silence: T) -> (r: Vec<T>)
    ensures
        r@.len() == WINDOW_SAMPLES,
        ({
            let start = if window_start > 0 {
                window_start / SAMPLE_NS
            } else {
                0
            };
            forall|i: int|
                0 <= i < WINDOW_SAMPLES ==> #[trigger] r@[i] == if start + i < audio@.len() {
                    audio@[start + i]
                } else {
                    silence
                }
        }),
{
    let start: u64 = if window_start > 0 {
        window_start as u64 / SAMPLE_NS as u64
    } else {
        0
    };
    let mut out: Vec<T> = Vec::new();
    let mut i: usize = 0;
    while i < WINDOW_SAMPLES
        invariant
            i <= WINDOW_SAMPLES,
            out@.len() == i,
            start <= 0x7fff_ffff_ffff_ffff,
            forall|k: int|
                0 <= k < i ==> #[trigger] out@[k] == if start + k < audio@.len() {
                    audio@[start + k]
                } else {
                    silence
                },
        decreases WINDOW_SAMPLES - i,
    {
        let at: u64 = start + i as u64;
        if at < audio.len() as u64 {
            out.push(audio[at as usize]);
        } else {
            out.push(silence);
        }
        i += 1;
    }
    out
}

/// `k` is the class with the greatest score, the last one of equal scores.
pub open spec fn top_class(scores: Seq<i64>, k: int) -> bool {
    &&& 0 <= k < scores.len()
    &&& forall|j: int| 0 <= j < scores.len() ==> #[trigger] scores[j] <= scores[k]
    &&& forall|j: int| k < j < scores.len() ==> #[trigger] scores[j] < scores[k]
}

/// The class of a frame: the one with the greatest score, the last one of
/// equal scores. A frame without scores is silent.
pub fn frame_class(scores: &[i64]) -> (r: usize)
    ensures
        scores@.len() == 0 ==> r == 0,
        scores@.len() > 0 ==> top_class(scores@, r as int),
{
    let mut best: usize = 0;
    let mut j: usize = 0;
    while j < scores.len()
        invariant
            j <= scores@.len(),
            j == 0 ==> best == 0,
            j > 0 ==> best < j,
            forall|k: int| 0 <= k < j ==> #[trigger] scores@[k] <= scores@[best as int],
            forall|k: int| best < k < j ==> #[trigger] scores@[k] < scores@[best as int],
        decreases scores@.len() - j,
    {
        if scores[j] >= scores[best] {
            best = j;
        }
        j += 1;
    }
    best
}

/// Where frame `i` of `frames` begins.
pub open spec fn frame_start(window_start: int, frames: int, i: int) -> int {
    window_start + (i * WINDOW_NS) / frames
}

/// The runs of equal classes among the first `n` frames.
pub open spec fn frame_runs(classes: Seq<usize>, window_start: int, n: int) -> Seq<VoiceRun>
    decreases n,
{
    if n <= 0 {
        Seq::empty()
    } else {
        let head = frame_runs(classes, window_start, n - 1);
        let end = frame_start(window_start, classes.len() as int, n) as i64;
        if head.len() > 0 && head.last().class == classes[n - 1] {
            head.drop_last().push(VoiceRun { end, ..head.last() })
        } else {
            let start = frame_start(window_start, classes.len() as int, n - 1) as i64;
            head.push(VoiceRun { start, end, class: classes[n - 1] })
        }
    }
}

proof fn lemma_frame_start(window_start: int, frames: int, i: int)
    requires
        0 < frames,
        0 <= i <= frames,
    ensures
        window_start <= frame_start(window_start, frames, i) <= window_start + WINDOW_NS,
        frame_start(window_start, frames, 0) == window_start,
        frame_start(window_start, frames, frames) == window_start + WINDOW_NS,
{
    assert(0 <= (i * WINDOW_NS) / frames <= WINDOW_NS) by (nonlinear_arith)
        requires
            0 < frames,
            0 <= i <= frames,
            WINDOW_NS > 0,
    ;
    assert((frames * WINDOW_NS) / frames == WINDOW_NS) by (nonlinear_arith)
        requires
            0 < frames,
            WINDOW_NS > 0,
    ;
    assert(0int / frames == 0) by (nonlinear_arith)
        requires
            0 < frames,
    ;
}

/// Collapse the classes of a window's frames into runs.
pub fn collapse_frames(classes: &[usize], window_start: Nanos) -> (r: Vec<VoiceRun>)
    requires
        window_start <= i64::MAX - WINDOW_NS,
    ensures
        r@ == frame_runs(classes@, window_start as int, classes@.len() as int),
{
    let frames: usize = classes.len();
    let mut runs: Vec<VoiceRun> = Vec::new();
    let mut i: usize = 0;
    while i < frames
        invariant
            i <= frames == classes@.len(),
            window_start <= i64::MAX - WINDOW_NS,
            runs@ == frame_runs(classes@, window_start as int, i as int),
        decreases frames - i,
    {
        proof {
            lemma_frame_start(window_start as int, frames as int, i as int);
            lemma_frame_start(window_start as int, frames as int, i + 1);
        }
        let class: usize = classes[i];
        let n: usize = runs.len();
        let end: Nanos = window_start + (((i as u128 + 1) * WINDOW_NS as u128) / frames as u128) as i64;
        if n > 0 && runs[n - 1].class == class {
            let mut last: VoiceRun = runs[n - 1];
            last.end = end;
            runs.set(n - 1, last);
            assert(runs@ =~= frame_runs(classes@, window_start as int, i + 1));
        } else {
            let start: Nanos = window_start + ((i as u128 * WINDOW_NS as u128) / frames as u128) as i64;
            runs.push(VoiceRun { start, end, class });
        }
        i += 1;
    }
    runs
}

/// The runs of a window cover it from its start to its end without holes, and
/// neighbouring runs have different classes.
pub proof fn law_runs_cover_the_window(classes: Seq<usize>, window_start: int, n: int)
    requires
        0 <= n <= classes.len(),
        i64::MIN <= window_start <= i64::MAX - WINDOW_NS,
    ensures
        ({
            let runs = frame_runs(classes, window_start, n);
            &&& runs.len() <= n
            &&& n > 0 ==> runs.len() > 0 && runs[0].start == window_start && runs.last().end
                == frame_start(window_start, classes.len() as int, n)
            &&& n > 0 ==> runs.last().class == classes[n - 1]
            &&& forall|k: int|
                0 <= k && k + 1 < runs.len() ==> (#[trigger] runs[k]).end == runs[k + 1].start
                    && runs[k].class != runs[k + 1].class
        }),
        n == classes.len() && n > 0 ==> frame_runs(classes, window_start, n).last().end
            == window_start + WINDOW_NS,
    decreases n,
{
    if n > 0 {
        law_runs_cover_the_window(classes, window_start, n - 1);
        lemma_frame_start(window_start, classes.len() as int, n);
        lemma_frame_start(window_start, classes.len() as int, n - 1);
        let head = frame_runs(classes, window_start, n - 1);
        let runs = frame_runs(classes, window_start, n);
        assert forall|k: int| 0 <= k && k + 1 < runs.len() implies (#[trigger] runs[k]).end == runs[k
            + 1].start && runs[k].class != runs[k + 1].class by {
            assert(runs[k] == head[k]);
            if k + 1 < head.len() {
                assert(runs[k + 1].start == head[k + 1].start);
                assert(runs[k + 1].class == head[k + 1].class);
            }
        }
    }
}

// ---------------------------------------------------------------------
// Voices and pauses

/// The length of a run.
pub open spec fn run_len(r: VoiceRun) -> int {
    r.end - r.start
}

/// A speech run (any class but silence) long enough to be a real turn.
pub open spec fn sustained(r: VoiceRun) -> bool {
    r.class != 0 && run_len(r) >= MIN_SUSTAINED_NS
}

/// Whether a run is long enough to be a real turn.
fn is_long(r: &VoiceRun) -> (b: bool)
    ensures
        b == (run_len(*r) >= MIN_SUSTAINED_NS),
{
    r.end as i128 - r.start as i128 >= MIN_SUSTAINED_NS as i128
}

/// Speech runs (any class but silence) long enough to be real turns.
pub fn sustained_runs(runs: &[VoiceRun]) -> (r: Vec<VoiceRun>)
    ensures
        r@ == runs@.filter(|x: VoiceRun| sustained(x)),
{
    let mut out: Vec<VoiceRun> = Vec::new();
    let mut i: usize = 0;
    let ghost pred = |x: VoiceRun| sustained(x);
    reveal(Seq::filter);
    while i < runs.len()
        invariant
            i <= runs@.len(),
            pred == (|x: VoiceRun| sustained(x)),
            out@ == runs@.take(i as int).filter(pred),
        decreases runs@.len() - i,
    {
        let x: VoiceRun = runs[i];
        proof {
            reveal(Seq::filter);
            assert(runs@.take(i + 1).drop_last() =~= runs@.take(i as int));
        }
        if x.class != 0 && is_long(&x) {
            out.push(x);
        }
        i += 1;
    }
    assert(runs@.take(i as int) =~= runs@);
    out
}

/// Some sustained run has this class.
pub open spec fn established(runs: Seq<VoiceRun>, class: usize) -> bool {
    exists|k: int| 0 <= k < runs.len() && sustained(#[trigger] runs[k]) && runs[k].class == class
}

/// A run that may bound a change gap: a sustained run, or a short one of a
/// voice that is sustained elsewhere in the window. An isolated blip of a
/// class heard nowhere else is noise.
pub open spec fn bounding(runs: Seq<VoiceRun>, r: VoiceRun) -> bool {
    r.class != 0 && (run_len(r) >= MIN_SUSTAINED_NS || established(runs, r.class))
}

/// The runs that may bound a change gap, in order.
pub open spec fn bounds_of(runs: Seq<VoiceRun>) -> Seq<VoiceRun> {
    runs.filter(|x: VoiceRun| bounding(runs, x))
}

/// Whether some sustained run has this class.
fn is_established(runs: &[VoiceRun], class: usize) -> (r: bool)
    ensures
        r == established(runs@, class),
{
    let mut i: usize = 0;
    while i < runs.len()
        invariant
            i <= runs@.len(),
            forall|k: int| 0 <= k < i ==> !(sustained(#[trigger] runs@[k]) && runs@[k].class == class),
        decreases runs@.len() - i,
    {
        if runs[i].class == class && runs[i].class != 0 && is_long(&runs[i]) {
            assert(sustained(runs@[i as int]));
            return true;
        }
        i += 1;
    }
    false
}

/// The runs that may bound a change gap, in order.
pub fn bounding_runs(runs: &[VoiceRun]) -> (r: Vec<VoiceRun>)
    ensures
        r@ == bounds_of(runs@),
{
    let mut out: Vec<VoiceRun> = Vec::new();
    let mut i: usize = 0;
    let ghost pred = |x: VoiceRun| bounding(runs@, x);
    reveal(Seq::filter);
    while i < runs.len()
        invariant
            i <= runs@.len(),
            pred == (|x: VoiceRun| bounding(runs@, x)),
            out@ == runs@.take(i as int).filter(pred),
        decreases runs@.len() - i,
    {
        let x: VoiceRun = runs[i];
        proof {
            reveal(Seq::filter);
            assert(runs@.take(i + 1).drop_last() =~= runs@.take(i as int));
        }
        if x.class != 0 && (is_long(&x) || is_established(runs, x.class)) {
            out.push(x);
        }
        i += 1;
    }
    assert(runs@.take(i as int) =~= runs@);
    out
}

/// How long the run speaks between `a` and `b`.
pub open spec fn speech_within(r: VoiceRun, a: int, b: int) -> int {
    let hi = if r.end < b {
        r.end as int
    } else {
        b
    };
    let lo = if r.start > a {
        r.start as int
    } else {
        a
    };
    if r.class != 0 && hi > lo {
        hi - lo
    } else {
        0
    }
}

/// How much speech of any class lies between `a` and `b`.
pub open spec fn speech_inside(runs: Seq<VoiceRun>, a: int, b: int) -> int
    decreases runs.len(),
{
    if runs.len() == 0 {
        0
    } else {
        speech_inside(runs.drop_last(), a, b) + speech_within(runs.last(), a, b)
    }
}

proof fn lemma_speech_inside_grows(runs: Seq<VoiceRun>, a: int, b: int, n: int)
    requires
        0 <= n <= runs.len(),
    ensures
        0 <= speech_inside(runs.take(n), a, b) <= speech_inside(runs, a, b),
    decreases runs.len(),
{
    if n < runs.len() {
        lemma_speech_inside_grows(runs.drop_last(), a, b, n);
        assert(runs.drop_last().take(n) =~= runs.take(n));
    } else {
        assert(runs.take(n) =~= runs);
        if runs.len() > 0 {
            lemma_speech_inside_grows(runs.drop_last(), a, b, n - 1);
            assert(runs.drop_last().take(n - 1) =~= runs.drop_last());
        }
    }
}

/// Whether the stretch from `a` to `b` holds next to no speech.
fn is_quiet(runs: &[VoiceRun], a: Nanos, b: Nanos) -> (r: bool)
    ensures
        r == (speech_inside(runs@, a as int, b as int) < MAX_SPEECH_INSIDE_NS),
{
    let mut total: u64 = 0;
    let mut i: usize = 0;
    assert(runs@.take(0) =~= Seq::<VoiceRun>::empty());
    while i < runs.len()
        invariant
            i <= runs@.len(),
            total == speech_inside(runs@.take(i as int), a as int, b as int),
            total < MAX_SPEECH_INSIDE_NS,
        decreases runs@.len() - i,
    {
        let x: VoiceRun = runs[i];
        proof {
            assert(runs@.take(i + 1).drop_last() =~= runs@.take(i as int));
            lemma_speech_inside_grows(runs@, a as int, b as int, i + 1);
        }
        let hi: Nanos = if x.end < b {
            x.end
        } else {
            b
        };
        let lo: Nanos = if x.start > a {
            x.start
        } else {
            a
        };
        if x.class != 0 && hi > lo {
            let part: i128 = hi as i128 - lo as i128;
            if total as i128 + part >= MAX_SPEECH_INSIDE_NS as i128 {
                return false;
            }
            total = (total as i128 + part) as u64;
        }
        i += 1;
    }
    assert(runs@.take(i as int) =~= runs@);
    true
}

/// A class of a single speaker.
pub open spec fn single(class: usize) -> bool {
    1 <= class <= 3
}

/// Between bounding runs `i` and `i + 1` lies a real pause that separates two
/// different single speakers.
pub open spec fn change_at(runs: Seq<VoiceRun>, i: int) -> bool {
    let speech = bounds_of(runs);
    let (a, b) = (speech[i].end, speech[i + 1].start);
    &&& 0 <= i && i + 1 < speech.len()
    &&& single(speech[i].class)
    &&& single(speech[i + 1].class)
    &&& speech[i].class != speech[i + 1].class
    &&& b - a >= MIN_GAP_NS
    &&& speech_inside(runs, a as int, b as int) < MAX_SPEECH_INSIDE_NS
}

/// Twice the distance from `t` to the middle of the pause behind bounding
/// run `i`.
pub open spec fn off_centre(runs: Seq<VoiceRun>, t: int, i: int) -> int {
    let speech = bounds_of(runs);
    let d = speech[i].end + speech[i + 1].start - 2 * t;
    if d < 0 {
        -d
    } else {
        d
    }
}

/// The pause behind bounding run `i` is the voice change nearest to `t`, the
/// first one of equally near changes.
pub open spec fn nearest_change(runs: Seq<VoiceRun>, t: int, i: int) -> bool {
    &&& change_at(runs, i)
    &&& forall|j: int|
        #[trigger] change_at(runs, j) ==> off_centre(runs, t, i) <= off_centre(runs, t, j)
    &&& forall|j: int|
        #[trigger] change_at(runs, j) && j < i ==> off_centre(runs, t, i) < off_centre(runs, t, j)
}

/// The pause of the voice change nearest to `t`.
pub open spec fn change_gap(runs: Seq<VoiceRun>, t: int) -> Option<(Nanos, Nanos)> {
    if exists|i: int| #[trigger] change_at(runs, i) {
        let i = choose|i: int| nearest_change(runs, t, i);
        Some((bounds_of(runs)[i].end, bounds_of(runs)[i + 1].start))
    } else {
        None
    }
}

/// The pause between two consecutive voices of different single-speaker
/// classes nearest to `t`. Same-voice pauses and short pauses yield nothing:
/// silence alone is not evidence of a speaker change. Overlaps never bound a
/// gap, and speech inside the interval disqualifies it.
pub fn change_gap_near(runs: &[VoiceRun], t: Nanos) -> (r: Option<(Nanos, Nanos)>)
    ensures
        r == change_gap(runs@, t as int),
{
    let speech = bounding_runs(runs);
    let mut best: Option<usize> = None;
    let mut best_off: i128 = 0;
    let n: usize = speech.len();
    let mut i: usize = 0;
    while n > 0 && i < n - 1
        invariant
            n == speech@.len(),
            i == 0 || i < n,
            speech@ == bounds_of(runs@),
            match best {
                Some(k) => {
                    &&& k < i
                    &&& change_at(runs@, k as int)
                    &&& best_off == off_centre(runs@, t as int, k as int)
                    &&& forall|j: int|
                        #[trigger] change_at(runs@, j) && j < i ==> best_off <= off_centre(
                            runs@,
                            t as int,
                            j,
                        )
                    &&& forall|j: int|
                        #[trigger] change_at(runs@, j) && j < k ==> best_off < off_centre(
                            runs@,
                            t as int,
                            j,
                        )
                },
                None => forall|j: int| j < i ==> !#[trigger] change_at(runs@, j),
            },
        decreases n - i,
    {
        let a: VoiceRun = speech[i];
        let b: VoiceRun = speech[i + 1];
        let wide: bool = b.start as i128 - a.end as i128 >= MIN_GAP_NS as i128;
        if 1 <= a.class && a.class <= 3 && 1 <= b.class && b.class <= 3 && a.class != b.class && wide
            && is_quiet(runs, a.end, b.start) {
            let d: i128 = a.end as i128 + b.start as i128 - 2 * t as i128;
            let off: i128 = if d < 0 {
                -d
            } else {
                d
            };
            assert(change_at(runs@, i as int));
            let nearer: bool = match best {
                Some(_) => off < best_off,
                None => true,
            };
            if nearer {
                best = Some(i);
                best_off = off;
            }
        } else {
            assert(!change_at(runs@, i as int));
        }
        i += 1;
    }
    match best {
        Some(k) => {
            proof {
                assert(nearest_change(runs@, t as int, k as int));
                let c = choose|c: int| nearest_change(runs@, t as int, c);
                assert(change_at(runs@, c));
                assert(c == k);
            }
            Some((speech[k].end, speech[k + 1].start))
        },
        None => None,
    }
}

// ---------------------------------------------------------------------
// Candidate cuts against a pause

/// The instant falls firmly inside the pause.
pub open spec fn inside_gap(t: int, gap: (Nanos, Nanos)) -> bool {
    gap.0 + GAP_MARGIN_NS <= t <= gap.1 - GAP_MARGIN_NS
}

/// Whether an instant falls firmly inside the pause.
pub fn instant_in_gap(t: Nanos, gap: (Nanos, Nanos)) -> (r: bool)
    ensures
        r == inside_gap(t as int, gap),
{
    t as i128 >= gap.0 as i128 + GAP_MARGIN_NS as i128 && t as i128 <= gap.1 as i128
        - GAP_MARGIN_NS as i128
}

/// Candidate `i` is the only one inside the pause.
pub open spec fn only_hit(instants: Seq<(i32, Nanos)>, gap: (Nanos, Nanos), i: int) -> bool {
    &&& 0 <= i < instants.len()
    &&& inside_gap(instants[i].1 as int, gap)
    &&& forall|j: int|
        0 <= j < instants.len() && j != i ==> !inside_gap((#[trigger] instants[j]).1 as int, gap)
}

/// Candidate `k` is the current cut.
pub open spec fn current_cut(instants: Seq<(i32, Nanos)>, k: int) -> bool {
    &&& 0 <= k < instants.len()
    &&& instants[k].0 == 0
    &&& forall|j: int| 0 <= j < k ==> (#[trigger] instants[j]).0 != 0
}

/// The instant lies clearly away from the pause.
pub open spec fn clear_of(t: int, gap: (Nanos, Nanos)) -> bool {
    gap.0 - t >= CURRENT_CUT_SLOP_NS || t - gap.1 >= CURRENT_CUT_SLOP_NS
}

/// The current cut lies clearly away from the pause.
pub open spec fn current_clear(instants: Seq<(i32, Nanos)>, gap: (Nanos, Nanos)) -> bool {
    exists|k: int| #[trigger] current_cut(instants, k) && clear_of(instants[k].1 as int, gap)
}

/// The shift of the single candidate inside the pause. A move also needs the
/// current cut to lie clearly away from the pause.
pub open spec fn unique_hit(instants: Seq<(i32, Nanos)>, gap: (Nanos, Nanos)) -> Option<i32> {
    if exists|i: int| #[trigger] only_hit(instants, gap, i) {
        let i = choose|i: int| only_hit(instants, gap, i);
        let shift = instants[i].0;
        if shift == 0 || current_clear(instants, gap) {
            Some(shift)
        } else {
            None
        }
    } else {
        None
    }
}

/// The first candidate from `from` on inside the pause.
fn next_hit(instants: &[(i32, Nanos)], gap: (Nanos, Nanos), from: usize) -> (r: Option<usize>)
    requires
        from <= instants@.len(),
    ensures
        match r {
            Some(i) => {
                &&& from <= i < instants@.len()
                &&& inside_gap(instants@[i as int].1 as int, gap)
                &&& forall|j: int|
                    from <= j < i ==> !inside_gap((#[trigger] instants@[j]).1 as int, gap)
            },
            None => forall|j: int|
                from <= j < instants@.len() ==> !inside_gap((#[trigger] instants@[j]).1 as int, gap),
        },
{
    let mut i: usize = from;
    while i < instants.len()
        invariant
            from <= i <= instants@.len(),
            forall|j: int| from <= j < i ==> !inside_gap((#[trigger] instants@[j]).1 as int, gap),
        decreases instants@.len() - i,
    {
        if instant_in_gap(instants[i].1, gap) {
            return Some(i);
        }
        i += 1;
    }
    None
}

/// Whether the current cut lies clearly away from the pause.
fn is_current_clear(instants: &[(i32, Nanos)], gap: (Nanos, Nanos)) -> (r: bool)
    ensures
        r == current_clear(instants@, gap),
{
    let mut k: usize = 0;
    while k < instants.len()
        invariant
            k <= instants@.len(),
            forall|j: int| 0 <= j < k ==> (#[trigger] instants@[j]).0 != 0,
        decreases instants@.len() - k,
    {
        if instants[k].0 == 0 {
            let t: i128 = instants[k].1 as i128;
            assert(current_cut(instants@, k as int));
            assert forall|c: int| #[trigger] current_cut(instants@, c) implies c == k by {}
            return gap.0 as i128 - t >= CURRENT_CUT_SLOP_NS as i128 || t - gap.1 as i128
                >= CURRENT_CUT_SLOP_NS as i128;
        }
        k += 1;
    }
    false
}

/// Of all candidate cut instants, the single one falling inside the voice
/// change; nothing when none or several do. A move also needs the current cut
/// to sit clearly away from the pause.
pub fn unique_candidate_in_gap(instants: &[(i32, Nanos)], gap: (Nanos, Nanos)) -> (r: Option<i32>)
    ensures
        r == unique_hit(instants@, gap),
{
    match next_hit(instants, gap, 0) {
        None => {
            assert forall|i: int| !#[trigger] only_hit(instants@, gap, i) by {
                if only_hit(instants@, gap, i) {
                    assert(inside_gap(instants@[i].1 as int, gap));
                }
            }
            None
        },
        Some(first) => {
            assert(first < instants.len());
            match next_hit(instants, gap, first + 1) {
                Some(second) => {
                    assert forall|i: int| !#[trigger] only_hit(instants@, gap, i) by {
                        assert(inside_gap(instants@[first as int].1 as int, gap));
                        assert(inside_gap(instants@[second as int].1 as int, gap));
                    }
                    None
                },
                None => {
                    proof {
                        assert(only_hit(instants@, gap, first as int));
                        let c = choose|c: int| only_hit(instants@, gap, c);
                        assert(inside_gap(instants@[c].1 as int, gap));
                        assert(c == first);
                    }
                    let shift: i32 = instants[first].0;
                    if shift == 0 || is_current_clear(instants, gap) {
                        Some(shift)
                    } else {
                        None
                    }
                },
            }
        },
    }
}

// ---------------------------------------------------------------------
// The verdict on one boundary

/// Where the window around the cut at `t` begins: centred on the cut, but
/// inside the audio where that is long enough.
pub open spec fn window_around(t: int, samples: nat) -> int {
    let last = samples * SAMPLE_NS - WINDOW_NS;
    let cap = if last > 0 {
        last
    } else {
        0
    };
    let want = t - WINDOW_NS / 2;
    if want < 0 {
        0
    } else if want > cap {
        cap
    } else {
        want
    }
}

/// Where the window around the cut at `t` begins, in audio of so many samples.
pub fn window_start_for(t: Nanos, samples: usize) -> (r: Nanos)
    ensures
        r == window_around(t as int, samples as nat),
        0 <= r,
{
    let half: i128 = 5_000_000_000;
    let last: i128 = samples as i128 * 62_500 - WINDOW_NS as i128;
    let cap: i128 = if last > 0 {
        last
    } else {
        0
    };
    let want: i128 = t as i128 - half;
    if want < 0 {
        0
    } else if want > cap {
        cap as i64
    } else {
        want as i64
    }
}

/// The instants of the cuts that the shifts lead to, for those that leave
/// both sides a word.
pub open spec fn instants_of(left: Seq<WordSpan>, right: Seq<WordSpan>, shifts: Seq<i32>) -> Seq<
    (i32, Nanos),
>
    decreases shifts.len(),
{
    if shifts.len() == 0 {
        Seq::empty()
    } else {
        let head = instants_of(left, right, shifts.drop_last());
        match boundary_refine::cut_edges(left, right, shifts.last() as int) {
            Some((a, b)) => head.push((shifts.last(), ((a + b) / 2) as i64)),
            None => head,
        }
    }
}

/// What the runs of the window say about a boundary: the shift of the one
/// candidate cut on the voice change nearest to the current cut.
pub open spec fn verdict(
    runs: Seq<VoiceRun>,
    left: Seq<WordSpan>,
    right: Seq<WordSpan>,
    shifts: Seq<i32>,
) -> Option<i32> {
    match boundary_refine::cut_edges(left, right, 0) {
        Some((a, b)) => match change_gap(runs, (a + b) / 2) {
            Some(gap) => unique_hit(instants_of(left, right, shifts), gap),
            None => None,
        },
        None => None,
    }
}

/// Frame-level acoustic verdict for one boundary: a shift when exactly one
/// candidate cut falls on the pause between two different sustained voices
/// near the current cut (0 = the current cut is confirmed there). Nothing when
/// there is no usable evidence.
pub fn acoustic_verdict(
    runs: &[VoiceRun],
    left: &SpeakerTurn,
    right: &SpeakerTurn,
    shifts: &[i32],
) -> (r: Option<i32>)
    requires
        forall|k: int| 0 <= k < shifts@.len() ==> #[trigger] shifts@[k] > i32::MIN,
    ensures
        r == verdict(runs@, left.words@, right.words@, shifts@),
{
    let t: Nanos = match cut_instant_ms(left, right, 0) {
        Some(t) => t,
        None => {
            return None;
        },
    };
    let gap = match change_gap_near(runs, t) {
        Some(gap) => gap,
        None => {
            return None;
        },
    };
    let mut instants: Vec<(i32, Nanos)> = Vec::new();
    let mut i: usize = 0;
    while i < shifts.len()
        invariant
            i <= shifts@.len(),
            forall|k: int| 0 <= k < shifts@.len() ==> #[trigger] shifts@[k] > i32::MIN,
            instants@ == instants_of(left.words@, right.words@, shifts@.take(i as int)),
        decreases shifts@.len() - i,
    {
        let s: i32 = shifts[i];
        assert(shifts@.take(i + 1).drop_last() =~= shifts@.take(i as int));
        match cut_instant_ms(left, right, s) {
            Some(at) => {
                instants.push((s, at));
            },
            None => {},
        }
        i += 1;
    }
    assert(shifts@.take(i as int) =~= shifts@);
    unique_candidate_in_gap(&instants, gap)
}

proof fn lemma_instants_are_offered(left: Seq<WordSpan>, right: Seq<WordSpan>, shifts: Seq<i32>)
    ensures
        forall|i: int|
            0 <= i < instants_of(left, right, shifts).len() ==> {
                let x = #[trigger] instants_of(left, right, shifts)[i];
                &&& shifts.contains(x.0)
                &&& boundary_refine::cut_edges(left, right, x.0 as int) matches Some((a, b))
                    && x.1 == (a + b) / 2
            },
    decreases shifts.len(),
{
    if shifts.len() > 0 {
        let init = shifts.drop_last();
        lemma_instants_are_offered(left, right, init);
        let head = instants_of(left, right, init);
        let all = instants_of(left, right, shifts);
        assert forall|i: int| 0 <= i < all.len() implies {
            let x = #[trigger] all[i];
            &&& shifts.contains(x.0)
            &&& boundary_refine::cut_edges(left, right, x.0 as int) matches Some((a, b)) && x.1 == (a
                + b) / 2
        } by {
            if i < head.len() {
                assert(all[i] == head[i]);
                let k = choose|k: int| 0 <= k < init.len() && init[k] == head[i].0;
                assert(shifts[k] == head[i].0);
            } else {
                assert(shifts[shifts.len() - 1] == all[i].0);
            }
        }
    }
}

/// Every offered shift that leaves both sides a word has its instant.
proof fn lemma_offered_have_instants(
    left: Seq<WordSpan>,
    right: Seq<WordSpan>,
    shifts: Seq<i32>,
    x: i32,
)
    requires
        shifts.contains(x),
        boundary_refine::cut_edges(left, right, x as int) is Some,
    ensures
        exists|i: int|
            0 <= i < instants_of(left, right, shifts).len() && (#[trigger] instants_of(
                left,
                right,
                shifts,
            )[i]).0 == x,
    decreases shifts.len(),
{
    let all = instants_of(left, right, shifts);
    if shifts.last() == x {
        assert(all[all.len() - 1].0 == x);
    } else {
        let init = shifts.drop_last();
        let k = choose|k: int| 0 <= k < shifts.len() && shifts[k] == x;
        assert(init[k] == x);
        lemma_offered_have_instants(left, right, init, x);
        let head = instants_of(left, right, init);
        let i = choose|i: int| 0 <= i < head.len() && (#[trigger] head[i]).0 == x;
        assert(all[i] == head[i]);
    }
}

/// The cut of a shift falls firmly inside a pause.
pub open spec fn lands_in(
    left: Seq<WordSpan>,
    right: Seq<WordSpan>,
    shift: i32,
    gap: (Nanos, Nanos),
) -> bool {
    boundary_refine::cut_edges(left, right, shift as int) matches Some((a, b)) && inside_gap(
        (a + b) / 2,
        gap,
    )
}

/// Acoustic evidence moves or confirms a cut, never more: the verdict is one
/// of the offered shifts, its cut falls firmly inside a pause between two
/// different voices, and no other offered cut does.
pub proof fn law_verdict_is_an_offered_cut(
    runs: Seq<VoiceRun>,
    left: Seq<WordSpan>,
    right: Seq<WordSpan>,
    shifts: Seq<i32>,
)
    ensures
        verdict(runs, left, right, shifts) matches Some(s) ==> {
            &&& shifts.contains(s)
            &&& exists|i: int|
                #[trigger] change_at(runs, i) && {
                    let gap = (bounds_of(runs)[i].end, bounds_of(runs)[i + 1].start);
                    &&& lands_in(left, right, s, gap)
                    &&& forall|x: i32|
                        shifts.contains(x) && x != s ==> !#[trigger] lands_in(left, right, x, gap)
                }
        },
{
    if verdict(runs, left, right, shifts) is Some {
        let s = verdict(runs, left, right, shifts)->0;
        let (a0, b0) = boundary_refine::cut_edges(left, right, 0)->0;
        let t = (a0 + b0) / 2;
        let instants = instants_of(left, right, shifts);
        let gap = change_gap(runs, t)->0;
        lemma_instants_are_offered(left, right, shifts);
        let k = choose|k: int| only_hit(instants, gap, k);
        assert(only_hit(instants, gap, k));
        assert(instants[k].0 == s);
        lemma_nearest_change_exists(runs, t);
        let i = choose|i: int| nearest_change(runs, t, i);
        assert(change_at(runs, i));
        assert forall|x: i32| shifts.contains(x) && x != s implies !#[trigger] lands_in(
            left,
            right,
            x,
            gap,
        ) by {
            if lands_in(left, right, x, gap) {
                lemma_offered_have_instants(left, right, shifts, x);
                let j = choose|j: int| 0 <= j < instants.len() && (#[trigger] instants[j]).0 == x;
                assert(!inside_gap(instants[j].1 as int, gap));
            }
        }
    }
}

/// Among the voice changes of a window there is a nearest one.
proof fn lemma_nearest_change_exists(runs: Seq<VoiceRun>, t: int)
    requires
        exists|i: int| #[trigger] change_at(runs, i),
    ensures
        exists|i: int| nearest_change(runs, t, i),
{
    let i = choose|i: int| #[trigger] change_at(runs, i);
    let k = lemma_nearest_change_upto(runs, t, bounds_of(runs).len() as int, i);
    assert(nearest_change(runs, t, k));
}

proof fn lemma_nearest_change_upto(runs: Seq<VoiceRun>, t: int, n: int, witness: int) -> (k: int)
    requires
        change_at(runs, witness),
        witness < n,
    ensures
        change_at(runs, k),
        k < n,
        forall|j: int|
            #[trigger] change_at(runs, j) && j < n ==> off_centre(runs, t, k) <= off_centre(
                runs,
                t,
                j,
            ),
        forall|j: int|
            #[trigger] change_at(runs, j) && j < k ==> off_centre(runs, t, k) < off_centre(
                runs,
                t,
                j,
            ),
    decreases n,
{
    if exists|i: int| #[trigger] change_at(runs, i) && i < n - 1 {
        let w = choose|i: int| #[trigger] change_at(runs, i) && i < n - 1;
        let k = lemma_nearest_change_upto(runs, t, n - 1, w);
        if change_at(runs, n - 1) && off_centre(runs, t, n - 1) < off_centre(runs, t, k) {
            n - 1
        } else {
            k
        }
    } else {
        witness
    }
}

// ---------------------------------------------------------------------
// What the evidence is

/// No class scores more than the one of the frame, and none behind it as much.
pub proof fn law_top_class(scores: Seq<i64>, k: int, j: int)
    requires
        top_class(scores, k),
        0 <= j < scores.len(),
    ensures
        0 <= k < scores.len(),
        scores[j] <= scores[k],
        j > k ==> scores[j] < scores[k],
{
}

/// Every frame lies inside a run of its class, at its place in the window.
pub proof fn law_frames_lie_in_runs(classes: Seq<usize>, window_start: int, n: int, i: int)
    requires
        0 <= i < n <= classes.len(),
        i64::MIN <= window_start <= i64::MAX - WINDOW_NS,
    ensures
        exists|k: int|
            0 <= k < frame_runs(classes, window_start, n).len() && (#[trigger] frame_runs(
                classes,
                window_start,
                n,
            )[k]).class == classes[i] && frame_runs(classes, window_start, n)[k].start
                <= window_start + (i * 10_000_000_000) / classes.len() as int && window_start + ((i
                + 1) * 10_000_000_000) / classes.len() as int <= frame_runs(
                classes,
                window_start,
                n,
            )[k].end,
    decreases n,
{
    let frames = classes.len() as int;
    let runs = frame_runs(classes, window_start, n);
    let head = frame_runs(classes, window_start, n - 1);
    law_runs_cover_the_window(classes, window_start, n - 1);
    law_runs_cover_the_window(classes, window_start, n);
    lemma_frame_start(window_start, frames, n);
    lemma_frame_start(window_start, frames, n - 1);
    lemma_runs_go_forward(classes, window_start, n);
    if i < n - 1 {
        law_frames_lie_in_runs(classes, window_start, n - 1, i);
        let k = choose|k: int|
            0 <= k < head.len() && (#[trigger] head[k]).class == classes[i] && head[k].start
                <= window_start + (i * 10_000_000_000) / frames && window_start + ((i + 1)
                * 10_000_000_000) / frames <= head[k].end;
        assert((n - 1) * 10_000_000_000 / frames <= n * 10_000_000_000 / frames)
            by (nonlinear_arith)
            requires
                frames > 0,
                n > 0,
        ;
        assert(runs[k].class == head[k].class && runs[k].start == head[k].start && head[k].end
            <= runs[k].end);
    } else {
        let k = runs.len() - 1;
        assert(runs[k].class == classes[i]);
        assert(runs[k].start <= frame_start(window_start, frames, n - 1));
        assert(runs[k].end == frame_start(window_start, frames, n));
    }
}

/// Runs start before they end, in whole frames.
proof fn lemma_runs_go_forward(classes: Seq<usize>, window_start: int, n: int)
    requires
        0 <= n <= classes.len(),
        i64::MIN <= window_start <= i64::MAX - WINDOW_NS,
    ensures
        n > 0 ==> frame_runs(classes, window_start, n).len() > 0 && frame_runs(
            classes,
            window_start,
            n,
        ).last().start <= frame_start(window_start, classes.len() as int, n - 1),
    decreases n,
{
    if n > 0 {
        let frames = classes.len() as int;
        lemma_runs_go_forward(classes, window_start, n - 1);
        lemma_frame_start(window_start, frames, n - 1);
        if n > 1 {
            assert((n - 2) * WINDOW_NS / frames <= (n - 1) * WINDOW_NS / frames)
                by (nonlinear_arith)
                requires
                    frames > 0,
                    n > 1,
                    WINDOW_NS > 0,
            ;
        }
    }
}

proof fn lemma_filter_runs(runs: Seq<VoiceRun>, keep: spec_fn(VoiceRun) -> bool, x: VoiceRun)
    ensures
        runs.filter(keep).contains(x) <==> runs.contains(x) && keep(x),
    decreases runs.len(),
{
    reveal(Seq::filter);
    if runs.len() > 0 {
        let init = runs.drop_last();
        let n = runs.len() - 1;
        lemma_filter_runs(init, keep, x);
        let head = init.filter(keep);
        let out = runs.filter(keep);
        if out.contains(x) {
            let k = choose|k: int| 0 <= k < out.len() && out[k] == x;
            if k < head.len() {
                assert(head[k] == x);
                assert(head.contains(x));
                let m = choose|m: int| 0 <= m < init.len() && init[m] == x;
                assert(runs[m] == x);
            } else {
                assert(runs[n] == x);
            }
        }
        if runs.contains(x) && keep(x) {
            let m = choose|m: int| 0 <= m < runs.len() && runs[m] == x;
            if m < n {
                assert(init[m] == x);
                let k = choose|k: int| 0 <= k < head.len() && head[k] == x;
                assert(out[k] == x);
            } else {
                assert(out[head.len() as int] == x);
            }
        }
    }
}

/// What counts as a voice: a run of speech of half a second or more is a real
/// turn, and a shorter one bounds a pause only where its class has such a turn in
/// the window. Silence never does.
pub proof fn law_voices(runs: Seq<VoiceRun>, x: VoiceRun)
    ensures
        runs.filter(|r: VoiceRun| sustained(r)).contains(x) <==> runs.contains(x) && x.class != 0
            && x.end - x.start >= 500_000_000,
        bounds_of(runs).contains(x) <==> runs.contains(x) && x.class != 0 && (x.end - x.start
            >= 500_000_000 || exists|k: int|
            0 <= k < runs.len() && (#[trigger] runs[k]).class == x.class && runs[k].end
                - runs[k].start >= 500_000_000),
{
    lemma_filter_runs(runs, |r: VoiceRun| sustained(r), x);
    lemma_filter_runs(runs, |r: VoiceRun| bounding(runs, r), x);
    if established(runs, x.class) {
        let k = choose|k: int|
            0 <= k < runs.len() && sustained(#[trigger] runs[k]) && runs[k].class == x.class;
        assert(runs[k].class == x.class);
    }
    if x.class != 0 && exists|k: int|
        0 <= k < runs.len() && (#[trigger] runs[k]).class == x.class && runs[k].end - runs[k].start
            >= 500_000_000 {
        let k = choose|k: int|
            0 <= k < runs.len() && (#[trigger] runs[k]).class == x.class && runs[k].end
                - runs[k].start >= 500_000_000;
        assert(sustained(runs[k]));
    }
}

/// The speech in a stretch is what the runs of it share with the stretch, each
/// counted once; silence adds nothing.
pub proof fn law_speech_inside(p: Seq<VoiceRun>, q: Seq<VoiceRun>, x: VoiceRun, a: int, b: int)
    requires
        a <= b,
    ensures
        speech_inside(p + q, a, b) == speech_inside(p, a, b) + speech_inside(q, a, b),
        x.class == 0 ==> speech_inside(seq![x], a, b) == 0,
        x.class != 0 && a <= x.start <= x.end <= b ==> speech_inside(seq![x], a, b) == x.end
            - x.start,
        x.class != 0 && x.start <= a && b <= x.end ==> speech_inside(seq![x], a, b) == b - a,
        x.end <= a || b <= x.start ==> speech_inside(seq![x], a, b) == 0,
        x.class != 0 && a <= x.start <= b <= x.end ==> speech_inside(seq![x], a, b) == b - x.start,
        x.class != 0 && x.start <= a <= x.end <= b ==> speech_inside(seq![x], a, b) == x.end - a,
    decreases q.len(),
{
    let one = seq![x];
    assert(one.drop_last() =~= Seq::<VoiceRun>::empty());
    assert(speech_inside(one.drop_last(), a, b) == 0);
    assert(one.last() == x);
    if q.len() == 0 {
        assert(p + q =~= p);
    } else {
        law_speech_inside(p, q.drop_last(), x, a, b);
        assert((p + q).drop_last() =~= p + q.drop_last());
        assert((p + q).last() == q.last());
    }
}

/// A voice change is a pause of a fifth of a second or more, with less than a
/// twentieth of speech inside, between neighbouring voices of two different
/// single speakers.
pub proof fn law_change_at(runs: Seq<VoiceRun>, i: int)
    requires
        0 <= i,
        i + 1 < bounds_of(runs).len(),
    ensures
        ({
            let (x, y) = (bounds_of(runs)[i], bounds_of(runs)[i + 1]);
            change_at(runs, i) <==> (x.class == 1 || x.class == 2 || x.class == 3) && (y.class == 1
                || y.class == 2 || y.class == 3) && x.class != y.class && y.start - x.end
                >= 200_000_000 && speech_inside(runs, x.end as int, y.start as int) < 50_000_000
        }),
{
}

/// The pause that counts is the voice change whose middle is nearest to the cut,
/// before or behind it, and the first of equally near ones. There is none exactly
/// when no voice changes.
pub proof fn law_change_gap(runs: Seq<VoiceRun>, t: int, j: int)
    requires
        change_at(runs, j),
    ensures
        change_gap(runs, t) matches Some(gap) && {
            let (x, y) = (bounds_of(runs)[j], bounds_of(runs)[j + 1]);
            let mine = gap.0 + gap.1 - 2 * t;
            let other = x.end + y.start - 2 * t;
            &&& mine <= other || mine <= -other
            &&& -mine <= other || -mine <= -other
            &&& exists|i: int| #[trigger]
                change_at(runs, i) && gap == (bounds_of(runs)[i].end, bounds_of(runs)[i + 1].start)
                    && (j < i ==> mine != other && mine != -other)
        },
{
    lemma_nearest_change_exists(runs, t);
    let i = choose|i: int| nearest_change(runs, t, i);
    assert(change_at(runs, i));
    assert(off_centre(runs, t, i) <= off_centre(runs, t, j));
}

/// Without a voice change there is no pause that counts.
pub proof fn law_no_change_no_gap(runs: Seq<VoiceRun>, t: int)
    requires
        forall|i: int| !#[trigger] change_at(runs, i),
    ensures
        change_gap(runs, t) is None,
{
}

/// An instant is inside a pause when it is a twentieth of a second or more from
/// both of its ends.
pub proof fn law_inside_gap(t: int, gap: (Nanos, Nanos))
    ensures
        inside_gap(t, gap) <==> t - gap.0 >= 50_000_000 && gap.1 - t >= 50_000_000,
        clear_of(t, gap) <==> gap.0 - t >= 250_000_000 || t - gap.1 >= 250_000_000,
{
}

/// One candidate inside the pause is taken: at once when it is the current cut,
/// else when the current cut is a quarter of a second or more away from the
/// pause. With none or several inside nothing is taken.
pub proof fn law_unique_hit(instants: Seq<(i32, Nanos)>, gap: (Nanos, Nanos), i: int, k: int)
    requires
        0 <= i < instants.len(),
        inside_gap(instants[i].1 as int, gap),
        0 <= k < instants.len(),
        instants[k].0 == 0,
        forall|j: int| 0 <= j < k ==> (#[trigger] instants[j]).0 != 0,
    ensures
        (exists|j: int|
            0 <= j < instants.len() && j != i && inside_gap((#[trigger] instants[j]).1 as int, gap))
            ==> unique_hit(instants, gap) is None,
        (forall|j: int|
            0 <= j < instants.len() && j != i ==> !inside_gap(
                (#[trigger] instants[j]).1 as int,
                gap,
            )) ==> unique_hit(instants, gap) == if instants[i].0 == 0 || gap.0 - instants[k].1
            >= 250_000_000 || instants[k].1 - gap.1 >= 250_000_000 {
            Some(instants[i].0)
        } else {
            None
        },
{
    assert(current_cut(instants, k));
    assert forall|c: int| #[trigger] current_cut(instants, c) implies c == k by {
        if c < k {
            assert(instants[c].0 != 0);
        } else if k < c {
            assert(instants[k].0 != 0);
        }
    }
    if forall|j: int|
        0 <= j < instants.len() && j != i ==> !inside_gap((#[trigger] instants[j]).1 as int, gap) {
        assert(only_hit(instants, gap, i));
        let c = choose|c: int| only_hit(instants, gap, c);
        assert(only_hit(instants, gap, c));
        assert(inside_gap(instants[c].1 as int, gap));
        assert(c == i);
    } else {
        let j = choose|j: int|
            0 <= j < instants.len() && j != i && inside_gap((#[trigger] instants[j]).1 as int, gap);
        assert forall|c: int| !(#[trigger] only_hit(instants, gap, c)) by {
            if only_hit(instants, gap, c) {
                assert(inside_gap(instants[i].1 as int, gap));
                assert(inside_gap(instants[j].1 as int, gap));
            }
        }
    }
}

/// A window lies inside the audio where that is ten seconds or longer, and is
/// centred on the cut as far as that allows.
pub proof fn law_window_around(t: int, samples: nat)
    ensures
        ({
            let w = window_around(t, samples);
            let end = samples * 62_500;
            &&& w >= 0
            &&& end >= 10_000_000_000 ==> w + 10_000_000_000 <= end
            &&& end < 10_000_000_000 ==> w == 0
            &&& 5_000_000_000 <= t && t + 5_000_000_000 <= end ==> w == t - 5_000_000_000
            &&& t <= 5_000_000_000 ==> w == 0
            &&& t + 5_000_000_000 >= end >= 10_000_000_000 ==> w + 10_000_000_000 == end
        }),
{
}

/// The instants are those of the shifts that leave both sides a word, in order,
/// each in the middle of its pause.
pub proof fn law_instants(left: Seq<WordSpan>, right: Seq<WordSpan>, shifts: Seq<i32>, s: i32)
    ensures
        ({
            let all = instants_of(left, right, shifts);
            let more = instants_of(left, right, shifts.push(s));
            &&& boundary_refine::cut_edges(left, right, s as int) is None ==> more == all
            &&& boundary_refine::cut_edges(left, right, s as int) matches Some((a, b)) ==> more
                == all.push((s, ((a + b) / 2) as i64))
        }),
        instants_of(left, right, Seq::empty()).len() == 0,
{
    assert(shifts.push(s).drop_last() =~= shifts);
}

/// A cut is moved onto the voice change: where exactly one offered cut falls
/// firmly inside the pause nearest to the current cut, the verdict is that cut,
/// provided that it is the current one or that one is clearly away from the
/// pause.
pub proof fn law_voice_change_is_heard(
    runs: Seq<VoiceRun>,
    left: Seq<WordSpan>,
    right: Seq<WordSpan>,
    shifts: Seq<i32>,
    s: i32,
    now: (Nanos, Nanos),
    gap: (Nanos, Nanos),
)
    requires
        shifts.no_duplicates(),
        shifts.contains(s),
        shifts.contains(0),
        boundary_refine::cut_edges(left, right, 0) == Some(now),
        change_gap(runs, (now.0 + now.1) / 2) == Some(gap),
        lands_in(left, right, s, gap),
        forall|x: i32| shifts.contains(x) && x != s ==> !#[trigger] lands_in(left, right, x, gap),
    ensures
        verdict(runs, left, right, shifts) == if s == 0 || gap.0 - (now.0 + now.1) / 2
            >= 250_000_000 || (now.0 + now.1) / 2 - gap.1 >= 250_000_000 {
            Some(s)
        } else {
            None
        },
{
    let instants = instants_of(left, right, shifts);
    lemma_instants_are_offered(left, right, shifts);
    lemma_instants_differ(left, right, shifts);
    lemma_offered_have_instants(left, right, shifts, s);
    lemma_offered_have_instants(left, right, shifts, 0);
    let i = choose|i: int| 0 <= i < instants.len() && (#[trigger] instants[i]).0 == s;
    let k = choose|k: int| 0 <= k < instants.len() && (#[trigger] instants[k]).0 == 0;
    assert(instants[i].0 == s);
    assert(instants[k].0 == 0);
    assert forall|j: int| 0 <= j < instants.len() && j != i implies !inside_gap(
        (#[trigger] instants[j]).1 as int,
        gap,
    ) by {
        assert(instants[j].0 != instants[i].0);
        assert(shifts.contains(instants[j].0));
        assert(!lands_in(left, right, instants[j].0, gap));
    }
    assert forall|j: int| 0 <= j < k implies (#[trigger] instants[j]).0 != 0 by {
        assert(instants[j].0 != instants[k].0);
    }
    law_unique_hit(instants, gap, i, k);
}

proof fn lemma_instants_differ(left: Seq<WordSpan>, right: Seq<WordSpan>, shifts: Seq<i32>)
    requires
        shifts.no_duplicates(),
    ensures
        forall|i: int, j: int|
            0 <= i < instants_of(left, right, shifts).len() && 0 <= j < instants_of(
                left,
                right,
                shifts,
            ).len() && i != j ==> (#[trigger] instants_of(left, right, shifts)[i]).0 != (
            #[trigger] instants_of(left, right, shifts)[j]).0,
    decreases shifts.len(),
{
    if shifts.len() > 0 {
        let init = shifts.drop_last();
        let n = shifts.len() - 1;
        lemma_instants_differ(left, right, init);
        lemma_instants_are_offered(left, right, init);
        let head = instants_of(left, right, init);
        let all = instants_of(left, right, shifts);
        assert forall|i: int| 0 <= i < head.len() implies (#[trigger] head[i]).0 != shifts[n] by {
            assert(init.contains(head[i].0));
            let k = choose|k: int| 0 <= k < init.len() && init[k] == head[i].0;
            assert(shifts[k] != shifts[n]);
        }
    }
}

/// Samples, windows and times fit one another.
pub proof fn law_limits()
    ensures
        SAMPLE_RATE * SAMPLE_NS == 1_000_000_000,
        WINDOW_SAMPLES * SAMPLE_NS == WINDOW_NS,
        WINDOW_NS == 10 * 1_000_000_000,
        MIN_SUSTAINED_NS * 2 == 1_000_000_000,
        MIN_GAP_NS * 5 == 1_000_000_000,
        GAP_MARGIN_NS * 20 == 1_000_000_000,
        MAX_SPEECH_INSIDE_NS * 20 == 1_000_000_000,
        CURRENT_CUT_SLOP_NS * 4 == 1_000_000_000,
{
}

} // verus!
