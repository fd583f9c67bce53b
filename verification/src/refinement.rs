//! The course of one boundary refinement.
//!
//! Two passes. First, phantom interjections: a short turn wedged between two
//! turns of one other speaker is folded back when the model reads it as that
//! speaker's own sentence. Second, cut positions: each remaining tight handover
//! gets its cut confirmed or moved by acoustic evidence, or else re-chosen by
//! the model from the candidate cuts, recentering and asking again when it
//! picks the edge of the local window.
//!
//! The session decides; whoever drives it performs the [`Action`] and hands the
//! outcome back. Whatever comes back, the words stay what they were.
use vstd::prelude::*;
use crate::boundary_prompt;
use crate::boundary_prompt::{build_prompt, build_sandwich_prompt, parse_cut, parse_key};
use crate::boundary_refine;
use crate::boundary_refine::{
    Boundary, MAX_QUERIES, candidate_shifts, cut_instant_ms, find_boundaries, is_extreme_shift,
    is_sandwich, merge_sandwich, move_cut, words_of,
};
use crate::diarization;
use crate::diarization::{SpeakerTurn, TurnView, WordSpan};
use crate::segmentation;
use crate::segmentation::{VoiceRun, acoustic_verdict};
use crate::text;
use crate::text::same_text;
use crate::timeline::Nanos;

verus! {

/// How often one boundary is asked about.
pub const MAX_ROUNDS_PER_BOUNDARY: usize = 3;

/// Share of the queries that phantom interjections may use up.
pub const MAX_MERGE_QUERIES: usize = 16;

/// After so many failed queries in a row the model is not asked any more.
pub const MAX_CONSECUTIVE_FAILURES: usize = 2;

/// Seconds that the queries of one refinement may take together.
pub const TOTAL_BUDGET_SECS: u64 = 240;

/// Seconds that one query may take.
pub const PER_QUERY_TIMEOUT_SECS: u64 = 45;

/// Longest answer that is asked for, in tokens.
pub const MAX_REPLY_TOKENS: usize = 16;

/// What a refinement did.
#[derive(Debug, Clone, Copy, PartialEq, Eq, Structural)]
pub struct RefineStats {
    pub boundaries: usize,
    pub sandwiches: usize,
    pub queried: usize,
    pub moved: usize,
    pub merged: usize,
    pub failures: usize,
    /// Cuts that acoustic evidence confirmed in place.
    pub acoustic_confirmed: usize,
    /// Cuts that acoustic evidence moved onto the voice change.
    pub acoustic_moved: usize,
}

/// The counts before anything was done.
pub open spec fn no_stats() -> RefineStats {
    RefineStats {
        boundaries: 0,
        sandwiches: 0,
        queried: 0,
        moved: 0,
        merged: 0,
        failures: 0,
        acoustic_confirmed: 0,
        acoustic_moved: 0,
    }
}

impl Default for RefineStats {
    fn default() -> (r: Self)
        ensures
            r == no_stats(),
    {
        RefineStats {
            boundaries: 0,
            sandwiches: 0,
            queried: 0,
            moved: 0,
            merged: 0,
            failures: 0,
            acoustic_confirmed: 0,
            acoustic_moved: 0,
        }
    }
}

// ---------------------------------------------------------------------
// The model that is asked

/// A local language model and whether its file is there.
#[derive(Debug)]
pub struct LocalModel {
    pub name: String,
    pub downloaded: bool,
}

/// `i` is the first model with this name.
pub open spec fn first_named(models: Seq<LocalModel>, name: Seq<char>, i: int) -> bool {
    &&& 0 <= i < models.len()
    &&& models[i].name@ == name
    &&& forall|j: int| 0 <= j < i ==> (#[trigger] models[j]).name@ != name
}

/// `i` is the first model with this name, and its file is there.
pub open spec fn ready(models: Seq<LocalModel>, name: Seq<char>, i: int) -> bool {
    first_named(models, name, i) && models[i].downloaded
}

/// `i` is the first model whose file is there.
pub open spec fn first_downloaded(models: Seq<LocalModel>, i: int) -> bool {
    &&& 0 <= i < models.len()
    &&& models[i].downloaded
    &&& forall|j: int| 0 <= j < i ==> !(#[trigger] models[j]).downloaded
}

/// The choice of a model: the smaller preferred one, the larger preferred one,
/// or the first one that is there.
pub open spec fn picks(models: Seq<LocalModel>, i: int) -> bool {
    ||| ready(models, "qwen3.5:2b"@, i)
    ||| {
        &&& forall|j: int| !#[trigger] ready(models, "qwen3.5:2b"@, j)
        &&& ready(models, "qwen3.5:4b"@, i)
    }
    ||| {
        &&& forall|j: int| !#[trigger] ready(models, "qwen3.5:2b"@, j)
        &&& forall|j: int| !#[trigger] ready(models, "qwen3.5:4b"@, j)
        &&& first_downloaded(models, i)
    }
}

/// The first model of this name, if its file is there.
fn find_ready(models: &[LocalModel], name: &str) -> (r: Option<usize>)
    ensures
        match r {
            Some(i) => ready(models@, name@, i as int),
            None => forall|j: int| !#[trigger] ready(models@, name@, j),
        },
{
    let mut i: usize = 0;
    while i < models.len()
        invariant
            i <= models@.len(),
            forall|j: int| 0 <= j < i ==> (#[trigger] models@[j]).name@ != name@,
        decreases models@.len() - i,
    {
        if same_text(models[i].name.as_str(), name) {
            assert(first_named(models@, name@, i as int));
            if models[i].downloaded {
                return Some(i);
            }
            assert forall|j: int| !#[trigger] ready(models@, name@, j) by {
                if ready(models@, name@, j) {
                    if i < j {
                        assert(models@[i as int].name@ != name@);
                    }
                }
            }
            return None;
        }
        i += 1;
    }
    None
}

/// Pick the best available local model: prefer the smaller Qwen if it is
/// there, fall back to any that is.
pub fn pick_model(models: &[LocalModel]) -> (r: Option<usize>)
    ensures
        match r {
            Some(i) => picks(models@, i as int),
            None => forall|j: int| 0 <= j < models@.len() ==> !(#[trigger] models@[j]).downloaded,
        },
{
    match find_ready(models, "qwen3.5:2b") {
        Some(i) => {
            return Some(i);
        },
        None => {},
    }
    match find_ready(models, "qwen3.5:4b") {
        Some(i) => {
            return Some(i);
        },
        None => {},
    }
    let mut i: usize = 0;
    while i < models.len()
        invariant
            i <= models@.len(),
            forall|j: int| 0 <= j < i ==> !(#[trigger] models@[j]).downloaded,
            forall|j: int| !#[trigger] ready(models@, "qwen3.5:2b"@, j),
            forall|j: int| !#[trigger] ready(models@, "qwen3.5:4b"@, j),
        decreases models@.len() - i,
    {
        if models[i].downloaded {
            assert(first_downloaded(models@, i as int));
            return Some(i);
        }
        i += 1;
    }
    None
}

/// Shared failure tracking across both passes.
#[derive(Debug, Clone, Copy, PartialEq, Eq, Structural)]
pub struct QueryCtx {
    pub consecutive_failures: usize,
}

impl QueryCtx {
    /// No more queries: the time is up, too many failed in a row, or all were
    /// used.
    pub open spec fn spent(self, stats: RefineStats, over_budget: bool) -> bool {
        over_budget || self.consecutive_failures >= MAX_CONSECUTIVE_FAILURES || stats.queried
            >= MAX_QUERIES
    }

    /// Whether no more queries may be made.
    pub fn exhausted(&self, stats: &RefineStats, over_budget: bool) -> (r: bool)
        ensures
            r == self.spent(*stats, over_budget),
    {
        over_budget || self.consecutive_failures >= MAX_CONSECUTIVE_FAILURES || stats.queried
            >= MAX_QUERIES
    }
}

// ---------------------------------------------------------------------
// The session

/// What the session is waiting for.
#[derive(Debug, Clone, Copy, PartialEq, Eq, Structural)]
pub enum Phase {
    /// Whether to go on looking for phantom interjections.
    Scan,
    /// The reply to a merge question.
    MergeAsked,
    /// Whether to go on with the next boundary.
    Walk,
    /// The voices around a boundary.
    Listen,
    /// The reply to a cut question.
    CutAsked,
    /// Nothing: the refinement is over.
    Over,
}

/// What the driver has to do next.
#[derive(Debug)]
pub enum Action {
    /// There is nothing to refine.
    Idle,
    /// Find out whether the user cancelled; then call `checked`.
    Check,
    /// Report that `done` of `total` boundaries are through, and find the voice
    /// runs around `cut` if that can be done; then call `heard`.
    Listen { cut: Option<Nanos>, done: usize, total: usize },
    /// Put `prompt` to the model; then call `replied`.
    Ask { prompt: String },
    /// Report that all `total` boundaries are through.
    Finished { total: usize },
}

/// The contents of an action.
pub enum ActionView {
    Idle,
    Check,
    Listen { cut: Option<int>, done: int, total: int },
    Ask { prompt: Seq<char> },
    Finished { total: int },
}

impl View for Action {
    type V = ActionView;

    open spec fn view(&self) -> ActionView {
        match self {
            Action::Idle => ActionView::Idle,
            Action::Check => ActionView::Check,
            Action::Listen { cut, done, total } => ActionView::Listen {
                cut: match cut {
                    Some(t) => Some(*t as int),
                    None => None,
                },
                done: *done as int,
                total: *total as int,
            },
            Action::Ask { prompt } => ActionView::Ask { prompt: prompt@ },
            Action::Finished { total } => ActionView::Finished { total: *total as int },
        }
    }
}

/// One refinement of a list of turns.
#[derive(Debug)]
pub struct Refinement {
    turns: Vec<SpeakerTurn>,
    stats: RefineStats,
    ctx: QueryCtx,
    variant: String,
    phase: Phase,
    /// The turn that pass one looks at.
    mid: usize,
    /// The boundaries that pass two looks at.
    boundaries: Vec<Boundary>,
    /// How many of them are through.
    done: usize,
    /// How often the current one was asked about.
    rounds: usize,
    /// The shifts of the question that is open.
    shifts: Vec<i32>,
}

/// The contents of a session.
pub struct SessionView {
    pub turns: Seq<TurnView>,
    pub stats: RefineStats,
    pub ctx: QueryCtx,
    pub variant: Seq<char>,
    pub phase: Phase,
    pub mid: int,
    pub boundaries: Seq<(int, int)>,
    pub done: int,
    pub rounds: int,
    pub shifts: Seq<i32>,
}

impl View for Refinement {
    type V = SessionView;

    closed spec fn view(&self) -> SessionView {
        SessionView {
            turns: diarization::turn_views(self.turns@),
            stats: self.stats,
            ctx: self.ctx,
            variant: self.variant@,
            phase: self.phase,
            mid: self.mid as int,
            boundaries: boundary_refine::boundary_pairs(self.boundaries@),
            done: self.done as int,
            rounds: self.rounds as int,
            shifts: self.shifts@,
        }
    }
}

// ---------------------------------------------------------------------
// Transitions

/// Shifts in machine form.
pub open spec fn machine(shifts: Seq<int>) -> Seq<i32> {
    Seq::new(shifts.len(), |i: int| shifts[i] as i32)
}

/// One more, as the counters count.
pub open spec fn inc(n: usize) -> usize {
    (n + 1) as usize
}

impl SessionView {
    /// A session that waits for `phase`.
    pub open spec fn at(self, phase: Phase) -> SessionView {
        SessionView { phase, ..self }
    }

    /// Go on with boundary `done` of pass two.
    pub open spec fn walk_from(self, done: int) -> (SessionView, ActionView) {
        let s = SessionView { done, ..self };
        if done < self.boundaries.len() {
            (s.at(Phase::Walk), ActionView::Check)
        } else {
            (s.at(Phase::Over), ActionView::Finished { total: self.boundaries.len() as int })
        }
    }

    /// Begin pass two.
    pub open spec fn walk_start(self) -> (SessionView, ActionView) {
        let boundaries = boundary_refine::boundaries_of(self.turns);
        let stats = RefineStats { boundaries: boundaries.len() as usize, ..self.stats };
        SessionView { boundaries, stats, ..self }.walk_from(0)
    }

    /// Go on with turn `mid` of pass one.
    pub open spec fn scan_from(self, mid: int) -> (SessionView, ActionView) {
        if mid + 1 < self.turns.len() {
            (SessionView { mid, ..self }.at(Phase::Scan), ActionView::Check)
        } else {
            SessionView { mid, ..self }.walk_start()
        }
    }

    /// The turns around the middle turn of pass one form a sandwich.
    pub open spec fn at_sandwich(self) -> bool {
        boundary_refine::sandwich(
            self.turns[self.mid - 1],
            self.turns[self.mid],
            self.turns[self.mid + 1],
        )
    }

    /// The turn left of the current boundary.
    pub open spec fn left(self) -> int {
        self.boundaries[self.done].0
    }

    /// The shifts offered at the current boundary.
    pub open spec fn offered(self) -> Seq<int> {
        boundary_refine::shifts_of(
            boundary_refine::turn_words(self.turns[self.left()].words),
            boundary_refine::turn_words(self.turns[self.left() + 1].words),
        )
    }

    /// The question about the current boundary.
    pub open spec fn question(self) -> Seq<char> {
        boundary_prompt::cut_question(
            boundary_refine::turn_words(self.turns[self.left()].words),
            boundary_refine::turn_words(self.turns[self.left() + 1].words),
            self.variant,
        )
    }

    /// Where the current cut falls.
    pub open spec fn cut(self) -> Option<int> {
        match boundary_refine::cut_edges(
            self.turns[self.left()].words,
            self.turns[self.left() + 1].words,
            0,
        ) {
            Some((a, b)) => Some((a + b) / 2),
            None => None,
        }
    }

    /// The driver found out whether the user cancelled.
    pub open spec fn checked(self, cancelled: bool, over_budget: bool) -> (SessionView, ActionView) {
        if self.phase == Phase::Scan {
            if cancelled {
                self.walk_start()
            } else if self.at_sandwich() {
                let stats = RefineStats { sandwiches: inc(self.stats.sandwiches), ..self.stats };
                let s = SessionView { stats, ..self };
                if !self.ctx.spent(stats, over_budget) && stats.queried < MAX_MERGE_QUERIES {
                    let asked = RefineStats { queried: inc(stats.queried), ..stats };
                    (
                        SessionView { stats: asked, ..s }.at(Phase::MergeAsked),
                        ActionView::Ask {
                            prompt: boundary_prompt::merge_question(
                                self.turns[self.mid - 1],
                                self.turns[self.mid],
                                self.turns[self.mid + 1],
                            ),
                        },
                    )
                } else {
                    s.scan_from(self.mid + 1)
                }
            } else {
                self.scan_from(self.mid + 1)
            }
        } else if cancelled {
            (
                self.at(Phase::Over),
                ActionView::Finished { total: self.boundaries.len() as int },
            )
        } else {
            (
                self.at(Phase::Listen),
                ActionView::Listen {
                    cut: self.cut(),
                    done: self.done,
                    total: self.boundaries.len() as int,
                },
            )
        }
    }

    /// Ask about the current boundary, for the `rounds`-th time.
    pub open spec fn ask_cut(self, rounds: int) -> (SessionView, ActionView) {
        let offered = self.offered();
        if offered.len() < 2 {
            self.walk_from(self.done + 1)
        } else {
            let stats = RefineStats { queried: inc(self.stats.queried), ..self.stats };
            let shifts = machine(offered);
            (
                SessionView { stats, rounds, shifts, ..self }.at(Phase::CutAsked),
                ActionView::Ask { prompt: self.question() },
            )
        }
    }

    /// The driver knows the voice runs around the current cut, or could not
    /// find them.
    pub open spec fn heard(self, runs: Option<Seq<VoiceRun>>, over_budget: bool) -> (
        SessionView,
        ActionView,
    ) {
        let offered = self.offered();
        let verdict = match runs {
            Some(runs) => segmentation::verdict(
                runs,
                self.turns[self.left()].words,
                self.turns[self.left() + 1].words,
                machine(offered),
            ),
            None => None,
        };
        match verdict {
            Some(shift) => {
                let stats = if shift == 0 {
                    RefineStats {
                        acoustic_confirmed: inc(self.stats.acoustic_confirmed),
                        ..self.stats
                    }
                } else {
                    RefineStats {
                        moved: inc(self.stats.moved),
                        acoustic_moved: inc(self.stats.acoustic_moved),
                        ..self.stats
                    }
                };
                let turns = boundary_refine::recut(self.turns, self.left(), shift as int);
                SessionView { turns, stats, ..self }.walk_from(self.done + 1)
            },
            None => if self.ctx.spent(self.stats, over_budget) {
                self.walk_from(self.done + 1)
            } else {
                self.ask_cut(1)
            },
        }
    }

    /// The session after a query failed.
    pub open spec fn failed(self) -> SessionView {
        SessionView {
            stats: RefineStats { failures: inc(self.stats.failures), ..self.stats },
            ctx: QueryCtx { consecutive_failures: inc(self.ctx.consecutive_failures) },
            ..self
        }
    }

    /// The session after a reply came.
    pub open spec fn answered(self) -> SessionView {
        SessionView { ctx: QueryCtx { consecutive_failures: 0 }, ..self }
    }

    /// The session after a reply that answers nothing.
    pub open spec fn puzzled(self) -> SessionView {
        SessionView {
            stats: RefineStats { failures: inc(self.stats.failures), ..self.stats },
            ..self.answered()
        }
    }

    /// The model replied, or the query failed.
    pub open spec fn replied(self, reply: Option<Seq<char>>, over_budget: bool) -> (
        SessionView,
        ActionView,
    ) {
        if self.phase == Phase::MergeAsked {
            match reply {
                None => self.failed().scan_from(self.mid + 1),
                Some(reply) => {
                    let n = boundary_prompt::keyed_number(reply, "merge"@);
                    if n == Some(1int) {
                        SessionView {
                            turns: boundary_refine::folded(self.turns, self.mid),
                            stats: RefineStats { merged: inc(self.stats.merged), ..self.stats },
                            ..self.answered()
                        }.scan_from(self.mid)
                    } else if n == Some(0int) {
                        self.answered().scan_from(self.mid + 1)
                    } else {
                        self.puzzled().scan_from(self.mid + 1)
                    }
                },
            }
        } else {
            match reply {
                None => self.failed().walk_from(self.done + 1),
                Some(reply) => {
                    let n = boundary_prompt::keyed_number(reply, "cut"@);
                    match n {
                        Some(n) => if 1 <= n <= self.shifts.len() {
                            let shift = self.shifts[n - 1] as int;
                            if shift == 0 {
                                self.answered().walk_from(self.done + 1)
                            } else {
                                let s = SessionView {
                                    turns: boundary_refine::recut(self.turns, self.left(), shift),
                                    stats: RefineStats {
                                        moved: inc(self.stats.moved),
                                        ..self.stats
                                    },
                                    ..self.answered()
                                };
                                if !boundary_refine::extreme(
                                    shift,
                                    boundary_refine::ints(self.shifts),
                                ) || self.rounds >= MAX_ROUNDS_PER_BOUNDARY || s.ctx.spent(
                                    s.stats,
                                    over_budget,
                                ) {
                                    s.walk_from(self.done + 1)
                                } else {
                                    s.ask_cut(self.rounds + 1)
                                }
                            }
                        } else {
                            self.puzzled().walk_from(self.done + 1)
                        },
                        None => self.puzzled().walk_from(self.done + 1),
                    }
                },
            }
        }
    }

    /// A question is open.
    pub open spec fn asking(self) -> bool {
        self.phase == Phase::MergeAsked || self.phase == Phase::CutAsked
    }

    /// Pass one is going on.
    pub open spec fn scanning(self) -> bool {
        self.phase == Phase::Scan || self.phase == Phase::MergeAsked
    }

    /// What holds of a session at any time: every query has at most one
    /// outcome, the counters stay within their caps, and the positions lie
    /// inside the list of turns.
    pub open spec fn wf(self) -> bool {
        let st = self.stats;
        let open_query: int = if self.asking() {
            1
        } else {
            0
        };
        &&& st.queried <= MAX_QUERIES
        &&& self.ctx.consecutive_failures <= MAX_CONSECUTIVE_FAILURES
        &&& self.asking() ==> self.ctx.consecutive_failures < MAX_CONSECUTIVE_FAILURES
        &&& st.merged <= MAX_MERGE_QUERIES
        &&& st.acoustic_moved <= st.moved
        &&& st.failures + st.merged + (st.moved - st.acoustic_moved) + open_query <= st.queried
        &&& self.scanning() ==> {
            &&& 1 <= self.mid
            &&& self.mid + 1 < self.turns.len()
            &&& self.turns.len() <= usize::MAX
            &&& st.sandwiches + (self.turns.len() - self.mid) <= usize::MAX + open_query
            &&& st.queried <= MAX_MERGE_QUERIES
            &&& st.moved == 0
            &&& st.acoustic_confirmed == 0
        }
        &&& !self.scanning() ==> {
            &&& self.boundaries.len() <= MAX_QUERIES
            &&& st.boundaries == self.boundaries.len()
            &&& 0 <= self.done <= self.boundaries.len()
            &&& self.phase != Phase::Over ==> self.done < self.boundaries.len()
            &&& st.acoustic_confirmed + st.acoustic_moved <= self.done
            &&& forall|k: int|
                0 <= k < self.boundaries.len() ==> 0 <= (#[trigger] self.boundaries[k]).0
                    && self.boundaries[k].0 + 1 < self.turns.len()
        }
        &&& self.phase == Phase::CutAsked ==> {
            &&& boundary_refine::ints(self.shifts) == self.offered()
            &&& 1 <= self.rounds <= MAX_ROUNDS_PER_BOUNDARY
        }
    }
}

// ---------------------------------------------------------------------
// Laws of the session

/// The words of the whole conversation are untouched.
pub open spec fn same_words(a: SessionView, b: SessionView) -> bool {
    diarization::conversation(a.turns) == diarization::conversation(b.turns)
}

/// The same turns by the same speakers, and no turn lost all of its words.
pub open spec fn same_turns(a: SessionView, b: SessionView) -> bool {
    &&& a.turns.len() == b.turns.len()
    &&& forall|k: int|
        0 <= k < a.turns.len() ==> (#[trigger] b.turns[k]).speaker == a.turns[k].speaker && (
        a.turns[k].words.len() > 0 ==> b.turns[k].words.len() > 0)
}

proof fn lemma_offered_movable(left: Seq<WordSpan>, right: Seq<WordSpan>, shift: int)
    requires
        boundary_refine::shifts_of(
            boundary_refine::turn_words(left),
            boundary_refine::turn_words(right),
        ).contains(shift),
    ensures
        boundary_refine::movable(left, right, shift),
        -12 <= shift <= 12,
{
    boundary_refine::law_candidate_shifts(
        boundary_refine::turn_words(left),
        boundary_refine::turn_words(right),
    );
}

proof fn lemma_machine(shifts: Seq<int>)
    requires
        forall|s: int| #[trigger] shifts.contains(s) ==> -12 <= s <= 12,
    ensures
        boundary_refine::ints(machine(shifts)) == shifts,
        forall|s: i32| #[trigger] machine(shifts).contains(s) ==> shifts.contains(s as int),
{
    assert forall|i: int| 0 <= i < shifts.len() implies -12 <= #[trigger] shifts[i] <= 12 by {
        assert(shifts.contains(shifts[i]));
    }
    assert(boundary_refine::ints(machine(shifts)) =~= shifts);
    assert forall|s: i32| #[trigger] machine(shifts).contains(s) implies shifts.contains(
        s as int,
    ) by {
        let k = choose|k: int| 0 <= k < machine(shifts).len() && machine(shifts)[k] == s;
        assert(shifts[k] == s);
    }
}

impl SessionView {
    proof fn lemma_walk_start(self)
        requires
            self.turns.len() <= usize::MAX,
            self.stats.queried <= MAX_QUERIES,
            self.stats.merged <= MAX_MERGE_QUERIES,
            self.ctx.consecutive_failures <= MAX_CONSECUTIVE_FAILURES,
            self.stats.failures + self.stats.merged <= self.stats.queried,
            self.stats.moved == 0,
            self.stats.acoustic_moved == 0,
            self.stats.acoustic_confirmed == 0,
        ensures
            self.walk_start().0.wf(),
            self.walk_start().0.turns == self.turns,
    {
        boundary_refine::law_boundaries(self.turns);
    }

    proof fn lemma_scan_from(self, mid: int)
        requires
            1 <= mid,
            self.turns.len() <= usize::MAX,
            self.stats.sandwiches + (self.turns.len() - mid) <= usize::MAX,
            self.stats.queried <= MAX_MERGE_QUERIES,
            self.ctx.consecutive_failures <= MAX_CONSECUTIVE_FAILURES,
            self.stats.failures + self.stats.merged <= self.stats.queried,
            self.stats.moved == 0,
            self.stats.acoustic_moved == 0,
            self.stats.acoustic_confirmed == 0,
        ensures
            self.scan_from(mid).0.wf(),
            self.scan_from(mid).0.turns == self.turns,
    {
        SessionView { mid, ..self }.lemma_walk_start();
    }

    /// A check keeps the session well-formed and changes no turn.
    pub proof fn law_checked(self, cancelled: bool, over_budget: bool)
        requires
            self.wf(),
            self.phase == Phase::Scan || self.phase == Phase::Walk,
        ensures
            self.checked(cancelled, over_budget).0.wf(),
            self.checked(cancelled, over_budget).0.turns == self.turns,
    {
        if self.phase == Phase::Scan {
            if cancelled {
                self.lemma_walk_start();
            } else if self.at_sandwich() {
                let stats = RefineStats { sandwiches: inc(self.stats.sandwiches), ..self.stats };
                SessionView { stats, ..self }.lemma_scan_from(self.mid + 1);
            } else {
                self.lemma_scan_from(self.mid + 1);
            }
        }
    }

    /// The offered shifts of the current boundary are those of the question.
    proof fn lemma_offered(self)
        ensures
            forall|s: int| #[trigger] self.offered().contains(s) ==> -12 <= s <= 12,
            boundary_refine::ints(machine(self.offered())) == self.offered(),
            forall|s: i32| #[trigger] machine(self.offered()).contains(s)
                ==> self.offered().contains(s as int),
    {
        boundary_refine::law_candidate_shifts(
            boundary_refine::turn_words(self.turns[self.left()].words),
            boundary_refine::turn_words(self.turns[self.left() + 1].words),
        );
        lemma_machine(self.offered());
    }

    /// Moving the current cut by an offered shift.
    proof fn lemma_recut(self, shift: int)
        requires
            0 <= self.left(),
            self.left() + 1 < self.turns.len(),
            self.offered().contains(shift),
        ensures
            ({
                let moved = SessionView {
                    turns: boundary_refine::recut(self.turns, self.left(), shift),
                    ..self
                };
                same_words(self, moved) && same_turns(self, moved)
            }),
    {
        let i = self.left();
        let (l, r) = (self.turns[i].words, self.turns[i + 1].words);
        lemma_offered_movable(l, r, shift);
        boundary_refine::law_recut_keeps_the_words(self.turns, i, shift);
        let new = boundary_refine::recut(self.turns, i, shift);
        assert forall|k: int| 0 <= k < self.turns.len() implies (#[trigger] new[k]).speaker
            == self.turns[k].speaker && (self.turns[k].words.len() > 0 ==> new[k].words.len()
            > 0) by {
            if shift != 0 && (k == i || k == i + 1) {
                boundary_refine::law_cut_keeps_the_words(l, r, shift);
                if l.len() > 0 && r.len() > 0 {
                    boundary_refine::law_offered_cut_keeps_both_sides(l, r, shift);
                } else {
                    boundary_refine::law_candidate_shifts(
                        boundary_refine::turn_words(l),
                        boundary_refine::turn_words(r),
                    );
                    boundary_refine::law_words_tile_the_turn(l);
                    boundary_refine::law_words_tile_the_turn(r);
                    if shift > 0 {
                        let rr = boundary_refine::ranges_of(r);
                        assert(0 <= rr[shift].0 < rr[shift].1 <= r.len());
                    } else {
                        let ll = boundary_refine::ranges_of(l);
                        assert(ll[0].1 <= ll[ll.len() + shift].0);
                    }
                }
            }
        }
    }

    /// What is heard keeps the session well-formed. It never changes a word,
    /// nor the number of turns or their speakers, and empties no turn.
    pub proof fn law_heard(self, runs: Option<Seq<VoiceRun>>, over_budget: bool)
        requires
            self.wf(),
            self.phase == Phase::Listen,
        ensures
            self.heard(runs, over_budget).0.wf(),
            same_words(self, self.heard(runs, over_budget).0),
            same_turns(self, self.heard(runs, over_budget).0),
    {
        self.lemma_offered();
        let shifts = machine(self.offered());
        if runs is Some {
            let (l, r) = (self.turns[self.left()].words, self.turns[self.left() + 1].words);
            segmentation::law_verdict_is_an_offered_cut(runs->0, l, r, shifts);
            match segmentation::verdict(runs->0, l, r, shifts) {
                Some(shift) => {
                    self.lemma_recut(shift as int);
                },
                None => {},
            }
        }
    }

    /// A reply keeps the session well-formed and never changes a word, whatever
    /// it says. In pass two it changes neither the number of turns nor their
    /// speakers, and empties no turn.
    pub proof fn law_replied(self, reply: Option<Seq<char>>, over_budget: bool)
        requires
            self.wf(),
            self.asking(),
        ensures
            self.replied(reply, over_budget).0.wf(),
            same_words(self, self.replied(reply, over_budget).0),
            self.phase == Phase::CutAsked ==> same_turns(self, self.replied(reply, over_budget).0),
    {
        if self.phase == Phase::MergeAsked {
            self.failed().lemma_scan_from(self.mid + 1);
            self.answered().lemma_scan_from(self.mid + 1);
            self.puzzled().lemma_scan_from(self.mid + 1);
            boundary_refine::law_fold_keeps_the_words(self.turns, self.mid);
            let merged = SessionView {
                turns: boundary_refine::folded(self.turns, self.mid),
                stats: RefineStats { merged: inc(self.stats.merged), ..self.stats },
                ..self.answered()
            };
            merged.lemma_scan_from(self.mid);
        } else {
            match reply {
                Some(text) => match boundary_prompt::keyed_number(text, "cut"@) {
                    Some(n) => {
                        if 1 <= n <= self.shifts.len() {
                            let shift = self.shifts[n - 1] as int;
                            assert(boundary_refine::ints(self.shifts)[n - 1] == shift);
                            assert(self.offered().contains(shift));
                            self.lemma_recut(shift);
                            let s = SessionView {
                                turns: boundary_refine::recut(self.turns, self.left(), shift),
                                stats: RefineStats { moved: inc(self.stats.moved), ..self.stats },
                                ..self.answered()
                            };
                            s.lemma_offered();
                        }
                    },
                    None => {},
                },
                None => {},
            }
        }
    }
}

/// One of the turns is this speaker's.
pub open spec fn among(speaker: Option<usize>, turns: Seq<TurnView>) -> bool {
    exists|j: int| 0 <= j < turns.len() && (#[trigger] turns[j]).speaker == speaker
}

impl SessionView {
    /// What a session has kept of the turns that it began with: all words in
    /// their order, and every turn but the two that each merge takes away.
    /// Nobody speaks who did not speak then.
    pub open spec fn follows(self, start: Seq<TurnView>) -> bool {
        &&& diarization::conversation(self.turns) == diarization::conversation(start)
        &&& self.turns.len() + 2 * self.stats.merged == start.len()
        &&& forall|k: int|
            0 <= k < self.turns.len() ==> among((#[trigger] self.turns[k]).speaker, start)
    }

    /// A session with the same turns by the same speakers follows as well.
    proof fn lemma_follows(self, next: SessionView, start: Seq<TurnView>)
        requires
            self.follows(start),
            same_words(self, next),
            same_turns(self, next),
            next.stats.merged == self.stats.merged,
        ensures
            next.follows(start),
    {
        assert forall|k: int| 0 <= k < next.turns.len() implies among(
            (#[trigger] next.turns[k]).speaker,
            start,
        ) by {
            assert(among(self.turns[k].speaker, start));
        }
    }

    /// What a whole refinement keeps: from the first step to the last the words
    /// are those it began with, each merge takes two turns away, at most so many
    /// merges are made as may be asked about, and no speaker is new. Every step
    /// keeps that so, whatever is heard or replied.
    pub proof fn law_whole_refinement(
        self,
        start: Seq<TurnView>,
        cancelled: bool,
        over_budget: bool,
        runs: Option<Seq<VoiceRun>>,
        reply: Option<Seq<char>>,
    )
        requires
            self.wf(),
            self.follows(start),
        ensures
            self.stats.merged <= MAX_MERGE_QUERIES,
            self.phase == Phase::Scan || self.phase == Phase::Walk ==> self.checked(
                cancelled,
                over_budget,
            ).0.follows(start),
            self.phase == Phase::Listen ==> self.heard(runs, over_budget).0.follows(start),
            self.asking() ==> self.replied(reply, over_budget).0.follows(start),
    {
        if self.phase == Phase::Scan || self.phase == Phase::Walk {
            self.law_checked(cancelled, over_budget);
            self.lemma_follows(self.checked(cancelled, over_budget).0, start);
        } else if self.phase == Phase::Listen {
            self.law_heard(runs, over_budget);
            self.lemma_follows(self.heard(runs, over_budget).0, start);
        } else if self.phase == Phase::CutAsked {
            self.law_replied(reply, over_budget);
            self.lemma_follows(self.replied(reply, over_budget).0, start);
        } else if self.phase == Phase::MergeAsked {
            self.law_replied(reply, over_budget);
            let next = self.replied(reply, over_budget).0;
            if next.stats.merged == self.stats.merged {
                self.lemma_follows(next, start);
            } else {
                let folded = boundary_refine::folded(self.turns, self.mid);
                assert(next.turns == folded);
                assert forall|k: int| 0 <= k < folded.len() implies among(
                    (#[trigger] folded[k]).speaker,
                    start,
                ) by {
                    if k < self.mid {
                        assert(folded[k].speaker == self.turns[k].speaker);
                        assert(among(self.turns[k].speaker, start));
                    } else {
                        assert(folded[k] == self.turns[k + 2]);
                        assert(among(self.turns[k + 2].speaker, start));
                    }
                }
            }
        }
    }
}

impl SessionView {
    /// How many steps a session can still take at most.
    pub open spec fn steps_left(self) -> int {
        let per_boundary: int = 8;
        if self.phase == Phase::Over {
            0
        } else if self.scanning() {
            per_boundary * (MAX_QUERIES + 1) + 2 * (self.turns.len() - self.mid) + if self.phase
                == Phase::Scan {
                1int
            } else {
                0
            }
        } else {
            per_boundary * (self.boundaries.len() - self.done) + if self.phase == Phase::Walk {
                7
            } else if self.phase == Phase::Listen {
                6
            } else {
                5 - self.rounds
            }
        }
    }

    /// A refinement ends: every step leaves fewer steps, and none are left only
    /// when it is over.
    pub proof fn law_refinement_ends(
        self,
        cancelled: bool,
        over_budget: bool,
        runs: Option<Seq<VoiceRun>>,
        reply: Option<Seq<char>>,
    )
        requires
            self.wf(),
        ensures
            self.steps_left() >= 0,
            self.steps_left() == 0 <==> self.phase == Phase::Over,
            self.phase == Phase::Scan || self.phase == Phase::Walk ==> self.checked(
                cancelled,
                over_budget,
            ).0.steps_left() < self.steps_left(),
            self.phase == Phase::Listen ==> self.heard(runs, over_budget).0.steps_left()
                < self.steps_left(),
            self.asking() ==> self.replied(reply, over_budget).0.steps_left() < self.steps_left(),
    {
        boundary_refine::law_boundaries(self.turns);
        if self.phase == Phase::MergeAsked {
            let folded = boundary_refine::folded(self.turns, self.mid);
            assert(folded.len() == self.turns.len() - 2);
            boundary_refine::law_boundaries(folded);
        }
    }
}

// ---------------------------------------------------------------------
// Driving the session

impl SessionView {
    /// A session before its first step.
    pub open spec fn fresh(turns: Seq<TurnView>, variant: Seq<char>) -> SessionView {
        SessionView {
            turns,
            stats: no_stats(),
            ctx: QueryCtx { consecutive_failures: 0 },
            variant,
            phase: Phase::Over,
            mid: 1,
            boundaries: Seq::empty(),
            done: 0,
            rounds: 0,
            shifts: Seq::empty(),
        }
    }

    /// The first step: with fewer than two turns there is nothing to do.
    pub open spec fn begun(turns: Seq<TurnView>, variant: Seq<char>) -> (SessionView, ActionView) {
        if turns.len() < 2 {
            (SessionView::fresh(turns, variant), ActionView::Idle)
        } else {
            SessionView::fresh(turns, variant).scan_from(1)
        }
    }

    /// A new session is well-formed, holds the given turns and follows them.
    pub proof fn law_begun(turns: Seq<TurnView>, variant: Seq<char>)
        requires
            turns.len() <= usize::MAX,
        ensures
            SessionView::begun(turns, variant).0.wf(),
            SessionView::begun(turns, variant).0.turns == turns,
            SessionView::begun(turns, variant).0.follows(turns),
    {
        if turns.len() >= 2 {
            SessionView::fresh(turns, variant).lemma_scan_from(1);
        }
        assert forall|k: int| 0 <= k < turns.len() implies among(
            (#[trigger] turns[k]).speaker,
            turns,
        ) by {}
    }
}

// ---------------------------------------------------------------------
// What the steps of a session do

impl SessionView {
    /// The cut behind the left turn of the current boundary stands where `shift`
    /// puts it, in `now` as compared to this session: the words of the left turn
    /// are those of both turns up to the cut, the right turn holds the rest, so
    /// that exactly so many words went over, and no other turn changed.
    pub open spec fn moved_by(self, now: SessionView, shift: int) -> bool {
        let i = self.left();
        let (left, right) = (self.turns[i].words, self.turns[i + 1].words);
        let all = left + right;
        let cut = now.turns[i].words.len() as int;
        &&& now.turns.len() == self.turns.len()
        &&& cut <= all.len()
        &&& now.turns[i].words == all.take(cut)
        &&& now.turns[i + 1].words == all.skip(cut)
        &&& shift == 0 ==> cut == left.len()
        &&& shift > 0 ==> cut > left.len() && boundary_refine::spaced_token(
            right,
            cut - left.len(),
        ) && boundary_refine::word_total(right.take(cut - left.len())) == shift
        &&& shift < 0 ==> cut < left.len() && (cut == 0 || boundary_refine::spaced_token(left, cut))
            && boundary_refine::word_total(left.skip(cut)) == -shift
        &&& forall|k: int|
            0 <= k < self.turns.len() && k != i && k != i + 1 ==> #[trigger] now.turns[k]
                == self.turns[k]
        &&& forall|k: int|
            0 <= k < self.turns.len() ==> (#[trigger] now.turns[k]).speaker == self.turns[k].speaker
    }

    proof fn lemma_moved_by(self, now: SessionView, shift: int)
        requires
            0 <= self.left(),
            self.left() + 1 < self.turns.len(),
            self.offered().contains(shift),
            now.turns == boundary_refine::recut(self.turns, self.left(), shift),
        ensures
            self.moved_by(now, shift),
    {
        let i = self.left();
        let (l, r) = (self.turns[i].words, self.turns[i + 1].words);
        lemma_offered_movable(l, r, shift);
        boundary_refine::law_shift_moves_words(l, r, shift);
        boundary_refine::law_cut_keeps_the_words(l, r, shift);
        boundary_refine::law_recut(self.turns, i, shift, 0);
        boundary_refine::law_recut_keeps_the_words(self.turns, i, shift);
        assert(now.turns[i].words.len() == boundary_refine::cut_token(l, r, shift));
    }

    /// A reply that names an option moves the cut to where that option has it,
    /// whichever way, and counts as a move unless the option is the current cut.
    /// A pick at the edge of the local window is asked about again, at most three
    /// times in all and while queries are left; else the next boundary follows.
    pub proof fn law_reply_moves_the_cut(self, reply: Seq<char>, n: int, over_budget: bool)
        requires
            self.wf(),
            self.phase == Phase::CutAsked,
            boundary_prompt::keyed_number(reply, "cut"@) == Some(n),
            1 <= n <= self.shifts.len(),
        ensures
            ({
                let now = self.replied(Some(reply), over_budget).0;
                let shift = self.shifts[n - 1] as int;
                let edge = (shift == 2 || shift == -2) && (shift == self.shifts[0] || shift
                    == self.shifts[self.shifts.len() - 1]);
                let again = edge && self.rounds < 3 && !over_budget && self.stats.queried < 32
                    && SessionView { turns: now.turns, ..self }.offered().len() >= 2;
                &&& self.moved_by(now, shift)
                &&& self.offered()[n - 1] == shift
                &&& shift == 0 ==> now.turns == self.turns
                &&& now.stats.moved == self.stats.moved + if shift == 0 { 0int } else { 1 }
                &&& now.stats.failures == self.stats.failures
                &&& now.stats.merged == self.stats.merged
                &&& now.ctx.consecutive_failures == 0
                &&& again ==> now.phase == Phase::CutAsked && now.done == self.done && now.rounds
                    == self.rounds + 1 && now.stats.queried == self.stats.queried + 1
                &&& !again ==> now.done == self.done + 1 && now.stats.queried == self.stats.queried
                    && (now.phase == Phase::Walk || now.phase == Phase::Over)
            }),
    {
        let shift = self.shifts[n - 1] as int;
        let now = self.replied(Some(reply), over_budget).0;
        assert(boundary_refine::ints(self.shifts)[n - 1] == shift);
        assert(boundary_refine::ints(self.shifts).len() == self.shifts.len());
        assert(boundary_refine::ints(self.shifts).last() == self.shifts[self.shifts.len() - 1]);
        assert(boundary_refine::ints(self.shifts)[0] == self.shifts[0]);
        assert(self.offered().contains(shift));
        assert(boundary_refine::recut(self.turns, self.left(), 0) == self.turns);
        assert(now.turns == boundary_refine::recut(self.turns, self.left(), shift));
        self.lemma_moved_by(now, shift);
    }

    /// A reply that names no option, and none at all, moves nothing: it counts as
    /// a failure, and the next boundary follows. Only a missing reply counts
    /// towards the failures in a row.
    pub proof fn law_useless_replies_move_nothing(self, reply: Option<Seq<char>>, over_budget: bool)
        requires
            self.wf(),
            self.phase == Phase::CutAsked,
            reply matches Some(text) ==> match boundary_prompt::keyed_number(text, "cut"@) {
                Some(n) => n < 1 || n > self.shifts.len(),
                None => true,
            },
        ensures
            ({
                let now = self.replied(reply, over_budget).0;
                &&& now.turns == self.turns
                &&& now.stats.failures == self.stats.failures + 1
                &&& now.stats.moved == self.stats.moved
                &&& now.stats.queried == self.stats.queried
                &&& now.done == self.done + 1
                &&& now.phase == if self.done + 1 < self.boundaries.len() {
                    Phase::Walk
                } else {
                    Phase::Over
                }
                &&& reply is None ==> now.ctx.consecutive_failures == self.ctx.consecutive_failures
                    + 1
                &&& reply is Some ==> now.ctx.consecutive_failures == 0
            }),
    {
    }

    /// What the voices say moves the cut without a question; a cut that they
    /// confirm stays. Where they say nothing the model is asked, unless no more
    /// may be asked or there is no choice.
    pub proof fn law_voices_move_the_cut(self, runs: Option<Seq<VoiceRun>>, over_budget: bool)
        requires
            self.wf(),
            self.phase == Phase::Listen,
        ensures
            ({
                let now = self.heard(runs, over_budget).0;
                let i = self.left();
                let verdict = match runs {
                    Some(v) => segmentation::verdict(
                        v,
                        self.turns[i].words,
                        self.turns[i + 1].words,
                        machine(self.offered()),
                    ),
                    None => None,
                };
                let spent = over_budget || self.ctx.consecutive_failures >= 2
                    || self.stats.queried >= 32;
                let asks = verdict is None && !spent && self.offered().len() >= 2;
                &&& verdict matches Some(shift) ==> self.offered().contains(shift as int)
                    && self.moved_by(now, shift as int) && now.stats.moved == self.stats.moved + (if shift
                    == 0 { 0int } else { 1 }) && now.stats.acoustic_moved
                    == self.stats.acoustic_moved + (if shift == 0 { 0int } else { 1 })
                    && now.stats.acoustic_confirmed == self.stats.acoustic_confirmed + (if shift
                    == 0 { 1int } else { 0 })
                &&& verdict is None ==> now.turns == self.turns && now.stats.moved
                    == self.stats.moved && now.stats.acoustic_confirmed
                    == self.stats.acoustic_confirmed
                &&& asks ==> now.phase == Phase::CutAsked && now.done == self.done && now.rounds
                    == 1 && boundary_refine::ints(now.shifts) == self.offered()
                    && now.stats.queried == self.stats.queried + 1 && self.heard(
                    runs,
                    over_budget,
                ).1 == (ActionView::Ask { prompt: self.question() })
                &&& !asks ==> now.done == self.done + 1 && now.stats.queried == self.stats.queried
                    && now.phase == (if self.done + 1 < self.boundaries.len() {
                    Phase::Walk
                } else {
                    Phase::Over
                })
                &&& now.stats.failures == self.stats.failures
            }),
    {
        self.lemma_offered();
        let now = self.heard(runs, over_budget).0;
        let i = self.left();
        let shifts = machine(self.offered());
        if runs is Some {
            let (l, r) = (self.turns[i].words, self.turns[i + 1].words);
            segmentation::law_verdict_is_an_offered_cut(runs->0, l, r, shifts);
            match segmentation::verdict(runs->0, l, r, shifts) {
                Some(shift) => {
                    self.lemma_moved_by(now, shift as int);
                },
                None => {},
            }
        }
    }

    /// A turn that the model reads as part of the sentence around it is folded
    /// into that sentence, and the same place is looked at again. Any other reply
    /// leaves all turns, and the next turn follows; one that says neither yes nor
    /// no counts as a failure.
    pub proof fn law_merge_reply(self, reply: Option<Seq<char>>, over_budget: bool)
        requires
            self.wf(),
            self.phase == Phase::MergeAsked,
        ensures
            ({
                let now = self.replied(reply, over_budget).0;
                let said = match reply {
                    Some(text) => boundary_prompt::keyed_number(text, "merge"@),
                    None => None,
                };
                let m = self.mid;
                &&& said == Some(1int) ==> {
                    &&& now.turns.len() == self.turns.len() - 2
                    &&& now.turns[m - 1].words == self.turns[m - 1].words + self.turns[m].words
                        + self.turns[m + 1].words
                    &&& now.turns[m - 1].speaker == self.turns[m - 1].speaker
                    &&& forall|k: int| 0 <= k < m - 1 ==> #[trigger] now.turns[k] == self.turns[k]
                    &&& forall|k: int|
                        m <= k < now.turns.len() ==> #[trigger] now.turns[k] == self.turns[k + 2]
                    &&& now.stats.merged == self.stats.merged + 1
                    &&& now.stats.failures == self.stats.failures
                    &&& now.mid == m
                }
                &&& said != Some(1int) ==> now.turns == self.turns && now.stats.merged
                    == self.stats.merged && now.mid == m + 1
                &&& said == Some(0int) ==> now.stats.failures == self.stats.failures
                &&& said != Some(0int) && said != Some(1int) ==> now.stats.failures
                    == self.stats.failures + 1
                &&& reply is None ==> now.ctx.consecutive_failures == self.ctx.consecutive_failures
                    + 1
                &&& reply is Some ==> now.ctx.consecutive_failures == 0
                &&& now.phase == Phase::Scan <==> now.mid + 1 < now.turns.len()
            }),
    {
        boundary_refine::law_folded(self.turns, self.mid, 0);
        let folded = boundary_refine::folded(self.turns, self.mid);
        assert forall|k: int| 0 <= k < self.mid - 1 implies #[trigger] folded[k] == self.turns[k] by {
            boundary_refine::law_folded(self.turns, self.mid, k);
        }
        assert forall|k: int| self.mid <= k < folded.len() implies #[trigger] folded[k]
            == self.turns[k + 2] by {
            boundary_refine::law_folded(self.turns, self.mid, k);
        }
    }

    /// The first pass looks at one turn after the other. A phantom interjection is
    /// counted and asked about while queries are left for that; then come the
    /// handovers of the turns as they stand, at once when the user cancels.
    pub proof fn law_scan(self, cancelled: bool, over_budget: bool)
        requires
            self.wf(),
            self.phase == Phase::Scan,
        ensures
            ({
                let (now, action) = self.checked(cancelled, over_budget);
                let found = !cancelled && boundary_refine::sandwich(
                    self.turns[self.mid - 1],
                    self.turns[self.mid],
                    self.turns[self.mid + 1],
                );
                let asks = found && !over_budget && self.ctx.consecutive_failures < 2
                    && self.stats.queried < 16;
                &&& now.turns == self.turns
                &&& now.stats.sandwiches == self.stats.sandwiches + if found { 1int } else { 0 }
                &&& asks ==> now.phase == Phase::MergeAsked && now.mid == self.mid
                    && now.stats.queried == self.stats.queried + 1 && action == (ActionView::Ask {
                    prompt: boundary_prompt::merge_question(
                        self.turns[self.mid - 1],
                        self.turns[self.mid],
                        self.turns[self.mid + 1],
                    ),
                })
                &&& !asks ==> now.stats.queried == self.stats.queried
                &&& !asks && !cancelled && self.mid + 2 < self.turns.len() ==> now.phase
                    == Phase::Scan && now.mid == self.mid + 1 && action == ActionView::Check
                &&& cancelled || (!asks && self.mid + 2 >= self.turns.len()) ==> now.boundaries
                    == boundary_refine::boundaries_of(self.turns) && now.done == 0
                    && now.stats.boundaries == now.boundaries.len() && now.phase == (
                if now.boundaries.len() > 0 {
                    Phase::Walk
                } else {
                    Phase::Over
                })
            }),
    {
        boundary_refine::law_boundaries(self.turns);
    }

    /// The second pass listens to the voices at one boundary after the other,
    /// unless the user cancels, which ends it.
    pub proof fn law_walk(self, cancelled: bool, over_budget: bool)
        requires
            self.wf(),
            self.phase == Phase::Walk,
        ensures
            ({
                let (now, action) = self.checked(cancelled, over_budget);
                let total = self.boundaries.len() as int;
                let i = self.boundaries[self.done].0;
                let edges = boundary_refine::cut_edges(
                    self.turns[i].words,
                    self.turns[i + 1].words,
                    0,
                );
                &&& now.turns == self.turns
                &&& now.done == self.done
                &&& now.stats == self.stats
                &&& cancelled ==> now.phase == Phase::Over && action == (ActionView::Finished {
                    total,
                })
                &&& !cancelled ==> now.phase == Phase::Listen
                &&& !cancelled && edges is None ==> action == (ActionView::Listen {
                    cut: None,
                    done: self.done,
                    total,
                })
                &&& edges matches Some((a, b)) ==> (!cancelled ==> action == (ActionView::Listen {
                    cut: Some((a + b) / 2),
                    done: self.done,
                    total,
                }))
            }),
    {
    }

    /// A refinement begins with the second turn, and is idle for fewer than two.
    pub proof fn law_begins(turns: Seq<TurnView>, variant: Seq<char>)
        ensures
            ({
                let (now, action) = SessionView::begun(turns, variant);
                &&& now.turns == turns
                &&& now.variant == variant
                &&& now.stats.queried == 0 && now.stats.moved == 0 && now.stats.merged == 0
                    && now.stats.failures == 0
                &&& turns.len() < 2 <==> action == ActionView::Idle
                &&& turns.len() == 2 ==> now.boundaries == boundary_refine::boundaries_of(turns)
                &&& turns.len() > 2 ==> now.phase == Phase::Scan && now.mid == 1 && action
                    == ActionView::Check
            }),
    {
    }
}

/// The model that is asked is there; it is the first preferred one, else the
/// second, else the first of all that are there.
pub proof fn law_picks(models: Seq<LocalModel>, i: int, j: int)
    requires
        picks(models, i),
        0 <= j < models.len(),
        models[j].downloaded,
        forall|k: int| 0 <= k < j ==> (#[trigger] models[k]).name@ != models[j].name@,
    ensures
        0 <= i < models.len(),
        models[i].downloaded,
        models[j].name@ == "qwen3.5:2b"@ ==> i == j,
        models[j].name@ == "qwen3.5:4b"@ ==> models[i].name@ == "qwen3.5:2b"@ || i == j,
        models[i].name@ != "qwen3.5:2b"@ && models[i].name@ != "qwen3.5:4b"@ ==> i <= j,
{
    if models[j].name@ == "qwen3.5:2b"@ {
        assert(ready(models, "qwen3.5:2b"@, j));
    }
    if models[j].name@ == "qwen3.5:4b"@ {
        assert(ready(models, "qwen3.5:4b"@, j));
    }
    assert forall|name: Seq<char>| #[trigger] first_named(models, name, i) && first_named(
        models,
        name,
        j,
    ) implies i == j by {
        if i < j {
            assert(models[i].name@ != name);
        } else if j < i {
            assert(models[j].name@ != name);
        }
    }
}

/// The contents of runs that may be missing.
pub open spec fn opt_runs(runs: Option<Vec<VoiceRun>>) -> Option<Seq<VoiceRun>> {
    match runs {
        Some(v) => Some(v@),
        None => None,
    }
}

impl Refinement {
    /// Begin to refine `turns`, asking in the wording `variant`.
    pub fn start(turns: Vec<SpeakerTurn>, variant: String) -> (r: (Refinement, Action))
        ensures
            (r.0@, r.1@) == SessionView::begun(diarization::turn_views(turns@), variant@),
            r.0@.wf(),
    {
        let n: usize = turns.len();
        let ghost v = diarization::turn_views(turns@);
        let ghost wording = variant@;
        let mut s = Refinement {
            turns,
            stats: RefineStats::default(),
            ctx: QueryCtx { consecutive_failures: 0 },
            variant,
            phase: Phase::Over,
            mid: 1,
            boundaries: Vec::new(),
            done: 0,
            rounds: 0,
            shifts: Vec::new(),
        };
        proof {
            assert(boundary_refine::boundary_pairs(s.boundaries@) =~= Seq::<(int, int)>::empty());
            assert(s.shifts@ =~= Seq::<i32>::empty());
            assert(s@ == SessionView::fresh(v, wording));
            SessionView::law_begun(v, wording);
        }
        if n < 2 {
            return (s, Action::Idle);
        }
        let action = s.scan_from(1);
        (s, action)
    }

    /// Go on with boundary `done` of pass two.
    fn walk_from(&mut self, done: usize) -> (r: Action)
        ensures
            (final(self)@, r@) == old(self)@.walk_from(done as int),
    {
        self.done = done;
        let total: usize = self.boundaries.len();
        assert(boundary_refine::boundary_pairs(self.boundaries@).len() == total);
        if done < total {
            self.phase = Phase::Walk;
            Action::Check
        } else {
            self.phase = Phase::Over;
            Action::Finished { total }
        }
    }

    /// Begin pass two.
    fn walk_start(&mut self) -> (r: Action)
        ensures
            (final(self)@, r@) == old(self)@.walk_start(),
    {
        self.boundaries = find_boundaries(&self.turns);
        assert(boundary_refine::boundary_pairs(self.boundaries@).len() == self.boundaries@.len());
        self.stats.boundaries = self.boundaries.len();
        self.walk_from(0)
    }

    /// Go on with turn `mid` of pass one.
    fn scan_from(&mut self, mid: usize) -> (r: Action)
        ensures
            (final(self)@, r@) == old(self)@.scan_from(mid as int),
    {
        self.mid = mid;
        let n: usize = self.turns.len();
        if n > 0 && mid < n - 1 {
            self.phase = Phase::Scan;
            Action::Check
        } else {
            self.walk_start()
        }
    }

    /// Ask about the current boundary, for the `rounds`-th time.
    fn ask_cut(&mut self, rounds: usize) -> (r: Action)
        requires
            old(self)@.stats.queried < usize::MAX,
            0 <= old(self)@.done < old(self)@.boundaries.len(),
            0 <= old(self)@.left(),
            old(self)@.left() + 1 < old(self)@.turns.len(),
        ensures
            (final(self)@, r@) == old(self)@.ask_cut(rounds as int),
    {
        let ghost s = self@;
        assert(self.done < self.boundaries.len());
        let i: usize = self.boundaries[self.done].left_idx;
        assert(i == s.left());
        assert(i + 1 < self.turns.len());
        match build_prompt(&self.turns[i], &self.turns[i + 1], self.variant.as_str()) {
            None => {
                let next: usize = self.done + 1;
                self.walk_from(next)
            },
            Some((prompt, shifts)) => {
                proof {
                    assert forall|k: int| 0 <= k < shifts@.len() implies #[trigger] shifts@[k]
                        == machine(s.offered())[k] by {
                        assert(boundary_refine::ints(shifts@)[k] == shifts@[k]);
                    }
                    assert(shifts@.len() == boundary_refine::ints(shifts@).len());
                    assert(shifts@ =~= machine(s.offered()));
                }
                self.stats.queried = self.stats.queried + 1;
                self.rounds = rounds;
                self.shifts = shifts;
                self.phase = Phase::CutAsked;
                Action::Ask { prompt }
            },
        }
    }

    /// The user cancelled, or did not; `over_budget` tells whether the time for
    /// queries is up.
    pub fn checked(&mut self, cancelled: bool, over_budget: bool) -> (r: Action)
        requires
            old(self)@.wf(),
            old(self)@.phase == Phase::Scan || old(self)@.phase == Phase::Walk,
        ensures
            (final(self)@, r@) == old(self)@.checked(cancelled, over_budget),
            final(self)@.wf(),
            final(self)@.turns == old(self)@.turns,
    {
        let ghost s = self@;
        proof {
            s.law_checked(cancelled, over_budget);
        }
        match self.phase {
            Phase::Scan => {
                if cancelled {
                    return self.walk_start();
                }
                let mid: usize = self.mid;
                assert(self.turns@.len() == s.turns.len());
                assert(s.turns[mid - 1] == self.turns@[mid - 1]@);
                assert(s.turns[mid as int] == self.turns@[mid as int]@);
                assert(s.turns[mid + 1] == self.turns@[mid + 1]@);
                if is_sandwich(&self.turns[mid - 1], &self.turns[mid], &self.turns[mid + 1]) {
                    self.stats.sandwiches = self.stats.sandwiches + 1;
                    if !self.ctx.exhausted(&self.stats, over_budget) && self.stats.queried
                        < MAX_MERGE_QUERIES {
                        let prompt = build_sandwich_prompt(
                            &self.turns[mid - 1],
                            &self.turns[mid],
                            &self.turns[mid + 1],
                        );
                        self.stats.queried = self.stats.queried + 1;
                        self.phase = Phase::MergeAsked;
                        return Action::Ask { prompt };
                    }
                }
                self.scan_from(mid + 1)
            },
            _ => {
                let total: usize = self.boundaries.len();
                assert(s.boundaries.len() == total);
                if cancelled {
                    self.phase = Phase::Over;
                    return Action::Finished { total };
                }
                let i: usize = self.boundaries[self.done].left_idx;
                assert(i == s.boundaries[s.done].0);
                assert(i + 1 < self.turns.len());
                let cut = cut_instant_ms(&self.turns[i], &self.turns[i + 1], 0);
                self.phase = Phase::Listen;
                Action::Listen { cut, done: self.done, total }
            },
        }
    }

    /// The voice runs around the current cut, or nothing when they could not be
    /// found.
    pub fn heard(&mut self, runs: Option<Vec<VoiceRun>>, over_budget: bool) -> (r: Action)
        requires
            old(self)@.wf(),
            old(self)@.phase == Phase::Listen,
        ensures
            (final(self)@, r@) == old(self)@.heard(
                opt_runs(runs),
                over_budget,
            ),
            final(self)@.wf(),
            same_words(old(self)@, final(self)@),
            same_turns(old(self)@, final(self)@),
    {
        let ghost s = self@;
        proof {
            s.law_heard(opt_runs(runs), over_budget);
            s.lemma_offered();
        }
        let i: usize = self.boundaries[self.done].left_idx;
        let next: usize = self.done + 1;
        assert(i == s.boundaries[s.done].0);
        assert(i + 1 < self.turns.len());
        assert(s.turns[i as int] == self.turns@[i as int]@);
        assert(s.turns[i + 1] == self.turns@[i + 1]@);
        match runs {
            Some(runs) => {
                let l_words = words_of(&self.turns[i]);
                let r_words = words_of(&self.turns[i + 1]);
                let shifts = candidate_shifts(&l_words, &r_words);
                proof {
                    assert(shifts@.len() == boundary_refine::ints(shifts@).len());
                    assert forall|k: int| 0 <= k < shifts@.len() implies #[trigger] shifts@[k]
                        == machine(s.offered())[k] && shifts@[k] > i32::MIN by {
                        assert(boundary_refine::ints(shifts@)[k] == shifts@[k]);
                        assert(s.offered().contains(s.offered()[k]));
                    }
                    assert(shifts@ =~= machine(s.offered()));
                    segmentation::law_verdict_is_an_offered_cut(
                        runs@,
                        self.turns@[i as int].words@,
                        self.turns@[i + 1].words@,
                        shifts@,
                    );
                }
                match acoustic_verdict(&runs, &self.turns[i], &self.turns[i + 1], &shifts) {
                    Some(shift) => {
                        proof {
                            lemma_offered_movable(
                                self.turns@[i as int].words@,
                                self.turns@[i + 1].words@,
                                shift as int,
                            );
                        }
                        if shift == 0 {
                            self.stats.acoustic_confirmed = self.stats.acoustic_confirmed + 1;
                        } else {
                            move_cut(&mut self.turns, i, shift);
                            self.stats.moved = self.stats.moved + 1;
                            self.stats.acoustic_moved = self.stats.acoustic_moved + 1;
                        }
                        return self.walk_from(next);
                    },
                    None => {},
                }
            },
            None => {},
        }
        if self.ctx.exhausted(&self.stats, over_budget) {
            return self.walk_from(next);
        }
        self.ask_cut(1)
    }

    /// The model's reply to the open question, or nothing when the query failed.
    pub fn replied(&mut self, reply: Option<String>, over_budget: bool) -> (r: Action)
        requires
            old(self)@.wf(),
            old(self)@.asking(),
        ensures
            (final(self)@, r@) == old(self)@.replied(
                text::opt(reply),
                over_budget,
            ),
            final(self)@.wf(),
            same_words(old(self)@, final(self)@),
            old(self)@.phase == Phase::CutAsked ==> same_turns(old(self)@, final(self)@),
    {
        let ghost s = self@;
        proof {
            s.law_replied(text::opt(reply), over_budget);
        }
        match self.phase {
            Phase::MergeAsked => self.merge_replied(reply),
            _ => self.cut_replied(reply, over_budget),
        }
    }

    /// The reply to a merge question.
    fn merge_replied(&mut self, reply: Option<String>) -> (r: Action)
        requires
            old(self)@.wf(),
            old(self)@.phase == Phase::MergeAsked,
        ensures
            (final(self)@, r@) == old(self)@.replied(
                text::opt(reply),
                false,
            ),
    {
        let ghost s = self@;
        assert(self.turns@.len() == s.turns.len());
        let mid: usize = self.mid;
        match reply {
            None => {
                self.stats.failures = self.stats.failures + 1;
                self.ctx.consecutive_failures = self.ctx.consecutive_failures + 1;
                self.scan_from(mid + 1)
            },
            Some(reply) => {
                self.ctx.consecutive_failures = 0;
                match parse_key(reply.as_str(), "merge") {
                    Some(n) => {
                        if n == 1 {
                            merge_sandwich(&mut self.turns, mid);
                            self.stats.merged = self.stats.merged + 1;
                            return self.scan_from(mid);
                        }
                        if n != 0 {
                            self.stats.failures = self.stats.failures + 1;
                        }
                    },
                    None => {
                        self.stats.failures = self.stats.failures + 1;
                    },
                }
                self.scan_from(mid + 1)
            },
        }
    }

    /// The reply to a cut question.
    fn cut_replied(&mut self, reply: Option<String>, over_budget: bool) -> (r: Action)
        requires
            old(self)@.wf(),
            old(self)@.phase == Phase::CutAsked,
        ensures
            (final(self)@, r@) == old(self)@.replied(
                text::opt(reply),
                over_budget,
            ),
    {
        let ghost s = self@;
        let next: usize = self.done + 1;
        let i: usize = self.boundaries[self.done].left_idx;
        assert(i == s.boundaries[s.done].0);
        assert(i + 1 < self.turns.len());
        match reply {
            None => {
                self.stats.failures = self.stats.failures + 1;
                self.ctx.consecutive_failures = self.ctx.consecutive_failures + 1;
                self.walk_from(next)
            },
            Some(reply) => {
                self.ctx.consecutive_failures = 0;
                match parse_cut(reply.as_str()) {
                    Some(n) => {
                        if 1 <= n && n <= self.shifts.len() {
                            let shift: i32 = self.shifts[n - 1];
                            if shift == 0 {
                                return self.walk_from(next);
                            }
                            proof {
                                assert(boundary_refine::ints(s.shifts)[n - 1] == shift);
                                assert(s.offered().contains(shift as int));
                                assert(s.turns[i as int] == self.turns@[i as int]@);
                                assert(s.turns[i + 1] == self.turns@[i + 1]@);
                                lemma_offered_movable(
                                    self.turns@[i as int].words@,
                                    self.turns@[i + 1].words@,
                                    shift as int,
                                );
                                s.lemma_recut(shift as int);
                            }
                            move_cut(&mut self.turns, i, shift);
                            self.stats.moved = self.stats.moved + 1;
                            if !is_extreme_shift(shift, &self.shifts) || self.rounds
                                >= MAX_ROUNDS_PER_BOUNDARY || self.ctx.exhausted(
                                &self.stats,
                                over_budget,
                            ) {
                                return self.walk_from(next);
                            }
                            let rounds: usize = self.rounds + 1;
                            return self.ask_cut(rounds);
                        }
                    },
                    None => {},
                }
                self.stats.failures = self.stats.failures + 1;
                self.walk_from(next)
            },
        }
    }

    /// What the session did so far.
    pub fn stats(&self) -> (r: RefineStats)
        ensures
            r == self@.stats,
    {
        self.stats
    }

    /// The turns as they stand.
    pub fn turns(&self) -> (r: &Vec<SpeakerTurn>)
        ensures
            diarization::turn_views(r@) == self@.turns,
    {
        &self.turns
    }

    /// Give the turns back.
    pub fn into_turns(self) -> (r: Vec<SpeakerTurn>)
        ensures
            diarization::turn_views(r@) == self@.turns,
    {
        self.turns
    }
}

/// A new count begins at nothing.
pub proof fn law_no_stats()
    ensures
        no_stats().boundaries == 0,
        no_stats().sandwiches == 0,
        no_stats().queried == 0,
        no_stats().moved == 0,
        no_stats().merged == 0,
        no_stats().failures == 0,
        no_stats().acoustic_confirmed == 0,
        no_stats().acoustic_moved == 0,
{
}

/// How often and how long the model is asked.
pub proof fn law_limits()
    ensures
        MAX_ROUNDS_PER_BOUNDARY == 3,
        MAX_MERGE_QUERIES == 16,
        MAX_CONSECUTIVE_FAILURES == 2,
        TOTAL_BUDGET_SECS == 4 * 60,
        PER_QUERY_TIMEOUT_SECS == 45,
        MAX_REPLY_TOKENS == 16,
{
}

impl SessionView {
    /// `action` is what a session at its phase asks the driver for.
    pub open spec fn told(self, action: ActionView) -> bool {
        let i = self.boundaries[self.done].0;
        &&& self.phase == Phase::Scan || self.phase == Phase::Walk ==> action == ActionView::Check
        &&& self.phase == Phase::Over ==> action == (ActionView::Finished {
            total: self.boundaries.len() as int,
        })
        &&& self.phase == Phase::MergeAsked ==> action == (ActionView::Ask {
            prompt: boundary_prompt::merge_question(
                self.turns[self.mid - 1],
                self.turns[self.mid],
                self.turns[self.mid + 1],
            ),
        })
        &&& self.phase == Phase::CutAsked ==> {
            let l = boundary_refine::turn_words(self.turns[i].words);
            let r = boundary_refine::turn_words(self.turns[i + 1].words);
            &&& action == (ActionView::Ask {
                prompt: boundary_prompt::cut_question(l, r, self.variant),
            })
            &&& boundary_refine::ints(self.shifts) == boundary_refine::shifts_of(l, r)
        }
    }

    /// Each step asks for what the session then waits for: a question shows the
    /// turns as they are after the step, and its options are the shifts that a reply
    /// is read against. The wording never changes, nor do the boundaries once they
    /// are found.
    pub proof fn law_steps_ask_for_what_follows(
        self,
        runs: Option<Seq<VoiceRun>>,
        reply: Option<Seq<char>>,
        cancelled: bool,
        over_budget: bool,
    )
        requires
            self.wf(),
        ensures
            self.phase == Phase::Scan || self.phase == Phase::Walk ==> {
                let (now, action) = self.checked(cancelled, over_budget);
                &&& now.told(action)
                &&& now.variant == self.variant
                &&& self.phase == Phase::Walk ==> now.boundaries == self.boundaries
            },
            self.phase == Phase::Listen ==> {
                let (now, action) = self.heard(runs, over_budget);
                &&& now.told(action)
                &&& now.variant == self.variant
                &&& now.boundaries == self.boundaries
            },
            self.asking() ==> {
                let (now, action) = self.replied(reply, over_budget);
                &&& now.told(action)
                &&& now.variant == self.variant
                &&& self.phase == Phase::CutAsked ==> now.boundaries == self.boundaries
            },
    {
        if self.phase == Phase::Listen {
            self.lemma_offered();
        }
        if self.phase == Phase::CutAsked {
            let s = self.replied(reply, over_budget).0;
            SessionView { turns: s.turns, ..self }.lemma_offered();
        }
    }
}

} // verus!
