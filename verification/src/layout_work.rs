//! The order of the work when recording folders follow the application.
//!
//! Files move first, and the database is told a new path once they have moved.
//! The run decides what comes next; whoever drives it does the work and hands
//! the outcome back.
use vstd::prelude::*;

verus! {

/// What happened in the application.
#[derive(Debug, Clone, Copy, PartialEq, Eq, Structural)]
pub enum Change {
    /// A meeting got another title.
    MeetingRename,
    /// A meeting went into a folder, or out of one.
    MeetingMove,
    /// A folder got another title.
    FolderRename,
    /// A folder is deleted; its meetings go back to the recordings root.
    FolderDelete,
}

/// One piece of work.
#[derive(Debug, Clone, Copy, PartialEq, Eq, Structural)]
pub enum Work {
    /// Create the directory that a recording moves into.
    CreateDir,
    /// Find out which meetings the folder holds.
    ListMeetings,
    /// Move a directory to its new place.
    MoveDir,
    /// Write the title into the metadata of the recording, if that can be done.
    NoteTitle,
    /// Store where the recording of a meeting is now.
    StorePath,
    /// Remove the directory that was left behind, if it is empty.
    CleanUp,
}

/// How a piece of work went.
#[derive(Debug)]
pub enum Outcome {
    Done,
    /// So many meetings are in the folder.
    Listed(usize),
    /// There was nothing to do for this meeting.
    Skipped,
    Failed(String),
}

/// The contents of an outcome.
pub enum OutcomeView {
    Done,
    Listed(nat),
    Skipped,
    Failed(Seq<char>),
}

impl View for Outcome {
    type V = OutcomeView;

    open spec fn view(&self) -> OutcomeView {
        match self {
            Outcome::Done => OutcomeView::Done,
            Outcome::Listed(n) => OutcomeView::Listed(*n as nat),
            Outcome::Skipped => OutcomeView::Skipped,
            Outcome::Failed(e) => OutcomeView::Failed(e@),
        }
    }
}

/// What comes next.
#[derive(Debug)]
pub enum Step {
    Do(Work),
    Finished,
    Failed(String),
}

/// The contents of a step.
pub enum StepView {
    Do(Work),
    Finished,
    Failed(Seq<char>),
}

impl View for Step {
    type V = StepView;

    open spec fn view(&self) -> StepView {
        match self {
            Step::Do(w) => StepView::Do(*w),
            Step::Finished => StepView::Finished,
            Step::Failed(e) => StepView::Failed(e@),
        }
    }
}

/// Where the work for a change stands.
#[derive(Debug, Clone, Copy, PartialEq, Eq, Structural)]
pub struct LayoutRun {
    pub change: Change,
    /// The work at hand.
    pub work: Work,
    /// How many meetings are still to be seen to, with the one at hand.
    pub left: usize,
    /// The directory that the work at hand is about has moved.
    pub moved: bool,
    /// Nothing is left to be done.
    pub over: bool,
}

/// Work whose failure is put up with.
pub open spec fn optional(w: Work) -> bool {
    w == Work::NoteTitle || w == Work::CleanUp
}

/// How many meetings an outcome tells of.
pub open spec fn listed(o: OutcomeView) -> nat {
    match o {
        OutcomeView::Listed(n) => n,
        _ => 0,
    }
}

impl LayoutRun {
    /// What holds at any time.
    pub open spec fn wf(self) -> bool {
        let folder = self.change == Change::FolderRename || self.change == Change::FolderDelete;
        self.over || match self.work {
            Work::CreateDir => self.change == Change::MeetingMove && !self.moved,
            Work::ListMeetings => folder && self.moved == (self.change == Change::FolderRename),
            Work::MoveDir => !self.moved && (self.change == Change::FolderDelete ==> self.left > 0),
            Work::NoteTitle => self.change == Change::MeetingRename && self.moved,
            Work::StorePath => self.moved && (folder ==> self.left > 0),
            Work::CleanUp => self.change == Change::MeetingMove || self.change
                == Change::FolderDelete,
        }
    }

    /// The first work for a change.
    pub open spec fn first(change: Change) -> Work {
        match change {
            Change::MeetingRename => Work::MoveDir,
            Change::MeetingMove => Work::CreateDir,
            Change::FolderRename => Work::MoveDir,
            Change::FolderDelete => Work::ListMeetings,
        }
    }

    /// Begin the work for a change.
    pub fn begin(change: Change) -> (r: LayoutRun)
        ensures
            r == (LayoutRun {
                change,
                work: LayoutRun::first(change),
                left: 0,
                moved: false,
                over: false,
            }),
            r.wf(),
    {
        let work: Work = match change {
            Change::MeetingRename => Work::MoveDir,
            Change::MeetingMove => Work::CreateDir,
            Change::FolderRename => Work::MoveDir,
            Change::FolderDelete => Work::ListMeetings,
        };
        LayoutRun { change, work, left: 0, moved: false, over: false }
    }

    /// The run with other work at hand.
    pub open spec fn at(self, work: Work) -> (LayoutRun, StepView) {
        (LayoutRun { work, ..self }, StepView::Do(work))
    }

    /// The run at its end.
    pub open spec fn finish(self) -> (LayoutRun, StepView) {
        (LayoutRun { over: true, ..self }, StepView::Finished)
    }

    /// Go on with so many meetings that move one by one.
    pub open spec fn each_from(self, left: nat) -> (LayoutRun, StepView) {
        let s = LayoutRun { left: left as usize, moved: false, ..self };
        if left == 0 {
            s.at(Work::CleanUp)
        } else {
            s.at(Work::MoveDir)
        }
    }

    /// Go on with so many meetings that moved along with their folder.
    pub open spec fn stores_from(self, left: nat) -> (LayoutRun, StepView) {
        let s = LayoutRun { left: left as usize, ..self };
        if left == 0 {
            s.finish()
        } else {
            s.at(Work::StorePath)
        }
    }

    /// The run after the work at hand, and what comes next.
    pub open spec fn after(self, o: OutcomeView) -> (LayoutRun, StepView) {
        if self.over {
            (self, StepView::Finished)
        } else if o is Failed && !optional(self.work) {
            (LayoutRun { over: true, ..self }, StepView::Failed(o->Failed_0))
        } else {
            match self.work {
                Work::CreateDir => self.at(Work::MoveDir),
                Work::ListMeetings => if self.change == Change::FolderDelete {
                    self.each_from(listed(o))
                } else {
                    self.stores_from(listed(o))
                },
                Work::MoveDir => if o is Skipped {
                    if self.change == Change::FolderDelete {
                        self.each_from((self.left - 1) as nat)
                    } else {
                        self.finish()
                    }
                } else {
                    let s = LayoutRun { moved: true, ..self };
                    match self.change {
                        Change::MeetingRename => s.at(Work::NoteTitle),
                        Change::MeetingMove => s.at(Work::StorePath),
                        Change::FolderRename => s.at(Work::ListMeetings),
                        Change::FolderDelete => s.at(Work::StorePath),
                    }
                },
                Work::NoteTitle => self.at(Work::StorePath),
                Work::StorePath => match self.change {
                    Change::MeetingRename => self.finish(),
                    Change::MeetingMove => self.at(Work::CleanUp),
                    Change::FolderRename => self.stores_from((self.left - 1) as nat),
                    Change::FolderDelete => self.each_from((self.left - 1) as nat),
                },
                Work::CleanUp => self.finish(),
            }
        }
    }

    fn go(&mut self, work: Work) -> (r: Step)
        ensures
            (*final(self), r@) == old(self).at(work),
    {
        self.work = work;
        Step::Do(work)
    }

    fn end(&mut self) -> (r: Step)
        ensures
            (*final(self), r@) == old(self).finish(),
    {
        self.over = true;
        Step::Finished
    }

    fn each(&mut self, left: usize) -> (r: Step)
        ensures
            (*final(self), r@) == old(self).each_from(left as nat),
    {
        self.left = left;
        self.moved = false;
        if left == 0 {
            self.go(Work::CleanUp)
        } else {
            self.go(Work::MoveDir)
        }
    }

    fn stores(&mut self, left: usize) -> (r: Step)
        ensures
            (*final(self), r@) == old(self).stores_from(left as nat),
    {
        self.left = left;
        if left == 0 {
            self.end()
        } else {
            self.go(Work::StorePath)
        }
    }

    /// Take the outcome of the work at hand, and tell what comes next. A failure
    /// ends the run, unless the work is optional.
    pub fn next(&mut self, outcome: Outcome) -> (r: Step)
        requires
            old(self).wf(),
        ensures
            (*final(self), r@) == old(self).after(outcome@),
            final(self).wf(),
    {
        if self.over {
            return Step::Finished;
        }
        let optional: bool = self.work == Work::NoteTitle || self.work == Work::CleanUp;
        let mut count: usize = 0;
        let mut skipped: bool = false;
        match outcome {
            Outcome::Failed(e) => {
                if !optional {
                    self.over = true;
                    return Step::Failed(e);
                }
            },
            Outcome::Listed(n) => {
                count = n;
            },
            Outcome::Skipped => {
                skipped = true;
            },
            Outcome::Done => {},
        }
        match self.work {
            Work::CreateDir => self.go(Work::MoveDir),
            Work::ListMeetings => if self.change == Change::FolderDelete {
                self.each(count)
            } else {
                self.stores(count)
            },
            Work::MoveDir => if skipped {
                if self.change == Change::FolderDelete {
                    let left: usize = self.left - 1;
                    self.each(left)
                } else {
                    self.end()
                }
            } else {
                self.moved = true;
                match self.change {
                    Change::MeetingRename => self.go(Work::NoteTitle),
                    Change::MeetingMove => self.go(Work::StorePath),
                    Change::FolderRename => self.go(Work::ListMeetings),
                    Change::FolderDelete => self.go(Work::StorePath),
                }
            },
            Work::NoteTitle => self.go(Work::StorePath),
            Work::StorePath => match self.change {
                Change::MeetingRename => self.end(),
                Change::MeetingMove => self.go(Work::CleanUp),
                Change::FolderRename => {
                    let left: usize = self.left - 1;
                    self.stores(left)
                },
                Change::FolderDelete => {
                    let left: usize = self.left - 1;
                    self.each(left)
                },
            },
            Work::CleanUp => self.end(),
        }
    }

    /// Files move first: a path is stored only once the directory has moved
    /// there, and a directory counts as moved only when moving it succeeded.
    /// Meetings that move one by one are moved one by one.
    pub proof fn law_files_move_first(self, o: OutcomeView)
        requires
            self.wf(),
            listed(o) <= usize::MAX,
        ensures
            self.after(o).0.wf(),
            self.after(o).1 == StepView::Do(Work::StorePath) ==> self.after(o).0.moved,
            !self.moved && self.after(o).0.moved ==> self.work == Work::MoveDir && o !is Failed
                && o !is Skipped,
            self.change == Change::FolderDelete && self.after(o).1 == StepView::Do(Work::StorePath)
                ==> self.work == Work::MoveDir && o !is Failed && o !is Skipped,
    {
    }

    /// A failure stops the run at once, with its own words; what was to come
    /// after it is not done.
    pub proof fn law_failure_stops(self, o: OutcomeView, later: OutcomeView)
        requires
            self.wf(),
            !self.over,
            o is Failed,
            !optional(self.work),
        ensures
            self.after(o).1 == StepView::Failed(o->Failed_0),
            self.after(o).0.moved == self.moved,
            self.after(o).0.after(later) == (self.after(o).0, StepView::Finished),
    {
    }

    /// How far the run is from its end, before meetings are counted.
    pub open spec fn rank(self) -> nat {
        if self.over {
            0
        } else {
            match self.work {
                Work::CreateDir => 4,
                Work::ListMeetings => if self.change == Change::FolderDelete {
                    3
                } else {
                    2
                },
                Work::MoveDir => if self.change == Change::FolderDelete {
                    2
                } else {
                    3
                },
                Work::NoteTitle => 2,
                Work::StorePath => if self.change == Change::FolderDelete || self.change
                    == Change::MeetingMove {
                    2
                } else {
                    1
                },
                Work::CleanUp => 1,
            }
        }
    }

    /// How much is to be done for the meetings that are left.
    pub open spec fn pieces(self) -> nat {
        if self.work == Work::MoveDir {
            2 * self.left as nat + 1
        } else {
            2 * self.left as nat
        }
    }

    /// The run ends: every piece of work brings it nearer to its end.
    pub proof fn law_layout_ends(self, o: OutcomeView)
        requires
            self.wf(),
            !self.over,
            listed(o) <= usize::MAX,
        ensures
            self.after(o).0.rank() < self.rank() || (self.after(o).0.rank() == self.rank()
                && self.after(o).0.pieces() < self.pieces()),
    {
    }
}

/// What is said of a failure on disk.
pub open spec fn failure(change: Change, work: Work, error: Seq<char>) -> Seq<char> {
    match work {
        Work::CreateDir => "Could not create folder directory: "@ + error,
        Work::MoveDir => match change {
            Change::MeetingRename => "Could not rename recording folder: "@ + error,
            Change::MeetingMove => "Could not move recording folder: "@ + error,
            Change::FolderRename => "Could not rename folder directory: "@ + error,
            Change::FolderDelete => "Could not move recording folder: "@ + error,
        },
        _ => error,
    }
}

/// What is said of a failure on disk.
pub fn disk_failure(change: Change, work: Work, error: &str) -> (r: String)
    ensures
        r@ == failure(change, work, error@),
{
    let what: &str = match work {
        Work::CreateDir => "Could not create folder directory: ",
        Work::MoveDir => match change {
            Change::MeetingRename => "Could not rename recording folder: ",
            Change::MeetingMove => "Could not move recording folder: ",
            Change::FolderRename => "Could not rename folder directory: ",
            Change::FolderDelete => "Could not move recording folder: ",
        },
        _ => {
            return error.to_owned();
        },
    };
    let mut out = String::new();
    out.append(what);
    out.append(error);
    assert(out@ =~= what@ + error@);
    out
}

impl LayoutRun {
    /// What follows what. A new place is created, then moved into, then stored,
    /// and what was left behind is cleaned up; a renamed recording gets its title
    /// noted before its path is stored; a renamed folder moves once and has the
    /// path of each of its meetings stored; a deleted one has its meetings moved
    /// out one by one, each stored before the next. What is skipped is not stored.
    pub proof fn law_layout_steps(self, o: OutcomeView)
        requires
            self.wf(),
            !self.over,
            o !is Failed,
            listed(o) <= usize::MAX,
        ensures
            ({
                let (now, step) = self.after(o);
                let n = match o {
                    OutcomeView::Listed(n) => n,
                    _ => 0,
                };
                let c = self.change;
                let w = self.work;
                &&& now.change == c
                &&& w == Work::CreateDir ==> step == StepView::Do(Work::MoveDir)
                &&& w == Work::MoveDir && o !is Skipped ==> now.moved && now.left == self.left
                    && step == StepView::Do(
                    if c == Change::MeetingRename {
                        Work::NoteTitle
                    } else if c == Change::FolderRename {
                        Work::ListMeetings
                    } else {
                        Work::StorePath
                    },
                )
                &&& w == Work::MoveDir && o is Skipped && c != Change::FolderDelete ==> step
                    == StepView::Finished && !now.moved
                &&& w == Work::NoteTitle ==> step == StepView::Do(Work::StorePath)
                &&& w == Work::StorePath && c == Change::MeetingRename ==> step
                    == StepView::Finished
                &&& w == Work::StorePath && c == Change::MeetingMove ==> step == StepView::Do(
                    Work::CleanUp,
                )
                &&& w == Work::ListMeetings && c == Change::FolderRename ==> now.left == n && step
                    == (if n == 0 {
                    StepView::Finished
                } else {
                    StepView::Do(Work::StorePath)
                })
                &&& w == Work::StorePath && c == Change::FolderRename ==> now.left == self.left - 1
                    && step == (if self.left == 1 {
                    StepView::Finished
                } else {
                    StepView::Do(Work::StorePath)
                })
                &&& w == Work::ListMeetings && c == Change::FolderDelete ==> now.left == n && step
                    == StepView::Do(
                    if n == 0 {
                        Work::CleanUp
                    } else {
                        Work::MoveDir
                    },
                )
                &&& c == Change::FolderDelete && (w == Work::StorePath || (w == Work::MoveDir
                    && o is Skipped)) ==> now.left == self.left - 1 && !now.moved && step
                    == StepView::Do(
                    if self.left == 1 {
                        Work::CleanUp
                    } else {
                        Work::MoveDir
                    },
                )
                &&& w == Work::CleanUp ==> step == StepView::Finished
                &&& now.over <==> step == StepView::Finished
                &&& step matches StepView::Do(next) ==> now.work == next
            }),
    {
    }

    /// A title that cannot be noted, and a directory that cannot be removed, hold
    /// nothing up: the run goes on as if they had been done. All other failures
    /// end it.
    pub proof fn law_optional_work(self, error: Seq<char>)
        requires
            self.wf(),
            !self.over,
        ensures
            self.work == Work::NoteTitle ==> self.after(OutcomeView::Failed(error)).1
                == StepView::Do(Work::StorePath),
            self.work == Work::CleanUp ==> self.after(OutcomeView::Failed(error)).1
                == StepView::Finished,
            self.work != Work::NoteTitle && self.work != Work::CleanUp ==> self.after(
                OutcomeView::Failed(error),
            ).1 == StepView::Failed(error) && self.after(OutcomeView::Failed(error)).0.over,
    {
    }
}

/// A change begins with the directory: it is created for a meeting that moves,
/// moved at once for a rename, and a folder that is deleted is looked through
/// first.
pub proof fn law_first()
    ensures
        LayoutRun::first(Change::MeetingRename) == Work::MoveDir,
        LayoutRun::first(Change::MeetingMove) == Work::CreateDir,
        LayoutRun::first(Change::FolderRename) == Work::MoveDir,
        LayoutRun::first(Change::FolderDelete) == Work::ListMeetings,
{
}

/// A failure is said with what could not be done, and the error behind it.
pub proof fn law_failure(change: Change, work: Work, error: Seq<char>)
    ensures
        work == Work::CreateDir ==> failure(change, work, error)
            == "Could not create folder directory: "@ + error,
        work == Work::MoveDir && change == Change::MeetingRename ==> failure(change, work, error)
            == "Could not rename recording folder: "@ + error,
        work == Work::MoveDir && change == Change::FolderRename ==> failure(change, work, error)
            == "Could not rename folder directory: "@ + error,
        work == Work::MoveDir && (change == Change::MeetingMove || change == Change::FolderDelete)
            ==> failure(change, work, error) == "Could not move recording folder: "@ + error,
        work != Work::CreateDir && work != Work::MoveDir ==> failure(change, work, error) == error,
{
}

} // verus!
