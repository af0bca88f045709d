//! Prompt mode's tasks: sending one to the harness, following its run, and what
//! is left to do once the run is over.
use vstd::prelude::*;
use crate::harness::HarnessEvent;
use crate::history_list::HistoryList;
use crate::paths::text_of;
use crate::prompt_mode::{tasks_wf, ProjectSession, PromptMode};
use crate::reply::{adding_keeps_done, stopping_is_done, PartView};
use crate::send_mode::SendMode;
use crate::task::{kept, last_session, latest_session, restored, resumed, session_of, session_view,
    Compiled, CompiledView, PromptTask, SavedPrompt, Session, SessionView, TaskStatus, TaskView};
use crate::tools::ToolState;
use crate::text::{chars_of, push_all, push_str, string_of};

verus! {

/// A task's run as it goes on.
pub struct Run {
    pub project_dir: String,
    pub task_ix: usize,
    /// The prompt is sent against a freshly built spec, and a run that finishes
    /// well adds a note to the next commit.
    pub builds: bool,
    /// What the task asked, for its commit note.
    pub asked: String,
    /// The conversation it carries on.
    pub resume: Option<String>,
    /// The harness reported the conversation it is holding.
    pub started: bool,
    /// The harness's final summary, once the run finished without error.
    pub finished: Option<String>,
}

/// What is to be drawn again after an event.
#[derive(Clone, Copy, Debug, PartialEq, Eq, Structural)]
pub enum Redraw {
    Nothing,
    Output,
    /// The output, scrolled to its end.
    OutputAtEnd,
}

/// What came of building the spec before a prompt is sent.
pub enum Built {
    Well,
    /// It failed, with a report.
    Failed(String),
    /// It could not be run.
    NotRun(String),
}

/// What is left to do once a run is over.
pub struct RunOver {
    /// The project whose history is to be loaded, having changed meanwhile.
    pub load_history: Option<String>,
    /// What the task asked and the harness's final summary, for a note to the
    /// next commit.
    pub note: Option<(String, String)>,
}

pub open spec fn next_after(uid: u64) -> u64 {
    if uid == u64::MAX {
        0
    } else {
        (uid + 1) as u64
    }
}

/// Whether a prompt sent in a mode works on the code or the spec.
pub open spec fn works_on_files(mode: Option<SendMode>) -> bool {
    mode != Some(SendMode::Ask)
}

/// A task as it is sent.
pub open spec fn sent_task(text: Seq<char>, mode: Option<SendMode>, uid: u64) -> TaskView {
    TaskView {
        mode,
        status: if works_on_files(mode) {
            TaskStatus::Building
        } else {
            TaskStatus::Compiling
        },
        ..TaskView::new(text, uid)
    }
}

impl PromptMode {
    /// Whether this is `before` with one of its tasks, if it has it, become
    /// another.
    pub open spec fn with_task(self, before: PromptMode, ix: int, task: TaskView) -> bool {
        if 0 <= ix < before.screen.tasks@.len() {
            &&& self.screen.tasks@.len() == before.screen.tasks@.len()
            &&& forall|k: int|
                0 <= k < self.screen.tasks@.len() && k != ix ==> #[trigger] self.screen.tasks@[k]
                    == before.screen.tasks@[k]
            &&& self.screen.tasks@[ix]@ == task
            &&& self == (PromptMode {
                screen: ProjectSession { tasks: self.screen.tasks, ..before.screen },
                ..before
            })
        } else {
            self == before
        }
    }

    /// Adds a task for `text`, compiling, as the latest. Returns its index.
    pub fn push_task(&mut self, text: String) -> (ix: usize)
        requires
            old(self).wf(),
        ensures
            final(self).wf(),
            ix == old(self).screen.tasks@.len(),
            final(self).screen.tasks@.len() == ix + 1,
            final(self).screen.tasks@.drop_last() == old(self).screen.tasks@,
            final(self).screen.tasks@[ix as int]@ == TaskView::new(text@, old(self).next_reply),
            *final(self) == (PromptMode {
                screen: ProjectSession { tasks: final(self).screen.tasks, ..old(self).screen },
                next_reply: next_after(old(self).next_reply),
                ..*old(self)
            }),
    {
        let uid = self.next_reply;
        self.next_reply = if uid == u64::MAX {
            0
        } else {
            uid + 1
        };
        let ix = self.screen.tasks.len();
        self.screen.tasks.push(PromptTask::new(text, uid));
        proof {
            assert(self.screen.tasks@.drop_last() =~= old(self).screen.tasks@);
        }
        ix
    }

    /// Sends `text` to the harness as a new task, in `mode`, if it is known.
    /// Returns its run, where there is a project.
    pub fn start(&mut self, text: String, mode: Option<SendMode>) -> (r: Option<Run>)
        requires
            old(self).wf(),
        ensures
            final(self).wf(),
            old(self).screen.project_dir is None ==> r is None && *final(self) == *old(self),
            old(self).screen.project_dir is Some ==> ({
                let dir = old(self).screen.project_dir->0@;
                let ix = old(self).screen.tasks@.len();
                &&& r is Some
                &&& r->0.project_dir@ == dir
                &&& r->0.task_ix == ix
                &&& r->0.builds == works_on_files(mode)
                &&& r->0.asked@ == text@
                &&& text_of(r->0.resume) == resumed(session_view(old(self).screen.session), dir)
                &&& !r->0.started && r->0.finished is None
                &&& final(self).screen.tasks@.len() == ix + 1
                &&& final(self).screen.tasks@.drop_last() == old(self).screen.tasks@
                &&& final(self).screen.tasks@[ix as int]@ == sent_task(
                    text@,
                    mode,
                    old(self).next_reply,
                )
                &&& *final(self) == (PromptMode {
                    screen: ProjectSession {
                        tasks: final(self).screen.tasks,
                        working: true,
                        ..old(self).screen
                    },
                    next_reply: next_after(old(self).next_reply),
                    ..*old(self)
                })
            }),
    {
        let project_dir = match &self.screen.project_dir {
            Some(dir) => dir.clone(),
            None => {
                return None;
            },
        };
        let asked = text.clone();
        let task_ix = self.push_task(text);
        let builds = match mode {
            Some(mode) => mode != SendMode::Ask,
            None => true,
        };
        let mut task = match self.screen.tasks.pop() {
            Some(task) => task,
            None => {
                return None;
            },
        };
        task.mode = mode;
        if builds {
            task.status = TaskStatus::Building;
        }
        proof {
            assert(task@ =~= sent_task(asked@, mode, old(self).next_reply));
        }
        self.screen.tasks.push(task);
        self.screen.working = true;
        proof {
            assert(self.screen.tasks@.drop_last() =~= old(self).screen.tasks@);
        }
        let resume = Session::resume(&self.screen.session, &project_dir);
        Some(
            Run {
                project_dir,
                task_ix,
                builds,
                asked,
                resume,
                started: false,
                finished: None,
            },
        )
    }

    /// Heads the task at `ix` with the compiled markdown it was sent as, and
    /// the name of the anchor it was compiled from.
    pub fn show_compiled(&mut self, ix: usize, anchor: String, markdown: String)
        requires
            old(self).wf(),
        ensures
            final(self).wf(),
            final(self).with_task(
                *old(self),
                ix as int,
                old(self).screen.tasks@[ix as int]@.with_compiled(
                    CompiledView { anchor: anchor@, markdown: markdown@ },
                ),
            ),
    {
        if ix < self.screen.tasks.len() {
            let mut task = self.screen.tasks.remove(ix);
            task.set_compiled(Compiled { anchor, markdown });
            self.screen.tasks.insert(ix, task);
            proof {
                assert(self.screen.tasks@ =~= old(self).screen.tasks@.update(ix as int, task));
            }
        }
    }
}

// ---------------------------------------------------------------------------
// Following a run
// ---------------------------------------------------------------------------

/// What a failed build shows in a task's output.
pub open spec fn build_report(built: Built) -> Option<Seq<char>> {
    match built {
        Built::Well => None,
        Built::Failed(report) => Some(
            "piton build failed, so the compiled spec may be out of date:\n"@ + report@,
        ),
        Built::NotRun(error) => Some(
            "piton build failed, so the compiled spec may be out of date:\n"@ + (
            "could not run piton build: "@ + error@),
        ),
    }
}

/// A task whose spec was built. A failed build doesn't stop the prompt, which
/// may well be the one to fix the spec; it says so in the task's output.
pub open spec fn built_task(task: TaskView, built: Built) -> TaskView {
    let now = if task.status == TaskStatus::Building {
        TaskView { status: TaskStatus::Compiling, ..task }
    } else {
        task
    };
    match build_report(built) {
        Some(report) => TaskView {
            reply: now.reply.with_part(PartView::Error(report)),
            ..now
        },
        None => now,
    }
}

fn report_of(built: &Built) -> (r: Option<String>)
    ensures
        text_of(r) == build_report(*built),
{
    match built {
        Built::Well => None,
        Built::Failed(report) => {
            let mut text = chars_of(
                "piton build failed, so the compiled spec may be out of date:\n",
            );
            push_str(&mut text, report);
            Some(string_of(&text))
        },
        Built::NotRun(error) => {
            let mut why = chars_of("could not run piton build: ");
            push_str(&mut why, error);
            let mut text = chars_of(
                "piton build failed, so the compiled spec may be out of date:\n",
            );
            push_all(&mut text, &why);
            Some(string_of(&text))
        },
    }
}

/// What is to be drawn again once an event is applied to a task.
pub open spec fn redraw_for(
    mode: PromptMode,
    ix: int,
    event: HarnessEvent,
    end_in_view: bool,
    following: bool,
) -> Redraw {
    let latest = ix + 1 == mode.screen.tasks@.len();
    if ix >= mode.screen.tasks@.len() || mode.in_background {
        Redraw::Nothing
    } else if event is Output && (!latest || mode.screen.task_history.expanded || !end_in_view) {
        // A raw output line only changes the raw tail at the end of the
        // output, so there is nothing to redraw while that is out of sight.
        Redraw::Nothing
    } else if (following || mode.output_locked) && latest {
        Redraw::OutputAtEnd
    } else {
        Redraw::Output
    }
}

/// The conversation kept once an event is reported in a project.
pub open spec fn session_after(
    session: Option<SessionView>,
    project_dir: Seq<char>,
    event: HarnessEvent,
) -> Option<SessionView> {
    match event {
        HarnessEvent::Session(id) => Some(SessionView { project_dir, id: id@ }),
        _ => session,
    }
}

impl Run {
    /// Notes what an event says of the run: that the harness holds a
    /// conversation, or its final summary.
    pub fn note(&mut self, event: &HarnessEvent)
        ensures
            *final(self) == (Run {
                started: old(self).started || event is Session,
                finished: final(self).finished,
                ..*old(self)
            }),
            text_of(final(self).finished) == (match *event {
                HarnessEvent::Finished { is_error, result } => if is_error {
                    text_of(old(self).finished)
                } else {
                    Some(result@)
                },
                _ => text_of(old(self).finished),
            }),
    {
        match event {
            HarnessEvent::Finished { is_error, result } => {
                if !*is_error {
                    self.finished = Some(result.clone());
                }
            },
            HarnessEvent::Session(_) => {
                self.started = true;
            },
            _ => {},
        }
    }
}

impl PromptMode {
    /// The spec was built, or wasn't, before the task at `ix` is compiled.
    pub fn run_built(&mut self, ix: usize, built: Built)
        requires
            old(self).wf(),
        ensures
            final(self).wf(),
            final(self).with_task(
                *old(self),
                ix as int,
                built_task(old(self).screen.tasks@[ix as int]@, built),
            ),
    {
        if ix < self.screen.tasks.len() {
            let mut task = self.screen.tasks.remove(ix);
            let ghost was = task@;
            if task.status == TaskStatus::Building {
                task.status = TaskStatus::Compiling;
            }
            if let Some(report) = report_of(&built) {
                task.reply.push_error(report);
            }
            proof {
                assert(task@ =~= built_task(was, built));
            }
            self.screen.tasks.insert(ix, task);
            proof {
                assert(self.screen.tasks@ =~= old(self).screen.tasks@.update(ix as int, task));
            }
        }
    }

    /// The task at `ix` could not be sent.
    pub fn run_failed(&mut self, ix: usize, error: String)
        requires
            old(self).wf(),
        ensures
            final(self).wf(),
            final(self).with_task(
                *old(self),
                ix as int,
                old(self).screen.tasks@[ix as int]@.failed(error@),
            ),
    {
        if ix < self.screen.tasks.len() {
            let mut task = self.screen.tasks.remove(ix);
            task.fail(error);
            self.screen.tasks.insert(ix, task);
            proof {
                assert(self.screen.tasks@ =~= old(self).screen.tasks@.update(ix as int, task));
            }
        }
    }

    /// Applies a harness event to the task at `ix`, saying what is to be drawn
    /// again: `end_in_view` is whether the end of the output is in view, and
    /// `following` whether it is scrolled there.
    pub fn apply_event(
        &mut self,
        ix: usize,
        event: &HarnessEvent,
        end_in_view: bool,
        following: bool,
    ) -> (r: Redraw)
        requires
            old(self).wf(),
        ensures
            final(self).wf(),
            final(self).with_task(
                *old(self),
                ix as int,
                old(self).screen.tasks@[ix as int]@.applied(*event),
            ),
            r == redraw_for(*old(self), ix as int, *event, end_in_view, following),
    {
        let count = self.screen.tasks.len();
        if ix >= count {
            return Redraw::Nothing;
        }
        let mut task = self.screen.tasks.remove(ix);
        task.apply(event);
        self.screen.tasks.insert(ix, task);
        proof {
            assert(self.screen.tasks@ =~= old(self).screen.tasks@.update(ix as int, task));
        }
        if self.in_background {
            return Redraw::Nothing;
        }
        let latest = ix == count - 1;
        let raw = match event {
            HarnessEvent::Output(_) => true,
            _ => false,
        };
        if raw && (!latest || self.screen.task_history.expanded || !end_in_view) {
            Redraw::Nothing
        } else if (following || self.output_locked) && latest {
            Redraw::OutputAtEnd
        } else {
            Redraw::Output
        }
    }

    /// Follows the conversation the harness reports it is holding.
    fn follow_session(&mut self, project_dir: &str, event: &HarnessEvent)
        requires
            old(self).wf(),
        ensures
            final(self).wf(),
            *final(self) == (PromptMode {
                screen: ProjectSession {
                    session: final(self).screen.session,
                    ..old(self).screen
                },
                ..*old(self)
            }),
            session_view(final(self).screen.session) == session_after(
                session_view(old(self).screen.session),
                project_dir@,
                *event,
            ),
    {
        if let HarnessEvent::Session(id) = event {
            self.screen.session = Some(
                Session { project_dir: project_dir.to_owned(), id: id.clone() },
            );
        }
    }

    /// The harness reported something of a run: the conversation it holds is
    /// followed, and its task's output fills in.
    pub fn run_event(
        &mut self,
        run: &Run,
        event: &HarnessEvent,
        end_in_view: bool,
        following: bool,
    ) -> (r: Redraw)
        requires
            old(self).wf(),
        ensures
            final(self).wf(),
            r == redraw_for(*old(self), run.task_ix as int, *event, end_in_view, following),
            session_view(final(self).screen.session) == session_after(
                session_view(old(self).screen.session),
                run.project_dir@,
                *event,
            ),
            final(self).with_task(
                (PromptMode {
                    screen: ProjectSession {
                        session: final(self).screen.session,
                        ..old(self).screen
                    },
                    ..*old(self)
                }),
                run.task_ix as int,
                old(self).screen.tasks@[run.task_ix as int]@.applied(*event),
            ),
    {
        self.follow_session(&run.project_dir, event);
        self.apply_event(run.task_ix, event, end_in_view, following)
    }

    /// The harness is done with a run it was sent. A conversation it could not
    /// carry on is forgotten.
    pub fn harness_done(&mut self, run: &Run)
        requires
            old(self).wf(),
        ensures
            final(self).wf(),
            *final(self) == (PromptMode {
                screen: ProjectSession {
                    session: final(self).screen.session,
                    ..old(self).screen
                },
                ..*old(self)
            }),
            session_view(final(self).screen.session) == (if run.resume is Some && !run.started {
                kept(session_view(old(self).screen.session), run.resume->0@)
            } else {
                session_view(old(self).screen.session)
            }),
    {
        if let Some(resume) = &run.resume {
            if !run.started {
                Session::forget(&mut self.screen.session, resume);
            }
        }
    }
}

// ---------------------------------------------------------------------------
// Once a run is over
// ---------------------------------------------------------------------------

/// What is shown when a task could not be saved to the history.
pub open spec fn unsaved_text(error: Seq<char>) -> Seq<char> {
    "Could not save the task to the history: "@ + error
}

/// A task whose run is over, and what it shows if it couldn't be saved, without
/// failing it: the run itself is unaffected.
pub open spec fn over_task(task: TaskView, unsaved: Option<Seq<char>>) -> TaskView {
    let ended = task.ended();
    match unsaved {
        Some(error) => TaskView {
            reply: ended.reply.with_part(PartView::Error(unsaved_text(error))),
            ..ended
        },
        None => ended,
    }
}

/// Ends a task whose run is over, `unsaved` saying why it couldn't be saved.
fn end_run(task: &mut PromptTask, unsaved: &Option<String>)
    requires
        old(task).wf(),
    ensures
        final(task).wf(),
        final(task)@ == over_task(old(task)@, text_of(*unsaved)),
{
    task.end();
    if let Some(error) = unsaved {
        let mut text = chars_of("Could not save the task to the history: ");
        push_str(&mut text, error);
        task.reply.push_error(string_of(&text));
    }
    proof {
        assert(task@ =~= over_task(old(task)@, text_of(*unsaved)));
    }
}

/// The note a run adds to the next commit, `done` saying that its task finished
/// well.
fn note_of(run: &Run, done: bool) -> (r: Option<(String, String)>)
    ensures
        r is Some == (run.builds && run.finished is Some && done),
        r is Some ==> (r->0).0@ == run.asked@ && (r->0).1@ == run.finished->0@,
{
    match &run.finished {
        Some(result) => if run.builds && done {
            Some((run.asked.clone(), result.clone()))
        } else {
            None
        },
        None => None,
    }
}

impl PromptMode {
    /// Ends the task at `ix`, if it is there. Returns whether it finished well.
    fn end_task(&mut self, ix: usize, unsaved: &Option<String>) -> (done: bool)
        requires
            old(self).wf(),
        ensures
            final(self).wf(),
            final(self).with_task(
                *old(self),
                ix as int,
                over_task(old(self).screen.tasks@[ix as int]@, text_of(*unsaved)),
            ),
            done == (ix < old(self).screen.tasks@.len() && over_task(
                old(self).screen.tasks@[ix as int]@,
                text_of(*unsaved),
            ).status == TaskStatus::Done),
    {
        if ix >= self.screen.tasks.len() {
            return false;
        }
        let mut task = self.screen.tasks.remove(ix);
        end_run(&mut task, unsaved);
        let done = task.status == TaskStatus::Done;
        self.screen.tasks.insert(ix, task);
        proof {
            assert(self.screen.tasks@ =~= old(self).screen.tasks@.update(ix as int, task));
        }
        done
    }

    /// A run is over, and `unsaved` is why it couldn't be saved to the history,
    /// if it couldn't. The harness is free, the project's history loads if it
    /// changed meanwhile, and a task that finished well adds a note to the next
    /// commit.
    pub fn run_over(&mut self, run: &Run, unsaved: Option<String>) -> (r: RunOver)
        requires
            old(self).wf(),
        ensures
            final(self).wf(),
            ({
                let ix = run.task_ix as int;
                let count = old(self).screen.tasks@.len();
                let task = over_task(old(self).screen.tasks@[ix]@, text_of(unsaved));
                let stale = old(self).screen.history_stale;
                &&& (PromptMode {
                    screen: ProjectSession {
                        working: old(self).screen.working,
                        history_stale: stale,
                        ..final(self).screen
                    },
                    ..*final(self)
                }).with_task(*old(self), ix, task)
                &&& !final(self).screen.working
                &&& !final(self).screen.history_stale
                &&& text_of(r.load_history) == (if stale {
                    text_of(old(self).screen.project_dir)
                } else {
                    None
                })
                &&& r.note is Some == (run.builds && run.finished is Some && ix < count
                    && task.status == TaskStatus::Done)
                &&& r.note is Some ==> (r.note->0).0@ == run.asked@ && (r.note->0).1@
                    == run.finished->0@
            }),
    {
        let done = self.end_task(run.task_ix, &unsaved);
        self.screen.working = false;
        let load_history = if self.screen.history_stale {
            self.load_history()
        } else {
            None
        };
        let note = note_of(run, done);
        RunOver { load_history, note }
    }

    /// The project whose history is to be loaded. Tasks are only replaced while
    /// the harness is free, so a run's task keeps its index; otherwise the
    /// history loads once the run is over, the run's own task among it.
    pub fn load_history(&mut self) -> (r: Option<String>)
        ensures
            *final(self) == (PromptMode {
                screen: ProjectSession {
                    history_stale: old(self).screen.working,
                    ..old(self).screen
                },
                ..*old(self)
            }),
            text_of(r) == (if old(self).screen.working {
                None
            } else {
                text_of(old(self).screen.project_dir)
            }),
    {
        if self.screen.working {
            self.screen.history_stale = true;
            return None;
        }
        self.screen.history_stale = false;
        match &self.screen.project_dir {
            Some(dir) => Some(dir.clone()),
            None => None,
        }
    }

    /// The tasks sent before in the project were read, and the conversation
    /// they left off. Returns whether they are now those shown.
    pub fn history_loaded(&mut self, tasks: Vec<PromptTask>, session: Option<Session>) -> (shown:
        bool)
        requires
            old(self).wf(),
            tasks_wf(tasks@),
        ensures
            final(self).wf(),
            shown == !old(self).screen.working,
            !shown ==> *final(self) == (PromptMode {
                screen: ProjectSession { history_stale: true, ..old(self).screen },
                ..*old(self)
            }),
            shown ==> *final(self) == (PromptMode {
                screen: ProjectSession {
                    tasks,
                    session,
                    task_history: HistoryList {
                        open: None,
                        ..old(self).screen.task_history
                    },
                    ..old(self).screen
                },
                ..*old(self)
            }),
    {
        if self.screen.working {
            self.screen.history_stale = true;
            return false;
        }
        self.screen.tasks = tasks;
        self.screen.session = session;
        self.screen.task_history.open = None;
        true
    }

    /// Locks the latest task's output to the bottom, or unlocks it. Returns
    /// whether it is to be scrolled there.
    pub fn set_output_lock(&mut self, locked: bool) -> (scroll: bool)
        ensures
            *final(self) == (PromptMode { output_locked: locked, ..*old(self) }),
            scroll == (locked && !old(self).output_locked),
    {
        if self.output_locked == locked {
            return false;
        }
        self.output_locked = locked;
        locked
    }
}

// ---------------------------------------------------------------------------
// What holds of runs and their records
// ---------------------------------------------------------------------------

/// A task from the history is the task that was sent, as its run left it: built
/// for and compiled well, told what the harness reported, and over.
pub proof fn a_task_from_the_history_is_as_its_run_left_it(
    saved: SavedPrompt,
    mode: Option<SendMode>,
    uid: u64,
)
    requires
        saved.anchor@.sent_in() == mode,
        saved.record is Some,
        saved.record->0.user_prompt is Some,
        saved.record->0.error is None,
    ensures
        restored(saved, uid) == built_task(
            sent_task(saved.text@, mode, uid),
            Built::Well,
        ).with_compiled(
            CompiledView {
                anchor: saved.anchor@.name,
                markdown: saved.record->0.user_prompt->0@,
            },
        ).applied_each(saved.record->0.output@).ended(),
{
    let compiled = CompiledView {
        anchor: saved.anchor@.name,
        markdown: saved.record->0.user_prompt->0@,
    };
    let sent = built_task(sent_task(saved.text@, mode, uid), Built::Well).with_compiled(compiled);
    let again = TaskView { mode, ..TaskView::new(saved.text@, uid) }.with_compiled(compiled);
    assert(sent =~= again);
}

/// One that could not be sent shows why, as it did when it wasn't.
pub proof fn a_task_never_sent_shows_why_again(saved: SavedPrompt, uid: u64)
    requires
        saved.record is Some,
        saved.record->0.user_prompt is None,
        saved.record->0.output@.len() == 0,
        saved.record->0.error is Some,
    ensures
        restored(saved, uid).status == TaskStatus::Failed,
        restored(saved, uid).reply.done,
        restored(saved, uid).reply.parts == seq![PartView::Error(saved.record->0.error->0@)],
        restored(saved, uid).compiled is None,
{
    let task = TaskView { mode: saved.anchor@.sent_in(), ..TaskView::new(saved.text@, uid) };
    let error = saved.record->0.error->0;
    let told = task.applied(HarnessEvent::Failed(error));
    assert(task.applied_each(saved.record->0.output@) == task);
    stopping_is_done(task.reply, ToolState::Failed);
    adding_keeps_done(task.reply.stopped(ToolState::Failed), PartView::Error(error@));
    assert(task.reply.stopped(ToolState::Failed).parts =~= seq![]);
    assert(told.reply.parts =~= seq![PartView::Error(error@)]);
}

/// The conversation kept once events are reported in a project, one by one.
pub open spec fn session_after_each(
    session: Option<SessionView>,
    project_dir: Seq<char>,
    events: Seq<HarnessEvent>,
) -> Option<SessionView>
    decreases events.len(),
{
    if events.len() == 0 {
        session
    } else {
        session_after(
            session_after_each(session, project_dir, events.drop_last()),
            project_dir,
            events.last(),
        )
    }
}

proof fn lemma_session_after_each(
    session: Option<SessionView>,
    project_dir: Seq<char>,
    events: Seq<HarnessEvent>,
)
    ensures
        session_after_each(session, project_dir, events) == (match last_session(events) {
            Some(id) => Some(SessionView { project_dir, id }),
            None => session,
        }),
    decreases events.len(),
{
    if events.len() > 0 {
        lemma_session_after_each(session, project_dir, events.drop_last());
    }
}

/// The next task carries on the conversation the harness reported last in its
/// project, and the same one once the project's history is loaded anew.
pub proof fn the_next_task_carries_on_the_conversation(
    session: Option<SessionView>,
    project_dir: Seq<char>,
    history: Seq<SavedPrompt>,
    saved: SavedPrompt,
)
    requires
        session_of(saved) is Some,
    ensures
        resumed(
            session_after_each(session, project_dir, saved.record->0.output@),
            project_dir,
        ) == session_of(saved),
        latest_session(history.push(saved)) == session_of(saved),
{
    lemma_session_after_each(session, project_dir, saved.record->0.output@);
    assert(history.push(saved).last() == saved);
}

/// A conversation that could not be carried on is not tried again.
pub proof fn a_conversation_lost_is_not_resumed(
    session: Option<SessionView>,
    project_dir: Seq<char>,
)
    requires
        resumed(session, project_dir) is Some,
    ensures
        resumed(kept(session, resumed(session, project_dir)->0), project_dir) is None,
{
}

} // verus!
