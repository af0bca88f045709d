//! A prompt sent to the harness, what the harness did with it, and the
//! conversations it is part of.
use vstd::prelude::*;
use crate::harness::HarnessEvent;
use crate::hidden_anchor::{anchor_mode, HiddenAnchor};
use crate::paths::{is_same_path, same_path, text_of};
use crate::reply::{error_told, PartView, Reply, ReplyView};
use crate::send_mode::SendMode;
use crate::text::same;
use crate::theme::Hue;
use crate::tools::ToolState;

verus! {

// ---------------------------------------------------------------------------
// Tasks
// ---------------------------------------------------------------------------

/// How a task stands.
#[derive(Clone, Copy, Debug, PartialEq, Eq, Structural)]
pub enum TaskStatus {
    /// Building the spec, so the compiled spec is up to date before the prompt
    /// is sent.
    Building,
    Compiling,
    Running,
    Done,
    Failed,
    /// From the history, with no record of what came of it.
    Unrecorded,
}

impl TaskStatus {
    pub fn label(self) -> (r: &'static str)
        ensures
            r@ == (match self {
                TaskStatus::Building => "Building"@,
                TaskStatus::Compiling => "Compiling"@,
                TaskStatus::Running => "Running"@,
                TaskStatus::Done => "Done"@,
                TaskStatus::Failed => "Failed"@,
                TaskStatus::Unrecorded => "Not recorded"@,
            }),
    {
        match self {
            TaskStatus::Building => "Building",
            TaskStatus::Compiling => "Compiling",
            TaskStatus::Running => "Running",
            TaskStatus::Done => "Done",
            TaskStatus::Failed => "Failed",
            TaskStatus::Unrecorded => "Not recorded",
        }
    }

    pub open spec fn active(self) -> bool {
        self == TaskStatus::Building || self == TaskStatus::Compiling || self
            == TaskStatus::Running
    }

    pub fn is_active(self) -> (b: bool)
        ensures
            b == self.active(),
    {
        self == TaskStatus::Building || self == TaskStatus::Compiling || self
            == TaskStatus::Running
    }

    /// The hue its label is shown in.
    pub fn hue(self) -> (r: Hue)
        ensures
            r == (match self {
                TaskStatus::Building => Hue::Blue,
                TaskStatus::Compiling => Hue::Cyan,
                TaskStatus::Running => Hue::Amber,
                TaskStatus::Done => Hue::Green,
                TaskStatus::Failed => Hue::Red,
                TaskStatus::Unrecorded => Hue::Grey,
            }),
    {
        match self {
            TaskStatus::Building => Hue::Blue,
            TaskStatus::Compiling => Hue::Cyan,
            TaskStatus::Running => Hue::Amber,
            TaskStatus::Done => Hue::Green,
            TaskStatus::Failed => Hue::Red,
            TaskStatus::Unrecorded => Hue::Grey,
        }
    }
}

/// A sent prompt once compiled.
pub struct Compiled {
    /// The name of the hidden anchor it was compiled from.
    pub anchor: String,
    /// The markdown as compiled. What is code within a line of it is still to be
    /// marked as the view shows it.
    pub markdown: String,
}

#[verifier::ext_equal]
pub struct CompiledView {
    pub anchor: Seq<char>,
    pub markdown: Seq<char>,
}

impl View for Compiled {
    type V = CompiledView;

    open spec fn view(&self) -> CompiledView {
        CompiledView { anchor: self.anchor@, markdown: self.markdown@ }
    }
}

/// A prompt sent to the harness, and what the harness did with it.
pub struct PromptTask {
    /// The prompt as typed, shown until it compiles.
    pub text: String,
    pub compiled: Option<Compiled>,
    pub reply: Reply,
    pub status: TaskStatus,
    /// The mode it was sent in, when known, which tints its header.
    pub mode: Option<SendMode>,
}

#[verifier::ext_equal]
pub struct TaskView {
    pub text: Seq<char>,
    pub compiled: Option<CompiledView>,
    pub reply: ReplyView,
    pub status: TaskStatus,
    pub mode: Option<SendMode>,
}

impl View for PromptTask {
    type V = TaskView;

    open spec fn view(&self) -> TaskView {
        TaskView {
            text: self.text@,
            compiled: match self.compiled {
                Some(compiled) => Some(compiled@),
                None => None,
            },
            reply: self.reply@,
            status: self.status,
            mode: self.mode,
        }
    }
}

/// What a run that ended without a result shows.
pub const STOPPED: &'static str = "The harness stopped without a result.";

impl TaskView {
    pub open spec fn new(text: Seq<char>, uid: u64) -> TaskView {
        TaskView {
            text,
            compiled: None,
            reply: ReplyView::empty(uid),
            status: TaskStatus::Compiling,
            mode: None,
        }
    }

    /// Compiled, the task is running.
    pub open spec fn with_compiled(self, compiled: CompiledView) -> TaskView {
        TaskView { compiled: Some(compiled), status: TaskStatus::Running, ..self }
    }

    pub open spec fn failed(self, error: Seq<char>) -> TaskView {
        TaskView {
            reply: self.reply.with_part(PartView::Error(error)),
            status: TaskStatus::Failed,
            ..self
        }
    }

    /// A harness event folded into the task's output and status.
    pub open spec fn applied(self, event: HarnessEvent) -> TaskView {
        let told = TaskView { reply: self.reply.applied(event), ..self };
        match error_told(event) {
            Some(error) => told.failed(error),
            None => if told.reply.done && told.status == TaskStatus::Running {
                TaskView { status: TaskStatus::Done, ..told }
            } else {
                told
            },
        }
    }

    pub open spec fn applied_each(self, events: Seq<HarnessEvent>) -> TaskView
        decreases events.len(),
    {
        if events.len() == 0 {
            self
        } else {
            self.applied_each(events.drop_last()).applied(events.last())
        }
    }

    /// The run is over. One that ended without a result, as when the harness
    /// was stopped, failed, and nothing still running in it finished.
    pub open spec fn ended(self) -> TaskView {
        if self.reply.done {
            self
        } else {
            let stopped = TaskView { reply: self.reply.stopped(ToolState::Failed), ..self };
            if self.status == TaskStatus::Failed {
                stopped
            } else {
                stopped.failed(STOPPED@)
            }
        }
    }
}

/// What came of a prompt: the prompt as compiled, what the harness reported, and
/// why it couldn't be sent, if it couldn't.
pub struct RunRecord {
    pub user_prompt: Option<String>,
    pub output: Vec<HarnessEvent>,
    pub error: Option<String>,
}

/// A prompt from the history, and the record of what came of it, if there is
/// one.
pub struct SavedPrompt {
    pub anchor: HiddenAnchor,
    pub text: String,
    pub record: Option<RunRecord>,
}

/// A task as the history has it.
pub open spec fn restored(saved: SavedPrompt, uid: u64) -> TaskView {
    let task = TaskView { mode: saved.anchor@.sent_in(), ..TaskView::new(saved.text@, uid) };
    match saved.record {
        None => TaskView {
            reply: task.reply.stopped(ToolState::Failed),
            status: TaskStatus::Unrecorded,
            ..task
        },
        Some(record) => {
            let compiled = match record.user_prompt {
                Some(markdown) => task.with_compiled(
                    CompiledView { anchor: saved.anchor@.name, markdown: markdown@ },
                ),
                None => task,
            };
            let told = compiled.applied_each(record.output@);
            let over = match record.error {
                Some(error) => told.applied(HarnessEvent::Failed(error)),
                None => told,
            };
            over.ended()
        },
    }
}

impl PromptTask {
    pub open spec fn wf(&self) -> bool {
        self.reply.wf()
    }

    /// A task for `text`, compiling, `uid` telling its reply apart.
    pub fn new(text: String, uid: u64) -> (r: PromptTask)
        ensures
            r.wf(),
            r@ == TaskView::new(text@, uid),
    {
        let r = PromptTask {
            text,
            compiled: None,
            reply: Reply::new(uid),
            status: TaskStatus::Compiling,
            mode: None,
        };
        proof {
            assert(r@ =~= TaskView::new(text@, uid));
        }
        r
    }

    /// A task from the history, as it ended: its run's output is replayed.
    pub fn restore(saved: SavedPrompt, uid: u64) -> (r: PromptTask)
        ensures
            r.wf(),
            r@ == restored(saved, uid),
    {
        let ghost given = saved;
        let mut task = PromptTask::new(saved.text, uid);
        task.mode = anchor_mode(&saved.anchor);
        let record = match saved.record {
            Some(record) => record,
            None => {
                task.reply.stop();
                task.status = TaskStatus::Unrecorded;
                proof {
                    assert(task@ =~= restored(given, uid));
                }
                return task;
            },
        };
        let ghost start = TaskView {
            mode: given.anchor@.sent_in(),
            ..TaskView::new(given.text@, uid)
        };
        proof {
            assert(task@ =~= start);
        }
        let output = record.output;
        let error = record.error;
        if let Some(markdown) = record.user_prompt {
            task.set_compiled(Compiled { anchor: saved.anchor.name, markdown });
        }
        let ghost compiled = task@;
        let mut i: usize = 0;
        while i < output.len()
            invariant
                i <= output@.len(),
                task.wf(),
                task@ == compiled.applied_each(output@.take(i as int)),
            decreases output@.len() - i,
        {
            task.apply(&output[i]);
            i += 1;
            proof {
                assert(output@.take(i as int).drop_last() =~= output@.take(i - 1));
                assert(output@.take(i as int).last() == output@[i - 1]);
            }
        }
        proof {
            assert(output@.take(output@.len() as int) =~= output@);
        }
        if let Some(error) = error {
            task.apply(&HarnessEvent::Failed(error));
        }
        task.end();
        task
    }

    pub fn set_compiled(&mut self, compiled: Compiled)
        ensures
            final(self)@ == old(self)@.with_compiled(compiled@),
            final(self).reply == old(self).reply,
    {
        self.compiled = Some(compiled);
        self.status = TaskStatus::Running;
        proof {
            assert(self@ =~= old(self)@.with_compiled(compiled@));
        }
    }

    /// Folds a harness event into the task's output and status.
    pub fn apply(&mut self, event: &HarnessEvent)
        requires
            old(self).wf(),
        ensures
            final(self).wf(),
            final(self)@ == old(self)@.applied(*event),
    {
        match self.reply.apply(event) {
            Some(error) => self.fail(error),
            None => {
                if self.reply.done && self.status == TaskStatus::Running {
                    self.status = TaskStatus::Done;
                }
            },
        }
        proof {
            assert(self@ =~= old(self)@.applied(*event));
        }
    }

    pub fn fail(&mut self, error: String)
        requires
            old(self).wf(),
        ensures
            final(self).wf(),
            final(self)@ == old(self)@.failed(error@),
    {
        self.reply.push_error(error);
        self.status = TaskStatus::Failed;
        proof {
            assert(self@ =~= old(self)@.failed(error@));
        }
    }

    /// The run is over. One that ended without a result, as when the harness
    /// was stopped, failed, and nothing still running in it finished.
    pub fn end(&mut self)
        requires
            old(self).wf(),
        ensures
            final(self).wf(),
            final(self)@ == old(self)@.ended(),
    {
        if self.reply.done {
            return ;
        }
        self.reply.stop();
        proof {
            assert(self@ =~= (TaskView {
                reply: old(self)@.reply.stopped(ToolState::Failed),
                ..old(self)@
            }));
        }
        if self.status != TaskStatus::Failed {
            self.fail(STOPPED.to_owned());
        }
    }
}

// ---------------------------------------------------------------------------
// What holds of tasks
// ---------------------------------------------------------------------------

/// Whether a task's status agrees with its reply: one whose reply is done isn't
/// running.
pub open spec fn agrees(task: TaskView) -> bool {
    task.reply.done ==> task.status != TaskStatus::Running
}

/// A task that has compiled agrees with its run through every event, and is
/// never under way once it has ended.
pub proof fn a_task_follows_its_run(task: TaskView, event: HarnessEvent)
    requires
        agrees(task),
    ensures
        agrees(task.applied(event)),
        task.status != TaskStatus::Building && task.status != TaskStatus::Compiling
            ==> !task.ended().status.active() && task.applied(event).status != TaskStatus::Building
            && task.applied(event).status != TaskStatus::Compiling,
{
}

/// A task that ended has a reply that is done.
pub proof fn an_ended_task_is_done(task: TaskView)
    ensures
        task.ended().reply.done,
{
    crate::reply::stopping_is_done(task.reply, ToolState::Failed);
    crate::reply::adding_keeps_done(
        task.reply.stopped(ToolState::Failed),
        PartView::Error(STOPPED@),
    );
}

// ---------------------------------------------------------------------------
// Conversations
// ---------------------------------------------------------------------------

/// A conversation with the harness, which later runs in the same project
/// resume so the harness keeps its context.
pub struct Session {
    pub project_dir: String,
    pub id: String,
}

#[verifier::ext_equal]
pub struct SessionView {
    pub project_dir: Seq<char>,
    pub id: Seq<char>,
}

impl View for Session {
    type V = SessionView;

    open spec fn view(&self) -> SessionView {
        SessionView { project_dir: self.project_dir@, id: self.id@ }
    }
}

pub open spec fn session_view(session: Option<Session>) -> Option<SessionView> {
    match session {
        Some(session) => Some(session@),
        None => None,
    }
}

/// The conversation to resume in a project.
pub open spec fn resumed(session: Option<SessionView>, project_dir: Seq<char>) -> Option<
    Seq<char>,
> {
    match session {
        Some(session) => if same_path(session.project_dir, project_dir) {
            Some(session.id)
        } else {
            None
        },
        None => None,
    }
}

/// The conversation kept once `id` could not be resumed.
pub open spec fn kept(session: Option<SessionView>, id: Seq<char>) -> Option<SessionView> {
    match session {
        Some(session) => if session.id == id {
            None
        } else {
            Some(session)
        },
        None => None,
    }
}

/// The last conversation some events report.
pub open spec fn last_session(events: Seq<HarnessEvent>) -> Option<Seq<char>>
    decreases events.len(),
{
    if events.len() == 0 {
        None
    } else {
        match events.last() {
            HarnessEvent::Session(id) => Some(id@),
            _ => last_session(events.drop_last()),
        }
    }
}

/// The conversation a saved prompt's run reported.
pub open spec fn session_of(saved: SavedPrompt) -> Option<Seq<char>> {
    match saved.record {
        Some(record) => last_session(record.output@),
        None => None,
    }
}

/// The latest conversation in a history.
pub open spec fn latest_session(history: Seq<SavedPrompt>) -> Option<Seq<char>>
    decreases history.len(),
{
    if history.len() == 0 {
        None
    } else {
        match session_of(history.last()) {
            Some(id) => Some(id),
            None => latest_session(history.drop_last()),
        }
    }
}

fn reported(saved: &SavedPrompt) -> (r: Option<String>)
    ensures
        text_of(r) == session_of(*saved),
{
    let record = match &saved.record {
        Some(record) => record,
        None => {
            return None;
        },
    };
    let ghost events = record.output@;
    let mut i: usize = record.output.len();
    proof {
        assert(events.take(i as int) =~= events);
    }
    while i > 0
        invariant
            i <= record.output@.len(),
            events == record.output@,
            session_of(*saved) == last_session(events),
            last_session(events.take(i as int)) == last_session(events),
        decreases i,
    {
        proof {
            assert(events.take(i as int).last() == events[i - 1]);
            assert(events.take(i as int).drop_last() =~= events.take(i - 1));
        }
        i -= 1;
        if let HarnessEvent::Session(id) = &record.output[i] {
            return Some(id.clone());
        }
    }
    None
}

impl Session {
    /// The conversation to resume from `session`, if it is `project_dir`'s.
    pub fn resume(session: &Option<Session>, project_dir: &str) -> (r: Option<String>)
        ensures
            text_of(r) == resumed(session_view(*session), project_dir@),
    {
        match session {
            Some(session) => if is_same_path(&session.project_dir, project_dir) {
                Some(session.id.clone())
            } else {
                None
            },
            None => None,
        }
    }

    /// Forgets `session` if it is still `id`, which the harness could not
    /// resume, so the next run starts a new conversation.
    pub fn forget(session: &mut Option<Session>, id: &str)
        ensures
            session_view(*final(session)) == kept(session_view(*old(session)), id@),
    {
        let forgotten = match session.as_ref() {
            Some(held) => same(&held.id, id),
            None => false,
        };
        if forgotten {
            *session = None;
        }
    }

    /// The latest conversation in a project's history.
    pub fn latest(history: &Vec<SavedPrompt>, project_dir: &str) -> (r: Option<Session>)
        ensures
            session_view(r) == (match latest_session(history@) {
                Some(id) => Some(SessionView { project_dir: project_dir@, id }),
                None => None,
            }),
    {
        let mut i: usize = history.len();
        proof {
            assert(history@.take(i as int) =~= history@);
        }
        while i > 0
            invariant
                i <= history@.len(),
                latest_session(history@.take(i as int)) == latest_session(history@),
            decreases i,
        {
            proof {
                assert(history@.take(i as int).last() == history@[i - 1]);
                assert(history@.take(i as int).drop_last() =~= history@.take(i - 1));
            }
            i -= 1;
            if let Some(id) = reported(&history[i]) {
                return Some(Session { project_dir: project_dir.to_owned(), id });
            }
        }
        None
    }
}

} // verus!
