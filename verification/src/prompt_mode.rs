//! Prompt mode: prompts are sent to a local coding harness as tasks, and each
//! task's output is shown until it finishes. Prompts sent while the harness
//! works wait in a queue. A question asked from the Ask tab is not one of those
//! tasks: it runs straight away, beside any task the harness is working on and
//! any other question, and never queues.
//!
//! Each open project has work of its own. The work of the project on screen is
//! in place; the work of every other is kept in the background, where its runs
//! go on.
use vstd::prelude::*;
use crate::history_list::HistoryList;
use crate::paths::{is_same_path, same_path, text_of};
use crate::prompt_queue::QueuedPrompt;
use crate::task::{PromptTask, Session};
use crate::prompt_view::SelectionPopover;
use crate::task_table::{first_line, first_told, ListChange, TableSync};
use crate::text::lines;

verus! {

// ---------------------------------------------------------------------------
// The work of a project
// ---------------------------------------------------------------------------

/// A prompt in the queue. Its hidden anchor is resolved and saved in the
/// background just after it is queued; until then it cannot be sent.
pub struct QueueItem {
    pub id: usize,
    pub text: String,
    pub saved: Option<QueuedPrompt>,
    /// Queued on purpose: once saved, it waits rather than being sent at
    /// once.
    pub wait: bool,
}

/// A question asked from the Ask tab.
pub struct Ask {
    pub id: usize,
    pub task: PromptTask,
    /// Its output stays scrolled to the bottom.
    pub locked: bool,
}

/// The work that belongs to one open project.
pub struct ProjectSession {
    pub project_dir: Option<String>,
    /// Every task sent, oldest first; the last heads the view.
    pub tasks: Vec<PromptTask>,
    /// The harness is working on the latest task.
    pub working: bool,
    /// The project changed while the harness worked; its history loads once
    /// the run is over.
    pub history_stale: bool,
    /// The row of previous tasks, expanding into every task.
    pub task_history: HistoryList,
    /// Prompts waiting for the harness, in the order they were sent.
    pub queue: Vec<QueueItem>,
    pub queue_expanded: bool,
    /// Send the next queued prompt as soon as the harness is free.
    pub auto_send: bool,
    /// A restored queue waits for "Send next" (or auto send being switched
    /// on) rather than sending on its own, until it has emptied.
    pub queue_held: bool,
    /// The conversation the tasks share, each resuming the last.
    pub session: Option<Session>,
    /// The questions asked from the Ask tab, oldest first, each run at once
    /// and apart from the tasks.
    pub asks: Vec<Ask>,
    /// The finished question opened onto its whole task table, if any.
    pub expanded_ask: Option<usize>,
    /// The answers' tables whose steps were expanded, by task index.
    pub steps_shown: Vec<usize>,
    /// Every question asked before, oldest first: those saved with the
    /// project, and those closed since.
    pub answers: Vec<PromptTask>,
    /// The row of previous answers, shown on the Ask tab.
    pub ask_history: HistoryList,
    /// The conversation questions share, apart from the tasks'.
    pub ask_session: Option<Session>,
}

/// What is open in the answer drawer: the question open onto its table, and
/// which expanding of the previous answers is showing.
#[derive(Clone, Copy, Debug, PartialEq, Eq, Structural)]
pub struct DrawerContents {
    pub question: Option<usize>,
    pub answers: Option<usize>,
}

/// Prompt mode's state.
pub struct PromptMode {
    /// The work of the open project on screen.
    pub screen: ProjectSession,
    /// The work of every other open project.
    pub background: Vec<ProjectSession>,
    /// A background project's work is in place, for a run of it to write
    /// back; nothing on screen is touched meanwhile.
    pub in_background: bool,
    /// The latest task's output stays scrolled to the bottom.
    pub output_locked: bool,
    /// What the list of the latest task's output was last told.
    pub output_table: TableSync,
    /// The popover by text selected in an answer.
    pub selection: SelectionPopover,
    /// The queued prompt being edited in the chat input, by its id.
    pub editing_queued: Option<usize>,
    pub next_queue_id: usize,
    pub next_ask_id: usize,
    /// What tells the next reply apart.
    pub next_reply: u64,
    /// What was open in the drawer when it was last dragged.
    pub drawer_dragged: Option<DrawerContents>,
    /// The chat input's Ask tab is selected.
    pub on_ask_tab: bool,
}

pub open spec fn tasks_wf(tasks: Seq<PromptTask>) -> bool {
    forall|k: int| 0 <= k < tasks.len() ==> (#[trigger] tasks[k]).wf()
}

pub open spec fn asks_wf(asks: Seq<Ask>) -> bool {
    forall|k: int| 0 <= k < asks.len() ==> (#[trigger] asks[k]).task.wf()
}

/// Whether a queue's items are told apart by their ids, which grow, none of
/// them past the last given.
pub open spec fn queue_wf(queue: Seq<QueueItem>, last: usize) -> bool {
    &&& forall|i: int, j: int|
        0 <= i < j < queue.len() ==> (#[trigger] queue[i]).id < (#[trigger] queue[j]).id
    &&& forall|i: int| 0 <= i < queue.len() ==> (#[trigger] queue[i]).id <= last
}

/// Whether questions are told apart by their ids, which grow, none of them past
/// the last given.
pub open spec fn ask_ids_wf(asks: Seq<Ask>, last: usize) -> bool {
    &&& forall|i: int, j: int|
        0 <= i < j < asks.len() ==> (#[trigger] asks[i]).id < (#[trigger] asks[j]).id
    &&& forall|i: int| 0 <= i < asks.len() ==> (#[trigger] asks[i]).id <= last
}

impl ProjectSession {
    pub open spec fn wf(self, last_queue_id: usize, last_ask_id: usize) -> bool {
        &&& tasks_wf(self.tasks@) && tasks_wf(self.answers@) && asks_wf(self.asks@)
        &&& queue_wf(self.queue@, last_queue_id)
        &&& ask_ids_wf(self.asks@, last_ask_id)
    }

    /// Whether nothing has been done in a project yet.
    pub open spec fn is_new(self) -> bool {
        &&& self.tasks@.len() == 0 && self.queue@.len() == 0 && self.asks@.len() == 0
        &&& self.answers@.len() == 0 && self.steps_shown@.len() == 0
        &&& !self.working && !self.history_stale && !self.queue_expanded && !self.queue_held
        &&& self.auto_send
        &&& self.session is None && self.ask_session is None && self.expanded_ask is None
        &&& self.task_history.lists_tasks() && self.task_history.is_new()
        &&& self.ask_history.lists_answers() && self.ask_history.is_new()
    }

    pub fn new(project_dir: Option<String>) -> (r: ProjectSession)
        ensures
            r.is_new(),
            forall|queue: usize, ask: usize| #[trigger] r.wf(queue, ask),
            r.project_dir == project_dir,
    {
        ProjectSession {
            project_dir,
            tasks: Vec::new(),
            working: false,
            history_stale: false,
            task_history: HistoryList::tasks(),
            queue: Vec::new(),
            queue_expanded: false,
            auto_send: true,
            queue_held: false,
            session: None,
            asks: Vec::new(),
            expanded_ask: None,
            steps_shown: Vec::new(),
            answers: Vec::new(),
            ask_history: HistoryList::answers(),
            ask_session: None,
        }
    }

    /// Whether this is the work of the project at `dir`.
    pub open spec fn is_at(self, dir: Seq<char>) -> bool {
        self.project_dir is Some && same_path(self.project_dir->0@, dir)
    }

    pub fn belongs_to(&self, dir: &str) -> (b: bool)
        ensures
            b == self.is_at(dir@),
    {
        match &self.project_dir {
            Some(own) => is_same_path(own, dir),
            None => false,
        }
    }
}

/// Where the work of a project is among some, or how many there are.
pub open spec fn place_among(sessions: Seq<ProjectSession>, dir: Seq<char>, i: int) -> int
    decreases sessions.len() - i,
{
    if 0 <= i < sessions.len() && !sessions[i].is_at(dir) {
        place_among(sessions, dir, i + 1)
    } else {
        i
    }
}

pub proof fn lemma_place_among(sessions: Seq<ProjectSession>, dir: Seq<char>, i: int)
    requires
        0 <= i <= sessions.len(),
    ensures
        i <= place_among(sessions, dir, i) <= sessions.len(),
        place_among(sessions, dir, i) < sessions.len() ==> sessions[place_among(
            sessions,
            dir,
            i,
        )].is_at(dir),
        forall|k: int| i <= k < place_among(sessions, dir, i) ==> !(#[trigger] sessions[k]).is_at(
            dir,
        ),
    decreases sessions.len() - i,
{
    if i < sessions.len() && !sessions[i].is_at(dir) {
        lemma_place_among(sessions, dir, i + 1);
    }
}

fn find_among(sessions: &Vec<ProjectSession>, dir: &str) -> (i: usize)
    ensures
        i == place_among(sessions@, dir@, 0),
        i <= sessions@.len(),
{
    let mut i: usize = 0;
    while i < sessions.len() && !sessions[i].belongs_to(dir)
        invariant
            i <= sessions@.len(),
            place_among(sessions@, dir@, i as int) == place_among(sessions@, dir@, 0),
        decreases sessions@.len() - i,
    {
        i += 1;
    }
    i
}

// ---------------------------------------------------------------------------
// Switching projects
// ---------------------------------------------------------------------------

pub open spec fn sessions_wf(
    sessions: Seq<ProjectSession>,
    last_queue_id: usize,
    last_ask_id: usize,
) -> bool {
    forall|k: int|
        0 <= k < sessions.len() ==> (#[trigger] sessions[k]).wf(last_queue_id, last_ask_id)
}

/// Whether two projects, or none, are the same.
pub open spec fn same_project(a: Option<Seq<char>>, b: Option<Seq<char>>) -> bool {
    match a {
        Some(a) => b is Some && same_path(a, b->0),
        None => b is None,
    }
}

/// The work kept in the background once the project on screen is left.
pub open spec fn left_behind(before: PromptMode) -> Seq<ProjectSession> {
    if before.screen.project_dir is Some {
        before.background@.push(before.screen)
    } else {
        before.background@
    }
}

/// What is to be done once another project is on screen.
#[derive(Clone, Copy, Debug, PartialEq, Eq, Structural)]
pub struct Switched {
    /// It has to be loaded, being opened for the first time.
    pub load: bool,
    /// What the list of the latest task's output is to be told.
    pub output: ListChange,
    /// The chat input shows that the harness is working there.
    pub busy: bool,
}

/// What switching to a project comes to: the work of the one left goes on in
/// the background, and the one switched to comes back as it was left, or, the
/// first time it is opened, has nothing done in it yet. Nothing on screen carries
/// over from the project left.
pub open spec fn switched(before: PromptMode, dir: Option<Seq<char>>, after: PromptMode) -> bool {
    let behind = left_behind(before);
    let at = match dir {
        Some(dir) => place_among(behind, dir, 0),
        None => behind.len() as int,
    };
    if same_project(text_of(before.screen.project_dir), dir) {
        after == before
    } else {
        &&& !after.output_locked
        &&& after.selection.text is None
        &&& after == (PromptMode {
            screen: after.screen,
            background: after.background,
            output_locked: false,
            output_table: TableSync { reply: 0, table: 0, layout: None, edit: 0 },
            selection: after.selection,
            ..before
        })
        &&& if at < behind.len() {
            after.screen == behind[at] && after.background@ == behind.remove(at)
        } else {
            after.screen.is_new() && text_of(after.screen.project_dir) == dir
                && after.background@ == behind
        }
    }
}

impl PromptMode {
    pub open spec fn wf(self) -> bool {
        self.output_table.wf() && self.screen.wf(self.next_queue_id, self.next_ask_id)
            && sessions_wf(self.background@, self.next_queue_id, self.next_ask_id)
    }

    pub fn new() -> (r: PromptMode)
        ensures
            r.wf(),
            r.screen.is_new() && r.screen.project_dir is None && r.background@.len() == 0,
            r.output_table == (TableSync { reply: 0, table: 0, layout: None, edit: 0 }),
            r.selection.text is None,
            !r.in_background && !r.output_locked && r.editing_queued is None && !r.on_ask_tab,
            r.next_queue_id == 0 && r.next_ask_id == 0 && r.next_reply == 1 && r.drawer_dragged
                is None,
    {
        PromptMode {
            screen: ProjectSession::new(None),
            background: Vec::new(),
            in_background: false,
            output_locked: false,
            output_table: TableSync::default(),
            selection: SelectionPopover { text: None },
            editing_queued: None,
            next_queue_id: 0,
            next_ask_id: 0,
            next_reply: 1,
            drawer_dragged: None,
            on_ask_tab: false,
        }
    }

    /// Swaps the work of the project on screen with `other`'s.
    pub fn swap_session(&mut self, other: &mut ProjectSession)
        ensures
            *final(self) == (PromptMode { screen: *old(other), ..*old(self) }),
            *final(other) == old(self).screen,
    {
        core::mem::swap(&mut self.screen, other);
    }

    /// Follows the project on screen to the one at `dir`. Returns nothing where
    /// that is the one on screen.
    pub fn project_changed(&mut self, dir: Option<String>) -> (r: Option<Switched>)
        requires
            old(self).wf(),
        ensures
            final(self).wf(),
            switched(*old(self), text_of(dir), *final(self)),
            r == (if same_project(text_of(old(self).screen.project_dir), text_of(dir)) {
                None
            } else {
                Some(
                    Switched {
                        load: !(dir is Some && place_among(left_behind(*old(self)), dir->0@, 0)
                            < left_behind(*old(self)).len()),
                        output: ListChange::Reset { count: 0 },
                        busy: final(self).screen.working,
                    },
                )
            }),
    {
        let unchanged = match (&self.screen.project_dir, &dir) {
            (Some(was), Some(dir)) => is_same_path(was, dir),
            (None, None) => true,
            _ => false,
        };
        if unchanged {
            return None;
        }
        let mut left = ProjectSession::new(None);
        self.swap_session(&mut left);
        if left.project_dir.is_some() {
            self.background.push(left);
        }
        let ghost behind = self.background@;
        proof {
            assert(behind =~= left_behind(*old(self)));
        }
        self.output_locked = false;
        let output = self.output_table.forget();
        self.selection.text = None;
        let at: usize = match &dir {
            Some(dir) => find_among(&self.background, dir),
            None => self.background.len(),
        };
        if at < self.background.len() {
            let mut back = self.background.remove(at);
            self.swap_session(&mut back);
            return Some(Switched { load: false, output, busy: self.screen.working });
        }
        self.screen = ProjectSession::new(dir);
        Some(Switched { load: true, output, busy: self.screen.working })
    }
}

/// Whether every open project has its work in one place.
pub open spec fn kept_apart(mode: PromptMode) -> bool {
    &&& forall|k: int|
        0 <= k < mode.background@.len() ==> (#[trigger] mode.background@[k]).project_dir is Some
            && !(mode.screen.project_dir is Some && mode.background@[k].is_at(
            mode.screen.project_dir->0@,
        ))
    &&& forall|i: int, j: int|
        0 <= i < j < mode.background@.len() ==> !(#[trigger] mode.background@[i]).is_at(
            (#[trigger] mode.background@[j]).project_dir->0@,
        )
}

/// Switching projects keeps the work of each in one place.
pub proof fn switching_keeps_projects_apart(
    before: PromptMode,
    dir: Option<Seq<char>>,
    after: PromptMode,
)
    requires
        kept_apart(before),
        switched(before, dir, after),
    ensures
        kept_apart(after),
{
    if !same_project(text_of(before.screen.project_dir), dir) {
        let behind = left_behind(before);
        assert forall|i: int, j: int| 0 <= i < j < behind.len() implies !(
        #[trigger] behind[i]).is_at((#[trigger] behind[j]).project_dir->0@) by {
            assert(behind[i] == before.background@[i]);
            if j < before.background@.len() {
                assert(behind[j] == before.background@[j]);
            }
        }
        assert forall|i: int| 0 <= i < behind.len() implies (
        #[trigger] behind[i]).project_dir is Some by {
            if i < before.background@.len() {
                assert(behind[i] == before.background@[i]);
            }
        }
        if let Some(dir) = dir {
            lemma_place_among(behind, dir, 0);
        }
        let at = match dir {
            Some(dir) => place_among(behind, dir, 0),
            None => behind.len() as int,
        };
        if at < behind.len() {
            let rest = behind.remove(at);
            assert forall|i: int, j: int| 0 <= i < j < rest.len() implies !(
            #[trigger] rest[i]).is_at((#[trigger] rest[j]).project_dir->0@) by {
                let a = if i < at {
                    i
                } else {
                    i + 1
                };
                let b = if j < at {
                    j
                } else {
                    j + 1
                };
                assert(rest[i] == behind[a] && rest[j] == behind[b]);
            }
            assert forall|k: int| 0 <= k < rest.len() implies (#[trigger] rest[k]).project_dir
                is Some && !rest[k].is_at(after.screen.project_dir->0@) by {
                let a = if k < at {
                    k
                } else {
                    k + 1
                };
                assert(rest[k] == behind[a]);
                assert(after.screen == behind[at]);
                if a < at {
                    assert(!behind[a].is_at(behind[at].project_dir->0@));
                } else {
                    assert(!behind[at].is_at(behind[a].project_dir->0@));
                }
            }
        } else {
            assert forall|k: int| 0 <= k < behind.len() implies (
            #[trigger] behind[k]).project_dir is Some && !(after.screen.project_dir is Some
                && behind[k].is_at(after.screen.project_dir->0@)) by {}
        }
    }
}

/// A project left comes back, when it is switched to again, just as it was: its
/// work is neither lost nor mixed with another's.
pub proof fn a_project_left_comes_back_as_it_was(
    first: PromptMode,
    second: PromptMode,
    third: PromptMode,
    other: Seq<char>,
)
    requires
        first.screen.project_dir is Some,
        !same_path(first.screen.project_dir->0@, other),
        kept_apart(first),
        switched(first, Some(other), second),
        switched(second, Some(first.screen.project_dir->0@), third),
    ensures
        third.screen == first.screen,
{
    let own = first.screen.project_dir->0@;
    let behind = left_behind(first);
    lemma_place_among(behind, other, 0);
    let at = place_among(behind, other, 0);
    let n = first.background@.len() as int;
    assert(behind[n] == first.screen);
    if at < behind.len() {
        assert(at != n);
        assert(second.screen.is_at(other));
    }
    let again = left_behind(second);
    lemma_place_among(again, own, 0);
    let back = place_among(again, own, 0);
    let place = if at < n {
        n - 1
    } else {
        n
    };
    assert(second.background@[place] == first.screen);
    assert(again[place] == first.screen);
    assert(again[place].is_at(own));
    if back < place {
        assert(again[back] == second.background@[back]);
        if at < n && back >= at {
            assert(again[back] == first.background@[back + 1]);
        } else {
            assert(again[back] == first.background@[back]);
        }
    }
}

// ---------------------------------------------------------------------------
// Working on another project
// ---------------------------------------------------------------------------

/// Where a project's work is put in place from.
#[derive(Clone, Copy, Debug, PartialEq, Eq, Structural)]
pub enum Entered {
    /// It is on screen already.
    OnScreen,
    /// It is in the background, there, and what is on screen is kept in its
    /// stead. Whether a background project's work was in place before.
    Background(usize, bool),
    /// The project isn't open.
    NotOpen,
}

/// What putting the work of a project in place comes to: nothing while it is on
/// screen or isn't open, and otherwise it takes the place of what is on screen,
/// which is kept in its stead.
pub open spec fn put_in_place(
    before: PromptMode,
    dir: Seq<char>,
    after: PromptMode,
    entered: Entered,
) -> bool {
    let at = place_among(before.background@, dir, 0);
    if before.screen.is_at(dir) {
        entered == Entered::OnScreen && after == before
    } else if at < before.background@.len() {
        &&& entered == Entered::Background(at as usize, before.in_background)
        &&& after.screen == before.background@[at]
        &&& after.background@ == before.background@.update(at, before.screen)
        &&& after == (PromptMode {
            screen: after.screen,
            background: after.background,
            in_background: true,
            ..before
        })
    } else {
        entered == Entered::NotOpen && after == before
    }
}

/// What putting back what was on screen comes to.
pub open spec fn put_back(before: PromptMode, entered: Entered, after: PromptMode) -> bool {
    match entered {
        Entered::Background(at, was) => {
            &&& after.screen == before.background@[at as int]
            &&& after.background@ == before.background@.update(at as int, before.screen)
            &&& after == (PromptMode {
                screen: after.screen,
                background: after.background,
                in_background: was,
                ..before
            })
        },
        _ => after == before,
    }
}

/// A run in the background writes back into its own project and touches nothing
/// on screen, nor in any other project.
pub proof fn a_background_run_touches_only_its_project(
    before: PromptMode,
    dir: Seq<char>,
    entered: Entered,
    inside: PromptMode,
    changed: PromptMode,
    after: PromptMode,
)
    requires
        put_in_place(before, dir, inside, entered),
        entered is Background,
        before.background@.len() <= usize::MAX,
        changed.background@ == inside.background@,
        put_back(changed, entered, after),
    ensures
        after.screen == before.screen,
        after.in_background == before.in_background,
        after.background@ == before.background@.update(
            place_among(before.background@, dir, 0),
            changed.screen,
        ),
        inside.screen == before.background@[place_among(before.background@, dir, 0)],
        inside.screen.is_at(dir),
{
    lemma_place_among(before.background@, dir, 0);
    assert(after.background@ =~= before.background@.update(
        place_among(before.background@, dir, 0),
        changed.screen,
    ));
}

impl PromptMode {
    /// Puts the work of the project at `dir` in place: straight away while it
    /// is on screen, or from the background, touching nothing on screen.
    pub fn enter(&mut self, dir: &str) -> (r: Entered)
        requires
            old(self).wf(),
        ensures
            final(self).wf(),
            put_in_place(*old(self), dir@, *final(self), r),
    {
        if self.screen.belongs_to(dir) {
            return Entered::OnScreen;
        }
        let at = find_among(&self.background, dir);
        if at >= self.background.len() {
            return Entered::NotOpen;
        }
        let mut session = self.background.remove(at);
        self.swap_session(&mut session);
        self.background.insert(at, session);
        proof {
            assert(self.background@ =~= old(self).background@.update(
                at as int,
                old(self).screen,
            ));
        }
        let was = self.in_background;
        self.in_background = true;
        Entered::Background(at, was)
    }

    /// Puts back what was on screen.
    pub fn leave(&mut self, entered: Entered)
        requires
            old(self).wf(),
            entered matches Entered::Background(at, _) ==> at < old(self).background@.len(),
        ensures
            final(self).wf(),
            put_back(*old(self), entered, *final(self)),
    {
        if let Entered::Background(at, was) = entered {
            let mut session = self.background.remove(at);
            self.swap_session(&mut session);
            self.background.insert(at, session);
            proof {
                assert(self.background@ =~= old(self).background@.update(
                    at as int,
                    old(self).screen,
                ));
            }
            self.in_background = was;
        }
    }
}

// ---------------------------------------------------------------------------
// What is running
// ---------------------------------------------------------------------------

/// What is running in an open project, for showing it busy.
pub struct ProjectActivity {
    pub project_dir: String,
    /// The first line of the task the harness is working on, if it is.
    pub task: Option<String>,
    /// Each question still running, by its id, with its first line.
    pub questions: Vec<(usize, String)>,
}

#[verifier::ext_equal]
pub struct ActivityView {
    pub project_dir: Seq<char>,
    pub task: Option<Seq<char>>,
    pub questions: Seq<(usize, Seq<char>)>,
}

pub open spec fn question_views(v: Seq<(usize, String)>) -> Seq<(usize, Seq<char>)> {
    v.map_values(|q: (usize, String)| (q.0, q.1@))
}

impl View for ProjectActivity {
    type V = ActivityView;

    open spec fn view(&self) -> ActivityView {
        ActivityView {
            project_dir: self.project_dir@,
            task: text_of(self.task),
            questions: question_views(self.questions@),
        }
    }
}

pub open spec fn activity_views(v: Seq<ProjectActivity>) -> Seq<ActivityView> {
    v.map_values(|a: ProjectActivity| a@)
}

/// The first line of some text with anything in it.
pub open spec fn heading(text: Seq<char>) -> Seq<char> {
    first_told(lines(text), 0)
}

/// The first line of the task the harness is working on, if it is.
pub open spec fn task_running(session: ProjectSession) -> Option<Seq<char>> {
    if session.working && session.tasks@.len() > 0 && session.tasks@.last().status.active() {
        Some(heading(session.tasks@.last().text@))
    } else {
        None
    }
}

/// The questions still running, with their first lines.
pub open spec fn questions_running(asks: Seq<Ask>) -> Seq<(usize, Seq<char>)>
    decreases asks.len(),
{
    if asks.len() == 0 {
        seq![]
    } else if asks.last().task.status.active() {
        questions_running(asks.drop_last()).push(
            (asks.last().id, heading(asks.last().task.text@)),
        )
    } else {
        questions_running(asks.drop_last())
    }
}

/// What is running in a project, if anything is.
pub open spec fn activity_of(session: ProjectSession) -> Option<ActivityView> {
    let task = task_running(session);
    let questions = questions_running(session.asks@);
    if (task is None && questions.len() == 0) || session.project_dir is None {
        None
    } else {
        Some(ActivityView { project_dir: session.project_dir->0@, task, questions })
    }
}

pub(crate) fn running_task(session: &ProjectSession) -> (r: Option<String>)
    ensures
        text_of(r) == task_running(*session),
{
    let n = session.tasks.len();
    if session.working && n > 0 && session.tasks[n - 1].status.is_active() {
        Some(first_line(&session.tasks[n - 1].text))
    } else {
        None
    }
}

pub(crate) fn running_questions(asks: &Vec<Ask>) -> (r: Vec<(usize, String)>)
    ensures
        question_views(r@) == questions_running(asks@),
{
    let mut r: Vec<(usize, String)> = Vec::new();
    let mut i: usize = 0;
    proof {
        assert(question_views(r@) =~= questions_running(asks@.take(0)));
    }
    while i < asks.len()
        invariant
            i <= asks@.len(),
            question_views(r@) == questions_running(asks@.take(i as int)),
        decreases asks@.len() - i,
    {
        let ghost before = question_views(r@);
        proof {
            assert(asks@.take(i + 1).drop_last() =~= asks@.take(i as int));
            assert(asks@.take(i + 1).last() == asks@[i as int]);
        }
        if asks[i].task.status.is_active() {
            let question = (asks[i].id, first_line(&asks[i].task.text));
            r.push(question);
            proof {
                assert(question_views(r@) =~= before.push((question.0, question.1@)));
            }
        }
        i += 1;
    }
    proof {
        assert(asks@.take(asks@.len() as int) =~= asks@);
    }
    r
}

fn activity(session: &ProjectSession) -> (r: Option<ProjectActivity>)
    ensures
        match r {
            Some(activity) => activity_of(*session) == Some(activity@),
            None => activity_of(*session) is None,
        },
{
    let task = running_task(session);
    let questions = running_questions(&session.asks);
    proof {
        assert(question_views(questions@).len() == questions@.len());
    }
    if task.is_none() && questions.len() == 0 {
        return None;
    }
    match &session.project_dir {
        Some(dir) => Some(ProjectActivity { project_dir: dir.clone(), task, questions }),
        None => None,
    }
}

/// An activity put among others in the order of their projects' folders.
pub open spec fn insert_activity(all: Seq<ActivityView>, activity: ActivityView) -> Seq<
    ActivityView,
>
    decreases all.len(),
{
    if all.len() > 0 && crate::paths::path_before(activity.project_dir, all.last().project_dir) {
        insert_activity(all.drop_last(), activity).push(all.last())
    } else {
        all.push(activity)
    }
}

/// What is running in some projects, in the order of their folders.
pub open spec fn activities(sessions: Seq<ProjectSession>) -> Seq<ActivityView>
    decreases sessions.len(),
{
    if sessions.len() == 0 {
        seq![]
    } else {
        match activity_of(sessions.last()) {
            Some(activity) => insert_activity(activities(sessions.drop_last()), activity),
            None => activities(sessions.drop_last()),
        }
    }
}

pub open spec fn all_busy(mode: PromptMode) -> Seq<ActivityView> {
    (match activity_of(mode.screen) {
        Some(activity) => seq![activity],
        None => seq![],
    }) + activities(mode.background@)
}

fn insert(all: &mut Vec<ProjectActivity>, activity: ProjectActivity)
    ensures
        activity_views(final(all)@) == insert_activity(activity_views(old(all)@), activity@),
{
    let ghost had = activity_views(all@);
    let mut at: usize = all.len();
    proof {
        assert(had.take(at as int) =~= had);
        assert(insert_activity(had.take(at as int), activity@) + had.skip(at as int)
            =~= insert_activity(had, activity@));
    }
    while at > 0 && crate::paths::is_path_before(
        &activity.project_dir,
        &all[at - 1].project_dir,
    )
        invariant
            at <= all@.len(),
            all@ == old(all)@,
            had == activity_views(all@),
            insert_activity(had.take(at as int), activity@) + had.skip(at as int)
                == insert_activity(had, activity@),
        decreases at,
    {
        proof {
            let part = had.take(at as int);
            assert(part.last() == all@[at - 1]@);
            assert(part.drop_last() =~= had.take(at - 1));
            assert(insert_activity(part.drop_last(), activity@).push(part.last()) + had.skip(
                at as int,
            ) =~= insert_activity(part.drop_last(), activity@) + had.skip(at - 1));
        }
        at -= 1;
    }
    proof {
        let part = had.take(at as int);
        if at > 0 {
            assert(part.last() == all@[at - 1]@);
        }
    }
    all.insert(at, activity);
    proof {
        assert(activity_views(all@) =~= had.take(at as int).push(activity@) + had.skip(at as int));
    }
}

impl PromptMode {
    /// What is running in each open project, the one on screen first, then
    /// the others; a project with nothing running is left out.
    pub fn busy_projects(&self) -> (r: Vec<ProjectActivity>)
        ensures
            activity_views(r@) == all_busy(*self),
    {
        let mut others: Vec<ProjectActivity> = Vec::new();
        let mut i: usize = 0;
        proof {
            assert(activity_views(others@) =~= activities(self.background@.take(0)));
        }
        while i < self.background.len()
            invariant
                i <= self.background@.len(),
                activity_views(others@) == activities(self.background@.take(i as int)),
            decreases self.background@.len() - i,
        {
            if let Some(activity) = activity(&self.background[i]) {
                insert(&mut others, activity);
            }
            i += 1;
            proof {
                assert(self.background@.take(i as int).drop_last() =~= self.background@.take(
                    i - 1,
                ));
                assert(self.background@.take(i as int).last() == self.background@[i - 1]);
            }
        }
        proof {
            assert(self.background@.take(self.background@.len() as int) =~= self.background@);
        }
        let ghost rest = activity_views(others@);
        if let Some(first) = activity(&self.screen) {
            others.insert(0, first);
            proof {
                assert(activity_views(others@) =~= seq![first@] + rest);
            }
        } else {
            proof {
                assert(activity_views(others@) =~= all_busy(*self));
            }
        }
        others
    }

    /// Whether the harness is working on a task or a question in any open
    /// project.
    pub fn is_working(&self) -> (b: bool)
        ensures
            b == (self.screen.working || questions_running(self.screen.asks@).len() > 0
                || all_busy(*self).len() > 0),
    {
        let questions = running_questions(&self.screen.asks);
        let busy = self.busy_projects();
        proof {
            assert(question_views(questions@).len() == questions@.len());
            assert(activity_views(busy@).len() == busy@.len());
        }
        self.screen.working || questions.len() > 0 || busy.len() > 0
    }
}

} // verus!
