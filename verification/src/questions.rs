//! Prompt mode's questions: each runs at once, beside any task and any other
//! question, as a row above the chat input until it is over, and is then opened
//! onto its whole table in the answer drawer. Closed, it is among the previous
//! answers.
use vstd::prelude::*;
use crate::harness::HarnessEvent;
use crate::history_list::{is_among, question_ix, question_place, HistoryList, ASK_HISTORY_IX, ASK_IX};
use crate::paths::text_of;
use crate::prompt_mode::{heading, tasks_wf, Ask, DrawerContents, ProjectSession, PromptMode};
use crate::runs::{next_after, session_after};
use crate::task::{kept, resumed, session_view, Compiled, CompiledView, PromptTask, Session,
    TaskStatus, TaskView};
use crate::task_table::first_line;
use crate::text::same;

verus! {

/// A question's run as it goes on.
pub struct AskRun {
    pub project_dir: String,
    pub id: usize,
    /// It carries the conversation on as a copy, another question carrying it
    /// on already, so they don't write over each other.
    pub fork: bool,
    /// The conversation it carries on.
    pub resume: Option<String>,
    /// The harness reported the conversation it is holding.
    pub started: bool,
}

/// Where a question is, or how many there are.
pub open spec fn ask_at(asks: Seq<Ask>, id: usize, i: int) -> int
    decreases asks.len() - i,
{
    if 0 <= i < asks.len() && asks[i].id != id {
        ask_at(asks, id, i + 1)
    } else {
        i
    }
}

fn find_ask(asks: &Vec<Ask>, id: usize) -> (i: usize)
    ensures
        i == ask_at(asks@, id, 0),
        i <= asks@.len(),
        i < asks@.len() ==> asks@[i as int].id == id,
{
    let mut i: usize = 0;
    while i < asks.len() && asks[i].id != id
        invariant
            i <= asks@.len(),
            ask_at(asks@, id, i as int) == ask_at(asks@, id, 0),
        decreases asks@.len() - i,
    {
        i += 1;
    }
    i
}

/// Whether a question other than one is under way.
pub open spec fn another_active(asks: Seq<Ask>, id: usize) -> bool {
    exists|k: int|
        0 <= k < asks.len() && (#[trigger] asks[k]).id != id && asks[k].task.status.active()
}

fn is_another_active(asks: &Vec<Ask>, id: usize) -> (b: bool)
    ensures
        b == another_active(asks@, id),
{
    let mut i: usize = 0;
    while i < asks.len()
        invariant
            i <= asks@.len(),
            forall|k: int|
                0 <= k < i ==> !((#[trigger] asks@[k]).id != id && asks@[k].task.status.active()),
        decreases asks@.len() - i,
    {
        if asks[i].id != id && asks[i].task.status.is_active() {
            return true;
        }
        i += 1;
    }
    false
}

// ---------------------------------------------------------------------------
// Asking
// ---------------------------------------------------------------------------

impl PromptMode {
    /// Adds a question for `text`, compiling, below any others. Returns its
    /// id.
    pub fn push_ask(&mut self, text: String) -> (id: usize)
        requires
            old(self).wf(),
            old(self).next_ask_id < usize::MAX,
        ensures
            final(self).wf(),
            id == old(self).next_ask_id + 1,
            final(self).screen.asks@.len() == old(self).screen.asks@.len() + 1,
            final(self).screen.asks@.drop_last() == old(self).screen.asks@,
            final(self).screen.asks@.last().id == id,
            !final(self).screen.asks@.last().locked,
            final(self).screen.asks@.last().task@ == TaskView::new(text@, old(self).next_reply),
            *final(self) == (PromptMode {
                screen: ProjectSession { asks: final(self).screen.asks, ..old(self).screen },
                next_ask_id: id,
                next_reply: next_after(old(self).next_reply),
                ..*old(self)
            }),
    {
        self.next_ask_id = self.next_ask_id + 1;
        let id = self.next_ask_id;
        let uid = self.next_reply;
        self.next_reply = if uid == u64::MAX {
            0
        } else {
            uid + 1
        };
        self.screen.asks.push(Ask { id, task: PromptTask::new(text, uid), locked: false });
        proof {
            assert(self.screen.asks@.drop_last() =~= old(self).screen.asks@);
            assert forall|k: int| 0 <= k < self.background@.len() implies (
            #[trigger] self.background@[k]).wf(self.next_queue_id, self.next_ask_id) by {
                assert(old(self).background@[k].wf(
                    old(self).next_queue_id,
                    old(self).next_ask_id,
                ));
            }
        }
        id
    }

    /// Asks `text` straight away, beside any task the harness is working on
    /// and any other question. Returns its run, where there is a project. One
    /// that starts while another carries on the conversation carries it on as
    /// a copy.
    pub fn ask(&mut self, text: String) -> (r: Option<AskRun>)
        requires
            old(self).wf(),
            old(self).next_ask_id < usize::MAX,
        ensures
            final(self).wf(),
            old(self).screen.project_dir is None ==> r is None && *final(self) == *old(self),
            old(self).screen.project_dir is Some ==> ({
                let dir = old(self).screen.project_dir->0@;
                let id = (old(self).next_ask_id + 1) as usize;
                &&& r is Some
                &&& r->0.project_dir@ == dir && r->0.id == id && !r->0.started
                &&& r->0.fork == another_active(old(self).screen.asks@, id)
                &&& text_of(r->0.resume) == resumed(
                    session_view(old(self).screen.ask_session),
                    dir,
                )
                &&& final(self).screen.asks@.len() == old(self).screen.asks@.len() + 1
                &&& final(self).screen.asks@.drop_last() == old(self).screen.asks@
                &&& final(self).screen.asks@.last().id == id
                &&& !final(self).screen.asks@.last().locked
                &&& final(self).screen.asks@.last().task@ == TaskView::new(
                    text@,
                    old(self).next_reply,
                )
                &&& *final(self) == (PromptMode {
                    screen: ProjectSession { asks: final(self).screen.asks, ..old(self).screen },
                    next_ask_id: id,
                    next_reply: next_after(old(self).next_reply),
                    ..*old(self)
                })
            }),
    {
        let project_dir = match &self.screen.project_dir {
            Some(dir) => dir.clone(),
            None => {
                return None;
            },
        };
        let fork = is_another_active(&self.screen.asks, self.next_ask_id + 1);
        let id = self.push_ask(text);
        let resume = Session::resume(&self.screen.ask_session, &project_dir);
        Some(AskRun { project_dir, id, fork, resume, started: false })
    }

    /// Whether this is `before` with one of its questions, if it is still open,
    /// become another.
    pub open spec fn with_ask(self, before: PromptMode, id: usize, task: TaskView) -> bool {
        let at = ask_at(before.screen.asks@, id, 0);
        if at < before.screen.asks@.len() {
            &&& self.screen.asks@.len() == before.screen.asks@.len()
            &&& forall|k: int|
                0 <= k < self.screen.asks@.len() && k != at ==> #[trigger] self.screen.asks@[k]
                    == before.screen.asks@[k]
            &&& self.screen.asks@[at] == (Ask {
                task: self.screen.asks@[at].task,
                ..before.screen.asks@[at]
            })
            &&& self.screen.asks@[at].task@ == task
            &&& self == (PromptMode {
                screen: ProjectSession { asks: self.screen.asks, ..before.screen },
                ..before
            })
        } else {
            self == before
        }
    }

    /// Whether the question `id` is open and its output stays scrolled to the
    /// bottom.
    pub open spec fn ask_locked(self, id: usize) -> bool {
        let at = ask_at(self.screen.asks@, id, 0);
        at < self.screen.asks@.len() && self.screen.asks@[at].locked
    }

    /// The question `id` compiled. Returns whether its output is to be scrolled
    /// to the bottom.
    pub fn ask_compiled(&mut self, id: usize, anchor: String, markdown: String) -> (scroll: bool)
        requires
            old(self).wf(),
        ensures
            final(self).wf(),
            final(self).with_ask(
                *old(self),
                id,
                old(self).screen.asks@[ask_at(
                    old(self).screen.asks@,
                    id,
                    0,
                )].task@.with_compiled(CompiledView { anchor: anchor@, markdown: markdown@ }),
            ),
            scroll == old(self).ask_locked(id),
    {
        let at = find_ask(&self.screen.asks, id);
        if at >= self.screen.asks.len() {
            return false;
        }
        let mut ask = self.screen.asks.remove(at);
        ask.task.set_compiled(Compiled { anchor, markdown });
        let locked = ask.locked;
        self.put_ask(at, ask, Ghost(*old(self)));
        locked
    }

    /// Puts a question taken out of its place back in it.
    fn put_ask(&mut self, at: usize, ask: Ask, before: Ghost<PromptMode>)
        requires
            before@.wf(),
            at < before@.screen.asks@.len(),
            ask.id == before@.screen.asks@[at as int].id,
            ask.task.wf(),
            old(self).screen.asks@ == before@.screen.asks@.remove(at as int),
            *old(self) == (PromptMode {
                screen: ProjectSession { asks: old(self).screen.asks, ..before@.screen },
                ..before@
            }),
        ensures
            final(self).wf(),
            final(self).screen.asks@ == before@.screen.asks@.update(at as int, ask),
            *final(self) == (PromptMode {
                screen: ProjectSession { asks: final(self).screen.asks, ..before@.screen },
                ..before@
            }),
    {
        self.screen.asks.insert(at, ask);
        proof {
            assert(self.screen.asks@ =~= before@.screen.asks@.update(at as int, ask));
        }
    }

    /// The question `id` could not be sent.
    pub fn ask_failed(&mut self, id: usize, error: String) -> (scroll: bool)
        requires
            old(self).wf(),
        ensures
            final(self).wf(),
            final(self).with_ask(
                *old(self),
                id,
                old(self).screen.asks@[ask_at(old(self).screen.asks@, id, 0)].task@.failed(error@),
            ),
            scroll == old(self).ask_locked(id),
    {
        let at = find_ask(&self.screen.asks, id);
        if at >= self.screen.asks.len() {
            return false;
        }
        let mut ask = self.screen.asks.remove(at);
        ask.task.fail(error);
        let locked = ask.locked;
        self.put_ask(at, ask, Ghost(*old(self)));
        locked
    }

    fn apply_ask(&mut self, id: usize, event: &HarnessEvent) -> (scroll: bool)
        requires
            old(self).wf(),
        ensures
            final(self).wf(),
            final(self).with_ask(
                *old(self),
                id,
                old(self).screen.asks@[ask_at(old(self).screen.asks@, id, 0)].task@.applied(*event),
            ),
            scroll == old(self).ask_locked(id),
    {
        let at = find_ask(&self.screen.asks, id);
        if at >= self.screen.asks.len() {
            return false;
        }
        let mut ask = self.screen.asks.remove(at);
        ask.task.apply(event);
        let locked = ask.locked;
        self.put_ask(at, ask, Ghost(*old(self)));
        locked
    }

    /// The harness reported something of a question's run: the conversation it
    /// holds is followed, and its output fills in. Returns whether that is to
    /// be scrolled to the bottom.
    pub fn ask_event(&mut self, run: &AskRun, event: &HarnessEvent) -> (scroll: bool)
        requires
            old(self).wf(),
        ensures
            final(self).wf(),
            scroll == old(self).ask_locked(run.id),
            session_view(final(self).screen.ask_session) == session_after(
                session_view(old(self).screen.ask_session),
                run.project_dir@,
                *event,
            ),
            final(self).with_ask(
                (PromptMode {
                    screen: ProjectSession {
                        ask_session: final(self).screen.ask_session,
                        ..old(self).screen
                    },
                    ..*old(self)
                }),
                run.id,
                old(self).screen.asks@[ask_at(
                    old(self).screen.asks@,
                    run.id,
                    0,
                )].task@.applied(*event),
            ),
    {
        if let HarnessEvent::Session(id) = event {
            self.screen.ask_session = Some(
                Session { project_dir: run.project_dir.clone(), id: id.clone() },
            );
        }
        self.apply_ask(run.id, event)
    }

    /// The harness is done with a question's run. A conversation it could not
    /// carry on, unless as a copy, is forgotten.
    pub fn ask_done(&mut self, run: &AskRun)
        requires
            old(self).wf(),
        ensures
            final(self).wf(),
            *final(self) == (PromptMode {
                screen: ProjectSession {
                    ask_session: final(self).screen.ask_session,
                    ..old(self).screen
                },
                ..*old(self)
            }),
            session_view(final(self).screen.ask_session) == (if run.resume is Some && !run.started
                && !run.fork {
                kept(session_view(old(self).screen.ask_session), run.resume->0@)
            } else {
                session_view(old(self).screen.ask_session)
            }),
    {
        if let Some(resume) = &run.resume {
            if !run.started && !run.fork {
                Session::forget(&mut self.screen.ask_session, resume);
            }
        }
    }

    /// A question's run is over: it opens onto its whole task table, in place
    /// of any other.
    pub fn ask_over(&mut self, id: usize)
        requires
            old(self).wf(),
        ensures
            final(self).wf(),
            final(self).with_ask(
                (PromptMode {
                    screen: ProjectSession {
                        expanded_ask: if ask_at(old(self).screen.asks@, id, 0) < old(
                            self,
                        ).screen.asks@.len() {
                            Some(id)
                        } else {
                            old(self).screen.expanded_ask
                        },
                        ..old(self).screen
                    },
                    ..*old(self)
                }),
                id,
                old(self).screen.asks@[ask_at(old(self).screen.asks@, id, 0)].task@.ended(),
            ),
    {
        let at = find_ask(&self.screen.asks, id);
        if at >= self.screen.asks.len() {
            return ;
        }
        let mut ask = self.screen.asks.remove(at);
        ask.task.end();
        self.put_ask(at, ask, Ghost(*old(self)));
        self.screen.expanded_ask = Some(id);
    }
}

impl AskRun {
    /// Notes that the harness holds a conversation, once an event says so.
    pub fn note(&mut self, event: &HarnessEvent)
        ensures
            *final(self) == (AskRun {
                started: old(self).started || event is Session,
                ..*old(self)
            }),
    {
        if let HarnessEvent::Session(_) = event {
            self.started = true;
        }
    }
}

/// What comes of preparing a question: every question is saved, even one whose
/// anchor could not be resolved; why it could not be sent is that it could not
/// be saved, or its anchor not resolved, or that it did not compile, in that
/// order.
pub fn asked_error(
    unsaved: Option<String>,
    unresolved: Option<String>,
    uncompiled: Option<String>,
) -> (r: Option<String>)
    ensures
        r == (if unsaved is Some {
            unsaved
        } else if unresolved is Some {
            unresolved
        } else {
            uncompiled
        }),
{
    if unsaved.is_some() {
        unsaved
    } else if unresolved.is_some() {
        unresolved
    } else {
        uncompiled
    }
}

// ---------------------------------------------------------------------------
// Opening and closing
// ---------------------------------------------------------------------------

impl PromptMode {
    /// Opens the question `id` onto its whole task table, closing any other
    /// down to its row. Returns whether it is still open.
    pub fn expand_ask(&mut self, id: usize) -> (opened: bool)
        ensures
            opened == (ask_at(old(self).screen.asks@, id, 0) < old(self).screen.asks@.len()),
            *final(self) == (PromptMode {
                screen: ProjectSession {
                    expanded_ask: if opened {
                        Some(id)
                    } else {
                        old(self).screen.expanded_ask
                    },
                    ..old(self).screen
                },
                ..*old(self)
            }),
    {
        let at = find_ask(&self.screen.asks, id);
        if at < self.screen.asks.len() {
            self.screen.expanded_ask = Some(id);
            true
        } else {
            false
        }
    }

    /// Closes the question `id` down to its row.
    pub fn collapse_ask(&mut self, id: usize)
        ensures
            *final(self) == (PromptMode {
                screen: ProjectSession {
                    expanded_ask: if old(self).screen.expanded_ask == Some(id) {
                        None
                    } else {
                        old(self).screen.expanded_ask
                    },
                    ..old(self).screen
                },
                ..*old(self)
            }),
    {
        let open = match self.screen.expanded_ask {
            Some(open) => open == id,
            None => false,
        };
        if open {
            self.screen.expanded_ask = None;
        }
    }

    /// The question opened onto its whole task table, if it is still open and
    /// over.
    pub open spec fn expanded_question(self) -> Option<usize> {
        match self.screen.expanded_ask {
            Some(id) => {
                let at = ask_at(self.screen.asks@, id, 0);
                if at < self.screen.asks@.len() && self.screen.asks@[at].task.reply@.done {
                    Some(id)
                } else {
                    None
                }
            },
            None => None,
        }
    }

    /// The question opened onto its whole task table, if it is still open.
    pub fn expanded(&self) -> (r: Option<usize>)
        ensures
            r == self.expanded_question(),
    {
        match self.screen.expanded_ask {
            Some(id) => {
                let at = find_ask(&self.screen.asks, id);
                if at < self.screen.asks.len() && self.screen.asks[at].task.reply.done {
                    Some(id)
                } else {
                    None
                }
            },
            None => None,
        }
    }

    /// Closes the question `id`, stopping its run if it is still under way. It
    /// is among the previous answers from now on.
    pub fn close_ask(&mut self, id: usize)
        requires
            old(self).wf(),
        ensures
            final(self).wf(),
            ({
                let asks = old(self).screen.asks@;
                let at = ask_at(asks, id, 0);
                let expanded = if old(self).screen.expanded_ask == Some(id) {
                    None
                } else {
                    old(self).screen.expanded_ask
                };
                if at < asks.len() {
                    &&& final(self).screen.asks@ == asks.remove(at)
                    &&& final(self).screen.answers@.len() == old(self).screen.answers@.len() + 1
                    &&& final(self).screen.answers@.drop_last() == old(self).screen.answers@
                    &&& final(self).screen.answers@.last()@ == asks[at].task@.ended()
                    &&& *final(self) == (PromptMode {
                        screen: ProjectSession {
                            asks: final(self).screen.asks,
                            answers: final(self).screen.answers,
                            expanded_ask: expanded,
                            ..old(self).screen
                        },
                        ..*old(self)
                    })
                } else {
                    *final(self) == (PromptMode {
                        screen: ProjectSession { expanded_ask: expanded, ..old(self).screen },
                        ..*old(self)
                    })
                }
            }),
    {
        let at = find_ask(&self.screen.asks, id);
        if at < self.screen.asks.len() {
            let ask = self.screen.asks.remove(at);
            let mut task = ask.task;
            task.end();
            self.screen.answers.push(task);
            proof {
                assert(self.screen.answers@.drop_last() =~= old(self).screen.answers@);
            }
        }
        let open = match self.screen.expanded_ask {
            Some(open) => open == id,
            None => false,
        };
        if open {
            self.screen.expanded_ask = None;
        }
    }

    /// Locks a question's output to the bottom, or unlocks it. Returns whether
    /// it is to be scrolled there.
    pub fn set_ask_lock(&mut self, id: usize, locked: bool) -> (scroll: bool)
        requires
            old(self).wf(),
        ensures
            final(self).wf(),
            ({
                let asks = old(self).screen.asks@;
                let at = ask_at(asks, id, 0);
                if at < asks.len() {
                    &&& scroll == (locked && !asks[at].locked)
                    &&& final(self).screen.asks@ == asks.update(
                        at,
                        (Ask { locked, ..asks[at] }),
                    )
                    &&& *final(self) == (PromptMode {
                        screen: ProjectSession {
                            asks: final(self).screen.asks,
                            ..old(self).screen
                        },
                        ..*old(self)
                    })
                } else {
                    !scroll && *final(self) == *old(self)
                }
            }),
    {
        let at = find_ask(&self.screen.asks, id);
        if at >= self.screen.asks.len() {
            return false;
        }
        let mut ask = self.screen.asks.remove(at);
        let scroll = locked && !ask.locked;
        ask.locked = locked;
        self.put_ask(at, ask, Ghost(*old(self)));
        scroll
    }

    /// The questions saved in the project were read, and the conversation the
    /// last of them left off. Those still open are not previous answers yet;
    /// questions asked now carry on the conversation, unless one has been asked
    /// since.
    pub fn answers_loaded(&mut self, answers: Vec<PromptTask>, session: Option<Session>)
        requires
            old(self).wf(),
            tasks_wf(answers@),
        ensures
            final(self).wf(),
            final(self).screen.answers@ == not_open(answers@, old(self).screen.asks@),
            *final(self) == (PromptMode {
                screen: ProjectSession {
                    answers: final(self).screen.answers,
                    ask_session: if old(self).screen.ask_session is None {
                        session
                    } else {
                        old(self).screen.ask_session
                    },
                    ask_history: HistoryList { open: None, ..old(self).screen.ask_history },
                    ..old(self).screen
                },
                ..*old(self)
            }),
    {
        let ghost all = answers@;
        let mut answers = answers;
        let mut previous: Vec<PromptTask> = Vec::new();
        let ghost mut n: int = 0;
        proof {
            assert(answers@ =~= all.skip(0));
            assert(previous@ =~= not_open(all.take(0), self.screen.asks@));
        }
        while answers.len() > 0
            invariant
                0 <= n <= all.len(),
                *self == *old(self),
                tasks_wf(all),
                tasks_wf(previous@),
                answers@ == all.skip(n),
                previous@ == not_open(all.take(n), self.screen.asks@),
            decreases answers@.len(),
        {
            let answer = answers.remove(0);
            proof {
                assert(answer == all[n]);
                assert(answers@ =~= all.skip(n + 1));
                assert(all.take(n + 1).drop_last() =~= all.take(n));
                assert(all.take(n + 1).last() == answer);
                n = n + 1;
            }
            if !self.is_open(&answer) {
                previous.push(answer);
            }
        }
        proof {
            assert(all.take(n) =~= all);
        }
        self.screen.answers = previous;
        if self.screen.ask_session.is_none() {
            self.screen.ask_session = session;
        }
        self.screen.ask_history.open = None;
    }

    /// Whether a question is still open, by the anchor it was compiled from.
    fn is_open(&self, answer: &PromptTask) -> (b: bool)
        ensures
            b == still_open(*answer, self.screen.asks@),
    {
        let anchor = match &answer.compiled {
            Some(compiled) => &compiled.anchor,
            None => {
                return false;
            },
        };
        let mut i: usize = 0;
        while i < self.screen.asks.len()
            invariant
                i <= self.screen.asks@.len(),
                answer.compiled is Some,
                anchor@ == answer.compiled->0.anchor@,
                forall|k: int|
                    0 <= k < i ==> !compiled_from(#[trigger] self.screen.asks@[k], anchor@),
            decreases self.screen.asks@.len() - i,
        {
            if let Some(compiled) = &self.screen.asks[i].task.compiled {
                if same(&compiled.anchor, anchor) {
                    proof {
                        assert(compiled_from(self.screen.asks@[i as int], anchor@));
                    }
                    return true;
                }
            }
            i += 1;
        }
        false
    }
}

/// Whether a question was compiled from an anchor.
pub open spec fn compiled_from(ask: Ask, anchor: Seq<char>) -> bool {
    ask.task.compiled is Some && ask.task.compiled->0.anchor@ == anchor
}

/// Whether a saved question is one of those open, by the anchor it was compiled
/// from.
pub open spec fn still_open(answer: PromptTask, asks: Seq<Ask>) -> bool {
    answer.compiled is Some && exists|k: int|
        0 <= k < asks.len() && compiled_from(#[trigger] asks[k], answer.compiled->0.anchor@)
}

/// The answers that aren't to questions still open.
pub open spec fn not_open(answers: Seq<PromptTask>, asks: Seq<Ask>) -> Seq<PromptTask>
    decreases answers.len(),
{
    if answers.len() == 0 {
        seq![]
    } else if still_open(answers.last(), asks) {
        not_open(answers.drop_last(), asks)
    } else {
        not_open(answers.drop_last(), asks).push(answers.last())
    }
}

// ---------------------------------------------------------------------------
// The drawer
// ---------------------------------------------------------------------------

impl PromptMode {
    /// Whether the previous answers are expanded on the Ask tab.
    pub open spec fn answers_shown(self) -> bool {
        self.on_ask_tab && self.screen.ask_history.expanded
    }

    pub open spec fn in_drawer(self) -> DrawerContents {
        DrawerContents {
            question: self.expanded_question(),
            answers: if self.answers_shown() {
                Some(self.screen.ask_history.opened)
            } else {
                None
            },
        }
    }

    /// Whether the answer drawer is open: a question onto its table, or the
    /// previous answers expanded.
    pub open spec fn drawer_is_open(self) -> bool {
        self.in_drawer().question is Some || self.in_drawer().answers is Some
    }

    /// The previous answers are expanded on the Ask tab.
    pub fn ask_history_shown(&self) -> (b: bool)
        ensures
            b == self.answers_shown(),
    {
        self.on_ask_tab && self.screen.ask_history.expanded
    }

    /// What is open in the drawer.
    pub fn drawer_contents(&self) -> (r: DrawerContents)
        ensures
            r == self.in_drawer(),
    {
        DrawerContents {
            question: self.expanded(),
            answers: if self.ask_history_shown() {
                Some(self.screen.ask_history.opened)
            } else {
                None
            },
        }
    }

    /// Whether the answer drawer is open: a question onto its table, or the
    /// previous answers expanded.
    pub fn drawer_open(&self) -> (b: bool)
        ensures
            b == self.drawer_is_open(),
    {
        let contents = self.drawer_contents();
        contents.question.is_some() || contents.answers.is_some()
    }

    /// How many things share the drawer's height.
    pub fn drawer_count(&self) -> (n: usize)
        ensures
            n == (if self.in_drawer().question is Some {
                1int
            } else {
                0
            }) + (if self.in_drawer().answers is Some {
                1int
            } else {
                0
            }),
    {
        let contents = self.drawer_contents();
        let question: usize = if contents.question.is_some() {
            1
        } else {
            0
        };
        let answers: usize = if contents.answers.is_some() {
            1
        } else {
            0
        };
        question + answers
    }

    /// Whether the drawer follows a drag rather than sliding: it was dragged
    /// while what is open now was open.
    pub fn drawer_follows_drag(&self) -> (b: bool)
        ensures
            b == (self.drawer_dragged == Some(self.in_drawer())),
    {
        match self.drawer_dragged {
            Some(dragged) => dragged == self.drawer_contents(),
            None => false,
        }
    }

    /// The open drawer was dragged. Returns whether it was open to be dragged.
    pub fn drag_drawer(&mut self) -> (dragged: bool)
        ensures
            dragged == old(self).drawer_is_open(),
            *final(self) == (PromptMode {
                drawer_dragged: if dragged {
                    Some(old(self).in_drawer())
                } else {
                    old(self).drawer_dragged
                },
                ..*old(self)
            }),
    {
        if !self.drawer_open() {
            return false;
        }
        self.drawer_dragged = Some(self.drawer_contents());
        true
    }

    /// What closing the drawer comes to.
    pub open spec fn drawer_closed(self) -> PromptMode {
        PromptMode {
            screen: ProjectSession {
                expanded_ask: None,
                ask_history: if self.screen.ask_history.expanded {
                    self.screen.ask_history.toggled()
                } else {
                    self.screen.ask_history
                },
                ..self.screen
            },
            ..self
        }
    }

    pub fn close_answer_drawer(&mut self)
        ensures
            *final(self) == old(self).drawer_closed(),
            !final(self).drawer_is_open(),
    {
        self.screen.expanded_ask = None;
        if self.screen.ask_history.expanded {
            self.screen.ask_history.toggle();
        }
    }

    /// Brings the latest task's output into view: out from behind the
    /// previous tasks and the answer drawer.
    pub fn reveal_task(&mut self)
        ensures
            *final(self) == (PromptMode {
                screen: ProjectSession {
                    task_history: HistoryList {
                        expanded: false,
                        ..old(self).screen.task_history
                    },
                    ..old(self).drawer_closed().screen
                },
                ..*old(self)
            }),
            !final(self).drawer_is_open(),
    {
        self.screen.task_history.expanded = false;
        self.close_answer_drawer();
    }

    /// Brings a question's row into view, closing the answer drawer over it.
    pub fn reveal_question(&mut self)
        ensures
            *final(self) == old(self).drawer_closed(),
            !final(self).drawer_is_open(),
    {
        self.close_answer_drawer();
    }
}

// ---------------------------------------------------------------------------
// What is shown of the questions
// ---------------------------------------------------------------------------

/// A question as it is shown, as a row or open in the drawer.
pub struct AskCard {
    pub id: usize,
    /// Its task's index in element ids, which numbers its table.
    pub task_ix: usize,
    /// It is over: clicking its row opens it onto its table.
    pub done: bool,
    /// What closing it says it does.
    pub close: &'static str,
    pub heading: String,
    pub status: TaskStatus,
    /// It draws the line between it and the card above it.
    pub line_above: bool,
}

/// The questions stacked above the chat input.
pub struct AskStack {
    /// The previous answers' row heads the stack.
    pub history_row: bool,
    pub cards: Vec<AskCard>,
}

impl AskCard {
    pub open spec fn shows(self, ask: Ask, line_above: bool) -> bool {
        &&& self.id == ask.id && self.task_ix == question_place(ask.id)
        &&& self.done == ask.task.reply@.done
        &&& self.close@ == (if ask.task.reply@.done {
            "Close"@
        } else {
            "Stop and close"@
        })
        &&& self.heading@ == heading(ask.task.text@)
        &&& self.status == ask.task.status
        &&& self.line_above == line_above
    }

    pub fn of(ask: &Ask, line_above: bool) -> (r: AskCard)
        ensures
            r.shows(*ask, line_above),
    {
        let done = ask.task.reply.is_done();
        AskCard {
            id: ask.id,
            task_ix: question_ix(ask.id),
            done,
            close: if done {
                "Close"
            } else {
                "Stop and close"
            },
            heading: first_line(&ask.task.text),
            status: ask.task.status,
            line_above,
        }
    }
}

/// The questions that stay in the stack: those not open in the drawer.
pub open spec fn stacked(asks: Seq<Ask>, expanded: Option<usize>) -> Seq<Ask>
    decreases asks.len(),
{
    if asks.len() == 0 {
        seq![]
    } else if expanded == Some(asks.last().id) {
        stacked(asks.drop_last(), expanded)
    } else {
        stacked(asks.drop_last(), expanded).push(asks.last())
    }
}

/// Whether cards show questions, each but the first with the line above it.
pub open spec fn show_each(cards: Seq<AskCard>, asks: Seq<Ask>) -> bool {
    &&& cards.len() == asks.len()
    &&& forall|k: int| 0 <= k < asks.len() ==> (#[trigger] cards[k]).shows(asks[k], k > 0)
}

impl PromptMode {
    /// The questions, stacked above the chat input's tabs, the newest nearest
    /// them. On the Ask tab, the previous answers' row heads the stack. What is
    /// open in the answer drawer leaves the stack. None when the stack is
    /// empty.
    pub fn ask_stack(&self) -> (r: Option<AskStack>)
        ensures
            ({
                let row = self.on_ask_tab && !self.answers_shown();
                let rest = stacked(self.screen.asks@, self.expanded_question());
                match r {
                    Some(stack) => (row || rest.len() > 0) && stack.history_row == row
                        && show_each(stack.cards@, rest),
                    None => !row && rest.len() == 0,
                }
            }),
    {
        let expanded = self.expanded();
        let history_row = self.on_ask_tab && !self.ask_history_shown();
        let mut cards: Vec<AskCard> = Vec::new();
        let mut i: usize = 0;
        let ghost asks = self.screen.asks@;
        while i < self.screen.asks.len()
            invariant
                i <= self.screen.asks@.len(),
                asks == self.screen.asks@,
                expanded == self.expanded_question(),
                show_each(cards@, stacked(asks.take(i as int), expanded)),
            decreases self.screen.asks@.len() - i,
        {
            let ghost before = stacked(asks.take(i as int), expanded);
            proof {
                assert(asks.take(i + 1).drop_last() =~= asks.take(i as int));
                assert(asks.take(i + 1).last() == asks[i as int]);
            }
            let in_drawer = match expanded {
                Some(id) => id == self.screen.asks[i].id,
                None => false,
            };
            if !in_drawer {
                let line_above = cards.len() > 0;
                cards.push(AskCard::of(&self.screen.asks[i], line_above));
            }
            i += 1;
        }
        proof {
            assert(asks.take(asks.len() as int) =~= asks);
        }
        if !history_row && cards.len() == 0 {
            return None;
        }
        Some(AskStack { history_row, cards })
    }

    /// The steps of the table for `task_ix` are shown.
    pub fn are_steps_shown(&self, task_ix: usize) -> (b: bool)
        ensures
            b == self.screen.steps_shown@.contains(task_ix),
    {
        is_among(&self.screen.steps_shown, task_ix)
    }

    /// Shows or hides the steps of the table for `task_ix`.
    pub fn toggle_steps(&mut self, task_ix: usize)
        ensures
            forall|ix: usize| #[trigger]
                final(self).screen.steps_shown@.contains(ix) == (if ix == task_ix {
                    !old(self).screen.steps_shown@.contains(ix)
                } else {
                    old(self).screen.steps_shown@.contains(ix)
                }),
            *final(self) == (PromptMode {
                screen: ProjectSession {
                    steps_shown: final(self).screen.steps_shown,
                    ..old(self).screen
                },
                ..*old(self)
            }),
    {
        let ghost all = self.screen.steps_shown@;
        if !self.are_steps_shown(task_ix) {
            self.screen.steps_shown.push(task_ix);
            proof {
                let now = self.screen.steps_shown@;
                assert forall|ix: usize| #[trigger] now.contains(ix) == (if ix == task_ix {
                    !all.contains(ix)
                } else {
                    all.contains(ix)
                }) by {
                    if all.contains(ix) {
                        let k = choose|k: int| 0 <= k < all.len() && all[k] == ix;
                        assert(now[k] == ix);
                    }
                    assert(now[all.len() as int] == task_ix);
                }
            }
            return ;
        }
        let mut rest: Vec<usize> = Vec::new();
        let mut i: usize = 0;
        while i < self.screen.steps_shown.len()
            invariant
                i <= self.screen.steps_shown@.len(),
                *self == *old(self),
                all == self.screen.steps_shown@,
                forall|ix: usize| #[trigger]
                    rest@.contains(ix) == (ix != task_ix && all.take(i as int).contains(ix)),
            decreases self.screen.steps_shown@.len() - i,
        {
            let ghost before = rest@;
            let shown = self.screen.steps_shown[i];
            if shown != task_ix {
                rest.push(shown);
            }
            proof {
                let part = all.take(i as int);
                let more = all.take(i + 1);
                assert forall|ix: usize| #[trigger] rest@.contains(ix) == (ix != task_ix
                    && more.contains(ix)) by {
                    if more.contains(ix) {
                        let k = choose|k: int| 0 <= k < more.len() && more[k] == ix;
                        if k < i {
                            assert(part[k] == ix);
                        }
                    }
                    if part.contains(ix) {
                        let k = choose|k: int| 0 <= k < part.len() && part[k] == ix;
                        assert(more[k] == ix);
                    }
                    assert(more[i as int] == shown);
                    if before.contains(ix) {
                        let k = choose|k: int| 0 <= k < before.len() && before[k] == ix;
                        assert(rest@[k] == ix);
                    }
                    if shown != task_ix {
                        assert(rest@[before.len() as int] == shown);
                        if rest@.contains(ix) && ix != shown {
                            let k = choose|k: int| 0 <= k < rest@.len() && rest@[k] == ix;
                            assert(before[k] == ix);
                        }
                    }
                }
            }
            i += 1;
        }
        proof {
            assert(all.take(all.len() as int) =~= all);
        }
        self.screen.steps_shown = rest;
    }
}

/// Whether no two of some indices are the same.
pub open spec fn all_differ(indices: Seq<int>) -> bool {
    forall|i: int, j: int|
        0 <= i < j < indices.len() ==> #[trigger] indices[i] != #[trigger] indices[j]
}

/// The task indices of everything with a table of its own: the tasks, the
/// previous answers and the questions open.
pub open spec fn table_indices(session: ProjectSession) -> Seq<int> {
    let tasks = Seq::new(session.tasks@.len(), |k: int| session.task_history.item_place(k));
    let answers = Seq::new(session.answers@.len(), |k: int| session.ask_history.item_place(k));
    tasks + answers + session.asks@.map_values(|ask: Ask| question_place(ask.id))
}

/// Tasks, previous answers and open questions never share a table index, as long
/// as the tasks, and the answers with the questions asked, are no more than their
/// indices have room for.
pub proof fn tables_are_told_apart(session: ProjectSession, last_queue_id: usize, last_ask_id: usize)
    requires
        session.wf(last_queue_id, last_ask_id),
        session.task_history.lists_tasks(),
        session.ask_history.lists_answers(),
        session.tasks@.len() <= ASK_HISTORY_IX,
        session.answers@.len() + last_ask_id <= ASK_IX - ASK_HISTORY_IX,
    ensures
        all_differ(table_indices(session)),
        forall|k: int|
            0 <= k < table_indices(session).len() ==> 0 <= #[trigger] table_indices(session)[k]
                <= usize::MAX,
{
    let all = table_indices(session);
    let n = session.tasks@.len() as int;
    let m = n + session.answers@.len();
    let asks = session.asks@;
    assert forall|k: int| 0 <= k < all.len() implies #[trigger] all[k] == (if k < n {
        k
    } else if k < m {
        ASK_HISTORY_IX + (k - n)
    } else {
        ASK_IX - asks[k - m].id
    }) by {}
    assert forall|k: int| m <= k < all.len() implies #[trigger] all[k] >= ASK_IX - last_ask_id by {
        assert(asks[k - m].id <= last_ask_id);
    }
    assert forall|i: int, j: int| 0 <= i < j < all.len() implies #[trigger] all[i]
        != #[trigger] all[j] by {
        if i >= m {
            assert(asks[i - m].id < asks[j - m].id);
        }
    }
}

} // verus!
