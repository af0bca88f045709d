//! Prompt mode's queue: prompts sent while the harness works wait in it, in
//! order, are edited in place, cancelled, and sent one by one once the harness
//! is free.
use vstd::prelude::*;
use crate::hidden_anchor::{anchor_mode, copy_texts};
use crate::paths::text_of;
use crate::prompt_mode::{ProjectSession, PromptMode, QueueItem};
use crate::prompt_queue::QueuedPrompt;
use crate::send_mode::SendMode;
use crate::text::{concat, concat_of, decimal, decimal_of, string_of, views};

verus! {

// ---------------------------------------------------------------------------
// Sending
// ---------------------------------------------------------------------------

/// What becomes of a prompt that is sent.
#[derive(Clone, Copy, Debug, PartialEq, Eq, Structural)]
pub enum SendAs {
    /// There is no project to send it in.
    NoProject,
    /// It is asked straight away, as a question.
    Question,
    /// It is queued, to wait, or to be sent as soon as it can be.
    Queued(bool),
    /// It is sent to the harness, which is free.
    Task,
}

impl SendAs {
    /// The title of the note shown where the prompt can't be sent, and the note.
    pub fn note(self) -> (r: Option<(&'static str, &'static str)>)
        ensures
            r is Some == (self == SendAs::NoProject),
            r is Some ==> (r->0).0@ == "No project open"@ && (r->0).1@
                == "Open a project before sending a prompt."@,
    {
        match self {
            SendAs::NoProject => Some(
                ("No project open", "Open a project before sending a prompt."),
            ),
            _ => None,
        }
    }
}

/// A prompt sent out of the queue.
pub struct Next {
    pub text: String,
    pub saved: QueuedPrompt,
}

/// Where an item is in a queue, or how many there are.
pub open spec fn item_at(queue: Seq<QueueItem>, id: usize, i: int) -> int
    decreases queue.len() - i,
{
    if 0 <= i < queue.len() && queue[i].id != id {
        item_at(queue, id, i + 1)
    } else {
        i
    }
}

fn find_item(queue: &Vec<QueueItem>, id: usize) -> (i: usize)
    ensures
        i == item_at(queue@, id, 0),
        i <= queue@.len(),
        i < queue@.len() ==> queue@[i as int].id == id,
{
    let mut i: usize = 0;
    while i < queue.len() && queue[i].id != id
        invariant
            i <= queue@.len(),
            item_at(queue@, id, i as int) == item_at(queue@, id, 0),
        decreases queue@.len() - i,
    {
        i += 1;
    }
    i
}

impl PromptMode {
    /// Whether the first queued prompt can be sent: the harness is free, it is
    /// saved, and it isn't being edited.
    pub open spec fn can_send_next(self) -> bool {
        &&& !self.screen.working
        &&& self.screen.project_dir is Some
        &&& self.screen.queue@.len() > 0
        &&& self.screen.queue@[0].saved is Some
        &&& self.in_background || self.editing_queued != Some(self.screen.queue@[0].id)
    }

    /// What sending the first queued prompt comes to: it leaves the queue, and
    /// a queue that has emptied is no longer held.
    pub open spec fn sent_next(self, after: PromptMode, next: Option<Next>) -> bool {
        if self.can_send_next() {
            let first = self.screen.queue@[0];
            &&& next is Some
            &&& next->0.text == first.text
            &&& next->0.saved == first.saved->0
            &&& after.screen.queue@ == self.screen.queue@.skip(1)
            &&& after == (PromptMode {
                screen: ProjectSession {
                    queue: after.screen.queue,
                    queue_held: self.screen.queue_held && self.screen.queue@.len() > 1,
                    ..self.screen
                },
                ..self
            })
        } else {
            next is None && after == self
        }
    }

    /// What sending the first queued prompt comes to, where prompts are sent on
    /// their own.
    pub open spec fn auto_sent_next(self, after: PromptMode, next: Option<Next>) -> bool {
        if self.screen.auto_send && !self.screen.queue_held {
            self.sent_next(after, next)
        } else {
            next is None && after == self
        }
    }

    /// Where the prompt being edited is in the queue, counted from one.
    pub open spec fn editing_place(self) -> Option<int> {
        match self.editing_queued {
            Some(id) => if item_at(self.screen.queue@, id, 0) < self.screen.queue@.len() {
                Some(item_at(self.screen.queue@, id, 0) + 1)
            } else {
                None
            },
            None => None,
        }
    }

    /// What becomes of a prompt sent in a mode now: it is sent if the harness
    /// is free, or queued. A question is always asked now.
    pub fn send_as(&self, mode: SendMode) -> (r: SendAs)
        ensures
            r == (if self.screen.project_dir is None {
                SendAs::NoProject
            } else if mode == SendMode::Ask {
                SendAs::Question
            } else if self.screen.working {
                SendAs::Queued(false)
            } else {
                SendAs::Task
            }),
    {
        if self.screen.project_dir.is_none() {
            SendAs::NoProject
        } else if mode == SendMode::Ask {
            SendAs::Question
        } else if self.screen.working {
            SendAs::Queued(false)
        } else {
            SendAs::Task
        }
    }

    /// What becomes of a prompt submitted from the chat input. Queued on
    /// purpose, it waits in the queue even while the harness is free; a
    /// question never queues.
    pub fn submit_as(&self, mode: SendMode, on_purpose: bool) -> (r: SendAs)
        ensures
            on_purpose && mode != SendMode::Ask && self.screen.project_dir is Some ==> r
                == SendAs::Queued(true),
            !(on_purpose && mode != SendMode::Ask && self.screen.project_dir is Some) ==> r == (
            if self.screen.project_dir is None {
                SendAs::NoProject
            } else if mode == SendMode::Ask {
                SendAs::Question
            } else if self.screen.working {
                SendAs::Queued(false)
            } else {
                SendAs::Task
            }),
    {
        if on_purpose && mode != SendMode::Ask && self.screen.project_dir.is_some() {
            SendAs::Queued(true)
        } else {
            self.send_as(mode)
        }
    }

    /// Sends the first queued prompt, if the harness is free and it is saved.
    /// Without a project it could not be sent, and must stay queued; nor while
    /// it is being edited.
    pub fn send_next(&mut self) -> (r: Option<Next>)
        requires
            old(self).wf(),
        ensures
            final(self).wf(),
            old(self).sent_next(*final(self), r),
    {
        if self.screen.working || self.screen.project_dir.is_none() || self.screen.queue.len()
            == 0 {
            return None;
        }
        let edited = match self.editing_queued {
            Some(id) => id == self.screen.queue[0].id,
            None => false,
        };
        if self.screen.queue[0].saved.is_none() || (edited && !self.in_background) {
            return None;
        }
        let item = self.screen.queue.remove(0);
        proof {
            assert(self.screen.queue@ =~= old(self).screen.queue@.skip(1));
        }
        if self.screen.queue.len() == 0 {
            self.screen.queue_held = false;
        }
        match item.saved {
            Some(saved) => Some(Next { text: item.text, saved }),
            None => None,
        }
    }

    /// Sends the next queued prompt if auto send is on and the queue is not
    /// being held after a restore.
    pub fn auto_send_next(&mut self) -> (r: Option<Next>)
        requires
            old(self).wf(),
        ensures
            final(self).wf(),
            old(self).auto_sent_next(*final(self), r),
    {
        if self.screen.auto_send && !self.screen.queue_held {
            self.send_next()
        } else {
            None
        }
    }

    /// "Send next" was clicked: sends the first queued prompt, and releases a
    /// restored queue to auto send.
    pub fn send_next_clicked(&mut self) -> (r: Option<Next>)
        requires
            old(self).wf(),
        ensures
            final(self).wf(),
            (PromptMode {
                screen: ProjectSession { queue_held: false, ..old(self).screen },
                ..*old(self)
            }).sent_next(*final(self), r),
    {
        self.screen.queue_held = false;
        self.send_next()
    }

    /// Switches auto send. Switched on, it releases a restored queue.
    pub fn set_auto_send(&mut self, auto_send: bool) -> (r: Option<Next>)
        requires
            old(self).wf(),
        ensures
            final(self).wf(),
            auto_send ==> (PromptMode {
                screen: ProjectSession {
                    auto_send: true,
                    queue_held: false,
                    ..old(self).screen
                },
                ..*old(self)
            }).sent_next(*final(self), r),
            !auto_send ==> r is None && *final(self) == (PromptMode {
                screen: ProjectSession { auto_send: false, ..old(self).screen },
                ..*old(self)
            }),
    {
        self.screen.auto_send = auto_send;
        if auto_send {
            self.screen.queue_held = false;
            return self.send_next();
        }
        None
    }

    /// Where the prompt being edited is in the queue, counted from one, for the
    /// chat input to note.
    pub fn editing_position(&self) -> (r: Option<usize>)
        ensures
            crate::reply::as_int(r) == self.editing_place(),
    {
        match self.editing_queued {
            Some(id) => {
                let at = find_item(&self.screen.queue, id);
                if at < self.screen.queue.len() {
                    Some(at + 1)
                } else {
                    None
                }
            },
            None => None,
        }
    }
}

// ---------------------------------------------------------------------------
// Queueing
// ---------------------------------------------------------------------------

/// What came of saving a queued prompt.
pub struct Saving {
    /// A file no longer needed: its prompt was cancelled while it was saved.
    pub unneeded: Option<String>,
    /// Why it couldn't be saved.
    pub error: Option<String>,
    /// The prompt sent next.
    pub next: Option<Next>,
}

impl PromptMode {
    /// Replaces the queue with the one saved for the project. A restored queue
    /// waits to be sent.
    pub fn load_queue(&mut self, saved: Vec<QueuedPrompt>)
        requires
            old(self).wf(),
            old(self).next_queue_id + saved@.len() <= usize::MAX,
        ensures
            final(self).wf(),
            *final(self) == (PromptMode {
                screen: ProjectSession {
                    queue: final(self).screen.queue,
                    queue_held: saved@.len() > 0,
                    ..old(self).screen
                },
                next_queue_id: (old(self).next_queue_id + saved@.len()) as usize,
                ..*old(self)
            }),
            final(self).screen.queue@.len() == saved@.len(),
            forall|k: int|
                0 <= k < saved@.len() ==> #[trigger] final(self).screen.queue@[k] == (QueueItem {
                    id: (old(self).next_queue_id + k + 1) as usize,
                    text: saved@[k].text,
                    saved: Some(saved@[k]),
                    wait: false,
                }),
    {
        let ghost all = saved@;
        let ghost start = self.next_queue_id as int;
        let mut saved = saved;
        let mut queue: Vec<QueueItem> = Vec::new();
        let mut id: usize = self.next_queue_id;
        proof {
            assert(saved@ =~= all.skip(0));
        }
        while saved.len() > 0
            invariant
                queue@.len() <= all.len(),
                saved@ == all.skip(queue@.len() as int),
                id == start + queue@.len(),
                start + all.len() <= usize::MAX,
                forall|k: int|
                    0 <= k < queue@.len() ==> #[trigger] queue@[k] == (QueueItem {
                        id: (start + k + 1) as usize,
                        text: all[k].text,
                        saved: Some(all[k]),
                        wait: false,
                    }),
            decreases saved@.len(),
        {
            let ghost n = queue@.len() as int;
            let prompt = saved.remove(0);
            proof {
                assert(prompt == all[n]);
                assert(saved@ =~= all.skip(n + 1));
            }
            id += 1;
            queue.push(
                QueueItem { id, text: prompt.text.clone(), wait: false, saved: Some(prompt) },
            );
        }
        self.screen.queue_held = queue.len() > 0;
        self.screen.queue = queue;
        self.next_queue_id = id;
        proof {
            assert forall|k: int| 0 <= k < self.background@.len() implies (
            #[trigger] self.background@[k]).wf(self.next_queue_id, self.next_ask_id) by {
                assert(old(self).background@[k].wf(
                    old(self).next_queue_id,
                    old(self).next_ask_id,
                ));
            }
        }
    }

    /// Adds `text` to the end of the queue, to be saved with the project.
    /// Returns its id, where there is a project.
    pub fn enqueue(&mut self, text: String, wait: bool) -> (r: Option<usize>)
        requires
            old(self).wf(),
            old(self).next_queue_id < usize::MAX,
        ensures
            final(self).wf(),
            old(self).screen.project_dir is None ==> r is None && *final(self) == *old(self),
            old(self).screen.project_dir is Some ==> ({
                let id = (old(self).next_queue_id + 1) as usize;
                &&& r == Some(id)
                &&& final(self).screen.queue@ == old(self).screen.queue@.push(
                    (QueueItem { id, text, saved: None, wait }),
                )
                &&& *final(self) == (PromptMode {
                    screen: ProjectSession {
                        queue: final(self).screen.queue,
                        ..old(self).screen
                    },
                    next_queue_id: id,
                    ..*old(self)
                })
            }),
    {
        if self.screen.project_dir.is_none() {
            return None;
        }
        self.next_queue_id = self.next_queue_id + 1;
        let id = self.next_queue_id;
        self.screen.queue.push(QueueItem { id, text, wait, saved: None });
        proof {
            assert forall|k: int| 0 <= k < self.background@.len() implies (
            #[trigger] self.background@[k]).wf(self.next_queue_id, self.next_ask_id) by {
                assert(old(self).background@[k].wf(
                    old(self).next_queue_id,
                    old(self).next_ask_id,
                ));
            }
        }
        Some(id)
    }

    /// A queued prompt was saved, or couldn't be. Saved, it can be sent, at
    /// once unless it was queued on purpose; otherwise it leaves the queue.
    pub fn queue_saved(&mut self, id: usize, saved: Result<QueuedPrompt, String>) -> (r: Saving)
        requires
            old(self).wf(),
        ensures
            final(self).wf(),
            ({
                let queue = old(self).screen.queue@;
                let at = item_at(queue, id, 0);
                if at >= queue.len() {
                    // Cancelled while it was saved.
                    &&& *final(self) == *old(self)
                    &&& r.error is None && r.next is None
                    &&& text_of(r.unneeded) == (match saved {
                        Ok(saved) => Some(saved.file@),
                        Err(_) => None,
                    })
                } else {
                    match saved {
                        Ok(saved) => {
                            let item = QueueItem { saved: Some(saved), ..queue[at] };
                            &&& r.error is None && r.unneeded is None
                            &&& exists|now: PromptMode|
                                {
                                    &&& #[trigger] now.holds_queue(
                                        *old(self),
                                        queue.update(at, item),
                                    )
                                    &&& if item.wait {
                                        r.next is None && *final(self) == now
                                    } else {
                                        now.auto_sent_next(*final(self), r.next)
                                    }
                                }
                        },
                        Err(error) => {
                            &&& r.error == Some(error) && r.unneeded is None && r.next is None
                            &&& final(self).holds_queue(*old(self), queue.remove(at))
                        },
                    }
                }
            }),
    {
        let at = find_item(&self.screen.queue, id);
        if at >= self.screen.queue.len() {
            let unneeded = match saved {
                Ok(saved) => Some(saved.file),
                Err(_) => None,
            };
            return Saving { unneeded, error: None, next: None };
        }
        match saved {
            Ok(saved) => {
                let item = self.screen.queue.remove(at);
                let wait = item.wait;
                let item = QueueItem { id: item.id, text: item.text, saved: Some(saved), wait };
                self.screen.queue.insert(at, item);
                proof {
                    assert(self.screen.queue@ =~= old(self).screen.queue@.update(at as int, item));
                    assert(self.holds_queue(*old(self), self.screen.queue@));
                }
                let next = if wait {
                    None
                } else {
                    self.auto_send_next()
                };
                Saving { unneeded: None, error: None, next }
            },
            Err(error) => {
                self.screen.queue.remove(at);
                Saving { unneeded: None, error: Some(error), next: None }
            },
        }
    }

    /// Whether this is `before` with another queue.
    pub open spec fn holds_queue(self, before: PromptMode, queue: Seq<QueueItem>) -> bool {
        &&& self.screen.queue@ == queue
        &&& self == (PromptMode {
            screen: ProjectSession { queue: self.screen.queue, ..before.screen },
            ..before
        })
    }
}

// ---------------------------------------------------------------------------
// Editing and cancelling
// ---------------------------------------------------------------------------

/// A queued prompt to be edited in the chat input.
pub struct Edit {
    /// Where it is in the queue, counted from one.
    pub position: usize,
    pub text: String,
    pub mode: SendMode,
    pub attached_text: Vec<String>,
}

/// What is to be done once editing a queued prompt is over.
pub enum EditOver {
    Nothing,
    /// The queue goes on.
    GoesOn(Option<Next>),
    /// The prompt's new text is to be saved where it was saved, or, when it
    /// can't be, the prompt stays as it was.
    Save { id: usize, was: QueuedPrompt, was_text: String },
}

/// A queued prompt once saving its edit is over: as saved, or as it was.
pub open spec fn edited_item(
    item: QueueItem,
    saved: Result<QueuedPrompt, (QueuedPrompt, String)>,
    was_text: String,
) -> QueueItem {
    match saved {
        Ok(saved) => QueueItem { saved: Some(saved), ..item },
        Err((was, _)) => QueueItem { text: was_text, saved: Some(was), ..item },
    }
}

/// What cancelling a queued prompt comes to in the chat input.
pub struct Cancelled {
    /// It was being edited, and the edit goes with it.
    pub edit_over: bool,
    /// Where the prompt being edited is now, counted from one.
    pub position: Option<usize>,
}

impl PromptMode {
    /// Edits the queued prompt `id` in the chat input, holding it in the queue
    /// meanwhile. Another edit in progress simply gives way.
    pub fn edit_queued(&mut self, id: usize) -> (r: Option<Edit>)
        requires
            old(self).wf(),
        ensures
            final(self).wf(),
            ({
                let queue = old(self).screen.queue@;
                let at = item_at(queue, id, 0);
                if at < queue.len() && queue[at].saved is Some {
                    let saved = queue[at].saved->0;
                    &&& *final(self) == (PromptMode { editing_queued: Some(id), ..*old(self) })
                    &&& r is Some
                    &&& r->0.position == at + 1
                    &&& r->0.text@ == saved.text@
                    &&& r->0.mode == (match saved.anchor@.sent_in() {
                        Some(mode) => mode,
                        None => SendMode::Both,
                    })
                    &&& views(r->0.attached_text@) == views(saved.anchor.attached_text@)
                } else {
                    r is None && *final(self) == *old(self)
                }
            }),
    {
        let at = find_item(&self.screen.queue, id);
        if at >= self.screen.queue.len() {
            return None;
        }
        let edit = match &self.screen.queue[at].saved {
            Some(saved) => Edit {
                position: at + 1,
                text: saved.text.clone(),
                mode: match anchor_mode(&saved.anchor) {
                    Some(mode) => mode,
                    None => SendMode::Both,
                },
                attached_text: copy_texts(&saved.anchor.attached_text),
            },
            None => {
                return None;
            },
        };
        self.editing_queued = Some(id);
        Some(edit)
    }

    /// Cancels editing a queued prompt, as switching projects does. Returns
    /// whether one was being edited.
    pub fn cancel_queued_edit(&mut self) -> (b: bool)
        ensures
            b == (old(self).editing_queued is Some),
            *final(self) == (PromptMode { editing_queued: None, ..*old(self) }),
    {
        let edited = self.editing_queued.is_some();
        self.editing_queued = None;
        edited
    }

    /// Editing a queued prompt is over: with `text`, its new text takes its
    /// place in the queue, and is to be saved; otherwise the queue goes on.
    pub fn queued_edit_over(&mut self, text: Option<String>) -> (r: EditOver)
        requires
            old(self).wf(),
        ensures
            final(self).wf(),
            ({
                let free = PromptMode { editing_queued: None, ..*old(self) };
                let queue = old(self).screen.queue@;
                match old(self).editing_queued {
                    None => r is Nothing && *final(self) == *old(self),
                    Some(id) => match text {
                        None => r is GoesOn && free.auto_sent_next(*final(self), r->GoesOn_0),
                        Some(text) => {
                            let at = item_at(queue, id, 0);
                            if old(self).screen.project_dir is Some && at < queue.len()
                                && queue[at].saved is Some {
                                &&& r == (EditOver::Save {
                                    id,
                                    was: queue[at].saved->0,
                                    was_text: queue[at].text,
                                })
                                &&& final(self).holds_queue(
                                    free,
                                    queue.update(
                                        at,
                                        (QueueItem { text, saved: None, ..queue[at] }),
                                    ),
                                )
                            } else {
                                r is Nothing && *final(self) == free
                            }
                        },
                    },
                }
            }),
    {
        let id = match self.editing_queued {
            Some(id) => id,
            None => {
                return EditOver::Nothing;
            },
        };
        self.editing_queued = None;
        let text = match text {
            Some(text) => text,
            None => {
                return EditOver::GoesOn(self.auto_send_next());
            },
        };
        let at = find_item(&self.screen.queue, id);
        if self.screen.project_dir.is_none() || at >= self.screen.queue.len()
            || self.screen.queue[at].saved.is_none() {
            return EditOver::Nothing;
        }
        let item = self.screen.queue.remove(at);
        let now = QueueItem { id: item.id, text, saved: None, wait: item.wait };
        self.screen.queue.insert(at, now);
        proof {
            assert(self.screen.queue@ =~= old(self).screen.queue@.update(at as int, now));
        }
        match item.saved {
            Some(was) => EditOver::Save { id, was, was_text: item.text },
            None => EditOver::Nothing,
        }
    }

    /// An edited prompt was saved, or couldn't be, and stays as it was. Either
    /// way the queue goes on.
    pub fn queued_edit_saved(
        &mut self,
        id: usize,
        saved: Result<QueuedPrompt, (QueuedPrompt, String)>,
        was_text: String,
    ) -> (r: Saving)
        requires
            old(self).wf(),
        ensures
            final(self).wf(),
            ({
                let queue = old(self).screen.queue@;
                let at = item_at(queue, id, 0);
                if at >= queue.len() {
                    // Cancelled while it was saved.
                    &&& *final(self) == *old(self)
                    &&& r.error is None && r.next is None
                    &&& text_of(r.unneeded) == (match saved {
                        Ok(saved) => Some(saved.file@),
                        Err(_) => None,
                    })
                } else {
                    let item = edited_item(queue[at], saved, was_text);
                    &&& r.unneeded is None
                    &&& r.error == (match saved {
                        Ok(_) => None,
                        Err((_, error)) => Some(error),
                    })
                    &&& exists|now: PromptMode|
                        #[trigger] now.holds_queue(*old(self), queue.update(at, item))
                            && now.auto_sent_next(*final(self), r.next)
                }
            }),
    {
        let at = find_item(&self.screen.queue, id);
        if at >= self.screen.queue.len() {
            let unneeded = match saved {
                Ok(saved) => Some(saved.file),
                Err(_) => None,
            };
            return Saving { unneeded, error: None, next: None };
        }
        let item = self.screen.queue.remove(at);
        let mut error: Option<String> = None;
        let now = match saved {
            Ok(saved) => QueueItem {
                id: item.id,
                text: item.text,
                saved: Some(saved),
                wait: item.wait,
            },
            Err((was, why)) => {
                error = Some(why);
                QueueItem { id: item.id, text: was_text, saved: Some(was), wait: item.wait }
            },
        };
        self.screen.queue.insert(at, now);
        proof {
            let queue = old(self).screen.queue@;
            assert(now == edited_item(queue[at as int], saved, was_text));
            assert(self.screen.queue@ =~= queue.update(at as int, now));
            assert(self.holds_queue(*old(self), queue.update(at as int, now)));
        }
        let next = self.auto_send_next();
        Saving { unneeded: None, error, next }
    }

    /// The file of a queued prompt, to be removed before it is cancelled.
    pub fn file_to_cancel(&self, id: usize) -> (r: Option<String>)
        ensures
            text_of(r) == ({
                let queue = self.screen.queue@;
                let at = item_at(queue, id, 0);
                if at < queue.len() && queue[at].saved is Some {
                    Some(queue[at].saved->0.file@)
                } else {
                    None
                }
            }),
    {
        let at = find_item(&self.screen.queue, id);
        if at >= self.screen.queue.len() {
            return None;
        }
        match &self.screen.queue[at].saved {
            Some(saved) => Some(saved.file.clone()),
            None => None,
        }
    }

    /// Removes a prompt that has not been sent from the queue, unless its file
    /// could not be removed: then it is still queued. Cancelled while it is
    /// being edited, the edit goes too.
    pub fn cancel(&mut self, id: usize, removed: bool) -> (r: Cancelled)
        requires
            old(self).wf(),
        ensures
            final(self).wf(),
            ({
                let queue = old(self).screen.queue@;
                let at = item_at(queue, id, 0);
                if at >= queue.len() {
                    *final(self) == *old(self) && !r.edit_over && r.position is None
                } else {
                    let rest = if removed {
                        queue.remove(at)
                    } else {
                        queue
                    };
                    let edited = old(self).editing_queued == Some(id);
                    &&& r.edit_over == edited
                    &&& crate::reply::as_int(r.position) == final(self).editing_place()
                    &&& final(self).screen.queue@ == rest
                    &&& *final(self) == (PromptMode {
                        screen: ProjectSession {
                            queue: final(self).screen.queue,
                            queue_held: old(self).screen.queue_held && rest.len() > 0,
                            ..old(self).screen
                        },
                        editing_queued: if edited {
                            None
                        } else {
                            old(self).editing_queued
                        },
                        ..*old(self)
                    })
                }
            }),
    {
        let at = find_item(&self.screen.queue, id);
        if at >= self.screen.queue.len() {
            return Cancelled { edit_over: false, position: None };
        }
        let edited = match self.editing_queued {
            Some(edited) => edited == id,
            None => false,
        };
        if edited {
            self.editing_queued = None;
        }
        if removed {
            self.screen.queue.remove(at);
        }
        if self.screen.queue.len() == 0 {
            self.screen.queue_held = false;
        }
        let position = self.editing_position();
        Cancelled { edit_over: edited, position }
    }
}

// ---------------------------------------------------------------------------
// What the queue shows
// ---------------------------------------------------------------------------

/// A queued prompt as it is shown.
pub struct QueueRow {
    pub id: usize,
    /// Its place, as "1.".
    pub number: String,
    pub text: String,
    /// It is still being saved, so it can't be edited.
    pub saving: bool,
    pub editing: bool,
}

/// The queue as it is shown, while something is queued.
pub struct QueueShown {
    /// How many are queued, as "2 queued".
    pub label: String,
    /// Whether "Send next" is offered, the harness being free, and whether the
    /// first prompt is ready to be sent.
    pub send_next: Option<bool>,
    pub auto_send: bool,
    /// The prompts, while the queue is expanded.
    pub rows: Option<Vec<QueueRow>>,
}

impl QueueRow {
    pub open spec fn shows(self, item: QueueItem, ix: int, editing: Option<usize>) -> bool {
        &&& self.id == item.id
        &&& self.number@ == decimal((ix + 1) as nat).push('.')
        &&& self.text@ == item.text@
        &&& self.saving == (item.saved is None)
        &&& self.editing == (editing == Some(item.id))
    }
}

impl PromptMode {
    fn queue_row(&self, ix: usize) -> (r: QueueRow)
        requires
            ix < self.screen.queue@.len(),
        ensures
            r.shows(self.screen.queue@[ix as int], ix as int, self.editing_queued),
    {
        let mut number = decimal_of(ix as u128 + 1);
        number.push('.');
        let item = &self.screen.queue[ix];
        let editing = match self.editing_queued {
            Some(id) => id == item.id,
            None => false,
        };
        QueueRow {
            id: item.id,
            number: string_of(&number),
            text: item.text.clone(),
            saving: item.saved.is_none(),
            editing,
        }
    }

    /// The queued prompts as typed, in order.
    pub fn queued_texts(&self) -> (r: Vec<String>)
        ensures
            r@.len() == self.screen.queue@.len(),
            forall|k: int|
                0 <= k < r@.len() ==> (#[trigger] r@[k])@ == self.screen.queue@[k].text@,
    {
        let mut r: Vec<String> = Vec::new();
        let mut i: usize = 0;
        while i < self.screen.queue.len()
            invariant
                i <= self.screen.queue@.len(),
                r@.len() == i,
                forall|k: int| 0 <= k < i ==> (#[trigger] r@[k])@ == self.screen.queue@[k].text@,
            decreases self.screen.queue@.len() - i,
        {
            r.push(self.screen.queue[i].text.clone());
            i += 1;
        }
        r
    }

    /// The queue along the bottom of the message list, as an expanding list
    /// with its controls. It only shows while something is queued.
    pub fn queue_shown(&self) -> (r: Option<QueueShown>)
        ensures
            match r {
                None => self.screen.queue@.len() == 0,
                Some(shown) => {
                    let queue = self.screen.queue@;
                    &&& queue.len() > 0
                    &&& shown.label@ == concat(seq![decimal(queue.len()), " queued"@])
                    &&& shown.send_next == (if self.screen.working {
                        None
                    } else {
                        Some(queue[0].saved is Some)
                    })
                    &&& shown.auto_send == self.screen.auto_send
                    &&& shown.rows is Some == self.screen.queue_expanded
                    &&& shown.rows is Some ==> shown.rows->0@.len() == queue.len()
                    &&& shown.rows is Some ==> forall|k: int|
                        0 <= k < queue.len() ==> (#[trigger] shown.rows->0@[k]).shows(
                            queue[k],
                            k,
                            self.editing_queued,
                        )
                },
            },
    {
        let count = self.screen.queue.len();
        if count == 0 {
            return None;
        }
        let digits = string_of(&decimal_of(count as u128));
        let parts: Vec<&str> = vec![&digits, " queued"];
        proof {
            assert(views(parts@) =~= seq![digits@, " queued"@]);
        }
        let label = concat_of(parts);
        let send_next = if self.screen.working {
            None
        } else {
            Some(self.screen.queue[0].saved.is_some())
        };
        let rows = if self.screen.queue_expanded {
            let mut rows: Vec<QueueRow> = Vec::new();
            let mut i: usize = 0;
            while i < count
                invariant
                    i <= count,
                    count == self.screen.queue@.len(),
                    rows@.len() == i,
                    forall|k: int|
                        0 <= k < i ==> (#[trigger] rows@[k]).shows(
                            self.screen.queue@[k],
                            k,
                            self.editing_queued,
                        ),
                decreases count - i,
            {
                rows.push(self.queue_row(i));
                i += 1;
            }
            Some(rows)
        } else {
            None
        };
        Some(QueueShown { label, send_next, auto_send: self.screen.auto_send, rows })
    }

    /// The queue's toggle was clicked. Returns whether it now shows its
    /// prompts, opening on those queued last.
    pub fn toggle_queue(&mut self) -> (expanded: bool)
        ensures
            expanded == !old(self).screen.queue_expanded,
            *final(self) == (PromptMode {
                screen: ProjectSession { queue_expanded: expanded, ..old(self).screen },
                ..*old(self)
            }),
    {
        self.screen.queue_expanded = !self.screen.queue_expanded;
        self.screen.queue_expanded
    }
}

// ---------------------------------------------------------------------------
// What holds of the queue
// ---------------------------------------------------------------------------

/// A prompt being edited is never sent while its project is on screen.
pub proof fn a_prompt_being_edited_is_not_sent(
    before: PromptMode,
    after: PromptMode,
    next: Option<Next>,
)
    requires
        before.wf(),
        !before.in_background,
        before.sent_next(after, next),
        before.editing_queued is Some,
        before.editing_place() is Some,
    ensures
        after.editing_place() is Some,
        next is Some ==> after.editing_place()->0 == before.editing_place()->0 - 1,
{
    let id = before.editing_queued->0;
    let queue = before.screen.queue@;
    if before.can_send_next() {
        lemma_item_at_skip(queue, id, 0);
    }
}

proof fn lemma_item_at_skip(queue: Seq<QueueItem>, id: usize, i: int)
    requires
        0 <= i < queue.len(),
        queue[0].id != id,
    ensures
        item_at(queue, id, i + 1) == item_at(queue.skip(1), id, i) + 1,
        i == 0 ==> item_at(queue, id, 0) == item_at(queue.skip(1), id, 0) + 1,
    decreases queue.len() - i,
{
    let rest = queue.skip(1);
    if i + 1 < queue.len() {
        assert(rest[i] == queue[i + 1]);
        if queue[i + 1].id != id {
            lemma_item_at_skip(queue, id, i + 1);
        }
    }
}

/// Prompts leave the queue in the order they were queued: the one sent was
/// queued before every prompt left.
pub proof fn prompts_are_sent_in_order(
    before: PromptMode,
    after: PromptMode,
    next: Option<Next>,
    k: int,
)
    requires
        before.wf(),
        before.sent_next(after, next),
        next is Some,
        0 <= k < after.screen.queue@.len(),
    ensures
        before.screen.queue@[0].id < after.screen.queue@[k].id,
        next->0.text == before.screen.queue@[0].text,
{
    assert(after.screen.queue@[k] == before.screen.queue@[k + 1]);
}

} // verus!
