//! What prompt mode shows around its tasks: which of its parts are in view, and
//! the pane a file opened beside them slides in and out of.
use vstd::prelude::*;
use crate::paths::{components, components_of, is_prefix, join_path, joined_path, rendered, render,
    within};
use crate::prompt_mode::PromptMode;
use crate::task_table::{layout_of, Layout, ListChange, MarkdownKey, TableSync};
use crate::text::{all_white, chars_of, is_all_white, string_of, views};

verus! {

// ---------------------------------------------------------------------------
// Parts in view
// ---------------------------------------------------------------------------

/// What fills the view under the header.
#[derive(Clone, Copy, Debug, PartialEq, Eq, Structural)]
pub enum Content {
    /// What to do, while nothing has been sent.
    Hint,
    /// Every task.
    History,
    /// The latest task's output.
    Output,
}

impl PromptMode {
    /// What fills the view under the header.
    pub fn content(&self) -> (r: Content)
        ensures
            r == (if self.screen.tasks@.len() == 0 {
                Content::Hint
            } else if self.screen.task_history.expanded {
                Content::History
            } else {
                Content::Output
            }),
    {
        if self.screen.tasks.len() == 0 {
            Content::Hint
        } else if self.screen.task_history.expanded {
            Content::History
        } else {
            Content::Output
        }
    }

    /// The task the header pinned above the output is of: the latest, unless
    /// the history is expanded, where it is listed.
    pub fn header_task(&self) -> (r: Option<usize>)
        ensures
            match r {
                Some(ix) => ix + 1 == self.screen.tasks@.len()
                    && !self.screen.task_history.expanded,
                None => self.screen.tasks@.len() == 0 || self.screen.task_history.expanded,
            },
    {
        let count = self.screen.tasks.len();
        if count == 0 || self.screen.task_history.expanded {
            None
        } else {
            Some(count - 1)
        }
    }

    /// How many tasks the row of previous tasks counts, the latest heading the
    /// view, and whether it can be expanded.
    pub fn previous_tasks(&self) -> (r: (usize, bool))
        ensures
            r.0 == (if self.screen.tasks@.len() > 0 {
                self.screen.tasks@.len() - 1
            } else {
                0
            }),
            r.1 == (self.screen.tasks@.len() > 0),
    {
        let count = self.screen.tasks.len();
        if count == 0 {
            (0, false)
        } else {
            (count - 1, true)
        }
    }
}

/// What to do, while nothing has been sent.
pub fn hint(has_project: bool) -> (r: &'static str)
    ensures
        r@ == (if has_project {
            "Write a prompt below. Enter adds a line; Ctrl/Cmd+Enter sends it."@
        } else {
            "Open a project to start prompting."@
        }),
{
    if has_project {
        "Write a prompt below. Enter adds a line; Ctrl/Cmd+Enter sends it."
    } else {
        "Open a project to start prompting."
    }
}

impl PromptMode {
    /// The project a prompt is compiled in to be previewed, or why it can't
    /// be.
    pub fn preview_in(&self) -> (r: Result<String, &'static str>)
        ensures
            match self.screen.project_dir {
                Some(dir) => r is Ok && r->Ok_0@ == dir@,
                None => r is Err && r->Err_0@ == "Open a project to preview the prompt."@,
            },
    {
        match &self.screen.project_dir {
            Some(dir) => Ok(dir.clone()),
            None => Err("Open a project to preview the prompt."),
        }
    }
}

// ---------------------------------------------------------------------------
// Text selected in an answer
// ---------------------------------------------------------------------------

/// The popover by text selected in an answer, which offers to copy it or attach
/// it to the prompt.
pub struct SelectionPopover {
    /// The text selected, while the popover shows.
    pub text: Option<String>,
}

impl SelectionPopover {
    /// A drag in the answer drawer selected `text`, once that has settled: the
    /// popover shows for it, unless there is nothing in it or the drawer has
    /// closed. Returns whether it does.
    pub fn selected(&mut self, text: String, drawer_open: bool) -> (shows: bool)
        ensures
            shows == (!all_white(text@) && drawer_open),
            *final(self) == (if shows {
                SelectionPopover { text: Some(text) }
            } else {
                *old(self)
            }),
    {
        if is_all_white(&chars_of(&text)) || !drawer_open {
            return false;
        }
        self.text = Some(text);
        true
    }

    /// The popover goes with the drawer: it closes once the drawer has.
    pub fn drawn(&mut self, drawer_open: bool)
        ensures
            drawer_open ==> *final(self) == *old(self),
            !drawer_open ==> final(self).text is None,
    {
        if !drawer_open {
            self.text = None;
        }
    }

    /// The popover closes, handing over the text it showed for.
    pub fn take(&mut self) -> (r: Option<String>)
        ensures
            r == old(self).text,
            final(self).text is None,
    {
        self.text.take()
    }
}

impl PromptMode {
    /// A drag in the answer drawer selected `text`, once that has settled. Returns
    /// whether the popover shows for it.
    pub fn text_selected(&mut self, text: String) -> (shows: bool)
        ensures
            shows == (!all_white(text@) && old(self).drawer_is_open()),
            *final(self) == (PromptMode {
                selection: if shows {
                    SelectionPopover { text: Some(text) }
                } else {
                    old(self).selection
                },
                ..*old(self)
            }),
    {
        let open = self.drawer_open();
        self.selection.selected(text, open)
    }

    /// The view is drawn: the popover goes with the drawer.
    pub fn selection_drawn(&mut self)
        ensures
            old(self).drawer_is_open() ==> *final(self) == *old(self),
            !old(self).drawer_is_open() ==> final(self).selection.text is None,
            *final(self) == (PromptMode { selection: final(self).selection, ..*old(self) }),
    {
        let open = self.drawer_open();
        self.selection.drawn(open);
    }

    /// The popover closes, handing over the text it showed for.
    pub fn take_selection(&mut self) -> (r: Option<String>)
        ensures
            r == old(self).selection.text,
            final(self).selection.text is None,
            *final(self) == (PromptMode { selection: final(self).selection, ..*old(self) }),
    {
        self.selection.take()
    }

    /// What the list of the latest task's output is told to draw it, `parsed`
    /// being the markdown that finished parsing. There is nothing to draw of no
    /// task, or of one without any output.
    pub fn draw_output(&mut self, parsed: &Vec<MarkdownKey>) -> (r: Option<Vec<ListChange>>)
        requires
            old(self).wf(),
            old(self).screen.tasks@.len() > 0 ==> old(
                self,
            ).screen.tasks@.last().reply@.rows().len() < usize::MAX,
        ensures
            final(self).wf(),
            ({
                let tasks = old(self).screen.tasks@;
                let table = (tasks.len() - 1) as usize;
                let reply = tasks.last().reply@;
                let layout = layout_of(reply, None);
                if tasks.len() == 0 || reply.rows().len() == 0 {
                    r is None && *final(self) == *old(self)
                } else {
                    &&& r is Some
                    &&& r->0@ == old(self).output_table.drawn(table, reply, layout, parsed@)
                    &&& *final(self) == (PromptMode {
                        output_table: TableSync {
                            reply: reply.uid,
                            table,
                            layout: Some(layout),
                            edit: reply.edit,
                        },
                        ..*old(self)
                    })
                }
            }),
    {
        let count = self.screen.tasks.len();
        if count == 0 {
            return None;
        }
        let table: usize = count - 1;
        proof {
            assert(self.screen.tasks@[table as int] == self.screen.tasks@.last());
        }
        let reply = &self.screen.tasks[table].reply;
        if reply.row_count() == 0 {
            return None;
        }
        let layout = Layout::of(reply, None);
        Some(self.output_table.draw(table, reply, layout, parsed))
    }
}

// ---------------------------------------------------------------------------
// The file pane
// ---------------------------------------------------------------------------

/// How long the file pane takes to slide in from the sidebar, or back into it
/// when closed, in milliseconds.
pub const PANE_SLIDE_TIME: u64 = 450;

/// A file pane sliding closed.
#[derive(Clone, Copy, Debug, PartialEq, Eq, Structural)]
pub struct PaneClosing {
    /// Which opening of the pane this closes, so each slide animates afresh.
    pub slide: usize,
    /// When it was closed, in milliseconds.
    pub closed: u64,
}

/// The pane a file opened from the project tree is in, beside the task view.
#[derive(Clone, Copy, Debug, PartialEq, Eq, Structural)]
pub struct Pane {
    pub open: bool,
    /// How many times the pane has opened, starting over when it runs out.
    pub times: usize,
    /// When the pane last opened, in milliseconds, if it has.
    pub opened: Option<u64>,
    /// A file just closed, sliding back into the sidebar.
    pub closing: Option<PaneClosing>,
}

/// How the pane is shown.
#[derive(Clone, Copy, Debug, PartialEq, Eq, Structural)]
pub enum PaneShown {
    /// There is none.
    Nothing,
    /// It grows out of the sidebar, over the task view.
    SlidingIn(usize),
    /// It splits the view, and can be dragged.
    Split,
    /// It shrinks back into the sidebar, uncovering the task view.
    SlidingOut(usize),
}

/// Whether less than the time a slide takes has gone by.
pub open spec fn still_sliding(since: u64, now: u64) -> bool {
    now - since < PANE_SLIDE_TIME
}

impl Pane {
    /// A file is shown, in place of any already open.
    pub fn show(&mut self, now: u64)
        ensures
            old(self).open ==> *final(self) == *old(self),
            !old(self).open ==> *final(self) == (Pane {
                open: true,
                times: if old(self).times == usize::MAX {
                    0
                } else {
                    (old(self).times + 1) as usize
                },
                opened: Some(now),
                closing: None,
            }),
    {
        if !self.open {
            self.open = true;
            self.times = if self.times == usize::MAX {
                0
            } else {
                self.times + 1
            };
            self.opened = Some(now);
            // A file still sliding closed gives way to this one.
            self.closing = None;
        }
    }

    /// The file open is closed, and slides back into the sidebar.
    pub fn close(&mut self, now: u64)
        ensures
            !old(self).open ==> *final(self) == *old(self),
            old(self).open ==> *final(self) == (Pane {
                open: false,
                closing: Some(PaneClosing { slide: old(self).times, closed: now }),
                ..*old(self)
            }),
    {
        if self.open {
            self.open = false;
            self.closing = Some(PaneClosing { slide: self.times, closed: now });
        }
    }

    /// How the pane is shown now, `laid_out` saying that the view's width is
    /// known. A slide that is over is forgotten.
    pub fn shown(&mut self, now: u64, laid_out: bool) -> (r: PaneShown)
        ensures
            *final(self) == (Pane {
                closing: match old(self).closing {
                    Some(closing) => if still_sliding(closing.closed, now) {
                        Some(closing)
                    } else {
                        None
                    },
                    None => None,
                },
                ..*old(self)
            }),
            r == (if old(self).open {
                if old(self).opened is Some && still_sliding(old(self).opened->0, now)
                    && laid_out {
                    PaneShown::SlidingIn(old(self).times)
                } else {
                    PaneShown::Split
                }
            } else {
                match final(self).closing {
                    Some(closing) => PaneShown::SlidingOut(closing.slide),
                    None => PaneShown::Nothing,
                }
            }),
    {
        if let Some(closing) = self.closing {
            if now >= closing.closed && now - closing.closed >= PANE_SLIDE_TIME {
                self.closing = None;
            }
        }
        if self.open {
            let sliding = match self.opened {
                Some(opened) => now < opened || now - opened < PANE_SLIDE_TIME,
                None => false,
            };
            if sliding && laid_out {
                PaneShown::SlidingIn(self.times)
            } else {
                PaneShown::Split
            }
        } else {
            match self.closing {
                Some(closing) => PaneShown::SlidingOut(closing.slide),
                None => PaneShown::Nothing,
            }
        }
    }
}

/// What opening a file does to the one open beside the chat.
#[derive(Clone, Copy, Debug, PartialEq, Eq, Structural)]
pub enum FileOpening {
    /// It shows at once, in place of any already open.
    Shows,
    /// It shows once it is confirmed that the changes to the one open, which
    /// aren't saved, are to be discarded.
    Asks,
}

/// A file is opened while another, `unsaved` saying whether it has unsaved
/// changes, may be open: those changes are asked about first.
pub fn file_opening(unsaved: Option<bool>) -> (r: FileOpening)
    ensures
        r == (if unsaved == Some(true) {
            FileOpening::Asks
        } else {
            FileOpening::Shows
        }),
{
    match unsaved {
        Some(true) => FileOpening::Asks,
        _ => FileOpening::Shows,
    }
}

/// What becomes of the file open beside the chat when a file or folder is moved
/// or deleted.
pub enum FileMoved {
    /// It stays open as it is.
    Stays,
    /// It opens again at its new path.
    Opens(String),
    /// It closes without asking.
    Closes,
}

/// Where a path within `from` is once that is moved to `to`.
pub open spec fn moved_to(open: Seq<char>, from: Seq<char>, to: Seq<char>) -> Seq<char> {
    let rest = components(open).skip(components(from).len() as int);
    if rest.len() == 0 {
        to
    } else {
        join_path(to, render(rest))
    }
}

/// A file or folder was renamed to `to`, or deleted: the file open, when it is
/// that file or inside that folder, opens again at its new path unless it has
/// unsaved changes, or closes without asking.
pub fn file_moved(open: &str, unsaved: bool, from: &str, to: Option<&str>) -> (r: FileMoved)
    ensures
        !within(open@, from@) ==> r is Stays,
        within(open@, from@) ==> (match to {
            Some(to) => if unsaved {
                r is Stays
            } else {
                r is Opens && r->Opens_0@ == moved_to(open@, from@, to@)
            },
            None => r is Closes,
        }),
{
    let mut parts = components_of(&chars_of(open));
    let base = components_of(&chars_of(from));
    if !is_prefix(&base, &parts) {
        return FileMoved::Stays;
    }
    let to = match to {
        Some(to) => to,
        None => {
            return FileMoved::Closes;
        },
    };
    if unsaved {
        return FileMoved::Stays;
    }
    let ghost all = views(parts@);
    proof {
        assert(views(parts@).len() == parts@.len() && views(base@).len() == base@.len());
    }
    let rest = parts.split_off(base.len());
    proof {
        assert(views(rest@) =~= all.skip(base@.len() as int));
        assert(views(rest@).len() == rest@.len());
    }
    if rest.len() == 0 {
        FileMoved::Opens(to.to_owned())
    } else {
        FileMoved::Opens(joined_path(to, &string_of(&rendered(rest))))
    }
}

} // verus!
