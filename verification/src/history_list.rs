//! A row saying how many previous items there are, which expands into a
//! scrollable accordion of every one of them, oldest first, each headed by its
//! status and prompt and opening onto its prompt and output. Previous tasks and
//! previous answers are each one of these.
//!
//! The accordion is one list: each item's heading is a row of it, and so, while
//! an item is open, are its prompt, its table's header, each of its table's
//! rows, and its end.
use vstd::prelude::*;
use crate::reply::{Reply, ReplyView};
use crate::prompt_mode::tasks_wf;
use crate::task::PromptTask;
use crate::task_table::{layout_of, lemma_len_after_add, len_after, len_after_all,
    the_list_keeps_up_with_the_table, Layout, ListChange, MarkdownKey, MarkdownKind, TableSync};
use crate::text::{concat, concat_of, decimal, decimal_of, string_of, views};

verus! {

/// Where a previous answer's task index starts in its element ids, apart from
/// the tasks' and the open questions'.
pub const ASK_HISTORY_IX: usize = usize::MAX / 2;

/// Counted down from, by question id, for a question's task index in its
/// element ids.
pub const ASK_IX: usize = usize::MAX;

/// A question's task index in its element ids.
pub open spec fn question_place(id: usize) -> int {
    ASK_IX - id
}

/// A question's task index in its element ids, which numbers its table.
pub fn question_ix(id: usize) -> (r: usize)
    ensures
        r == question_place(id),
{
    ASK_IX - id
}

/// What a row of a history list shows.
#[derive(Clone, Copy, Debug, PartialEq, Eq, Structural)]
pub enum HistoryRow {
    /// An item's heading.
    Heading(usize),
    /// The open item's prompt.
    Prompt(usize),
    /// The open item's table header, or "No output." for a finished item
    /// with none.
    TableHeader(usize),
    /// A row of the open item's table.
    TableRow(usize, usize),
    /// The margin ending the open item.
    End(usize),
}

/// How many items a history list was laid out with, which was open, and what
/// of the open one's prompt and table.
#[derive(Clone, Copy)]
pub struct HistoryLaidOut {
    pub count: usize,
    pub open: Option<usize>,
    pub compiled: bool,
    pub table: TableSync,
}

/// A list of previous items.
pub struct HistoryList {
    /// Element ids: the row's toggle, the accordion, and each item's heading.
    pub toggle_id: &'static str,
    pub list_id: &'static str,
    pub item_id: &'static str,
    /// The row's label, after its count.
    pub singular: &'static str,
    pub plural: &'static str,
    /// What the row reads while expanded.
    pub back: &'static str,
    /// Where its items' task indices start in their element ids, so two lists
    /// never share one.
    pub id_base: usize,
    pub expanded: bool,
    /// The item opened in the accordion.
    pub open: Option<usize>,
    /// What the list was last laid out for.
    pub laid_out: HistoryLaidOut,
    /// Counts the times it was expanded, starting over when it runs out.
    pub opened: usize,
    /// Just expanded, so its next layout scrolls it to the latest items.
    pub scroll_to_latest: bool,
    /// Its tables collapse the steps leading up to the answer.
    pub collapse_steps: bool,
}

// ---------------------------------------------------------------------------
// Rows
// ---------------------------------------------------------------------------

/// How many rows the open item's block takes: its prompt, table header, table
/// rows, and end.
pub open spec fn block_len(table: int) -> int {
    table + 3
}

/// What row `ix` of a list shows, with an item open and its table so many rows
/// long.
pub open spec fn row_shown(ix: int, open: Option<(int, int)>) -> HistoryRow {
    match open {
        None => HistoryRow::Heading(ix as usize),
        Some((open, table)) => if ix <= open {
            HistoryRow::Heading(ix as usize)
        } else if ix > open + block_len(table) {
            HistoryRow::Heading((ix - block_len(table)) as usize)
        } else if ix == open + 1 {
            HistoryRow::Prompt(open as usize)
        } else if ix == open + 2 {
            HistoryRow::TableHeader(open as usize)
        } else if ix == open + block_len(table) {
            HistoryRow::End(open as usize)
        } else {
            HistoryRow::TableRow(open as usize, (ix - open - 3) as usize)
        },
    }
}

/// How many rows a list of so many items has.
pub open spec fn rows_in(count: int, open: Option<(int, int)>) -> int {
    match open {
        None => count,
        Some((open, table)) => count + block_len(table),
    }
}

pub open spec fn open_ints(open: Option<(usize, usize)>) -> Option<(int, int)> {
    match open {
        Some((open, table)) => Some((open as int, table as int)),
        None => None,
    }
}

/// The row of a list where what is shown is.
pub open spec fn place(row: HistoryRow, open: Option<(int, int)>) -> int {
    match row {
        HistoryRow::Heading(item) => match open {
            Some((open, table)) => if item > open {
                item + block_len(table)
            } else {
                item as int
            },
            None => item as int,
        },
        HistoryRow::Prompt(item) => item + 1,
        HistoryRow::TableHeader(item) => item + 2,
        HistoryRow::TableRow(item, row) => item + 3 + row,
        HistoryRow::End(item) => match open {
            Some((open, table)) => item + block_len(table),
            None => 0,
        },
    }
}

/// Every row of a list shows something of its own: what is shown tells the row
/// it is in, and each item's heading is in the list.
pub proof fn each_row_shows_its_own(count: int, open: Option<(int, int)>, ix: int, item: int)
    requires
        0 <= ix < rows_in(count, open),
        rows_in(count, open) <= usize::MAX,
        open is Some ==> 0 <= (open->0).0 < count && 0 <= (open->0).1,
        0 <= item < count,
    ensures
        place(row_shown(ix, open), open) == ix,
        0 <= place(HistoryRow::Heading(item as usize), open) < rows_in(count, open),
        row_shown(place(HistoryRow::Heading(item as usize), open), open) == HistoryRow::Heading(
            item as usize,
        ),
{
}

impl HistoryList {
    /// What row `ix` of the list shows, with `open` open and its table so many
    /// rows long.
    pub fn row_at(ix: usize, open: Option<(usize, usize)>) -> (r: HistoryRow)
        requires
            open is Some ==> (open->0).0 + block_len((open->0).1 as int) <= usize::MAX,
        ensures
            r == row_shown(ix as int, open_ints(open)),
    {
        match open {
            None => HistoryRow::Heading(ix),
            Some((open, table)) => {
                if ix <= open {
                    return HistoryRow::Heading(ix);
                }
                let at: usize = ix - open - 1;
                let block: usize = table + 3;
                if at >= block {
                    HistoryRow::Heading(ix - block)
                } else if at == 0 {
                    HistoryRow::Prompt(open)
                } else if at == 1 {
                    HistoryRow::TableHeader(open)
                } else if at == table + 2 {
                    HistoryRow::End(open)
                } else {
                    HistoryRow::TableRow(open, at - 2)
                }
            },
        }
    }
}

// ---------------------------------------------------------------------------
// The lists
// ---------------------------------------------------------------------------

impl HistoryList {
    fn new(
        ids: (&'static str, &'static str, &'static str),
        labels: (&'static str, &'static str, &'static str),
        id_base: usize,
        collapse_steps: bool,
    ) -> (r: HistoryList)
        ensures
            r.toggle_id == ids.0,
            r.list_id == ids.1,
            r.item_id == ids.2,
            r.singular == labels.0,
            r.plural == labels.1,
            r.back == labels.2,
            r.id_base == id_base,
            r.collapse_steps == collapse_steps,
            !r.expanded && r.open is None && r.opened == 0 && !r.scroll_to_latest,
            r.laid_out == fresh(0),
    {
        HistoryList {
            toggle_id: ids.0,
            list_id: ids.1,
            item_id: ids.2,
            singular: labels.0,
            plural: labels.1,
            back: labels.2,
            id_base,
            expanded: false,
            open: None,
            laid_out: HistoryLaidOut {
                count: 0,
                open: None,
                compiled: false,
                table: TableSync { reply: 0, table: 0, layout: None, edit: 0 },
            },
            opened: 0,
            scroll_to_latest: false,
            collapse_steps,
        }
    }

    /// Whether this is the list of previous tasks.
    pub open spec fn lists_tasks(self) -> bool {
        &&& self.toggle_id@ == "history-toggle"@ && self.list_id@ == "task-list"@ && self.item_id@
            == "history-task"@
        &&& self.singular@ == "previous task"@ && self.plural@ == "previous tasks"@ && self.back@
            == "Back to the latest task"@
        &&& self.id_base == 0 && !self.collapse_steps
    }

    /// Whether this is the list of previous answers.
    pub open spec fn lists_answers(self) -> bool {
        &&& self.toggle_id@ == "ask-history-toggle"@ && self.list_id@ == "ask-list"@
            && self.item_id@ == "ask-history-task"@
        &&& self.singular@ == "previous answer"@ && self.plural@ == "previous answers"@
            && self.back@ == "Back to the questions"@
        &&& self.id_base == ASK_HISTORY_IX && self.collapse_steps
    }

    /// Whether nothing has been done with the list yet.
    pub open spec fn is_new(self) -> bool {
        &&& !self.expanded && self.open is None && self.opened == 0 && !self.scroll_to_latest
        &&& self.laid_out == fresh(0)
    }

    /// The previous tasks, whose tables show whole.
    pub fn tasks() -> (r: HistoryList)
        ensures
            r.lists_tasks(),
            r.is_new(),
    {
        HistoryList::new(
            ("history-toggle", "task-list", "history-task"),
            ("previous task", "previous tasks", "Back to the latest task"),
            0,
            false,
        )
    }

    /// The previous answers, whose tables collapse their steps.
    pub fn answers() -> (r: HistoryList)
        ensures
            r.lists_answers(),
            r.is_new(),
    {
        HistoryList::new(
            ("ask-history-toggle", "ask-list", "ask-history-task"),
            ("previous answer", "previous answers", "Back to the questions"),
            ASK_HISTORY_IX,
            true,
        )
    }

    /// The list with the row's toggle clicked.
    pub open spec fn toggled(self) -> HistoryList {
        if self.expanded {
            HistoryList { expanded: false, ..self }
        } else {
            HistoryList {
                expanded: true,
                opened: if self.opened == usize::MAX {
                    0
                } else {
                    (self.opened + 1) as usize
                },
                scroll_to_latest: true,
                ..self
            }
        }
    }

    pub fn toggle(&mut self)
        ensures
            *final(self) == old(self).toggled(),
    {
        self.expanded = !self.expanded;
        if self.expanded {
            self.opened = if self.opened == usize::MAX {
                0
            } else {
                self.opened + 1
            };
            // The latest are the likeliest to be looked for. Scrolled once the
            // list knows every item, which it may not have been told yet.
            self.scroll_to_latest = true;
        }
    }

    /// An item's heading was clicked: it opens, or closes if it was open.
    pub fn click(&mut self, item: usize)
        ensures
            *final(self) == (HistoryList {
                open: if old(self).open == Some(item) {
                    None
                } else {
                    Some(item)
                },
                ..*old(self)
            }),
    {
        self.open = if self.open == Some(item) {
            None
        } else {
            Some(item)
        };
    }

    pub open spec fn label_text(self, count: nat) -> Seq<char> {
        if self.expanded {
            self.back@
        } else if count == 0 {
            concat(seq!["No "@, self.plural@])
        } else if count == 1 {
            concat(seq!["1 "@, self.singular@])
        } else {
            concat(seq![decimal(count), " "@, self.plural@])
        }
    }

    /// What the row says: "No …", "1 …", or "N …", or the way back while
    /// expanded.
    pub fn label(&self, count: usize) -> (r: String)
        ensures
            r@ == self.label_text(count as nat),
    {
        if self.expanded {
            return self.back.to_owned();
        }
        let digits = string_of(&decimal_of(count as u128));
        let parts: Vec<&str> = if count == 0 {
            vec!["No ", self.plural]
        } else if count == 1 {
            vec!["1 ", self.singular]
        } else {
            vec![&digits, " ", self.plural]
        };
        proof {
            if count == 0 {
                assert(views(parts@) =~= seq!["No "@, self.plural@]);
            } else if count == 1 {
                assert(views(parts@) =~= seq!["1 "@, self.singular@]);
            } else {
                assert(views(parts@) =~= seq![digits@, " "@, self.plural@]);
            }
        }
        concat_of(parts)
    }

    /// The item open among so many, if any.
    pub open spec fn open_among(self, count: int) -> Option<usize> {
        match self.open {
            Some(open) => if open < count {
                Some(open)
            } else {
                None
            },
            None => None,
        }
    }

    /// The item open among so many, if any.
    pub fn open_of(&self, count: usize) -> (r: Option<usize>)
        ensures
            r == self.open_among(count as int),
    {
        match self.open {
            Some(open) => if open < count {
                Some(open)
            } else {
                None
            },
            None => None,
        }
    }

    /// An item's task index in its element ids, which numbers its table.
    pub open spec fn item_place(self, item: int) -> int {
        self.id_base + item
    }

    /// Whether the steps of an item's table are shown, where they collapse.
    pub open spec fn steps_of(self, item: int, steps_shown: Seq<usize>) -> Option<bool> {
        if self.collapse_steps {
            Some(steps_shown.contains(self.item_place(item) as usize))
        } else {
            None
        }
    }

    /// What is known of the open item among `tasks`, if one is.
    pub open spec fn open_among_tasks(
        self,
        tasks: Seq<PromptTask>,
        steps_shown: Seq<usize>,
        parsed: Seq<MarkdownKey>,
    ) -> Option<OpenItem> {
        match self.open_among(tasks.len() as int) {
            Some(open) => Some(
                OpenItem {
                    task_ix: self.item_place(open as int) as usize,
                    compiled: tasks[open as int].compiled is Some,
                    prompt_parsed: prompt_among(parsed, self.item_place(open as int) as usize),
                    layout: layout_of(
                        tasks[open as int].reply@,
                        self.steps_of(open as int, steps_shown),
                    ),
                },
            ),
            None => None,
        }
    }

    /// Whether the list can be laid out: the indices of its items and the rows of
    /// the one open fit.
    pub open spec fn fits(self, tasks: Seq<PromptTask>) -> bool {
        &&& tasks_wf(tasks)
        &&& tasks.len() + 3 <= usize::MAX
        &&& self.open_among(tasks.len() as int) is Some ==> {
            let open = self.open->0 as int;
            &&& self.item_place(open) <= usize::MAX
            &&& tasks.len() + tasks[open].reply@.rows().len() + 4 <= usize::MAX
        }
    }

    /// What is known of the open item among `tasks`, if one is: which table is
    /// its own, whether its prompt has compiled and has been parsed among
    /// `parsed`, and how its rows sit, its steps shown where `steps_shown` says
    /// so.
    pub fn open_item(
        &self,
        tasks: &Vec<PromptTask>,
        steps_shown: &Vec<usize>,
        parsed: &Vec<MarkdownKey>,
    ) -> (r: Option<OpenItem>)
        requires
            self.fits(tasks@),
        ensures
            r == self.open_among_tasks(tasks@, steps_shown@, parsed@),
            r is Some == (self.open is Some && self.open->0 < tasks@.len()),
            r is Some ==> r->0.layout.wf() && tasks@.len() + block_len(r->0.layout.count())
                <= usize::MAX,
    {
        let open = match self.open_of(tasks.len()) {
            Some(open) => open,
            None => {
                return None;
            },
        };
        let task_ix: usize = self.id_base + open;
        let steps = if self.collapse_steps {
            Some(is_among(steps_shown, task_ix))
        } else {
            None
        };
        let layout = Layout::of(&tasks[open].reply, steps);
        Some(
            OpenItem {
                task_ix,
                compiled: tasks[open].compiled.is_some(),
                prompt_parsed: is_prompt_among(parsed, task_ix),
                layout,
            },
        )
    }

    /// Lays the list out for `tasks`, returning what it is to be told.
    pub fn lay_out(
        &mut self,
        tasks: &Vec<PromptTask>,
        steps_shown: &Vec<usize>,
        parsed: &Vec<MarkdownKey>,
    ) -> (r: Vec<ListChange>)
        requires
            old(self).fits(tasks@),
            old(self).laid_out.wf(),
            old(self).laid_out.count + block_len(old(self).laid_out.table.held()) <= usize::MAX,
        ensures
            final(self).laid_out.wf(),
            *final(self) == (HistoryList { laid_out: final(self).laid_out, ..*old(self) }),
            ({
                let open = old(self).open_among(tasks@.len() as int);
                let item = old(self).open_among_tasks(tasks@, steps_shown@, parsed@);
                let reply = if open is Some {
                    tasks@[open->0 as int].reply@
                } else {
                    ReplyView::empty(0)
                };
                let count = tasks@.len() as usize;
                &&& final(self).laid_out == laid_for(old(self).laid_out, count, open, item, reply)
                &&& r@ == told_for(old(self).laid_out, count, open, item, reply, parsed@)
            }),
    {
        let item = self.open_item(tasks, steps_shown, parsed);
        match self.open_of(tasks.len()) {
            Some(open) => self.laid_out.lay_out(
                tasks.len(),
                Some(open),
                item,
                &tasks[open].reply,
                parsed,
            ),
            None => self.laid_out.lay_out(tasks.len(), None, None, &Reply::new(0), parsed),
        }
    }

    /// Whether the list, just expanded, is to scroll to its latest items.
    pub fn take_scroll(&mut self) -> (b: bool)
        ensures
            b == old(self).scroll_to_latest,
            *final(self) == (HistoryList { scroll_to_latest: false, ..*old(self) }),
    {
        let scroll = self.scroll_to_latest;
        self.scroll_to_latest = false;
        scroll
    }
}

// ---------------------------------------------------------------------------
// Laying out
// ---------------------------------------------------------------------------

/// A list laid out with so many items, none open.
pub open spec fn fresh(count: usize) -> HistoryLaidOut {
    HistoryLaidOut {
        count,
        open: None,
        compiled: false,
        table: TableSync { reply: 0, table: 0, layout: None, edit: 0 },
    }
}

/// Whether a task's compiled prompt is among the markdown that finished parsing.
pub open spec fn prompt_among(parsed: Seq<MarkdownKey>, task_ix: usize) -> bool {
    exists|k: int|
        0 <= k < parsed.len() && (#[trigger] parsed[k]).kind == MarkdownKind::Prompt
            && parsed[k].table == task_ix
}

fn is_prompt_among(parsed: &Vec<MarkdownKey>, task_ix: usize) -> (b: bool)
    ensures
        b == prompt_among(parsed@, task_ix),
{
    let mut i: usize = 0;
    while i < parsed.len()
        invariant
            i <= parsed@.len(),
            forall|k: int|
                0 <= k < i ==> !((#[trigger] parsed@[k]).kind == MarkdownKind::Prompt
                    && parsed@[k].table == task_ix),
        decreases parsed@.len() - i,
    {
        if parsed[i].kind == MarkdownKind::Prompt && parsed[i].table == task_ix {
            return true;
        }
        i += 1;
    }
    false
}

/// Whether an index is among some.
pub(crate) fn is_among(indices: &Vec<usize>, ix: usize) -> (b: bool)
    ensures
        b == indices@.contains(ix),
{
    let mut i: usize = 0;
    while i < indices.len()
        invariant
            i <= indices@.len(),
            forall|k: int| 0 <= k < i ==> indices@[k] != ix,
        decreases indices@.len() - i,
    {
        if indices[i] == ix {
            return true;
        }
        i += 1;
    }
    false
}

/// What is known of the open item as the list is laid out.
pub struct OpenItem {
    /// Its task's index in element ids.
    pub task_ix: usize,
    pub compiled: bool,
    /// Its prompt's markdown finished parsing since the list was last laid out.
    pub prompt_parsed: bool,
    pub layout: Layout,
}

impl HistoryLaidOut {
    pub open spec fn wf(self) -> bool {
        self.table.wf() && (self.open is Some ==> self.open->0 < self.count)
    }

    /// How many rows the list has.
    pub open spec fn len(self) -> int {
        match self.open {
            Some(open) => self.count + block_len(self.table.held()),
            None => self.count as int,
        }
    }

    /// Laid out for so many items.
    pub open spec fn counted(self, count: usize) -> HistoryLaidOut {
        if self.count != count {
            fresh(count)
        } else {
            self
        }
    }

    pub open spec fn count_changes(self, count: usize) -> Seq<ListChange> {
        if self.count != count {
            seq![ListChange::Reset { count }]
        } else {
            seq![]
        }
    }

    /// Laid out with another item open.
    pub open spec fn opened(self, open: Option<usize>, compiled: bool) -> HistoryLaidOut {
        if self.open != open {
            HistoryLaidOut { compiled, open, ..fresh(self.count) }
        } else {
            self
        }
    }

    pub open spec fn close_changes(self) -> Seq<ListChange> {
        match self.open {
            Some(was) => seq![
                ListChange::Splice {
                    start: (was + 1) as usize,
                    end: (was + 1 + block_len(self.table.held())) as usize,
                    count: 0,
                },
                ListChange::Remeasure { start: was, end: (was + 1) as usize },
            ],
            None => seq![],
        }
    }

    pub open spec fn open_changes(self, open: Option<usize>) -> Seq<ListChange> {
        if self.open != open {
            self.close_changes() + match open {
                Some(open) => seq![
                    ListChange::Splice {
                        start: (open + 1) as usize,
                        end: (open + 1) as usize,
                        count: 3,
                    },
                    ListChange::Remeasure { start: open, end: (open + 1) as usize },
                ],
                None => seq![],
            }
        } else {
            seq![]
        }
    }

    /// The open item's prompt and table header measured again, where what they
    /// show has changed.
    pub open spec fn head_changes(
        self,
        open: usize,
        compiled: bool,
        prompt_parsed: bool,
        empty: bool,
    ) -> Seq<ListChange> {
        (if compiled != self.compiled || prompt_parsed {
            seq![ListChange::Remeasure { start: (open + 1) as usize, end: (open + 2) as usize }]
        } else {
            seq![]
        }) + (if (self.table.layout is Some && self.table.layout->0.count() == 0) != empty {
            seq![ListChange::Remeasure { start: (open + 2) as usize, end: (open + 3) as usize }]
        } else {
            seq![]
        })
    }
}

/// What is known of a list once it is laid out.
pub open spec fn laid_for(
    before: HistoryLaidOut,
    count: usize,
    open: Option<usize>,
    item: Option<OpenItem>,
    reply: ReplyView,
) -> HistoryLaidOut {
    let compiled = item is Some && item->0.compiled;
    let now = before.counted(count).opened(open, compiled);
    if open is Some && item is Some {
        HistoryLaidOut {
            compiled: item->0.compiled,
            table: TableSync {
                reply: reply.uid,
                table: item->0.task_ix,
                layout: Some(item->0.layout),
                edit: reply.edit,
            },
            ..now
        }
    } else {
        now
    }
}

/// What a list is told as it is laid out.
pub open spec fn told_for(
    before: HistoryLaidOut,
    count: usize,
    open: Option<usize>,
    item: Option<OpenItem>,
    reply: ReplyView,
    parsed: Seq<MarkdownKey>,
) -> Seq<ListChange> {
    let compiled = item is Some && item->0.compiled;
    let counted = before.counted(count);
    let now = counted.opened(open, compiled);
    before.count_changes(count) + counted.open_changes(open) + (if open is Some && item is Some {
        now.head_changes(
            open->0,
            compiled,
            item->0.prompt_parsed,
            reply.rows().len() == 0,
        ) + now.table.told(open->0 + 3, item->0.task_ix, reply, item->0.layout, parsed)
    } else {
        seq![]
    })
}

fn append(all: &mut Vec<ListChange>, more: &Vec<ListChange>)
    ensures
        final(all)@ == old(all)@ + more@,
{
    let mut i: usize = 0;
    proof {
        assert(all@ =~= old(all)@ + more@.take(0));
    }
    while i < more.len()
        invariant
            i <= more@.len(),
            all@ == old(all)@ + more@.take(i as int),
        decreases more@.len() - i,
    {
        all.push(more[i]);
        i += 1;
        proof {
            assert(all@ =~= old(all)@ + more@.take(i as int));
        }
    }
    proof {
        assert(more@.take(more@.len() as int) =~= more@);
    }
}

impl HistoryLaidOut {
    fn count_items(&mut self, count: usize) -> (r: Vec<ListChange>)
        ensures
            *final(self) == old(self).counted(count),
            r@ == old(self).count_changes(count),
    {
        let mut changes: Vec<ListChange> = Vec::new();
        if self.count != count {
            changes.push(ListChange::Reset { count });
            *self = HistoryLaidOut {
                count,
                open: None,
                compiled: false,
                table: TableSync { reply: 0, table: 0, layout: None, edit: 0 },
            };
        }
        proof {
            assert(changes@ =~= old(self).count_changes(count));
        }
        changes
    }

    fn open_item(&mut self, open: Option<usize>, compiled: bool) -> (r: Vec<ListChange>)
        requires
            old(self).wf(),
            open is Some ==> open->0 < old(self).count,
            old(self).count + block_len(old(self).table.held()) <= usize::MAX,
        ensures
            *final(self) == old(self).opened(open, compiled),
            r@ == old(self).open_changes(open),
    {
        let mut changes: Vec<ListChange> = Vec::new();
        if self.open != open {
            if let Some(was) = self.open {
                let held: usize = match self.table.layout {
                    Some(layout) => layout.items(),
                    None => 0,
                };
                changes.push(
                    ListChange::Splice { start: was + 1, end: was + 1 + (held + 3), count: 0 },
                );
                changes.push(ListChange::Remeasure { start: was, end: was + 1 });
            }
            proof {
                assert(changes@ =~= self.close_changes());
            }
            if let Some(open) = open {
                changes.push(ListChange::Splice { start: open + 1, end: open + 1, count: 3 });
                changes.push(ListChange::Remeasure { start: open, end: open + 1 });
            }
            *self = HistoryLaidOut {
                count: self.count,
                open,
                compiled,
                table: TableSync { reply: 0, table: 0, layout: None, edit: 0 },
            };
        }
        proof {
            assert(changes@ =~= old(self).open_changes(open));
        }
        changes
    }

    fn update_item(
        &mut self,
        open: usize,
        item: &OpenItem,
        reply: &Reply,
        parsed: &Vec<MarkdownKey>,
    ) -> (r: Vec<ListChange>)
        requires
            old(self).wf(),
            reply.wf(),
            open < old(self).count,
            item.layout.wf(),
            old(self).count + block_len(old(self).table.held()) <= usize::MAX,
            old(self).count + block_len(item.layout.count()) <= usize::MAX,
        ensures
            *final(self) == (HistoryLaidOut {
                compiled: item.compiled,
                table: TableSync {
                    reply: reply@.uid,
                    table: item.task_ix,
                    layout: Some(item.layout),
                    edit: reply@.edit,
                },
                ..*old(self)
            }),
            r@ == old(self).head_changes(
                open,
                item.compiled,
                item.prompt_parsed,
                reply@.rows().len() == 0,
            ) + old(self).table.told(open + 3, item.task_ix, reply@, item.layout, parsed@),
    {
        let mut changes: Vec<ListChange> = Vec::new();
        if item.compiled != self.compiled || item.prompt_parsed {
            changes.push(ListChange::Remeasure { start: open + 1, end: open + 2 });
        }
        // "No output." stands in the header's place, for as long as there is
        // none.
        let was_empty = match self.table.layout {
            Some(layout) => layout.items() == 0,
            None => false,
        };
        let empty = reply.row_count() == 0;
        if was_empty != empty {
            changes.push(ListChange::Remeasure { start: open + 2, end: open + 3 });
        }
        proof {
            assert(changes@ =~= self.head_changes(
                open,
                item.compiled,
                item.prompt_parsed,
                empty,
            ));
        }
        self.compiled = item.compiled;
        let more = self.table.update(open + 3, item.task_ix, reply, item.layout, parsed);
        append(&mut changes, &more);
        changes
    }

    /// Lays the list out for `count` items with `open` open, returning what it
    /// is to be told: when items come or go, when an item opens or closes, and
    /// what of the open item's prompt and table changed. `item` is what is
    /// known of the open item, and `reply` its reply.
    pub fn lay_out(
        &mut self,
        count: usize,
        open: Option<usize>,
        item: Option<OpenItem>,
        reply: &Reply,
        parsed: &Vec<MarkdownKey>,
    ) -> (r: Vec<ListChange>)
        requires
            old(self).wf(),
            reply.wf(),
            open is Some <==> item is Some,
            open is Some ==> open->0 < count,
            old(self).count + block_len(old(self).table.held()) <= usize::MAX,
            count + 3 <= usize::MAX,
            item is Some ==> item->0.layout.wf() && count + block_len(item->0.layout.count())
                <= usize::MAX,
        ensures
            *final(self) == laid_for(*old(self), count, open, item, reply@),
            r@ == told_for(*old(self), count, open, item, reply@, parsed@),
            final(self).wf(),
    {
        let mut changes = self.count_items(count);
        let compiled = match &item {
            Some(item) => item.compiled,
            None => false,
        };
        let more = self.open_item(open, compiled);
        append(&mut changes, &more);
        if let Some(item) = item {
            if let Some(open) = open {
                let more = self.update_item(open, &item, reply, parsed);
                append(&mut changes, &more);
            }
        }
        proof {
            assert(changes@ =~= told_for(*old(self), count, open, item, reply@, parsed@));
        }
        changes
    }
}

// ---------------------------------------------------------------------------
// What a list laid out comes to
// ---------------------------------------------------------------------------

proof fn lemma_len_one(len: int, change: ListChange)
    ensures
        len_after_all(len, seq![change]) == len_after(len, change),
{
    reveal_with_fuel(len_after_all, 2);
    assert(seq![change].drop_last() =~= seq![]);
}

proof fn lemma_len_none(len: int)
    ensures
        len_after_all(len, seq![]) == Some(len),
{
}

proof fn lemma_close_changes(laid: HistoryLaidOut)
    requires
        laid.wf(),
        laid.count + block_len(laid.table.held()) <= usize::MAX,
    ensures
        len_after_all(laid.len(), laid.close_changes()) == Some(laid.count as int),
{
    if let Some(was) = laid.open {
        let splice = ListChange::Splice {
            start: (was + 1) as usize,
            end: (was + 1 + block_len(laid.table.held())) as usize,
            count: 0,
        };
        let measure = ListChange::Remeasure { start: was, end: (was + 1) as usize };
        lemma_len_one(laid.len(), splice);
        lemma_len_one(laid.count as int, measure);
        lemma_len_after_add(laid.len(), seq![splice], seq![measure]);
        assert(laid.close_changes() =~= seq![splice] + seq![measure]);
    }
}

proof fn lemma_open_changes(laid: HistoryLaidOut, open: Option<usize>)
    requires
        laid.wf(),
        laid.count + block_len(laid.table.held()) <= usize::MAX,
        laid.count + 3 <= usize::MAX,
        open is Some ==> open->0 < laid.count,
    ensures
        len_after_all(laid.len(), laid.open_changes(open)) == Some(
            laid.opened(open, false).len(),
        ),
{
    if laid.open != open {
        lemma_close_changes(laid);
        let len = laid.count as int;
        match open {
            Some(at) => {
                let splice = ListChange::Splice {
                    start: (at + 1) as usize,
                    end: (at + 1) as usize,
                    count: 3,
                };
                let measure = ListChange::Remeasure { start: at, end: (at + 1) as usize };
                lemma_len_one(len, splice);
                lemma_len_one(len + 3, measure);
                lemma_len_after_add(len, seq![splice], seq![measure]);
                let both = seq![splice, measure];
                assert(both =~= seq![splice] + seq![measure]);
                lemma_len_after_add(laid.len(), laid.close_changes(), both);
                assert(laid.open_changes(open) =~= laid.close_changes() + both);
            },
            None => {
                assert(laid.open_changes(open) =~= laid.close_changes());
            },
        }
    } else {
        lemma_len_none(laid.len());
    }
}

proof fn lemma_head_changes(
    laid: HistoryLaidOut,
    open: usize,
    compiled: bool,
    prompt_parsed: bool,
    empty: bool,
    len: int,
)
    requires
        open + 3 <= len,
        len <= usize::MAX,
    ensures
        len_after_all(len, laid.head_changes(open, compiled, prompt_parsed, empty)) == Some(len),
{
    let first = if compiled != laid.compiled || prompt_parsed {
        seq![ListChange::Remeasure { start: (open + 1) as usize, end: (open + 2) as usize }]
    } else {
        seq![]
    };
    let second = if (laid.table.layout is Some && laid.table.layout->0.count() == 0) != empty {
        seq![ListChange::Remeasure { start: (open + 2) as usize, end: (open + 3) as usize }]
    } else {
        seq![]
    };
    lemma_len_one(
        len,
        ListChange::Remeasure { start: (open + 1) as usize, end: (open + 2) as usize },
    );
    lemma_len_one(
        len,
        ListChange::Remeasure { start: (open + 2) as usize, end: (open + 3) as usize },
    );
    lemma_len_none(len);
    lemma_len_after_add(len, first, second);
}

/// A history list told what changed has a row for each item's heading and for
/// each row of the open item's block, and is never told of rows it doesn't
/// have.
pub proof fn the_list_keeps_up_with_the_history(
    before: HistoryLaidOut,
    count: usize,
    open: Option<usize>,
    item: Option<OpenItem>,
    reply: ReplyView,
    parsed: Seq<MarkdownKey>,
)
    requires
        before.wf(),
        open is Some <==> item is Some,
        open is Some ==> open->0 < count,
        before.count + block_len(before.table.held()) <= usize::MAX,
        count + 3 <= usize::MAX,
        item is Some ==> item->0.layout.wf() && count + block_len(item->0.layout.count())
            <= usize::MAX,
    ensures
        len_after_all(before.len(), told_for(before, count, open, item, reply, parsed)) == Some(
            laid_for(before, count, open, item, reply).len(),
        ),
{
    let compiled = item is Some && item->0.compiled;
    let counted = before.counted(count);
    let now = counted.opened(open, compiled);
    let first = before.count_changes(count);
    let second = counted.open_changes(open);
    if before.count != count {
        lemma_len_one(before.len(), ListChange::Reset { count });
    } else {
        lemma_len_none(before.len());
    }
    lemma_open_changes(counted, open);
    assert(now.len() == counted.opened(open, false).len());
    lemma_len_after_add(before.len(), first, second);
    if open is Some && item is Some {
        let head = now.head_changes(
            open->0,
            compiled,
            item->0.prompt_parsed,
            reply.rows().len() == 0,
        );
        let table = now.table.told(open->0 + 3, item->0.task_ix, reply, item->0.layout, parsed);
        lemma_head_changes(
            now,
            open->0,
            compiled,
            item->0.prompt_parsed,
            reply.rows().len() == 0,
            now.len(),
        );
        the_list_keeps_up_with_the_table(
            now.table,
            open->0 + 3,
            item->0.task_ix,
            reply,
            item->0.layout,
            parsed,
            count - open->0,
        );
        lemma_len_after_add(now.len(), head, table);
        lemma_len_after_add(before.len(), first + second, head + table);
        assert(told_for(before, count, open, item, reply, parsed) =~= first + second + (head
            + table));
    } else {
        assert(told_for(before, count, open, item, reply, parsed) =~= first + second);
    }
}

} // verus!
