//! A run of the harness as a table of everything it did: a row for each piece
//! of reply text, tool call, and error, in order, filling in as the reply
//! streams. Every table is a list that is told only what changed, so drawing
//! one costs no more than drawing the rows in view.
use vstd::prelude::*;
use crate::paths::text_of;
use crate::reply::{last_tool, OutputRow, Reply, ReplyView, RowView, RAW_TAIL_LINES};
use crate::text::{all_white, chars_of, concat, concat_of, decimal, decimal_of, is_all_white, lines,
    lines_of, string_of, views};
use crate::theme::{Hue, Icon};
use crate::tools::{opt_str, ToolCallView, ToolKind, ToolState};

pub use crate::reply::{ReplyPart, RAW_LINE_CHARS};
pub use crate::tools::{code_block, relative_to_project, ToolCall};

verus! {

// ---------------------------------------------------------------------------
// Badges and statuses
// ---------------------------------------------------------------------------

/// How a badge is coloured.
#[derive(Clone, Copy, Debug, PartialEq, Eq, Structural)]
pub enum Tone {
    Secondary,
    Danger,
    Hue(Hue),
}

/// The kind of a row, as shown beside it.
#[derive(Clone, Copy)]
pub struct Badge {
    pub tone: Tone,
    pub icon: Icon,
    pub label: &'static str,
}

/// A row's badge, or none while its kind is not yet known.
pub open spec fn badge_of(row: RowView) -> Option<(Tone, Icon, Seq<char>)> {
    match row {
        RowView::Text(_) => Some((Tone::Secondary, Icon::MessageSquare, "Reply"@)),
        RowView::Tool(call) => Some(
            (Tone::Hue(call.kind().hue_shown()), call.kind().icon_shown(), call.kind().label_text()),
        ),
        RowView::Error(_) => Some((Tone::Danger, Icon::TriangleAlert, "Error"@)),
        RowView::Pending => None,
    }
}

/// The kind of a row, as a badge in its own colour, or none, for a skeleton,
/// while the kind is not yet known.
pub fn badge(row: &OutputRow<'_>) -> (r: Option<Badge>)
    ensures
        match r {
            Some(badge) => badge_of(row@) == Some((badge.tone, badge.icon, badge.label@)),
            None => badge_of(row@) is None,
        },
{
    match row {
        OutputRow::Text(_) => Some(
            Badge { tone: Tone::Secondary, icon: Icon::MessageSquare, label: "Reply" },
        ),
        OutputRow::Tool(call) => {
            let kind = ToolKind::of(&call.name);
            Some(Badge { tone: Tone::Hue(kind.hue()), icon: kind.icon(), label: kind.label() })
        },
        OutputRow::Error(_) => Some(
            Badge { tone: Tone::Danger, icon: Icon::TriangleAlert, label: "Error" },
        ),
        OutputRow::Pending => None,
    }
}

/// A row's status: a tool call's state. Other rows have none.
pub open spec fn status_of(row: RowView) -> Option<ToolState> {
    match row {
        RowView::Tool(call) => Some(call.state),
        _ => None,
    }
}

/// A tool call's state, for the status column. Other rows have none.
pub fn row_status(row: &OutputRow<'_>) -> (r: Option<ToolState>)
    ensures
        r == status_of(row@),
{
    match row {
        OutputRow::Tool(call) => Some(call.state),
        _ => None,
    }
}

// ---------------------------------------------------------------------------
// What a row shows
// ---------------------------------------------------------------------------

/// What the output column of a row shows.
pub enum Detail {
    /// The harness's latest raw output.
    RawTail,
    /// Reply text, as the markdown it was written as. What is code within a line
    /// of it is still to be marked as the view shows it.
    Text(String),
    /// A command, laid out across lines and highlighted.
    Command(String),
    /// A known tool whose input is on its way.
    Skeleton,
    Tool(ToolDetail),
    Error(String),
}

/// What is shown of a tool call.
pub struct ToolDetail {
    pub name: Option<String>,
    /// Whether the raw output stands in for its input.
    pub raw_tail: bool,
    pub summary: Option<String>,
    /// The file the summary opens when clicked.
    pub opens: Option<String>,
}

pub enum DetailView {
    RawTail,
    Text(Seq<char>),
    Command(Seq<char>),
    Skeleton,
    Tool {
        name: Option<Seq<char>>,
        raw_tail: bool,
        summary: Option<Seq<char>>,
        opens: Option<Seq<char>>,
    },
    Error(Seq<char>),
}

impl View for Detail {
    type V = DetailView;

    open spec fn view(&self) -> DetailView {
        match self {
            Detail::RawTail => DetailView::RawTail,
            Detail::Text(text) => DetailView::Text(text@),
            Detail::Command(command) => DetailView::Command(command@),
            Detail::Skeleton => DetailView::Skeleton,
            Detail::Tool(tool) => DetailView::Tool {
                name: text_of(tool.name),
                raw_tail: tool.raw_tail,
                summary: text_of(tool.summary),
                opens: text_of(tool.opens),
            },
            Detail::Error(error) => DetailView::Error(error@),
        }
    }
}

pub open spec fn call_detail(
    call: ToolCallView,
    project_dir: Option<Seq<char>>,
    can_open: bool,
) -> DetailView {
    let summary = call.summary_shown(project_dir);
    if summary is Some && call.kind() == ToolKind::Command {
        DetailView::Command(summary->0)
    } else if summary is None && call.partial() && call.kind().pending_text() is Some {
        DetailView::Skeleton
    } else {
        DetailView::Tool {
            name: call.name_shown(),
            raw_tail: call.partial(),
            summary,
            opens: if can_open && call.on_a_file() {
                call.summary
            } else {
                None
            },
        }
    }
}

pub open spec fn detail_of(
    row: RowView,
    project_dir: Option<Seq<char>>,
    can_open: bool,
) -> DetailView {
    match row {
        RowView::Text(text) => if all_white(text) {
            DetailView::RawTail
        } else {
            DetailView::Text(text)
        },
        RowView::Pending => DetailView::RawTail,
        RowView::Tool(call) => call_detail(call, project_dir, can_open),
        RowView::Error(error) => DetailView::Error(error),
    }
}

fn copy_of(s: &Option<String>) -> (r: Option<String>)
    ensures
        text_of(r) == text_of(*s),
{
    match s {
        Some(s) => Some(s.clone()),
        None => None,
    }
}

/// What the output column of a row shows, `can_open` saying that files can be
/// opened from it.
pub fn detail(row: &OutputRow<'_>, project_dir: Option<&str>, can_open: bool) -> (r: Detail)
    ensures
        r@ == detail_of(row@, opt_str(project_dir), can_open),
{
    match row {
        OutputRow::Text(text) => if is_all_white(&chars_of(text)) {
            Detail::RawTail
        } else {
            Detail::Text((*text).to_owned())
        },
        OutputRow::Pending => Detail::RawTail,
        OutputRow::Tool(call) => {
            let partial = row.is_partial();
            let summary = call.shown_summary(project_dir);
            let known = ToolKind::of(&call.name).pending_input().is_some();
            match summary {
                Some(command) => if call.is_command() {
                    Detail::Command(command)
                } else {
                    tool_detail(call, partial, Some(command), can_open)
                },
                None => if partial && known {
                    Detail::Skeleton
                } else {
                    tool_detail(call, partial, None, can_open)
                },
            }
        },
        OutputRow::Error(error) => Detail::Error((*error).to_owned()),
    }
}

fn tool_detail(call: &ToolCall, partial: bool, summary: Option<String>, can_open: bool) -> (r:
    Detail)
    ensures
        r@ == (DetailView::Tool {
            name: call@.name_shown(),
            raw_tail: partial,
            summary: text_of(summary),
            opens: if can_open && call@.on_a_file() {
                call@.summary
            } else {
                None
            },
        }),
{
    let name = match call.shown_name() {
        Some(name) => Some(name.to_owned()),
        None => None,
    };
    let opens = if can_open && call.works_on_a_file() {
        copy_of(&call.summary)
    } else {
        None
    };
    Detail::Tool(ToolDetail { name, raw_tail: partial, summary, opens })
}

/// Whether the end of the output, where the raw tail is, was in view when last
/// laid out: `below` is whether the last of its `count` items is below the view,
/// when that item is measured, and `laid_out` whether the list has been laid
/// out.
pub fn end_in_view(count: usize, below: Option<bool>, laid_out: bool) -> (b: bool)
    ensures
        b == (count == 0 || (match below {
            Some(below) => !below,
            // Not measured: off screen once the list has been laid out, since
            // everything in view is measured; otherwise not yet known.
            None => !laid_out,
        })),
{
    if count == 0 {
        return true;
    }
    match below {
        Some(below) => !below,
        None => !laid_out,
    }
}

/// What is said while nothing of the harness has arrived.
pub const WAITING: &'static str = "Waiting for the harness…";

/// A line standing in for output that has yet to arrive, `ix` of so many: the
/// raw output's, or that the harness is waited for, or only a no-break space,
/// which keeps a line with nothing in it a line tall.
pub fn raw_tail_line(reply: &Reply, ix: usize) -> (r: String)
    requires
        ix < RAW_TAIL_LINES,
    ensures
        r@ == (if ix < reply@.raw_tail.len() {
            reply@.raw_tail[ix as int]
        } else if ix == 0 {
            WAITING@
        } else {
            "\u{a0}"@
        }),
{
    if ix < reply.raw_tail.len() {
        proof {
            assert(reply@.raw_tail[ix as int] == reply.raw_tail@[ix as int]@);
        }
        reply.raw_tail[ix].clone()
    } else if ix == 0 {
        WAITING.to_owned()
    } else {
        "\u{a0}".to_owned()
    }
}

// ---------------------------------------------------------------------------
// The latest row
// ---------------------------------------------------------------------------

/// What the thing the harness is doing now is shown as, on a single line.
pub enum Latest {
    NoOutput,
    /// The last line of its text.
    Line(String),
    /// The harness's latest raw line.
    Raw(String),
    /// A tool call: its name, where it is shown, and its input.
    Tool(Option<String>, String),
    /// What is waited for: a tool call's input, with the tool's name where that
    /// is shown, or the harness, while there is no raw line either.
    Waiting(Option<String>, &'static str),
    /// A tool call of no known kind whose input is on its way, and the
    /// harness's latest raw line.
    RawTool(Option<String>, String),
    Error(String),
}

pub enum LatestView {
    NoOutput,
    Line(Seq<char>),
    Raw(Seq<char>),
    Tool(Option<Seq<char>>, Seq<char>),
    Waiting(Option<Seq<char>>, Seq<char>),
    RawTool(Option<Seq<char>>, Seq<char>),
    Error(Seq<char>),
}

impl View for Latest {
    type V = LatestView;

    open spec fn view(&self) -> LatestView {
        match self {
            Latest::NoOutput => LatestView::NoOutput,
            Latest::Line(line) => LatestView::Line(line@),
            Latest::Raw(line) => LatestView::Raw(line@),
            Latest::Tool(name, input) => LatestView::Tool(text_of(*name), input@),
            Latest::Waiting(name, label) => LatestView::Waiting(text_of(*name), label@),
            Latest::RawTool(name, line) => LatestView::RawTool(text_of(*name), line@),
            Latest::Error(error) => LatestView::Error(error@),
        }
    }
}

/// The first line from `i` on with anything in it, or nothing.
pub open spec fn first_told(lines: Seq<Seq<char>>, i: int) -> Seq<char>
    decreases lines.len() - i,
{
    if i < 0 || i >= lines.len() {
        seq![]
    } else if all_white(lines[i]) {
        first_told(lines, i + 1)
    } else {
        lines[i]
    }
}

/// The last line with anything in it, or nothing.
pub open spec fn last_told(lines: Seq<Seq<char>>) -> Seq<char>
    decreases lines.len(),
{
    if lines.len() == 0 {
        seq![]
    } else if all_white(lines.last()) {
        last_told(lines.drop_last())
    } else {
        lines.last()
    }
}

/// The first line of `text` with anything in it.
pub fn first_line(text: &str) -> (r: String)
    ensures
        r@ == first_told(lines(text@), 0),
{
    let all = lines_of(&chars_of(text));
    let ghost told = views(all@);
    let mut i: usize = 0;
    while i < all.len()
        invariant
            i <= all@.len(),
            told == views(all@),
            told == lines(text@),
            first_told(told, i as int) == first_told(told, 0),
        decreases all@.len() - i,
    {
        proof {
            assert(told[i as int] == all@[i as int]@);
        }
        if !is_all_white(&all[i]) {
            return string_of(&all[i]);
        }
        i += 1;
    }
    let nothing = String::new();
    proof {
        assert(nothing@ =~= seq![]);
    }
    nothing
}

/// The last line of `text` with anything in it.
pub fn last_line(text: &str) -> (r: String)
    ensures
        r@ == last_told(lines(text@)),
{
    let all = lines_of(&chars_of(text));
    let ghost told = views(all@);
    let mut i: usize = all.len();
    proof {
        assert(told.take(i as int) =~= told);
    }
    while i > 0
        invariant
            i <= all@.len(),
            told == views(all@),
            told == lines(text@),
            last_told(told.take(i as int)) == last_told(told),
        decreases i,
    {
        proof {
            assert(told.take(i as int).last() == all@[i - 1]@);
            assert(told.take(i as int).drop_last() =~= told.take(i - 1));
        }
        i -= 1;
        if !is_all_white(&all[i]) {
            return string_of(&all[i]);
        }
    }
    let nothing = String::new();
    proof {
        assert(nothing@ =~= seq![]);
    }
    nothing
}

/// The harness's latest raw line.
pub open spec fn latest_raw(reply: ReplyView) -> Option<Seq<char>> {
    if reply.raw_tail.len() > 0 {
        Some(reply.raw_tail.last())
    } else {
        None
    }
}

/// The harness's latest raw line, or that it is waited for.
pub open spec fn raw_or_waiting(raw: Option<Seq<char>>) -> LatestView {
    match raw {
        Some(line) => LatestView::Raw(line),
        None => LatestView::Waiting(None, WAITING@),
    }
}

pub open spec fn latest_of_row(
    row: RowView,
    raw: Option<Seq<char>>,
    project_dir: Option<Seq<char>>,
) -> LatestView {
    match row {
        RowView::Text(text) => if all_white(text) {
            raw_or_waiting(raw)
        } else {
            LatestView::Line(last_told(lines(text)))
        },
        RowView::Tool(call) => match call.summary {
            Some(summary) => LatestView::Tool(
                call.name_shown(),
                crate::tools::relative(summary, project_dir),
            ),
            None => match call.kind().pending_text() {
                Some(label) => LatestView::Waiting(call.name_shown(), label),
                None => match raw {
                    Some(line) => LatestView::RawTool(call.name_shown(), line),
                    None => LatestView::Waiting(call.name_shown(), WAITING@),
                },
            },
        },
        RowView::Error(error) => LatestView::Error(first_told(lines(error), 0)),
        RowView::Pending => raw_or_waiting(raw),
    }
}

pub open spec fn latest_of(reply: ReplyView, project_dir: Option<Seq<char>>) -> LatestView {
    if reply.rows().len() == 0 {
        LatestView::NoOutput
    } else {
        latest_of_row(reply.row(reply.rows().len() - 1), latest_raw(reply), project_dir)
    }
}

fn raw_line(reply: &Reply) -> (r: Option<String>)
    ensures
        text_of(r) == latest_raw(reply@),
{
    let n = reply.raw_tail.len();
    proof {
        assert(reply@.raw_tail.len() == n);
        if n > 0 {
            assert(reply@.raw_tail.last() == reply.raw_tail@[n - 1]@);
        }
    }
    if n > 0 {
        Some(reply.raw_tail[n - 1].clone())
    } else {
        None
    }
}

fn raw_or_wait(reply: &Reply) -> (r: Latest)
    ensures
        r@ == raw_or_waiting(latest_raw(reply@)),
{
    match raw_line(reply) {
        Some(line) => Latest::Raw(line),
        None => Latest::Waiting(None, WAITING),
    }
}

/// A reply's latest row, the thing the harness is doing now, on a single line:
/// the last line of its text, a tool call's name and input, or the harness's
/// latest raw output while nothing else is known.
pub fn latest_row(reply: &Reply, project_dir: Option<&str>) -> (r: Latest)
    requires
        reply.wf(),
    ensures
        r@ == latest_of(reply@, opt_str(project_dir)),
{
    let row = match reply.last_row() {
        Some(row) => row,
        None => {
            return Latest::NoOutput;
        },
    };
    match row {
        OutputRow::Text(text) => if is_all_white(&chars_of(text)) {
            raw_or_wait(reply)
        } else {
            Latest::Line(last_line(text))
        },
        OutputRow::Tool(call) => {
            let name = match call.shown_name() {
                Some(name) => Some(name.to_owned()),
                None => None,
            };
            match &call.summary {
                Some(summary) => Latest::Tool(name, relative_to_project(summary, project_dir)),
                None => match ToolKind::of(&call.name).pending_input() {
                    Some(label) => Latest::Waiting(name, label),
                    None => match raw_line(reply) {
                        Some(line) => Latest::RawTool(name, line),
                        None => Latest::Waiting(name, WAITING),
                    },
                },
            }
        },
        OutputRow::Error(error) => Latest::Error(first_line(error)),
        OutputRow::Pending => raw_or_wait(reply),
    }
}

/// What the status column of a reply's latest row shows.
#[derive(Clone, Copy, Debug, PartialEq, Eq, Structural)]
pub enum LatestStatus {
    Nothing,
    State(ToolState),
    Spinner,
}

pub open spec fn latest_status_of(reply: ReplyView) -> LatestStatus {
    if reply.rows().len() == 0 {
        LatestStatus::Nothing
    } else {
        match status_of(reply.row(reply.rows().len() - 1)) {
            Some(state) => LatestStatus::State(state),
            None => if reply.done {
                LatestStatus::Nothing
            } else {
                LatestStatus::Spinner
            },
        }
    }
}

/// What the status column of a reply's latest row shows: a row with no status of
/// its own shows a spinner while the reply streams.
pub fn latest_status(reply: &Reply) -> (r: LatestStatus)
    requires
        reply.wf(),
    ensures
        r == latest_status_of(reply@),
{
    match reply.last_row() {
        Some(row) => match row_status(&row) {
            Some(state) => LatestStatus::State(state),
            None => if reply.is_done() {
                LatestStatus::Nothing
            } else {
                LatestStatus::Spinner
            },
        },
        None => LatestStatus::Nothing,
    }
}

// ---------------------------------------------------------------------------
// Markdown
// ---------------------------------------------------------------------------

/// What a piece of markdown is of.
#[derive(Clone, Copy, Debug, PartialEq, Eq, Structural)]
pub enum MarkdownKind {
    Prompt,
    Output,
    Command,
}

/// Where a piece of markdown is shown.
#[derive(Clone, Copy, Debug, PartialEq, Eq, Structural)]
pub struct MarkdownKey {
    pub kind: MarkdownKind,
    pub table: usize,
    pub row: usize,
}

/// Where a task's compiled prompt's markdown is kept.
pub fn prompt_key(task_ix: usize) -> (r: MarkdownKey)
    ensures
        r == (MarkdownKey { kind: MarkdownKind::Prompt, table: task_ix, row: 0 }),
{
    MarkdownKey { kind: MarkdownKind::Prompt, table: task_ix, row: 0 }
}

/// The markdown a row shows, and of what. A reply's text is as it was written:
/// what is code within a line of it is still to be marked as the view shows it.
pub open spec fn markdown_of(row: RowView, project_dir: Option<Seq<char>>) -> Option<
    (MarkdownKind, Seq<char>),
> {
    match row {
        RowView::Text(text) => if all_white(text) {
            None
        } else {
            Some((MarkdownKind::Output, text))
        },
        RowView::Tool(call) => if call.kind() == ToolKind::Command && call.summary is Some {
            Some((MarkdownKind::Command, call.summary_shown(project_dir)->0))
        } else {
            None
        },
        _ => None,
    }
}

/// The markdown row `ix` shows, and where it's shown, for a table numbered
/// `table`. A reply's text is handed on as it was written, and what is code
/// within a line of it is still to be marked as the view shows it.
pub fn row_markdown(reply: &Reply, table: usize, ix: usize, project_dir: Option<&str>) -> (r: Option<
    (MarkdownKey, String),
>)
    requires
        reply.wf(),
    ensures
        match r {
            Some((key, text)) => ix < reply@.rows().len() && markdown_of(
                reply@.row(ix as int),
                opt_str(project_dir),
            ) == Some((key.kind, text@)) && key.table == table && key.row == ix,
            None => ix < reply@.rows().len() ==> markdown_of(
                reply@.row(ix as int),
                opt_str(project_dir),
            ) is None,
        },
{
    let row = match reply.row(ix) {
        Some(row) => row,
        None => {
            return None;
        },
    };
    match row {
        OutputRow::Text(text) => if is_all_white(&chars_of(text)) {
            None
        } else {
            Some((MarkdownKey { kind: MarkdownKind::Output, table, row: ix }, text.to_owned()))
        },
        OutputRow::Tool(call) => if call.is_command() {
            match call.shown_summary(project_dir) {
                Some(text) => Some(
                    (MarkdownKey { kind: MarkdownKind::Command, table, row: ix }, text),
                ),
                None => None,
            }
        } else {
            None
        },
        _ => None,
    }
}

// ---------------------------------------------------------------------------
// Layout
// ---------------------------------------------------------------------------

/// How a table's rows sit in a list: each row in turn, or, with its steps
/// collapsed behind a row that shows or hides them, that row first, then any
/// steps shown, then the rest.
#[derive(Clone, Copy, Debug, PartialEq, Eq, Structural)]
pub struct Layout {
    pub rows: usize,
    /// How many steps there are, if they collapse.
    pub steps: Option<usize>,
    /// Whether steps that collapse are shown.
    pub shown: bool,
}

/// What an item of a table's list shows.
#[derive(Clone, Copy, Debug, PartialEq, Eq, Structural)]
pub enum Item {
    Steps,
    Row(usize),
}

/// How a reply's rows sit in a list: with `steps_shown`, a finished reply's
/// rows up to its last tool call collapse, unless there's nothing after it.
pub open spec fn layout_of(reply: ReplyView, steps_shown: Option<bool>) -> Layout {
    let rows = reply.rows().len();
    let last = last_tool(reply.parts, reply.rows());
    if steps_shown is Some && reply.done && last is Some && last->0 + 1 < rows {
        Layout {
            rows: rows as usize,
            steps: Some((last->0 + 1) as usize),
            shown: steps_shown->0,
        }
    } else {
        Layout { rows: rows as usize, steps: None, shown: false }
    }
}

impl Layout {
    pub open spec fn wf(self) -> bool {
        self.rows < usize::MAX && match self.steps {
            Some(steps) => 0 < steps < self.rows,
            None => true,
        }
    }

    pub open spec fn count(self) -> int {
        match self.steps {
            None => self.rows as int,
            Some(steps) => if self.shown {
                self.rows + 1
            } else {
                self.rows - steps + 1
            },
        }
    }

    pub open spec fn item_at(self, item: int) -> Item {
        match self.steps {
            None => Item::Row(item as usize),
            Some(steps) => if item == 0 {
                Item::Steps
            } else if self.shown {
                Item::Row((item - 1) as usize)
            } else {
                Item::Row((item - 1 + steps) as usize)
            },
        }
    }

    pub open spec fn place(self, row: int) -> Option<int> {
        match self.steps {
            None => Some(row),
            Some(steps) => if self.shown {
                Some(row + 1)
            } else if row >= steps {
                Some(row - steps + 1)
            } else {
                None
            },
        }
    }

    /// With `steps_shown`, a finished reply's rows up to its last tool call
    /// collapse, unless there's nothing after it.
    pub fn of(reply: &Reply, steps_shown: Option<bool>) -> (r: Layout)
        requires
            reply.wf(),
            reply@.rows().len() < usize::MAX,
        ensures
            r == layout_of(reply@, steps_shown),
            r.wf(),
    {
        let rows = reply.row_count();
        if let Some(shown) = steps_shown {
            if reply.is_done() {
                if let Some(last) = reply.last_tool_row {
                    if last < rows && last + 1 < rows {
                        proof {
                            crate::reply::last_tool_is_a_row(reply@);
                        }
                        return Layout { rows, steps: Some(last + 1), shown };
                    }
                }
            }
        }
        proof {
            crate::reply::last_tool_is_a_row(reply@);
        }
        Layout { rows, steps: None, shown: false }
    }

    /// How many items it takes in a list.
    pub fn items(&self) -> (n: usize)
        requires
            self.wf(),
        ensures
            n == self.count(),
    {
        match self.steps {
            None => self.rows,
            Some(steps) => if self.shown {
                self.rows + 1
            } else {
                self.rows - steps + 1
            },
        }
    }

    /// What an item shows.
    pub fn item(&self, item: usize) -> (r: Item)
        requires
            self.wf(),
            item < self.count(),
        ensures
            r == self.item_at(item as int),
    {
        match self.steps {
            None => Item::Row(item),
            Some(steps) => if item == 0 {
                Item::Steps
            } else if self.shown {
                Item::Row(item - 1)
            } else {
                Item::Row(item - 1 + steps)
            },
        }
    }

    /// The item row `row` is, unless it's a step collapsed away.
    pub fn item_of(&self, row: usize) -> (r: Option<usize>)
        requires
            row < usize::MAX,
        ensures
            crate::reply::as_int(r) == self.place(row as int),
    {
        match self.steps {
            None => Some(row),
            Some(steps) => if self.shown {
                Some(row + 1)
            } else if row >= steps {
                Some(row - steps + 1)
            } else {
                None
            },
        }
    }
}

/// Every row shown has an item, which shows it, and every item but the one for
/// the steps shows the row it has.
pub proof fn rows_and_items_match(layout: Layout, row: int, item: int)
    requires
        layout.wf(),
        0 <= row < layout.rows,
        0 <= item < layout.count(),
    ensures
        layout.place(row) is Some ==> 0 <= layout.place(row)->0 < layout.count()
            && layout.item_at(layout.place(row)->0) == Item::Row(row as usize),
        layout.item_at(item) matches Item::Row(shown) ==> shown < layout.rows && layout.place(
            shown as int,
        ) == Some(item),
        layout.item_at(item) == Item::Steps <==> layout.steps is Some && item == 0,
{
}

pub open spec fn steps_text(shown: bool, count: nat) -> Seq<char> {
    concat(
        seq![
            if shown {
                "Hide "@
            } else {
                "Show "@
            },
            decimal(count),
            if count == 1 {
                " step"@
            } else {
                " steps"@
            },
        ],
    )
}

/// What the row that shows or hides a table's `count` steps says.
pub fn steps_label(shown: bool, count: usize) -> (r: String)
    ensures
        r@ == steps_text(shown, count as nat),
{
    let digits = string_of(&decimal_of(count as u128));
    let verb = if shown {
        "Hide "
    } else {
        "Show "
    };
    let noun = if count == 1 {
        " step"
    } else {
        " steps"
    };
    let parts: Vec<&str> = vec![verb, &digits, noun];
    proof {
        assert(views(parts@) =~= seq![verb@, digits@, noun@]);
    }
    concat_of(parts)
}

// ---------------------------------------------------------------------------
// Keeping a list up to date
// ---------------------------------------------------------------------------

/// Something a list is told of its items.
#[derive(Clone, Copy, Debug, PartialEq, Eq, Structural)]
pub enum ListChange {
    /// The items from `start` up to `end` are replaced with so many new ones.
    Splice { start: usize, end: usize, count: usize },
    /// The items from `start` up to `end` are to be measured again.
    Remeasure { start: usize, end: usize },
    /// There are so many items, all new.
    Reset { count: usize },
}

/// What a list was last told of a table's rows, so it can be told only what
/// changed since.
#[derive(Clone, Copy)]
pub struct TableSync {
    pub reply: u64,
    pub table: usize,
    pub layout: Option<Layout>,
    pub edit: u64,
}

impl Default for TableSync {
    fn default() -> (r: TableSync)
        ensures
            r == (TableSync { reply: 0, table: 0, layout: None, edit: 0 }),
    {
        TableSync { reply: 0, table: 0, layout: None, edit: 0 }
    }
}

/// Row `row`'s item, if it has one, to be measured again.
pub open spec fn remeasured(layout: Layout, base: int, row: int) -> Seq<ListChange> {
    match layout.place(row) {
        Some(item) => if item < layout.count() {
            seq![
                ListChange::Remeasure {
                    start: (base + item) as usize,
                    end: (base + item + 1) as usize,
                },
            ]
        } else {
            seq![]
        },
        None => seq![],
    }
}

pub open spec fn remeasured_each(layout: Layout, base: int, rows: Seq<usize>) -> Seq<ListChange>
    decreases rows.len(),
{
    if rows.len() == 0 {
        seq![]
    } else {
        remeasured_each(layout, base, rows.drop_last()) + remeasured(
            layout,
            base,
            rows.last() as int,
        )
    }
}

/// The rows of a table among the markdown that finished parsing.
pub open spec fn parsed_rows(parsed: Seq<MarkdownKey>, table: usize) -> Seq<usize>
    decreases parsed.len(),
{
    if parsed.len() == 0 {
        seq![]
    } else if parsed.last().table == table && parsed.last().kind != MarkdownKind::Prompt {
        parsed_rows(parsed.drop_last(), table).push(parsed.last().row)
    } else {
        parsed_rows(parsed.drop_last(), table)
    }
}

impl TableSync {
    /// How many items the list has for the table.
    pub open spec fn held(self) -> int {
        match self.layout {
            Some(layout) => layout.count(),
            None => 0,
        }
    }

    pub open spec fn wf(self) -> bool {
        self.layout is Some ==> self.layout->0.wf()
    }

    /// Whether the list holds the same table of the same reply, in the same
    /// shape.
    pub open spec fn holds(self, reply: ReplyView, table: usize, layout: Layout) -> bool {
        self.reply == reply.uid && self.table == table && self.layout is Some
            && self.layout->0.steps == layout.steps && self.layout->0.shown == layout.shown
    }

    /// What the list is told.
    pub open spec fn told(
        self,
        base: int,
        table: usize,
        reply: ReplyView,
        layout: Layout,
        parsed: Seq<MarkdownKey>,
    ) -> Seq<ListChange> {
        let had = self.held();
        let new = layout.count();
        if !self.holds(reply, table, layout) {
            seq![
                ListChange::Splice {
                    start: base as usize,
                    end: (base + had) as usize,
                    count: new as usize,
                },
            ]
        } else {
            let kept = if had < new {
                had
            } else {
                new
            };
            (if new != had {
                seq![
                    ListChange::Splice {
                        start: (base + kept) as usize,
                        end: (base + had) as usize,
                        count: (new - kept) as usize,
                    },
                ]
            } else {
                seq![]
            }) + remeasured_each(
                layout,
                base,
                crate::reply::changed_after(reply.changes, self.edit),
            ) + remeasured_each(layout, base, parsed_rows(parsed, table))
        }
    }

    /// Forgets what the list was told, so that the table is drawn afresh, scrolled
    /// to the top. Returns what the list is told.
    pub fn forget(&mut self) -> (r: ListChange)
        ensures
            *final(self) == (TableSync { reply: 0, table: 0, layout: None, edit: 0 }),
            r == (ListChange::Reset { count: 0 }),
    {
        *self = TableSync::default();
        ListChange::Reset { count: 0 }
    }

    /// Whether the list was last told of the table numbered `table` showing the
    /// reply with `uid`.
    pub open spec fn drawn_for(self, table: usize, uid: u64) -> bool {
        self.reply == uid && self.table == table
    }

    /// What a list that holds nothing but the table is told to draw it: another
    /// task's output starts afresh, at its top.
    pub open spec fn drawn(
        self,
        table: usize,
        reply: ReplyView,
        layout: Layout,
        parsed: Seq<MarkdownKey>,
    ) -> Seq<ListChange> {
        if self.drawn_for(table, reply.uid) {
            self.told(0, table, reply, layout, parsed)
        } else {
            seq![ListChange::Reset { count: 0 }] + (TableSync {
                reply: 0,
                table: 0,
                layout: None,
                edit: 0,
            }).told(0, table, reply, layout, parsed)
        }
    }

    /// What the list of the table numbered `table`, showing `reply` and nothing
    /// else, is to be told. Another task's output starts afresh, at its top.
    pub fn draw(
        &mut self,
        table: usize,
        reply: &Reply,
        layout: Layout,
        parsed: &Vec<MarkdownKey>,
    ) -> (r: Vec<ListChange>)
        requires
            old(self).wf(),
            layout.wf(),
        ensures
            *final(self) == (TableSync {
                reply: reply@.uid,
                table,
                layout: Some(layout),
                edit: reply@.edit,
            }),
            r@ == old(self).drawn(table, reply@, layout, parsed@),
    {
        let mut r: Vec<ListChange> = Vec::new();
        if self.reply != reply.uid || self.table != table {
            r.push(ListChange::Reset { count: 0 });
            *self = TableSync::default();
        }
        let mut more = self.update(0, table, reply, layout, parsed);
        r.append(&mut more);
        proof {
            assert(r@ =~= old(self).drawn(table, reply@, layout, parsed@));
        }
        r
    }

    /// What a list, where the table numbered `table` showing `reply` takes the
    /// items from `base` on, is to be told: rows added or gone, rows that
    /// changed or whose markdown finished parsing, which are measured again,
    /// or a different reply or a different shape, which replaces its items.
    pub fn update(
        &mut self,
        base: usize,
        table: usize,
        reply: &Reply,
        layout: Layout,
        parsed: &Vec<MarkdownKey>,
    ) -> (r: Vec<ListChange>)
        requires
            old(self).wf(),
            layout.wf(),
            base + old(self).held() <= usize::MAX,
            base + layout.count() <= usize::MAX,
        ensures
            *final(self) == (TableSync {
                reply: reply@.uid,
                table,
                layout: Some(layout),
                edit: reply@.edit,
            }),
            r@ == old(self).told(base as int, table, reply@, layout, parsed@),
    {
        let had: usize = match self.layout {
            Some(layout) => layout.items(),
            None => 0,
        };
        let new = layout.items();
        let same = match self.layout {
            Some(was) => self.reply == reply.uid && self.table == table && was.steps
                == layout.steps && was.shown == layout.shown,
            None => false,
        };
        let mut r: Vec<ListChange> = Vec::new();
        if !same {
            r.push(ListChange::Splice { start: base, end: base + had, count: new });
            *self = TableSync { reply: reply.uid, table, layout: Some(layout), edit: reply.edit };
            proof {
                assert(r@ =~= old(self).told(base as int, table, reply@, layout, parsed@));
            }
            return r;
        }
        let kept: usize = if had < new {
            had
        } else {
            new
        };
        if new != had {
            r.push(
                ListChange::Splice { start: base + kept, end: base + had, count: new - kept },
            );
        }
        let ghost spliced = r@;
        let changed = reply.changed_since(self.edit);
        remeasure_each(&mut r, &layout, base, &changed);
        let mut rows: Vec<usize> = Vec::new();
        let mut i: usize = 0;
        proof {
            assert(rows@ =~= parsed_rows(parsed@.take(0), table));
        }
        while i < parsed.len()
            invariant
                i <= parsed@.len(),
                rows@ == parsed_rows(parsed@.take(i as int), table),
            decreases parsed@.len() - i,
        {
            if parsed[i].table == table && parsed[i].kind != MarkdownKind::Prompt {
                rows.push(parsed[i].row);
            }
            i += 1;
            proof {
                assert(parsed@.take(i as int).drop_last() =~= parsed@.take(i - 1));
                assert(parsed@.take(i as int).last() == parsed@[i - 1]);
            }
        }
        proof {
            assert(parsed@.take(parsed@.len() as int) =~= parsed@);
        }
        remeasure_each(&mut r, &layout, base, &rows);
        *self = TableSync { reply: reply.uid, table, layout: Some(layout), edit: reply.edit };
        proof {
            assert(r@ =~= old(self).told(base as int, table, reply@, layout, parsed@));
        }
        r
    }
}

fn remeasure_each(changes: &mut Vec<ListChange>, layout: &Layout, base: usize, rows: &Vec<usize>)
    requires
        layout.wf(),
        base + layout.count() <= usize::MAX,
    ensures
        final(changes)@ == old(changes)@ + remeasured_each(*layout, base as int, rows@),
{
    let count = layout.items();
    let mut i: usize = 0;
    proof {
        assert(changes@ =~= old(changes)@ + remeasured_each(*layout, base as int, rows@.take(0)));
    }
    while i < rows.len()
        invariant
            i <= rows@.len(),
            layout.wf(),
            count == layout.count(),
            base + layout.count() <= usize::MAX,
            changes@ == old(changes)@ + remeasured_each(
                *layout,
                base as int,
                rows@.take(i as int),
            ),
        decreases rows@.len() - i,
    {
        let ghost before = changes@;
        let row = rows[i];
        // A row numbered past any there can be has no item.
        if row < usize::MAX {
            if let Some(item) = layout.item_of(row) {
                if item < count {
                    changes.push(
                        ListChange::Remeasure { start: base + item, end: base + item + 1 },
                    );
                }
            }
        }
        i += 1;
        proof {
            assert(changes@ =~= before + remeasured(*layout, base as int, row as int));
            assert(rows@.take(i as int).drop_last() =~= rows@.take(i - 1));
            assert(rows@.take(i as int).last() == row);
            assert(changes@ =~= old(changes)@ + remeasured_each(
                *layout,
                base as int,
                rows@.take(i as int),
            ));
        }
    }
    proof {
        assert(rows@.take(rows@.len() as int) =~= rows@);
    }
}

// ---------------------------------------------------------------------------
// What a list told the changes comes to
// ---------------------------------------------------------------------------

/// How many items a list of `len` has once it is told a change, or none when it
/// can't be told it: it has no such items.
pub open spec fn len_after(len: int, change: ListChange) -> Option<int> {
    match change {
        ListChange::Splice { start, end, count } => if start <= end <= len {
            Some(len - (end - start) + count)
        } else {
            None
        },
        ListChange::Remeasure { start, end } => if start <= end <= len {
            Some(len)
        } else {
            None
        },
        ListChange::Reset { count } => Some(count as int),
    }
}

/// How many items a list of `len` has once it is told some changes in turn.
pub open spec fn len_after_all(len: int, changes: Seq<ListChange>) -> Option<int>
    decreases changes.len(),
{
    if changes.len() == 0 {
        Some(len)
    } else {
        match len_after_all(len, changes.drop_last()) {
            Some(len) => len_after(len, changes.last()),
            None => None,
        }
    }
}

pub proof fn lemma_len_after_add(len: int, first: Seq<ListChange>, second: Seq<ListChange>)
    ensures
        len_after_all(len, first + second) == (match len_after_all(len, first) {
            Some(len) => len_after_all(len, second),
            None => None,
        }),
    decreases second.len(),
{
    if second.len() == 0 {
        assert(first + second =~= first);
    } else {
        lemma_len_after_add(len, first, second.drop_last());
        assert((first + second).drop_last() =~= first + second.drop_last());
    }
}

proof fn lemma_remeasured_each(layout: Layout, base: int, rows: Seq<usize>, len: int)
    requires
        layout.wf(),
        0 <= base,
        base + layout.count() <= len,
        base + layout.count() <= usize::MAX,
    ensures
        len_after_all(len, remeasured_each(layout, base, rows)) == Some(len),
    decreases rows.len(),
{
    if rows.len() > 0 {
        lemma_remeasured_each(layout, base, rows.drop_last(), len);
        let last = remeasured(layout, base, rows.last() as int);
        lemma_len_after_add(len, remeasured_each(layout, base, rows.drop_last()), last);
        if last.len() > 0 {
            assert(last.drop_last() =~= seq![]);
            assert(len_after_all(len, last.drop_last()) == Some(len));
        }
    }
}

/// A list told what changed has the table's items, as many as its layout takes,
/// in place of those it had, and is never told of items it doesn't have.
pub proof fn the_list_keeps_up_with_the_table(
    sync: TableSync,
    base: int,
    table: usize,
    reply: ReplyView,
    layout: Layout,
    parsed: Seq<MarkdownKey>,
    rest: int,
)
    requires
        sync.wf(),
        layout.wf(),
        0 <= base,
        0 <= rest,
        base + sync.held() <= usize::MAX,
        base + layout.count() <= usize::MAX,
    ensures
        len_after_all(
            base + sync.held() + rest,
            sync.told(base, table, reply, layout, parsed),
        ) == Some(base + layout.count() + rest),
{
    let had = sync.held();
    let new = layout.count();
    let start = base + had + rest;
    let now = base + new + rest;
    reveal_with_fuel(len_after_all, 2);
    if sync.holds(reply, table, layout) {
        let kept = if had < new {
            had
        } else {
            new
        };
        let splice: Seq<ListChange> = if new != had {
            seq![
                ListChange::Splice {
                    start: (base + kept) as usize,
                    end: (base + had) as usize,
                    count: (new - kept) as usize,
                },
            ]
        } else {
            seq![]
        };
        let changed = remeasured_each(
            layout,
            base,
            crate::reply::changed_after(reply.changes, sync.edit),
        );
        let parsed_changes = remeasured_each(layout, base, parsed_rows(parsed, table));
        if new != had {
            assert(splice.drop_last() =~= seq![]);
        }
        assert(len_after_all(start, splice) == Some(now));
        lemma_remeasured_each(
            layout,
            base,
            crate::reply::changed_after(reply.changes, sync.edit),
            now,
        );
        lemma_remeasured_each(layout, base, parsed_rows(parsed, table), now);
        lemma_len_after_add(start, splice, changed);
        lemma_len_after_add(start, splice + changed, parsed_changes);
        assert(sync.told(base, table, reply, layout, parsed) == splice + changed + parsed_changes);
    } else {
        let told = sync.told(base, table, reply, layout, parsed);
        assert(told.drop_last() =~= seq![]);
    }
}

/// A list that draws one table has that table's items and no others, whatever
/// table it drew before.
pub proof fn a_table_drawn_has_its_items(
    sync: TableSync,
    table: usize,
    reply: ReplyView,
    layout: Layout,
    parsed: Seq<MarkdownKey>,
)
    requires
        sync.wf(),
        layout.wf(),
    ensures
        len_after_all(sync.held(), sync.drawn(table, reply, layout, parsed)) == Some(
            layout.count(),
        ),
{
    let fresh = TableSync { reply: 0, table: 0, layout: None, edit: 0 };
    if sync.drawn_for(table, reply.uid) {
        the_list_keeps_up_with_the_table(sync, 0, table, reply, layout, parsed, 0);
    } else {
        the_list_keeps_up_with_the_table(fresh, 0, table, reply, layout, parsed, 0);
        let reset = seq![ListChange::Reset { count: 0 }];
        reveal_with_fuel(len_after_all, 2);
        assert(reset.drop_last() =~= seq![]);
        lemma_len_after_add(sync.held(), reset, fresh.told(0, table, reply, layout, parsed));
    }
}

/// Whether a list is told to measure an item again.
pub open spec fn measures_again(changes: Seq<ListChange>, item: int) -> bool {
    exists|k: int|
        0 <= k < changes.len() && #[trigger] changes[k] == (ListChange::Remeasure {
            start: item as usize,
            end: (item + 1) as usize,
        })
}

proof fn lemma_measured_each(layout: Layout, base: int, rows: Seq<usize>, row: usize)
    requires
        rows.contains(row),
        layout.place(row as int) is Some,
        layout.place(row as int)->0 < layout.count(),
    ensures
        measures_again(
            remeasured_each(layout, base, rows),
            base + layout.place(row as int)->0,
        ),
    decreases rows.len(),
{
    let rest = rows.drop_last();
    let before = remeasured_each(layout, base, rest);
    let now = remeasured_each(layout, base, rows);
    let item = base + layout.place(row as int)->0;
    if rows.last() == row {
        let k = before.len() as int;
        assert(now[k] == (ListChange::Remeasure {
            start: item as usize,
            end: (item + 1) as usize,
        }));
    } else {
        let k = choose|k: int| 0 <= k < rows.len() && rows[k] == row;
        assert(rest[k] == row);
        lemma_measured_each(layout, base, rest, row);
        let j = choose|j: int|
            0 <= j < before.len() && #[trigger] before[j] == (ListChange::Remeasure {
                start: item as usize,
                end: (item + 1) as usize,
            });
        assert(now[j] == before[j]);
    }
}

/// Whether a row's markdown is among what finished parsing: its text, or its command.
pub open spec fn row_parsed(parsed: Seq<MarkdownKey>, table: usize, row: usize) -> bool {
    exists|k: int|
        0 <= k < parsed.len() && (#[trigger] parsed[k]).table == table && parsed[k].row == row
            && (parsed[k].kind == MarkdownKind::Output || parsed[k].kind == MarkdownKind::Command)
}

proof fn lemma_parsed_rows_have(parsed: Seq<MarkdownKey>, table: usize, row: usize)
    requires
        row_parsed(parsed, table, row),
    ensures
        parsed_rows(parsed, table).contains(row),
    decreases parsed.len(),
{
    let k = choose|k: int|
        0 <= k < parsed.len() && (#[trigger] parsed[k]).table == table && parsed[k].row == row && (
        parsed[k].kind == MarkdownKind::Output || parsed[k].kind == MarkdownKind::Command);
    let rest = parsed.drop_last();
    let before = parsed_rows(rest, table);
    let now = parsed_rows(parsed, table);
    if k == parsed.len() - 1 {
        assert(now[now.len() - 1] == row);
    } else {
        assert(rest[k] == parsed[k]);
        lemma_parsed_rows_have(rest, table, row);
        let j = choose|j: int| 0 <= j < before.len() && before[j] == row;
        assert(now[j] == row);
    }
}

/// A list that holds a table is told to measure again each row of it that changed since
/// it was last told, and each whose markdown finished parsing, unless the row is
/// collapsed away.
pub proof fn rows_that_changed_are_measured_again(
    sync: TableSync,
    base: int,
    table: usize,
    reply: ReplyView,
    layout: Layout,
    parsed: Seq<MarkdownKey>,
    row: usize,
)
    requires
        sync.holds(reply, table, layout),
        crate::reply::changed_after(reply.changes, sync.edit).contains(row) || row_parsed(
            parsed,
            table,
            row,
        ),
        layout.place(row as int) is Some,
        layout.place(row as int)->0 < layout.count(),
    ensures
        measures_again(
            sync.told(base, table, reply, layout, parsed),
            base + layout.place(row as int)->0,
        ),
{
    let told = sync.told(base, table, reply, layout, parsed);
    let changed = remeasured_each(
        layout,
        base,
        crate::reply::changed_after(reply.changes, sync.edit),
    );
    let more = remeasured_each(layout, base, parsed_rows(parsed, table));
    let n = told.len() - changed.len() - more.len();
    let item = base + layout.place(row as int)->0;
    let change = ListChange::Remeasure { start: item as usize, end: (item + 1) as usize };
    if crate::reply::changed_after(reply.changes, sync.edit).contains(row) {
        lemma_measured_each(
            layout,
            base,
            crate::reply::changed_after(reply.changes, sync.edit),
            row,
        );
        let k = choose|k: int| 0 <= k < changed.len() && #[trigger] changed[k] == change;
        assert(told[n + k] == change);
    } else {
        lemma_parsed_rows_have(parsed, table, row);
        lemma_measured_each(layout, base, parsed_rows(parsed, table), row);
        let k = choose|k: int| 0 <= k < more.len() && #[trigger] more[k] == change;
        assert(told[n + changed.len() + k] == change);
    }
}

/// The steps that collapse are a finished reply's rows up to its last tool call, where
/// there are rows after it and steps are to collapse at all.
pub proof fn steps_are_the_rows_up_to_the_last_call(reply: ReplyView, shown: Option<bool>)
    requires
        reply.rows().len() < usize::MAX,
    ensures
        ({
            let layout = layout_of(reply, shown);
            let rows = reply.rows();
            &&& layout.rows == rows.len()
            &&& match layout.steps {
                Some(steps) => {
                    &&& reply.done && shown is Some && layout.shown == shown->0
                    &&& 0 < steps < rows.len()
                    &&& reply.row(steps - 1) is Tool
                    &&& forall|k: int| steps <= k < rows.len() ==> !(#[trigger] reply.row(k) is Tool)
                },
                None => {
                    ||| !reply.done
                    ||| shown is None
                    ||| forall|k: int|
                        0 <= k < rows.len() - 1 && (#[trigger] reply.row(k)) is Tool ==> exists|j: int|
                            k < j < rows.len() && (#[trigger] reply.row(j)) is Tool
                },
            }
        }),
{
    let rows = reply.rows();
    crate::reply::last_tool_is_a_row(reply);
    crate::reply::lemma_rows_are_parts(reply.parts, reply.done);
    lemma_last_tool_row(reply, rows.len() as int);
    assert(rows.take(rows.len() as int) =~= rows);
}

proof fn lemma_last_tool_row(reply: ReplyView, n: int)
    requires
        0 <= n <= reply.rows().len(),
        forall|j: int|
            0 <= j < reply.rows().len() ==> (#[trigger] reply.rows()[j] is None || 0
                <= reply.rows()[j]->0 < reply.parts.len()),
    ensures
        match last_tool(reply.parts, reply.rows().take(n)) {
            Some(at) => 0 <= at < n && reply.row(at) is Tool && forall|k: int|
                at < k < n ==> !(#[trigger] reply.row(k) is Tool),
            None => forall|k: int| 0 <= k < n ==> !(#[trigger] reply.row(k) is Tool),
        },
    decreases n,
{
    if n > 0 {
        lemma_last_tool_row(reply, n - 1);
        let rows = reply.rows();
        assert(rows.take(n).drop_last() =~= rows.take(n - 1));
        assert(rows.take(n).last() == rows[n - 1]);
        assert(rows[n - 1] is None || 0 <= rows[n - 1]->0 < reply.parts.len());
        assert(reply.row(n - 1) is Tool == crate::reply::tool_row(reply.parts, rows[n - 1]));
    }
}

// ---------------------------------------------------------------------------
// Lines that stand for more
// ---------------------------------------------------------------------------

/// Whether a line has anything in it but white space.
pub open spec fn says_something(line: Seq<char>) -> bool {
    exists|k: int| 0 <= k < line.len() && !crate::text::white(#[trigger] line[k])
}

proof fn lemma_says_something(line: Seq<char>)
    ensures
        says_something(line) == !all_white(line),
{
    if !all_white(line) {
        let k = choose|k: int| 0 <= k < line.len() && !crate::text::white(#[trigger] line[k]);
        assert(!crate::text::white(line[k]));
    }
    if says_something(line) {
        let k = choose|k: int| 0 <= k < line.len() && !crate::text::white(#[trigger] line[k]);
        assert(!crate::text::white(line[k]));
    }
}

/// The line that heads a text is the first that says something.
pub proof fn the_first_line_that_says_something_heads(lines: Seq<Seq<char>>, k: int)
    requires
        0 <= k < lines.len(),
        says_something(lines[k]),
        forall|j: int| 0 <= j < k ==> !says_something(#[trigger] lines[j]),
    ensures
        first_told(lines, 0) == lines[k],
{
    lemma_first_told(lines, 0, k);
}

proof fn lemma_first_told(lines: Seq<Seq<char>>, i: int, k: int)
    requires
        0 <= i <= k < lines.len(),
        says_something(lines[k]),
        forall|j: int| 0 <= j < k ==> !says_something(#[trigger] lines[j]),
    ensures
        first_told(lines, i) == lines[k],
    decreases k - i,
{
    lemma_says_something(lines[i]);
    if i < k {
        assert(!says_something(lines[i]));
        lemma_first_told(lines, i + 1, k);
    }
}

/// The line that stands for the latest of a text is the last that says something.
pub proof fn the_last_line_that_says_something_stands(lines: Seq<Seq<char>>, k: int)
    requires
        0 <= k < lines.len(),
        says_something(lines[k]),
        forall|j: int| k < j < lines.len() ==> !says_something(#[trigger] lines[j]),
    ensures
        last_told(lines) == lines[k],
    decreases lines.len(),
{
    let last = lines.len() - 1;
    lemma_says_something(lines[last]);
    if k < last {
        assert(!says_something(lines[last]));
        let rest = lines.drop_last();
        assert(rest[k] == lines[k]);
        assert forall|j: int| k < j < rest.len() implies !says_something(#[trigger] rest[j]) by {
            assert(rest[j] == lines[j]);
        }
        the_last_line_that_says_something_stands(rest, k);
    }
}

} // verus!
