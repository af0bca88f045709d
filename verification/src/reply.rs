//! A harness reply as it streams in: what was said and done, and the rows it is
//! shown as. A reply keeps its rows as its events arrive, and notes which rows
//! changed, so a table of them only has rows measured again when they are new
//! or changed.
use std::collections::VecDeque;
use vstd::prelude::*;
use crate::harness::HarnessEvent;
use crate::paths::text_of;
use crate::text::{all_white, chars_of, is_all_white, piece, push_str, same, string_of,
    views};
use crate::tools::{ToolCall, ToolCallView, ToolState};

verus! {

/// How many lines of the harness's latest raw output stand in for output
/// that has yet to arrive, and how much of each line is kept.
pub const RAW_TAIL_LINES: usize = 3;

pub const RAW_LINE_CHARS: usize = 400;

// ---------------------------------------------------------------------------
// Parts
// ---------------------------------------------------------------------------

/// Something said or done in a reply.
pub enum ReplyPart {
    Text(String),
    Tool(ToolCall),
    Error(String),
}

pub enum PartView {
    Text(Seq<char>),
    Tool(ToolCallView),
    Error(Seq<char>),
}

impl View for ReplyPart {
    type V = PartView;

    open spec fn view(&self) -> PartView {
        match self {
            ReplyPart::Text(text) => PartView::Text(text@),
            ReplyPart::Tool(call) => PartView::Tool(call@),
            ReplyPart::Error(error) => PartView::Error(error@),
        }
    }
}

pub open spec fn part_views(v: Seq<ReplyPart>) -> Seq<PartView> {
    v.map_values(|p: ReplyPart| p@)
}

/// Whether a part is text with nothing in it.
pub open spec fn blank(part: PartView) -> bool {
    part is Text && all_white(part->Text_0)
}

/// Whether a part is still waiting on some of what it shows: text with no
/// words yet, or a running tool call whose input is not yet known.
pub open spec fn partial(part: PartView) -> bool {
    match part {
        PartView::Text(text) => all_white(text),
        PartView::Tool(call) => call.partial(),
        PartView::Error(error) => false,
    }
}

// ---------------------------------------------------------------------------
// Rows
// ---------------------------------------------------------------------------

/// What a row shows.
#[derive(Clone, Copy, Debug, PartialEq, Eq, Structural)]
pub enum RowSource {
    Part(usize),
    /// The harness is still at work, and nothing is known of what comes next.
    Pending,
}

impl RowSource {
    /// Whether it shows a part before `part`.
    fn shows_part_before(self, part: usize) -> (b: bool)
        ensures
            b == (self matches RowSource::Part(shown) && shown < part),
    {
        match self {
            RowSource::Part(shown) => shown < part,
            RowSource::Pending => false,
        }
    }
}

/// The part each row shows, or none for a pending row.
pub open spec fn sources(rows: Seq<RowSource>) -> Seq<Option<int>> {
    rows.map_values(
        |row: RowSource|
            match row {
                RowSource::Part(part) => Some(part as int),
                RowSource::Pending => None,
            },
    )
}

/// The rows of the first `n` parts once they are shown, or left out, for good:
/// text with nothing in it is left out.
pub open spec fn kept_rows(parts: Seq<PartView>, n: int) -> Seq<Option<int>>
    decreases n,
{
    if n <= 0 {
        seq![]
    } else if blank(parts[n - 1]) {
        kept_rows(parts, n - 1)
    } else {
        kept_rows(parts, n - 1).push(Some(n - 1))
    }
}

/// The rows of a reply's parts: blank text is left out, unless it is the last
/// thing in a reply still streaming.
pub open spec fn part_rows(parts: Seq<PartView>, done: bool) -> Seq<Option<int>> {
    let last = parts.len() - 1;
    if last < 0 {
        seq![]
    } else if blank(parts[last]) && done {
        kept_rows(parts, last)
    } else {
        kept_rows(parts, last).push(Some(last))
    }
}

/// Whether some rows end in one still filling in.
pub open spec fn ends_partial(parts: Seq<PartView>, rows: Seq<Option<int>>) -> bool {
    rows.len() > 0 && (match rows.last() {
        Some(part) => partial(parts[part]),
        None => true,
    })
}

/// The rows of a reply, in the order they happened. Until the reply is done, it
/// ends in a row that is still filling in: a pending row if the last is already
/// complete.
pub open spec fn rows_of(parts: Seq<PartView>, done: bool) -> Seq<Option<int>> {
    let rows = part_rows(parts, done);
    if !done && !ends_partial(parts, rows) {
        rows.push(None)
    } else {
        rows
    }
}

/// What a row shows.
pub enum RowView {
    Text(Seq<char>),
    Tool(ToolCallView),
    Error(Seq<char>),
    Pending,
}

pub open spec fn row_of_source(parts: Seq<PartView>, source: Option<int>) -> RowView {
    match source {
        Some(part) => match parts[part] {
            PartView::Text(text) => RowView::Text(text),
            PartView::Tool(call) => RowView::Tool(call),
            PartView::Error(error) => RowView::Error(error),
        },
        None => RowView::Pending,
    }
}

/// A row of a task's output table.
#[derive(Debug, PartialEq)]
pub enum OutputRow<'a> {
    /// Reply text; empty while its first words are on their way.
    Text(&'a str),
    Tool(&'a ToolCall),
    Error(&'a str),
    /// The harness is still at work, and nothing is known of what comes next.
    Pending,
}

impl<'a> View for OutputRow<'a> {
    type V = RowView;

    open spec fn view(&self) -> RowView {
        match self {
            OutputRow::Text(text) => RowView::Text(text@),
            OutputRow::Tool(call) => RowView::Tool(call@),
            OutputRow::Error(error) => RowView::Error(error@),
            OutputRow::Pending => RowView::Pending,
        }
    }
}

pub open spec fn row_partial(row: RowView) -> bool {
    match row {
        RowView::Text(text) => all_white(text),
        RowView::Tool(call) => call.partial(),
        RowView::Error(error) => false,
        RowView::Pending => true,
    }
}

impl<'a> OutputRow<'a> {
    /// Whether the row is still waiting on part of what it shows: text with no
    /// words yet, or a running tool call whose input is not yet known.
    pub fn is_partial(&self) -> (b: bool)
        ensures
            b == row_partial(self@),
    {
        match self {
            OutputRow::Text(text) => is_all_white(&chars_of(text)),
            OutputRow::Tool(call) => call.summary.is_none() && call.state == ToolState::Running,
            OutputRow::Error(_) => false,
            OutputRow::Pending => true,
        }
    }
}

/// Whether a row is a tool call.
pub open spec fn tool_row(parts: Seq<PartView>, source: Option<int>) -> bool {
    source is Some && 0 <= source->0 < parts.len() && parts[source->0] is Tool
}

/// The last row that is a tool call.
pub open spec fn last_tool(parts: Seq<PartView>, rows: Seq<Option<int>>) -> Option<int>
    decreases rows.len(),
{
    if rows.len() == 0 {
        None
    } else if tool_row(parts, rows.last()) {
        Some(rows.len() - 1)
    } else {
        last_tool(parts, rows.drop_last())
    }
}

/// Whether a row is the last that is a tool call.
spec fn is_last_tool(parts: Seq<PartView>, rows: Seq<Option<int>>, at: Option<int>) -> bool {
    match at {
        Some(at) => 0 <= at < rows.len() && tool_row(parts, rows[at]) && forall|j: int|
            at < j < rows.len() ==> !tool_row(parts, #[trigger] rows[j]),
        None => forall|j: int| 0 <= j < rows.len() ==> !tool_row(parts, #[trigger] rows[j]),
    }
}

proof fn lemma_last_tool(parts: Seq<PartView>, rows: Seq<Option<int>>, at: Option<int>)
    ensures
        is_last_tool(parts, rows, at) == (at == last_tool(parts, rows)),
    decreases rows.len(),
{
    if rows.len() > 0 {
        let rest = rows.drop_last();
        let last = rows.len() - 1;
        lemma_last_tool(parts, rest, at);
        assert(forall|j: int| 0 <= j < rest.len() ==> rest[j] == rows[j]);
        if tool_row(parts, rows[last]) {
            if is_last_tool(parts, rows, at) && at != Some(last) {
                assert(tool_row(parts, rows[last]));
            }
        } else {
            if is_last_tool(parts, rest, at) {
                assert(is_last_tool(parts, rows, at));
            }
            if is_last_tool(parts, rows, at) {
                match at {
                    Some(at) => {
                        assert(at != last);
                        assert forall|j: int| at < j < rest.len() implies !tool_row(
                            parts,
                            #[trigger] rest[j],
                        ) by {
                            assert(rest[j] == rows[j]);
                        }
                    },
                    None => {
                        assert forall|j: int| 0 <= j < rest.len() implies !tool_row(
                            parts,
                            #[trigger] rest[j],
                        ) by {
                            assert(rest[j] == rows[j]);
                        }
                    },
                }
                assert(is_last_tool(parts, rest, at));
            }
        }
    }
}

proof fn lemma_kept_rows(parts: Seq<PartView>, n: int)
    requires
        0 <= n <= parts.len(),
    ensures
        kept_rows(parts, n).len() <= n,
        forall|j: int|
            0 <= j < kept_rows(parts, n).len() ==> (#[trigger] kept_rows(parts, n)[j]) is Some && 0
                <= kept_rows(parts, n)[j]->0 < n,
    decreases n,
{
    if n > 0 {
        lemma_kept_rows(parts, n - 1);
        let before = kept_rows(parts, n - 1);
        let now = kept_rows(parts, n);
        assert forall|j: int| 0 <= j < now.len() implies (#[trigger] now[j]) is Some && 0
            <= now[j]->0 < n by {
            if j < before.len() {
                assert(now[j] == before[j]);
            }
        }
    }
}

/// Parts that are blank alike are kept alike.
proof fn lemma_kept_alike(one: Seq<PartView>, other: Seq<PartView>, n: int)
    requires
        0 <= n <= one.len(),
        n <= other.len(),
        forall|k: int| 0 <= k < n ==> blank(#[trigger] one[k]) == blank(other[k]),
    ensures
        kept_rows(one, n) == kept_rows(other, n),
    decreases n,
{
    if n > 0 {
        assert(blank(one[n - 1]) == blank(other[n - 1]));
        lemma_kept_alike(one, other, n - 1);
    }
}

// ---------------------------------------------------------------------------
// The reply
// ---------------------------------------------------------------------------

/// A harness reply as it streams in.
pub struct Reply {
    pub parts: Vec<ReplyPart>,
    /// The parts shown as the table's rows, in order.
    pub rows: Vec<RowSource>,
    /// Parts before this one are shown as rows, or left out, for good.
    pub settled_parts: usize,
    /// The last row that is a tool call.
    pub last_tool_row: Option<usize>,
    /// The harness's last few raw output lines, newest last, each cut short.
    pub raw_tail: VecDeque<String>,
    pub done: bool,
    /// Unique among replies, so a table drawn for one knows when it is given
    /// another.
    pub uid: u64,
    /// Counts the changes to its rows, starting over when it runs out.
    pub edit: u64,
    /// Each row that may have changed height, with the change it last changed
    /// at, in the order of those changes.
    pub changes: Vec<(u64, usize)>,
}

#[verifier::ext_equal]
pub struct ReplyView {
    pub parts: Seq<PartView>,
    pub raw_tail: Seq<Seq<char>>,
    pub done: bool,
    pub uid: u64,
    pub edit: u64,
    pub changes: Seq<(u64, usize)>,
}

impl View for Reply {
    type V = ReplyView;

    open spec fn view(&self) -> ReplyView {
        ReplyView {
            parts: part_views(self.parts@),
            raw_tail: views(self.raw_tail@),
            done: self.done,
            uid: self.uid,
            edit: self.edit,
            changes: self.changes@,
        }
    }
}

pub open spec fn as_int(n: Option<usize>) -> Option<int> {
    match n {
        Some(n) => Some(n as int),
        None => None,
    }
}

/// How many parts of so many are settled: all but the last.
pub open spec fn settled(len: nat) -> int {
    if len > 0 {
        len - 1
    } else {
        0
    }
}

impl ReplyView {
    /// A reply that nothing came of yet.
    pub open spec fn empty(uid: u64) -> ReplyView {
        ReplyView {
            parts: seq![],
            raw_tail: seq![],
            done: false,
            uid,
            edit: 0,
            changes: seq![],
        }
    }

    pub open spec fn rows(self) -> Seq<Option<int>> {
        rows_of(self.parts, self.done)
    }

    /// What row `ix` shows.
    pub open spec fn row(self, ix: int) -> RowView {
        row_of_source(self.parts, self.rows()[ix])
    }

    /// Row `ix` may have changed height.
    pub open spec fn touch(self, ix: int) -> ReplyView {
        let edit: u64 = if self.edit == u64::MAX {
            0
        } else {
            (self.edit + 1) as u64
        };
        let changes = if self.changes.len() > 0 && self.changes.last().1 == ix {
            self.changes.drop_last()
        } else {
            self.changes
        };
        ReplyView { edit, changes: changes.push((edit, ix as usize)), ..self }
    }

    /// Rows from `from` up to `to` may have changed height.
    pub open spec fn touch_range(self, from: int, to: int) -> ReplyView
        decreases to - from,
    {
        if to <= from {
            self
        } else {
            self.touch_range(from, to - 1).touch(to - 1)
        }
    }

    /// The rows are brought up to date with the parts, those of the first
    /// `settled` parts as they were.
    pub open spec fn refreshed(self, settled: int) -> ReplyView {
        self.touch_range(kept_rows(self.parts, settled).len() as int, self.rows().len() as int)
    }

    /// With one more part.
    pub open spec fn with_part(self, part: PartView) -> ReplyView {
        ReplyView { parts: self.parts.push(part), ..self }.refreshed(settled(self.parts.len()))
    }

    pub open spec fn tool_from(self, id: Seq<char>, n: int) -> Option<int>
        decreases n,
    {
        if n <= 0 {
            None
        } else {
            match self.parts[n - 1] {
                PartView::Tool(call) => if call.id == id {
                    Some(n - 1)
                } else {
                    self.tool_from(id, n - 1)
                },
                _ => self.tool_from(id, n - 1),
            }
        }
    }

    /// The part that is the latest call with an id.
    pub open spec fn tool(self, id: Seq<char>) -> Option<int> {
        self.tool_from(id, self.parts.len() as int)
    }

    /// The row part `part` is shown as, if it is shown, touched.
    pub open spec fn touch_part(self, rows: Seq<Option<int>>, part: int) -> ReplyView {
        match place_of(rows, part) {
            Some(row) => self.touch(row),
            None => self,
        }
    }

    /// A call's part made into another.
    pub open spec fn with_call(self, part: int, call: ToolCallView) -> ReplyView {
        ReplyView { parts: self.parts.update(part, PartView::Tool(call)), ..self }.touch_part(
            self.rows(),
            part,
        ).refreshed(settled(self.parts.len()))
    }

    /// The rows of the first `n` parts that are tool calls still running
    /// touched.
    pub open spec fn touch_running(self, rows: Seq<Option<int>>, n: int) -> ReplyView
        decreases n,
    {
        if n <= 0 {
            self
        } else if running(self.parts[n - 1]) {
            self.touch_running(rows, n - 1).touch_part(rows, n - 1)
        } else {
            self.touch_running(rows, n - 1)
        }
    }

    /// The run is over, and tool calls still running ended in `state`.
    pub open spec fn ended(self, state: ToolState) -> ReplyView {
        ReplyView {
            parts: ended_parts(self.parts, state),
            done: true,
            ..self.touch_running(self.rows(), self.parts.len() as int)
        }
    }

    pub open spec fn stopped(self, state: ToolState) -> ReplyView {
        self.ended(state).refreshed(settled(self.parts.len()))
    }

    /// Whether anything was said.
    pub open spec fn said(self) -> bool {
        exists|k: int|
            0 <= k < self.parts.len() && (#[trigger] self.parts[k]) is Text && !blank(
                self.parts[k],
            )
    }

    pub open spec fn with_line(self, line: Seq<char>) -> ReplyView {
        let tail = if self.raw_tail.len() == RAW_TAIL_LINES {
            self.raw_tail.skip(1)
        } else {
            self.raw_tail
        };
        ReplyView { raw_tail: tail.push(cut(line)), ..self }
    }

    pub open spec fn with_delta(self, delta: Seq<char>) -> ReplyView {
        let last = self.parts.len() - 1;
        if last >= 0 && self.parts[last] is Text {
            ReplyView {
                parts: self.parts.update(
                    last,
                    PartView::Text(self.parts[last]->Text_0 + delta),
                ),
                ..self
            }.refreshed(settled(self.parts.len()))
        } else {
            self.with_part(PartView::Text(delta))
        }
    }

    pub open spec fn finished(self, is_error: bool, result: Seq<char>) -> ReplyView {
        if is_error {
            self.stopped(ToolState::Failed)
        } else if !self.ended(ToolState::Done).said() && result.len() > 0 {
            self.ended(ToolState::Done).with_part(PartView::Text(result))
        } else {
            self.stopped(ToolState::Done)
        }
    }

    /// A harness event folded in.
    pub open spec fn applied(self, event: HarnessEvent) -> ReplyView {
        match event {
            HarnessEvent::Output(line) => self.with_line(line@),
            HarnessEvent::TextStarted => self.with_part(PartView::Text(seq![])),
            HarnessEvent::TextDelta(delta) => self.with_delta(delta@),
            HarnessEvent::ToolStarted { id, name } => self.with_part(
                PartView::Tool(
                    ToolCallView {
                        id: id@,
                        name: name@,
                        summary: None,
                        state: ToolState::Running,
                    },
                ),
            ),
            HarnessEvent::ToolInput { id, summary } => match self.tool(id@) {
                Some(part) => self.with_call(
                    part,
                    ToolCallView { summary: Some(summary@), ..self.parts[part]->Tool_0 },
                ),
                None => self.refreshed(settled(self.parts.len())),
            },
            HarnessEvent::ToolFinished { id, is_error } => match self.tool(id@) {
                Some(part) => self.with_call(
                    part,
                    ToolCallView { state: end_state(is_error), ..self.parts[part]->Tool_0 },
                ),
                None => self.refreshed(settled(self.parts.len())),
            },
            HarnessEvent::Finished { is_error, result } => self.finished(is_error, result@),
            HarnessEvent::Failed(error) => self.stopped(ToolState::Failed),
            _ => self,
        }
    }
}

/// The error to show for an event, when it says that the run failed.
pub open spec fn error_told(event: HarnessEvent) -> Option<Seq<char>> {
    match event {
        HarnessEvent::Finished { is_error, result } => if !is_error {
            None
        } else if result@.len() == 0 {
            Some("The harness reported an error."@)
        } else {
            Some(result@)
        },
        HarnessEvent::Failed(error) => Some(error@),
        _ => None,
    }
}

/// As much of a raw line as is kept.
pub open spec fn cut(line: Seq<char>) -> Seq<char> {
    if line.len() > RAW_LINE_CHARS {
        line.take(RAW_LINE_CHARS as int)
    } else {
        line
    }
}

pub open spec fn end_state(is_error: bool) -> ToolState {
    if is_error {
        ToolState::Failed
    } else {
        ToolState::Done
    }
}

/// Whether a part is a tool call still running.
pub open spec fn running(part: PartView) -> bool {
    part is Tool && part->Tool_0.state == ToolState::Running
}

pub open spec fn ended_part(part: PartView, state: ToolState) -> PartView {
    if running(part) {
        PartView::Tool(ToolCallView { state, ..part->Tool_0 })
    } else {
        part
    }
}

/// Parts with the tool calls still running ended in `state`.
pub open spec fn ended_parts(parts: Seq<PartView>, state: ToolState) -> Seq<PartView> {
    parts.map_values(|part: PartView| ended_part(part, state))
}

/// Where a part is among the rows.
pub open spec fn place_of(rows: Seq<Option<int>>, part: int) -> Option<int>
    decreases rows.len(),
{
    if rows.len() == 0 {
        None
    } else if rows.last() == Some(part) {
        Some(rows.len() - 1)
    } else {
        place_of(rows.drop_last(), part)
    }
}

impl Reply {
    /// Whether its rows are up to date with its parts.
    pub open spec fn wf(&self) -> bool {
        &&& sources(self.rows@) == self@.rows()
        &&& self.settled_parts == settled(self.parts@.len())
        &&& as_int(self.last_tool_row) == last_tool(self@.parts, self@.rows())
    }

    /// Whether the rows of its settled parts are up to date.
    spec fn settled_wf(&self) -> bool {
        let kept = kept_rows(self@.parts, self.settled_parts as int);
        let rows = sources(self.rows@);
        &&& self.settled_parts < self.parts@.len() || (self.settled_parts == 0
            && self.parts@.len() == 0)
        &&& kept.len() <= rows.len()
        &&& rows.take(kept.len() as int) == kept
        &&& forall|j: int|
            kept.len() <= j < rows.len() ==> (#[trigger] rows[j] is None || rows[j]->0
                >= self.settled_parts)
        &&& forall|j: int|
            0 <= j < rows.len() ==> (#[trigger] rows[j] is None || 0 <= rows[j]->0
                < self.parts@.len())
        &&& is_last_tool(self@.parts, rows, as_int(self.last_tool_row))
    }

    /// A reply that nothing came of yet, `uid` telling it apart.
    pub fn new(uid: u64) -> (r: Reply)
        ensures
            r.wf(),
            r@ == ReplyView::empty(uid),
    {
        let mut rows: Vec<RowSource> = Vec::new();
        rows.push(RowSource::Pending);
        let r = Reply {
            parts: Vec::new(),
            rows,
            settled_parts: 0,
            last_tool_row: None,
            raw_tail: VecDeque::new(),
            done: false,
            uid,
            edit: 0,
            changes: Vec::new(),
        };
        proof {
            assert(r@.parts =~= seq![]);
            assert(r@.raw_tail =~= seq![]);
            assert(r@.changes =~= seq![]);
            assert(part_rows(r@.parts, false) =~= seq![]);
            assert(r@.rows() =~= seq![None::<int>]);
            assert(sources(r.rows@) =~= seq![None::<int>]);
            lemma_last_tool(r@.parts, r@.rows(), None);
            assert(is_last_tool(r@.parts, r@.rows(), None));
        }
        r
    }

    /// How many rows its table has.
    pub fn row_count(&self) -> (n: usize)
        requires
            self.wf(),
        ensures
            n == self@.rows().len(),
    {
        proof {
            assert(sources(self.rows@).len() == self.rows@.len());
        }
        self.rows.len()
    }

    /// What the row a source gives shows.
    fn shown_by(&self, source: RowSource) -> (r: OutputRow<'_>)
        requires
            source matches RowSource::Part(part) ==> part < self.parts@.len(),
        ensures
            r@ == row_of_source(
                self@.parts,
                match source {
                    RowSource::Part(part) => Some(part as int),
                    RowSource::Pending => None,
                },
            ),
    {
        match source {
            RowSource::Pending => OutputRow::Pending,
            RowSource::Part(part) => {
                proof {
                    assert(self@.parts[part as int] == self.parts@[part as int]@);
                }
                match &self.parts[part] {
                    ReplyPart::Text(text) => OutputRow::Text(text),
                    ReplyPart::Tool(call) => OutputRow::Tool(call),
                    ReplyPart::Error(error) => OutputRow::Error(error),
                }
            },
        }
    }

    /// Row `ix` of its table.
    pub fn row(&self, ix: usize) -> (r: Option<OutputRow<'_>>)
        requires
            self.wf(),
        ensures
            match r {
                Some(row) => ix < self@.rows().len() && row@ == self@.row(ix as int),
                None => ix >= self@.rows().len(),
            },
    {
        proof {
            assert(sources(self.rows@).len() == self.rows@.len());
        }
        if ix >= self.rows.len() {
            return None;
        }
        let source = self.rows[ix];
        proof {
            lemma_rows_are_parts(self@.parts, self@.done);
            let shown = sources(self.rows@)[ix as int];
            assert(shown == self@.rows()[ix as int]);
        }
        Some(self.shown_by(source))
    }

    /// The row the harness is on now.
    pub fn last_row(&self) -> (r: Option<OutputRow<'_>>)
        requires
            self.wf(),
        ensures
            match r {
                Some(row) => self@.rows().len() > 0 && row@ == self@.row(self@.rows().len() - 1),
                None => self@.rows().len() == 0,
            },
    {
        proof {
            assert(sources(self.rows@).len() == self.rows@.len());
        }
        if self.rows.len() == 0 {
            return None;
        }
        self.row(self.rows.len() - 1)
    }

    /// Whether the run has ended, with a result or without.
    pub fn is_done(&self) -> (b: bool)
        ensures
            b == self@.done,
    {
        self.done
    }

    /// Notes that row `ix` may have changed height.
    fn touch(&mut self, ix: usize)
        ensures
            final(self)@ == old(self)@.touch(ix as int),
            final(self).parts@ == old(self).parts@,
            final(self).rows@ == old(self).rows@,
            final(self).settled_parts == old(self).settled_parts,
            final(self).last_tool_row == old(self).last_tool_row,
    {
        self.edit = if self.edit == u64::MAX {
            0
        } else {
            self.edit + 1
        };
        let edit = self.edit;
        if self.changes.len() > 0 && self.changes[self.changes.len() - 1].1 == ix {
            self.changes.pop();
        }
        self.changes.push((edit, ix));
    }

    /// The row part `part` is shown as, if it is shown.
    fn row_of(&self, part: usize) -> (r: Option<usize>)
        ensures
            as_int(r) == place_of(sources(self.rows@), part as int),
    {
        let ghost rows = sources(self.rows@);
        let mut i: usize = self.rows.len();
        proof {
            assert(rows.take(i as int) =~= rows);
        }
        while i > 0
            invariant
                i <= self.rows@.len(),
                rows == sources(self.rows@),
                place_of(rows.take(i as int), part as int) == place_of(rows, part as int),
            decreases i,
        {
            proof {
                assert(rows.take(i as int).drop_last() =~= rows.take(i - 1));
                assert(rows.take(i as int).last() == rows[i - 1]);
            }
            i -= 1;
            if self.rows[i] == RowSource::Part(part) {
                return Some(i);
            }
        }
        None
    }

    /// Brings the rows up to date with the parts. Rows only change or are
    /// added at the end as the reply streams, so a row keeps its index, and
    /// only the rows from the last part on are gone over again.
    fn refresh(&mut self)
        requires
            old(self).settled_wf(),
        ensures
            final(self).wf(),
            final(self)@ == old(self)@.refreshed(old(self).settled_parts as int),
    {
        let ghost parts = self@.parts;
        let ghost kept = kept_rows(parts, self.settled_parts as int);
        let ghost before = sources(self.rows@);
        let settled = self.settled_parts;
        proof {
            lemma_kept_rows(parts, settled as int);
        }
        let mut keep: usize = self.rows.len();
        while keep > 0 && !self.rows[keep - 1].shows_part_before(settled)
            invariant
                *self == *old(self),
                settled == self.settled_parts,
                before == sources(self.rows@),
                parts == self@.parts,
                kept == kept_rows(parts, settled as int),
                kept.len() <= keep <= self.rows@.len(),
                before.take(kept.len() as int) == kept,
                forall|j: int|
                    0 <= j < kept.len() ==> (#[trigger] kept[j]) is Some && 0 <= kept[j]->0
                        < settled,
            decreases keep,
        {
            proof {
                if keep == kept.len() {
                    assert(before.take(kept.len() as int)[keep - 1] == before[keep - 1]);
                }
            }
            keep -= 1;
        }
        proof {
            if keep > kept.len() {
                assert(before[keep - 1] is None || before[keep - 1]->0 >= settled);
            }
            assert(keep == kept.len());
        }
        self.rows.truncate(keep);
        proof {
            assert(sources(self.rows@) =~= kept);
        }
        match self.last_tool_row {
            Some(row) => {
                if row >= keep {
                    self.last_tool_row = None;
                    proof {
                        let part = before[row as int]->0;
                        assert(tool_row(parts, before[row as int]));
                        assert(settled <= part < parts.len());
                        assert(parts[part] is Tool);
                    }
                } else {
                    proof {
                        assert forall|j: int| row < j < kept.len() implies !tool_row(
                            parts,
                            #[trigger] kept[j],
                        ) by {
                            assert(kept[j] == before[j]);
                        }
                        assert(kept[row as int] == before[row as int]);
                    }
                }
            },
            None => {
                proof {
                    assert forall|j: int| 0 <= j < kept.len() implies !tool_row(
                        parts,
                        #[trigger] kept[j],
                    ) by {
                        assert(kept[j] == before[j]);
                    }
                }
            },
        }
        let len = self.parts.len();
        let mut ix: usize = settled;
        while ix < len
            invariant
                settled <= ix <= len,
                len == self.parts@.len(),
                self.parts@ == old(self).parts@,
                self@ == old(self)@,
                parts == self@.parts,
                sources(self.rows@) == rows_up_to(parts, self.done, ix as int),
                is_last_tool(parts, sources(self.rows@), as_int(self.last_tool_row)) || exists|
                    p: int,
                |
                    ix <= p < len && (#[trigger] parts[p]) is Tool,
            decreases len - ix,
        {
            let ghost shown_before = sources(self.rows@);
            let ghost tool_before = as_int(self.last_tool_row);
            proof {
                assert(parts[ix as int] == self.parts@[ix as int]@);
                lemma_rows_up_to(parts, self.done, ix as int);
            }
            let mut shown = true;
            let mut tool = false;
            match &self.parts[ix] {
                ReplyPart::Text(text) => {
                    if is_all_white(&chars_of(text)) && (self.done || ix != len - 1) {
                        shown = false;
                    }
                },
                ReplyPart::Tool(_) => {
                    tool = true;
                },
                ReplyPart::Error(_) => {},
            }
            if tool {
                self.last_tool_row = Some(self.rows.len());
            }
            if shown {
                self.rows.push(RowSource::Part(ix));
                proof {
                    assert(sources(self.rows@) =~= shown_before.push(Some(ix as int)));
                }
            }
            proof {
                let now = sources(self.rows@);
                if tool {
                    assert(is_last_tool(parts, now, as_int(self.last_tool_row)));
                } else {
                    if is_last_tool(parts, shown_before, tool_before) {
                        assert forall|j: int|
                            (tool_before is None || tool_before->0 < j) && 0 <= j
                                < now.len() implies !tool_row(parts, #[trigger] now[j]) by {
                            if j < shown_before.len() {
                                assert(now[j] == shown_before[j]);
                            }
                        }
                        if tool_before is Some {
                            assert(now[tool_before->0] == shown_before[tool_before->0]);
                        }
                        assert(is_last_tool(parts, now, as_int(self.last_tool_row)));
                    } else {
                        let p = choose|p: int| ix <= p < len && (#[trigger] parts[p]) is Tool;
                        assert(p != ix);
                        assert(ix + 1 <= p < len && parts[p] is Tool);
                    }
                }
            }
            ix += 1;
        }
        proof {
            assert(sources(self.rows@) =~= part_rows(parts, self.done));
            assert(sources(self.rows@).len() == self.rows@.len());
        }
        let pending = if self.done {
            false
        } else if self.rows.len() == 0 {
            true
        } else {
            let source = self.rows[self.rows.len() - 1];
            proof {
                lemma_rows_are_parts(parts, self.done);
                assert(sources(self.rows@).last() == sources(self.rows@)[self.rows@.len() - 1]);
                lemma_part_rows(parts, self.done);
            }
            !self.shown_by(source).is_partial()
        };
        let ghost shown = sources(self.rows@);
        if pending {
            self.rows.push(RowSource::Pending);
            proof {
                assert(sources(self.rows@) =~= shown.push(None));
                let now = sources(self.rows@);
                assert forall|j: int|
                    (self.last_tool_row is None || self.last_tool_row->0 < j) && 0 <= j
                        < now.len() implies !tool_row(parts, #[trigger] now[j]) by {
                    if j < shown.len() {
                        assert(now[j] == shown[j]);
                    }
                }
                if self.last_tool_row is Some {
                    assert(now[self.last_tool_row->0 as int] == shown[self.last_tool_row->0 as int]);
                }
            }
        }
        proof {
            assert(sources(self.rows@) == rows_of(parts, self.done));
            lemma_last_tool(parts, sources(self.rows@), as_int(self.last_tool_row));
        }
        self.settled_parts = if len > 0 {
            len - 1
        } else {
            0
        };
        let count = self.rows.len();
        proof {
            assert(sources(self.rows@).len() == self.rows@.len());
            assert(self@ =~= old(self)@);
        }
        let mut row: usize = keep;
        while row < count
            invariant
                keep <= row,
                keep <= count ==> row <= count,
                keep > count ==> row == keep,
                count == self.rows@.len(),
                self.wf(),
                self.done == old(self).done,
                self.parts@ == old(self).parts@,
                self@ == old(self)@.touch_range(keep as int, row as int),
            decreases count - row,
        {
            let ghost held = *self;
            self.touch(row);
            proof {
                assert(self@.parts == held@.parts);
                assert(self@.rows() == held@.rows());
            }
            row += 1;
        }
        proof {
            lemma_touch_range_empty(old(self)@, keep as int, count as int);
        }
    }
}

proof fn lemma_touch_range_empty(v: ReplyView, from: int, to: int)
    ensures
        to <= from ==> v.touch_range(from, to) == v,
        v.touch_range(from, from) == v,
{
}

/// The rows of the first `n` parts of a reply.
spec fn rows_up_to(parts: Seq<PartView>, done: bool, n: int) -> Seq<Option<int>> {
    if n >= parts.len() {
        part_rows(parts, done)
    } else {
        kept_rows(parts, n)
    }
}

proof fn lemma_rows_up_to(parts: Seq<PartView>, done: bool, n: int)
    requires
        0 <= n < parts.len(),
    ensures
        rows_up_to(parts, done, n + 1) == (if blank(parts[n]) && (done || n != parts.len() - 1) {
            rows_up_to(parts, done, n)
        } else {
            rows_up_to(parts, done, n).push(Some(n))
        }),
{
}

proof fn lemma_part_rows(parts: Seq<PartView>, done: bool)
    ensures
        forall|j: int|
            0 <= j < part_rows(parts, done).len() ==> (#[trigger] part_rows(parts, done)[j]) is Some
                && 0 <= part_rows(parts, done)[j]->0 < parts.len(),
{
    let last = parts.len() - 1;
    if last >= 0 {
        lemma_kept_rows(parts, last);
        let kept = kept_rows(parts, last);
        let rows = part_rows(parts, done);
        assert forall|j: int| 0 <= j < rows.len() implies (#[trigger] rows[j]) is Some && 0
            <= rows[j]->0 < parts.len() by {
            if j < kept.len() {
                assert(rows[j] == kept[j]);
            }
        }
    }
}

pub proof fn lemma_rows_are_parts(parts: Seq<PartView>, done: bool)
    ensures
        forall|j: int|
            0 <= j < rows_of(parts, done).len() ==> (#[trigger] rows_of(parts, done)[j] is None
                || 0 <= rows_of(parts, done)[j]->0 < parts.len()),
{
    lemma_part_rows(parts, done);
    let base = part_rows(parts, done);
    let rows = rows_of(parts, done);
    assert forall|j: int| 0 <= j < rows.len() implies (#[trigger] rows[j] is None || 0
        <= rows[j]->0 < parts.len()) by {
        if j < base.len() {
            assert(rows[j] == base[j]);
        }
    }
}

// ---------------------------------------------------------------------------
// Events
// ---------------------------------------------------------------------------

/// A reply whose rows were up to date still has the rows of its settled parts
/// up to date, once a part is added, text is added to its last, or its calls
/// have changed.
proof fn lemma_settled(before: Reply, now: Reply)
    requires
        before.wf(),
        now.rows@ == before.rows@,
        now.settled_parts == before.settled_parts,
        now.last_tool_row == before.last_tool_row,
        now.parts@.len() >= before.parts@.len(),
        forall|k: int|
            0 <= k < settled(before.parts@.len()) ==> blank(#[trigger] now@.parts[k]) == blank(
                before@.parts[k],
            ),
        forall|k: int|
            0 <= k < before.parts@.len() ==> (#[trigger] now@.parts[k] is Tool) == (
            before@.parts[k] is Tool),
    ensures
        now.settled_wf(),
{
    let s = before.settled_parts as int;
    let old_parts = before@.parts;
    let parts = now@.parts;
    let rows = sources(now.rows@);
    let base = part_rows(old_parts, before@.done);
    lemma_kept_alike(parts, old_parts, s);
    lemma_rows_are_parts(old_parts, before@.done);
    lemma_part_rows(old_parts, before@.done);
    let kept = kept_rows(parts, s);
    assert(base.take(kept.len() as int) =~= kept);
    assert(rows.take(kept.len() as int) =~= kept);
    assert forall|j: int| kept.len() <= j < rows.len() implies (#[trigger] rows[j] is None
        || rows[j]->0 >= s) by {
        if j < base.len() {
            assert(rows[j] == base[j]);
        }
    }
    assert forall|j: int| 0 <= j < rows.len() implies (#[trigger] rows[j] is None || 0
        <= rows[j]->0 < parts.len()) by {}
    let at = as_int(before.last_tool_row);
    lemma_last_tool(old_parts, rows, at);
    assert forall|j: int| 0 <= j < rows.len() implies tool_row(parts, #[trigger] rows[j])
        == tool_row(old_parts, rows[j]) by {
        if rows[j] is Some {
            assert((parts[rows[j]->0] is Tool) == (old_parts[rows[j]->0] is Tool));
        }
    }
    assert(is_last_tool(parts, rows, at));
}

impl Reply {
    fn push_part(&mut self, part: ReplyPart)
        requires
            old(self).wf(),
        ensures
            final(self).wf(),
            final(self)@ == old(self)@.with_part(part@),
    {
        let ghost before = *self;
        self.parts.push(part);
        proof {
            assert(self@.parts =~= before@.parts.push(part@));
            lemma_settled(before, *self);
            assert(self@ =~= (ReplyView { parts: before@.parts.push(part@), ..before@ }));
        }
        self.refresh();
    }

    /// The part that is the latest call with an id.
    fn tool_part(&self, tool_id: &str) -> (r: Option<usize>)
        ensures
            as_int(r) == self@.tool(tool_id@),
            r is Some ==> r->0 < self.parts@.len() && self.parts@[r->0 as int] is Tool,
    {
        let mut i: usize = self.parts.len();
        while i > 0
            invariant
                i <= self.parts@.len(),
                self@.tool_from(tool_id@, i as int) == self@.tool(tool_id@),
            decreases i,
        {
            proof {
                assert(self@.parts[i - 1] == self.parts@[i - 1]@);
            }
            i -= 1;
            match &self.parts[i] {
                ReplyPart::Tool(call) => {
                    if same(&call.id, tool_id) {
                        return Some(i);
                    }
                },
                _ => {},
            }
        }
        None
    }

    /// Makes a call's part into another, noting that its row may have changed.
    fn set_call(&mut self, part: usize, call: ToolCall)
        requires
            old(self).wf(),
            part < old(self).parts@.len(),
            old(self).parts@[part as int] is Tool,
        ensures
            final(self).wf(),
            final(self)@ == old(self)@.with_call(part as int, call@),
    {
        let ghost before = *self;
        proof {
            assert(before@.parts[part as int] == before.parts@[part as int]@);
        }
        self.parts.set(part, ReplyPart::Tool(call));
        proof {
            assert(self@.parts =~= before@.parts.update(part as int, PartView::Tool(call@)));
        }
        if let Some(row) = self.row_of(part) {
            self.touch(row);
        }
        proof {
            lemma_settled(before, *self);
            assert(sources(self.rows@) == before@.rows());
        }
        self.refresh();
    }

    /// Gives tool calls still running when the run ended the state they ended
    /// in, so none is left reading "running".
    fn settle_tools(&mut self, state: ToolState)
        requires
            old(self).wf(),
            state != ToolState::Running,
        ensures
            final(self)@ == old(self)@.ended(state),
            final(self).settled_wf(),
            final(self).settled_parts == old(self).settled_parts,
    {
        let ghost before = *self;
        let ghost rows = sources(self.rows@);
        let ghost parts = self@.parts;
        let len = self.parts.len();
        let mut i: usize = 0;
        while i < len
            invariant
                i <= len,
                len == self.parts@.len(),
                rows == sources(self.rows@),
                rows == before@.rows(),
                before == *old(self),
                parts == before@.parts,
                parts.len() == len,
                self.rows@ == before.rows@,
                self.settled_parts == before.settled_parts,
                self.last_tool_row == before.last_tool_row,
                forall|k: int|
                    0 <= k < i ==> #[trigger] self@.parts[k] == ended_part(parts[k], state),
                forall|k: int| i <= k < len ==> #[trigger] self@.parts[k] == parts[k],
                (ReplyView { parts, ..self@ }) == before@.touch_running(rows, i as int),
            decreases len - i,
        {
            let ghost held = *self;
            proof {
                assert(held@.parts[i as int] == parts[i as int]);
                assert(held@.parts[i as int] == held.parts@[i as int]@);
            }
            let ended = match &self.parts[i] {
                ReplyPart::Tool(call) => if call.state == ToolState::Running {
                    Some(
                        ToolCall {
                            id: call.id.clone(),
                            name: call.name.clone(),
                            summary: match &call.summary {
                                Some(summary) => Some(summary.clone()),
                                None => None,
                            },
                            state,
                        },
                    )
                } else {
                    None
                },
                _ => None,
            };
            if let Some(call) = ended {
                self.parts.set(i, ReplyPart::Tool(call));
                proof {
                    assert(self@.parts =~= held@.parts.update(i as int, PartView::Tool(call@)));
                    assert(PartView::Tool(call@) == ended_part(parts[i as int], state));
                    assert((ReplyView { parts, ..self@ }) =~= (ReplyView { parts, ..held@ }));
                }
                if let Some(row) = self.row_of(i) {
                    self.touch(row);
                }
            }
            proof {
                assert(before@.touch_running(rows, i as int).parts == parts) by {
                    lemma_touch_running_parts(before@, rows, i as int);
                }
            }
            i += 1;
        }
        proof {
            assert(self@.parts =~= ended_parts(parts, state));
        }
        self.done = true;
        proof {
            assert forall|k: int| 0 <= k < before.parts@.len() implies (
            #[trigger] self@.parts[k] is Tool) == (before@.parts[k] is Tool) by {
                assert(self@.parts[k] == ended_part(parts[k], state));
            }
            assert forall|k: int| 0 <= k < settled(before.parts@.len()) implies blank(
                #[trigger] self@.parts[k],
            ) == blank(before@.parts[k]) by {
                assert(self@.parts[k] == ended_part(parts[k], state));
            }
            lemma_settled(before, *self);
            assert(self@ =~= before@.ended(state));
        }
    }

    /// Whether anything was said.
    fn has_text(&self) -> (b: bool)
        ensures
            b == self@.said(),
    {
        let mut i: usize = 0;
        while i < self.parts.len()
            invariant
                i <= self.parts@.len(),
                forall|k: int|
                    0 <= k < i ==> !((#[trigger] self@.parts[k]) is Text && !blank(
                        self@.parts[k],
                    )),
            decreases self.parts@.len() - i,
        {
            proof {
                assert(self@.parts[i as int] == self.parts@[i as int]@);
            }
            match &self.parts[i] {
                ReplyPart::Text(text) => {
                    if !is_all_white(&chars_of(text)) {
                        return true;
                    }
                },
                _ => {},
            }
            i += 1;
        }
        false
    }

    fn push_line(&mut self, line: &str)
        requires
            old(self).wf(),
        ensures
            final(self).wf(),
            final(self)@ == old(self)@.with_line(line@),
    {
        let chars = chars_of(line);
        let kept = if chars.len() > RAW_LINE_CHARS {
            let start = piece(&chars, 0, RAW_LINE_CHARS);
            proof {
                assert(start@ =~= chars@.take(RAW_LINE_CHARS as int));
            }
            string_of(&start)
        } else {
            string_of(&chars)
        };
        let ghost before = self@.raw_tail;
        let ghost mut tail = before;
        proof {
            assert(self.raw_tail@.len() == before.len());
        }
        if self.raw_tail.len() == RAW_TAIL_LINES {
            let _ = self.raw_tail.pop_front();
            proof {
                assert(views(self.raw_tail@) =~= before.skip(1));
                tail = before.skip(1);
            }
        }
        self.raw_tail.push_back(kept);
        proof {
            assert(views(self.raw_tail@) =~= tail.push(cut(line@)));
            assert(self@ =~= old(self)@.with_line(line@));
        }
    }

    fn push_delta(&mut self, delta: &str)
        requires
            old(self).wf(),
        ensures
            final(self).wf(),
            final(self)@ == old(self)@.with_delta(delta@),
    {
        let ghost before = *self;
        let n = self.parts.len();
        if n > 0 {
            proof {
                assert(before@.parts[n - 1] == before.parts@[n - 1]@);
            }
            let longer = match &self.parts[n - 1] {
                ReplyPart::Text(text) => {
                    let mut chars = chars_of(text);
                    push_str(&mut chars, delta);
                    Some(string_of(&chars))
                },
                _ => None,
            };
            if let Some(text) = longer {
                self.parts.set(n - 1, ReplyPart::Text(text));
                proof {
                    assert(self@.parts =~= before@.parts.update(n - 1, PartView::Text(text@)));
                    lemma_settled(before, *self);
                    assert(self@ =~= (ReplyView {
                        parts: before@.parts.update(n - 1, PartView::Text(text@)),
                        ..before@
                    }));
                }
                self.refresh();
                return ;
            }
        }
        self.push_part(ReplyPart::Text(delta.to_owned()));
    }

    fn finish(&mut self, is_error: bool, result: &str)
        requires
            old(self).wf(),
        ensures
            final(self).wf(),
            final(self)@ == old(self)@.finished(is_error, result@),
    {
        let ghost before = *self;
        self.settle_tools(
            if is_error {
                ToolState::Failed
            } else {
                ToolState::Done
            },
        );
        // Nothing streamed: the result is all there is to show.
        if !is_error && !self.has_text() && !result.is_empty() {
            let ghost held = *self;
            let part = ReplyPart::Text(result.to_owned());
            self.parts.push(part);
            proof {
                assert(self@.parts =~= held@.parts.push(part@));
                lemma_settled_grows(held, *self);
                assert(self@ =~= (ReplyView { parts: held@.parts.push(part@), ..held@ }));
            }
        }
        self.refresh();
    }

    /// Folds a harness event into the reply. Returns an error to show when the
    /// run failed.
    pub fn apply(&mut self, event: &HarnessEvent) -> (r: Option<String>)
        requires
            old(self).wf(),
        ensures
            final(self).wf(),
            final(self)@ == old(self)@.applied(*event),
            text_of(r) == error_told(*event),
    {
        match event {
            HarnessEvent::Output(line) => self.push_line(line),
            HarnessEvent::TextStarted => {
                let empty = String::new();
                proof {
                    assert(empty@ =~= seq![]);
                }
                self.push_part(ReplyPart::Text(empty));
            },
            HarnessEvent::TextDelta(delta) => self.push_delta(delta),
            HarnessEvent::ToolStarted { id, name } => {
                let call = ToolCall {
                    id: id.clone(),
                    name: name.clone(),
                    summary: None,
                    state: ToolState::Running,
                };
                self.push_part(ReplyPart::Tool(call));
            },
            HarnessEvent::ToolInput { id, summary } => {
                self.change_call(id, Some(summary.clone()), None);
            },
            HarnessEvent::ToolFinished { id, is_error } => {
                let state = if *is_error {
                    ToolState::Failed
                } else {
                    ToolState::Done
                };
                self.change_call(id, None, Some(state));
            },
            HarnessEvent::Finished { is_error, result } => {
                self.finish(*is_error, result);
                if *is_error {
                    if result.as_str().is_empty() {
                        return Some("The harness reported an error.".to_owned());
                    }
                    return Some(result.clone());
                }
            },
            HarnessEvent::Failed(error) => {
                self.stop();
                return Some(error.clone());
            },
            _ => {},
        }
        None
    }

    /// Gives the latest call with an id its input or the state it ended in.
    fn change_call(&mut self, id: &str, summary: Option<String>, state: Option<ToolState>)
        requires
            old(self).wf(),
        ensures
            final(self).wf(),
            final(self)@ == (match old(self)@.tool(id@) {
                Some(part) => old(self)@.with_call(
                    part,
                    ToolCallView {
                        summary: if summary is Some {
                            text_of(summary)
                        } else {
                            old(self)@.parts[part]->Tool_0.summary
                        },
                        state: if state is Some {
                            state->0
                        } else {
                            old(self)@.parts[part]->Tool_0.state
                        },
                        ..old(self)@.parts[part]->Tool_0
                    },
                ),
                None => old(self)@.refreshed(settled(old(self)@.parts.len())),
            }),
    {
        if let Some(part) = self.tool_part(id) {
            proof {
                assert(self@.parts[part as int] == self.parts@[part as int]@);
            }
            let changed = match &self.parts[part] {
                ReplyPart::Tool(call) => Some(
                    ToolCall {
                        id: call.id.clone(),
                        name: call.name.clone(),
                        summary: match summary {
                            Some(summary) => Some(summary),
                            None => match &call.summary {
                                Some(summary) => Some(summary.clone()),
                                None => None,
                            },
                        },
                        state: match state {
                            Some(state) => state,
                            None => call.state,
                        },
                    },
                ),
                _ => None,
            };
            if let Some(call) = changed {
                self.set_call(part, call);
            }
        } else {
            proof {
                lemma_settled(*self, *self);
            }
            self.refresh();
        }
    }

    /// Ends a run that ended without a result: tool calls still running
    /// failed with it.
    pub fn stop(&mut self)
        requires
            old(self).wf(),
        ensures
            final(self).wf(),
            final(self)@ == old(self)@.stopped(ToolState::Failed),
    {
        self.settle_tools(ToolState::Failed);
        self.refresh();
    }

    /// Adds an error row to the end of the output.
    pub fn push_error(&mut self, error: String)
        requires
            old(self).wf(),
        ensures
            final(self).wf(),
            final(self)@ == old(self)@.with_part(PartView::Error(error@)),
    {
        self.push_part(ReplyPart::Error(error));
    }

    /// The rows that may have changed height since change `edit`, in the order
    /// they last changed.
    pub fn changed_since(&self, edit: u64) -> (r: Vec<usize>)
        ensures
            r@ == changed_after(self@.changes, edit),
    {
        let mut start: usize = self.changes.len();
        proof {
            assert(self.changes@.take(start as int) =~= self.changes@);
        }
        while start > 0 && self.changes[start - 1].0 > edit
            invariant
                start <= self.changes@.len(),
                changes_start(self.changes@, edit, start as int) == changes_start(
                    self.changes@,
                    edit,
                    self.changes@.len() as int,
                ),
            decreases start,
        {
            start -= 1;
        }
        let mut r: Vec<usize> = Vec::new();
        let mut i: usize = start;
        while i < self.changes.len()
            invariant
                start <= i <= self.changes@.len(),
                r@ == self.changes@.subrange(start as int, i as int).map_values(
                    |c: (u64, usize)| c.1,
                ),
            decreases self.changes@.len() - i,
        {
            r.push(self.changes[i].1);
            i += 1;
            proof {
                assert(r@ =~= self.changes@.subrange(start as int, i as int).map_values(
                    |c: (u64, usize)| c.1,
                ));
            }
        }
        proof {
            assert(self.changes@.subrange(start as int, self.changes@.len() as int)
                =~= self.changes@.skip(start as int));
        }
        r
    }
}

/// Where the changes after change `edit` start, `i` of them looked back over.
pub open spec fn changes_start(changes: Seq<(u64, usize)>, edit: u64, i: int) -> int
    decreases i,
{
    if 0 < i <= changes.len() && changes[i - 1].0 > edit {
        changes_start(changes, edit, i - 1)
    } else {
        i
    }
}

/// The rows changed after change `edit`.
pub open spec fn changed_after(changes: Seq<(u64, usize)>, edit: u64) -> Seq<usize> {
    changes.skip(changes_start(changes, edit, changes.len() as int)).map_values(
        |c: (u64, usize)| c.1,
    )
}

pub proof fn lemma_touch_running_parts(v: ReplyView, rows: Seq<Option<int>>, n: int)
    ensures
        v.touch_running(rows, n).parts == v.parts,
        v.touch_running(rows, n).done == v.done,
        v.touch_running(rows, n).raw_tail == v.raw_tail,
        v.touch_running(rows, n).uid == v.uid,
    decreases n,
{
    if n > 0 {
        lemma_touch_running_parts(v, rows, n - 1);
    }
}

/// One more part leaves the rows of the settled parts up to date.
proof fn lemma_settled_grows(before: Reply, now: Reply)
    requires
        before.settled_wf(),
        now.rows@ == before.rows@,
        now.settled_parts == before.settled_parts,
        now.last_tool_row == before.last_tool_row,
        now.parts@.len() == before.parts@.len() + 1,
        forall|k: int| 0 <= k < before.parts@.len() ==> #[trigger] now@.parts[k] == before@.parts[k],
    ensures
        now.settled_wf(),
{
    let s = before.settled_parts as int;
    let rows = sources(now.rows@);
    lemma_kept_alike(now@.parts, before@.parts, s);
    assert forall|j: int| 0 <= j < rows.len() implies tool_row(now@.parts, #[trigger] rows[j])
        == tool_row(before@.parts, rows[j]) by {
        if rows[j] is Some {
            assert(now@.parts[rows[j]->0] == before@.parts[rows[j]->0]);
        }
    }
}

// ---------------------------------------------------------------------------
// What holds of a reply
// ---------------------------------------------------------------------------

/// A reply still streaming ends in a row that is still filling in.
pub proof fn an_unfinished_reply_ends_in_a_row_filling_in(reply: ReplyView)
    requires
        !reply.done,
    ensures
        reply.rows().len() > 0,
        row_partial(reply.row(reply.rows().len() - 1)),
{
    lemma_part_rows(reply.parts, reply.done);
    let base = part_rows(reply.parts, reply.done);
    let rows = reply.rows();
    if ends_partial(reply.parts, base) {
        assert(rows == base);
        assert(base[base.len() - 1] is Some);
    }
}

/// A finished reply has a row for each thing said or done, in order, and none
/// that is pending or has nothing in it.
pub proof fn a_finished_reply_has_no_empty_row(reply: ReplyView, ix: int)
    requires
        reply.done,
        0 <= ix < reply.rows().len(),
    ensures
        reply.row(ix) != RowView::Pending,
        reply.row(ix) is Text ==> !all_white(reply.row(ix)->Text_0),
{
    let last = reply.parts.len() - 1;
    lemma_part_rows(reply.parts, true);
    if last >= 0 {
        lemma_kept_not_blank(reply.parts, last);
        let kept = kept_rows(reply.parts, last);
        if ix < kept.len() {
            assert(reply.rows()[ix] == kept[ix]);
        }
    }
}

proof fn lemma_kept_not_blank(parts: Seq<PartView>, n: int)
    requires
        0 <= n <= parts.len(),
    ensures
        forall|j: int|
            0 <= j < kept_rows(parts, n).len() ==> !blank(
                parts[(#[trigger] kept_rows(parts, n)[j])->0],
            ),
    decreases n,
{
    if n > 0 {
        lemma_kept_not_blank(parts, n - 1);
        let before = kept_rows(parts, n - 1);
        let now = kept_rows(parts, n);
        assert forall|j: int| 0 <= j < now.len() implies !blank(parts[(#[trigger] now[j])->0]) by {
            if j < before.len() {
                assert(now[j] == before[j]);
            }
        }
    }
}

/// Rows are in the order of the parts they show.
proof fn lemma_kept_in_order(parts: Seq<PartView>, n: int)
    requires
        0 <= n <= parts.len(),
    ensures
        forall|i: int, j: int|
            0 <= i < j < kept_rows(parts, n).len() ==> (#[trigger] kept_rows(parts, n)[i])->0 < (
            #[trigger] kept_rows(parts, n)[j])->0,
    decreases n,
{
    if n > 0 {
        lemma_kept_in_order(parts, n - 1);
        lemma_kept_rows(parts, n - 1);
        let before = kept_rows(parts, n - 1);
        let now = kept_rows(parts, n);
        assert forall|i: int, j: int| 0 <= i < j < now.len() implies (#[trigger] now[i])->0 < (
        #[trigger] now[j])->0 by {
            assert(now[i] == before[i]);
            if j < before.len() {
                assert(now[j] == before[j]);
            }
        }
    }
}

/// The rows that show parts follow the parts' order, each part shown once at
/// most.
pub proof fn rows_follow_the_reply_in_order(reply: ReplyView, i: int, j: int)
    requires
        0 <= i < j < reply.rows().len(),
    ensures
        reply.rows()[i] is Some,
        reply.rows()[j] is Some ==> reply.rows()[i]->0 < reply.rows()[j]->0,
{
    let base = part_rows(reply.parts, reply.done);
    let last = reply.parts.len() - 1;
    lemma_part_rows(reply.parts, reply.done);
    assert(reply.rows()[i] == base[i]);
    if last >= 0 {
        lemma_kept_in_order(reply.parts, last);
        lemma_kept_rows(reply.parts, last);
        let kept = kept_rows(reply.parts, last);
        if i < kept.len() {
            assert(base[i] == kept[i]);
        }
        if j < kept.len() {
            assert(base[j] == kept[j]);
        }
    }
}

/// Whether the raw output kept is within its bounds.
pub open spec fn tail_within_bounds(reply: ReplyView) -> bool {
    &&& reply.raw_tail.len() <= RAW_TAIL_LINES
    &&& forall|k: int|
        0 <= k < reply.raw_tail.len() ==> (#[trigger] reply.raw_tail[k]).len() <= RAW_LINE_CHARS
}

proof fn lemma_touch_range_keeps(v: ReplyView, from: int, to: int)
    ensures
        v.touch_range(from, to).raw_tail == v.raw_tail,
        v.touch_range(from, to).parts == v.parts,
        v.touch_range(from, to).done == v.done,
        v.touch_range(from, to).uid == v.uid,
    decreases to - from,
{
    if to > from {
        lemma_touch_range_keeps(v, from, to - 1);
    }
}

pub proof fn lemma_refreshed_keeps(v: ReplyView, s: int)
    ensures
        v.refreshed(s).raw_tail == v.raw_tail,
        v.refreshed(s).parts == v.parts,
        v.refreshed(s).done == v.done,
        v.refreshed(s).uid == v.uid,
        v.refreshed(s).rows() == v.rows(),
{
    lemma_touch_range_keeps(
        v,
        kept_rows(v.parts, s).len() as int,
        v.rows().len() as int,
    );
}

/// What an event is folded into before the rows are brought up to date.
spec fn changed_by(v: ReplyView, event: HarnessEvent) -> ReplyView {
    match event {
        HarnessEvent::TextStarted => ReplyView {
            parts: v.parts.push(PartView::Text(seq![])),
            ..v
        },
        HarnessEvent::TextDelta(delta) => {
            let last = v.parts.len() - 1;
            if last >= 0 && v.parts[last] is Text {
                ReplyView {
                    parts: v.parts.update(last, PartView::Text(v.parts[last]->Text_0 + delta@)),
                    ..v
                }
            } else {
                ReplyView { parts: v.parts.push(PartView::Text(delta@)), ..v }
            }
        },
        HarnessEvent::ToolStarted { id, name } => ReplyView {
            parts: v.parts.push(
                PartView::Tool(
                    ToolCallView {
                        id: id@,
                        name: name@,
                        summary: None,
                        state: ToolState::Running,
                    },
                ),
            ),
            ..v
        },
        HarnessEvent::ToolInput { id, summary } => match v.tool(id@) {
            Some(part) => ReplyView {
                parts: v.parts.update(
                    part,
                    PartView::Tool(
                        ToolCallView { summary: Some(summary@), ..v.parts[part]->Tool_0 },
                    ),
                ),
                ..v
            }.touch_part(v.rows(), part),
            None => v,
        },
        HarnessEvent::ToolFinished { id, is_error } => match v.tool(id@) {
            Some(part) => ReplyView {
                parts: v.parts.update(
                    part,
                    PartView::Tool(
                        ToolCallView { state: end_state(is_error), ..v.parts[part]->Tool_0 },
                    ),
                ),
                ..v
            }.touch_part(v.rows(), part),
            None => v,
        },
        HarnessEvent::Finished { is_error, result } => {
            let ended = v.ended(end_state(is_error));
            if !is_error && !ended.said() && result@.len() > 0 {
                ReplyView { parts: ended.parts.push(PartView::Text(result@)), ..ended }
            } else {
                ended
            }
        },
        HarnessEvent::Failed(error) => v.ended(ToolState::Failed),
        _ => v,
    }
}

/// Whether an event leaves the rows as they are.
pub open spec fn leaves_rows(event: HarnessEvent) -> bool {
    event is Output || event is Session || event is ToolCalled || event is ToolOutput
}

proof fn lemma_applied(v: ReplyView, event: HarnessEvent)
    requires
        !leaves_rows(event),
    ensures
        v.applied(event) == changed_by(v, event).refreshed(settled(v.parts.len())),
{
    match event {
        HarnessEvent::Finished { is_error, result } => {
            assert(v.ended(ToolState::Done).parts.len() == v.parts.len());
        },
        _ => {},
    }
}

/// However many raw lines come, only the last few are kept, each cut short.
pub proof fn the_raw_tail_stays_within_bounds(reply: ReplyView, event: HarnessEvent)
    requires
        tail_within_bounds(reply),
    ensures
        tail_within_bounds(reply.applied(event)),
{
    if event is Output {
        let now = reply.applied(event);
        let line = event->Output_0@;
        assert forall|k: int| 0 <= k < now.raw_tail.len() implies (
        #[trigger] now.raw_tail[k]).len() <= RAW_LINE_CHARS by {
            if k == now.raw_tail.len() - 1 {
                assert(now.raw_tail[k] == cut(line));
            } else if reply.raw_tail.len() == RAW_TAIL_LINES {
                assert(now.raw_tail[k] == reply.raw_tail[k + 1]);
            } else {
                assert(now.raw_tail[k] == reply.raw_tail[k]);
            }
        }
    } else if !leaves_rows(event) {
        lemma_applied(reply, event);
        lemma_refreshed_keeps(changed_by(reply, event), settled(reply.parts.len()));
        lemma_touch_running_parts(reply, reply.rows(), reply.parts.len() as int);
    }
}

/// Once a run is over, none of its tool calls is left running, whatever it
/// ended in.
pub proof fn nothing_is_left_running(reply: ReplyView, event: HarnessEvent, k: int)
    requires
        event is Finished || event is Failed,
        0 <= k < reply.applied(event).parts.len(),
    ensures
        reply.applied(event).done,
        !running(reply.applied(event).parts[k]),
{
    lemma_applied(reply, event);
    let mid = changed_by(reply, event);
    lemma_refreshed_keeps(mid, settled(reply.parts.len()));
    let state = match event {
        HarnessEvent::Finished { is_error, result } => end_state(is_error),
        _ => ToolState::Failed,
    };
    if k < reply.parts.len() {
        assert(ended_parts(reply.parts, state)[k] == ended_part(reply.parts[k], state));
    }
}

// ---------------------------------------------------------------------------
// What the changes noted tell
// ---------------------------------------------------------------------------

/// Whether the changes noted are in the order they were made, none later than
/// the last.
pub open spec fn log_in_order(reply: ReplyView) -> bool {
    &&& forall|i: int, j: int|
        0 <= i < j < reply.changes.len() ==> (#[trigger] reply.changes[i]).0 < (
        #[trigger] reply.changes[j]).0
    &&& forall|i: int|
        0 <= i < reply.changes.len() ==> (#[trigger] reply.changes[i]).0 <= reply.edit
}

/// Whether a row is noted as changed after change `edit`.
pub open spec fn noted_after(reply: ReplyView, edit: u64, row: int) -> bool {
    exists|k: int|
        0 <= k < reply.changes.len() && (#[trigger] reply.changes[k]).0 > edit
            && reply.changes[k].1 == row
}

proof fn lemma_changes_start(changes: Seq<(u64, usize)>, edit: u64, i: int)
    requires
        0 <= i <= changes.len(),
        forall|a: int, b: int|
            0 <= a < b < changes.len() ==> (#[trigger] changes[a]).0 < (#[trigger] changes[b]).0,
    ensures
        0 <= changes_start(changes, edit, i) <= i,
        forall|k: int| changes_start(changes, edit, i) <= k < i ==> (#[trigger] changes[k]).0 > edit,
        forall|k: int| 0 <= k < changes_start(changes, edit, i) ==> (#[trigger] changes[k]).0 <= edit,
    decreases i,
{
    if 0 < i && changes[i - 1].0 > edit {
        lemma_changes_start(changes, edit, i - 1);
    } else if 0 < i {
        assert forall|k: int| 0 <= k < i implies (#[trigger] changes[k]).0 <= edit by {
            if k < i - 1 {
                assert(changes[k].0 < changes[i - 1].0);
            }
        }
    }
}

/// The rows a reply gives as changed since a change are those noted after it.
pub proof fn rows_changed_are_those_noted(reply: ReplyView, edit: u64, row: usize)
    requires
        log_in_order(reply),
    ensures
        changed_after(reply.changes, edit).contains(row) == noted_after(reply, edit, row as int),
{
    let changes = reply.changes;
    let start = changes_start(changes, edit, changes.len() as int);
    lemma_changes_start(changes, edit, changes.len() as int);
    let given = changed_after(changes, edit);
    if given.contains(row) {
        let k = choose|k: int| 0 <= k < given.len() && given[k] == row;
        assert(changes[start + k].0 > edit && changes[start + k].1 == row);
    }
    if noted_after(reply, edit, row as int) {
        let k = choose|k: int|
            0 <= k < changes.len() && (#[trigger] changes[k]).0 > edit && changes[k].1 == row;
        assert(k >= start);
        assert(given[k - start] == row);
    }
}

proof fn lemma_touch(v: ReplyView, ix: int, edit: u64)
    requires
        log_in_order(v),
        v.edit < u64::MAX,
        edit <= v.edit,
        0 <= ix <= usize::MAX,
    ensures
        log_in_order(v.touch(ix)),
        v.touch(ix).edit == v.edit + 1,
        noted_after(v.touch(ix), edit, ix),
        forall|row: int| #[trigger]
            noted_after(v, edit, row) ==> noted_after(v.touch(ix), edit, row),
{
    let w = v.touch(ix);
    let base = if v.changes.len() > 0 && v.changes.last().1 == ix {
        v.changes.drop_last()
    } else {
        v.changes
    };
    let n = base.len() as int;
    assert(w.changes =~= base.push((w.edit, ix as usize)));
    assert(w.changes[n].0 > edit && w.changes[n].1 == ix);
    assert forall|i: int, j: int| 0 <= i < j < w.changes.len() implies (#[trigger] w.changes[i]).0
        < (#[trigger] w.changes[j]).0 by {
        assert(w.changes[i] == v.changes[i]);
        if j < n {
            assert(w.changes[j] == v.changes[j]);
        } else {
            assert(v.changes[i].0 <= v.edit);
        }
    }
    assert forall|i: int| 0 <= i < w.changes.len() implies (#[trigger] w.changes[i]).0
        <= w.edit by {
        if i < n {
            assert(w.changes[i] == v.changes[i]);
            assert(v.changes[i].0 <= v.edit);
        }
    }
    assert forall|row: int| #[trigger] noted_after(v, edit, row) implies noted_after(
        w,
        edit,
        row,
    ) by {
        let k = choose|k: int|
            0 <= k < v.changes.len() && (#[trigger] v.changes[k]).0 > edit && v.changes[k].1
                == row;
        if k < n {
            assert(w.changes[k] == v.changes[k]);
        } else {
            assert(w.changes[n].1 == row);
        }
    }
}

proof fn lemma_touch_range(v: ReplyView, from: int, to: int, edit: u64)
    requires
        log_in_order(v),
        0 <= from,
        to <= usize::MAX,
        from <= to ==> v.edit + (to - from) <= u64::MAX,
        edit <= v.edit,
    ensures
        log_in_order(v.touch_range(from, to)),
        v.touch_range(from, to).edit == v.edit + (if to > from {
            to - from
        } else {
            0
        }),
        forall|row: int| from <= row < to ==> #[trigger] noted_after(
            v.touch_range(from, to),
            edit,
            row,
        ),
        forall|row: int| #[trigger]
            noted_after(v, edit, row) ==> noted_after(v.touch_range(from, to), edit, row),
    decreases to - from,
{
    if to > from {
        lemma_touch_range(v, from, to - 1, edit);
        let before = v.touch_range(from, to - 1);
        lemma_touch(before, to - 1, edit);
        let now = v.touch_range(from, to);
        assert forall|row: int| from <= row < to implies #[trigger] noted_after(
            now,
            edit,
            row,
        ) by {
            if row < to - 1 {
                assert(noted_after(before, edit, row));
            }
        }
    }
}

proof fn lemma_kept_prefix(parts: Seq<PartView>, n: int, m: int)
    requires
        0 <= n <= m <= parts.len(),
    ensures
        kept_rows(parts, n).len() <= kept_rows(parts, m).len(),
        kept_rows(parts, m).take(kept_rows(parts, n).len() as int) == kept_rows(parts, n),
        kept_rows(parts, m).len() <= kept_rows(parts, n).len() + (m - n),
    decreases m - n,
{
    let few = kept_rows(parts, n);
    if n == m {
        assert(few.take(few.len() as int) =~= few);
    } else {
        lemma_kept_prefix(parts, n, m - 1);
        assert(kept_rows(parts, m).take(few.len() as int) =~= kept_rows(parts, m - 1).take(
            few.len() as int,
        ));
    }
}

/// The rows of a reply start with those of its first parts.
proof fn lemma_rows_start(parts: Seq<PartView>, done: bool, n: int)
    requires
        0 <= n,
        n < parts.len() || (n == 0 && parts.len() == 0),
    ensures
        kept_rows(parts, n).len() <= rows_of(parts, done).len(),
        rows_of(parts, done).take(kept_rows(parts, n).len() as int) == kept_rows(parts, n),
        rows_of(parts, done).len() <= kept_rows(parts, n).len() + (parts.len() - n) + 1,
{
    let kept = kept_rows(parts, n);
    let rows = rows_of(parts, done);
    if parts.len() > 0 {
        let last = parts.len() - 1;
        lemma_kept_prefix(parts, n, last);
        assert(rows.take(kept.len() as int) =~= kept_rows(parts, last).take(kept.len() as int));
    } else {
        assert(rows.take(0) =~= kept);
    }
}

/// Rows not noted as changed are as they were, when only noted parts among the
/// settled ones have changed.
proof fn lemma_refreshed_tells(v: ReplyView, mid: ReplyView, edit: u64, ix: int)
    requires
        log_in_order(mid),
        edit <= mid.edit,
        mid.parts.len() >= v.parts.len(),
        mid.edit + (mid.parts.len() - settled(v.parts.len())) + 1 <= u64::MAX,
        mid.parts.len() < usize::MAX,
        forall|k: int|
            0 <= k < settled(v.parts.len()) ==> blank(#[trigger] mid.parts[k]) == blank(v.parts[k]),
        forall|k: int, row: int|
            0 <= k < settled(v.parts.len()) && 0 <= row < v.rows().len() && v.rows()[row] == Some(k)
                && #[trigger] mid.parts[k] != v.parts[k] ==> #[trigger] noted_after(mid, edit, row),
        0 <= ix < v.rows().len(),
        ix < mid.rows().len(),
    ensures
        noted_after(mid.refreshed(settled(v.parts.len())), edit, ix) || mid.refreshed(
            settled(v.parts.len()),
        ).row(ix) == v.row(ix),
        log_in_order(mid.refreshed(settled(v.parts.len()))),
{
    let s = settled(v.parts.len());
    let kept = kept_rows(v.parts, s);
    let now = mid.refreshed(s);
    lemma_kept_alike(mid.parts, v.parts, s);
    lemma_kept_rows(v.parts, s);
    lemma_rows_start(v.parts, v.done, s);
    lemma_rows_start(mid.parts, mid.done, s);
    lemma_refreshed_keeps(mid, s);
    lemma_rows_fit(mid.parts, mid.done);
    lemma_touch_range(mid, kept.len() as int, mid.rows().len() as int, edit);
    if ix < kept.len() {
        assert(v.rows().take(kept.len() as int)[ix] == kept[ix]);
        assert(mid.rows().take(kept.len() as int)[ix] == kept[ix]);
        let k = kept[ix]->0;
        assert(v.rows()[ix] == Some(k));
        if mid.parts[k] != v.parts[k] {
            assert(noted_after(mid, edit, ix));
        }
    } else {
        assert(noted_after(now, edit, ix));
    }
}

proof fn lemma_rows_fit(parts: Seq<PartView>, done: bool)
    ensures
        rows_of(parts, done).len() <= parts.len() + 1,
{
    if parts.len() > 0 {
        lemma_rows_start(parts, done, 0);
    }
}

/// Where a part is among rows in order.
proof fn lemma_place_of(rows: Seq<Option<int>>, part: int)
    ensures
        match place_of(rows, part) {
            Some(row) => 0 <= row < rows.len() && rows[row] == Some(part),
            None => forall|j: int| 0 <= j < rows.len() ==> #[trigger] rows[j] != Some(part),
        },
    decreases rows.len(),
{
    if rows.len() > 0 && rows.last() != Some(part) {
        lemma_place_of(rows.drop_last(), part);
        assert(forall|j: int| 0 <= j < rows.len() - 1 ==> rows.drop_last()[j] == rows[j]);
    }
}

/// A part's row touched is noted, and what was noted stays so.
proof fn lemma_touch_part(v: ReplyView, w: ReplyView, part: int, edit: u64)
    requires
        log_in_order(w),
        w.edit < u64::MAX,
        edit <= w.edit,
        v.parts.len() < usize::MAX,
    ensures
        log_in_order(w.touch_part(v.rows(), part)),
        w.edit <= w.touch_part(v.rows(), part).edit <= w.edit + 1,
        forall|row: int| #[trigger]
            noted_after(w, edit, row) ==> noted_after(w.touch_part(v.rows(), part), edit, row),
        forall|row: int|
            0 <= row < v.rows().len() && #[trigger] v.rows()[row] == Some(part) ==> noted_after(
                w.touch_part(v.rows(), part),
                edit,
                row,
            ),
{
    let rows = v.rows();
    lemma_place_of(rows, part);
    lemma_rows_fit(v.parts, v.done);
    match place_of(rows, part) {
        Some(at) => {
            lemma_touch(w, at, edit);
            assert forall|row: int| 0 <= row < rows.len() && #[trigger] rows[row] == Some(
                part,
            ) implies noted_after(w.touch_part(rows, part), edit, row) by {
                if row < at {
                    rows_follow_the_reply_in_order(v, row, at);
                } else if at < row {
                    rows_follow_the_reply_in_order(v, at, row);
                }
            }
        },
        None => {},
    }
}

proof fn lemma_touch_running(v: ReplyView, n: int, edit: u64)
    requires
        log_in_order(v),
        0 <= n <= v.parts.len(),
        v.edit + n <= u64::MAX,
        edit <= v.edit,
        v.parts.len() < usize::MAX,
    ensures
        log_in_order(v.touch_running(v.rows(), n)),
        v.edit <= v.touch_running(v.rows(), n).edit <= v.edit + n,
        forall|k: int, row: int|
            0 <= k < n && 0 <= row < v.rows().len() && #[trigger] v.rows()[row] == Some(k)
                && running(#[trigger] v.parts[k]) ==> noted_after(
                v.touch_running(v.rows(), n),
                edit,
                row,
            ),
    decreases n,
{
    if n > 0 {
        lemma_touch_running(v, n - 1, edit);
        let before = v.touch_running(v.rows(), n - 1);
        if running(v.parts[n - 1]) {
            lemma_touch_part(v, before, n - 1, edit);
        }
        let now = v.touch_running(v.rows(), n);
        assert forall|k: int, row: int|
            0 <= k < n && 0 <= row < v.rows().len() && #[trigger] v.rows()[row] == Some(k)
                && running(#[trigger] v.parts[k]) implies noted_after(now, edit, row) by {
            if k < n - 1 {
                assert(noted_after(before, edit, row));
            }
        }
    }
}

proof fn lemma_tool_part(v: ReplyView, id: Seq<char>, n: int)
    requires
        0 <= n <= v.parts.len(),
    ensures
        v.tool_from(id, n) is Some ==> 0 <= v.tool_from(id, n)->0 < n
            && v.parts[v.tool_from(id, n)->0] is Tool,
    decreases n,
{
    if n > 0 {
        lemma_tool_part(v, id, n - 1);
    }
}

/// A row keeps its index as the reply streams, and shows what it showed unless
/// it is noted as changed: rows that are neither new nor noted need not be gone
/// over again.
pub proof fn rows_not_noted_are_as_they_were(reply: ReplyView, event: HarnessEvent, ix: int)
    requires
        log_in_order(reply),
        reply.edit + reply.parts.len() + 8 <= u64::MAX,
        reply.parts.len() + 1 < usize::MAX,
        0 <= ix < reply.rows().len(),
        ix < reply.applied(event).rows().len(),
    ensures
        noted_after(reply.applied(event), reply.edit, ix) || reply.applied(event).row(ix)
            == reply.row(ix),
        log_in_order(reply.applied(event)),
{
    if leaves_rows(event) {
        assert(reply.applied(event).rows() == reply.rows());
        assert(log_in_order(reply.applied(event)));
    } else {
        lemma_changed_by_tells(reply, event, ix);
    }
}

proof fn lemma_changed_by_tells(reply: ReplyView, event: HarnessEvent, ix: int)
    requires
        !leaves_rows(event),
        log_in_order(reply),
        reply.edit + reply.parts.len() + 8 <= u64::MAX,
        reply.parts.len() + 1 < usize::MAX,
        0 <= ix < reply.rows().len(),
        ix < reply.applied(event).rows().len(),
    ensures
        noted_after(reply.applied(event), reply.edit, ix) || reply.applied(event).row(ix)
            == reply.row(ix),
        log_in_order(reply.applied(event)),
{
    let edit = reply.edit;
    lemma_applied(reply, event);
    let mid = changed_by(reply, event);
    let s = settled(reply.parts.len());
    lemma_refreshed_keeps(mid, s);
    match event {
        HarnessEvent::ToolInput { id, summary } => {
            lemma_tool_part(reply, id@, reply.parts.len() as int);
            if let Some(part) = reply.tool(id@) {
                let call = PartView::Tool(
                    ToolCallView { summary: Some(summary@), ..reply.parts[part]->Tool_0 },
                );
                let changed = ReplyView { parts: reply.parts.update(part, call), ..reply };
                assert(log_in_order(changed));
                lemma_touch_part(reply, changed, part, edit);
            }
        },
        HarnessEvent::ToolFinished { id, is_error } => {
            lemma_tool_part(reply, id@, reply.parts.len() as int);
            if let Some(part) = reply.tool(id@) {
                let call = PartView::Tool(
                    ToolCallView { state: end_state(is_error), ..reply.parts[part]->Tool_0 },
                );
                let changed = ReplyView { parts: reply.parts.update(part, call), ..reply };
                assert(log_in_order(changed));
                lemma_touch_part(reply, changed, part, edit);
            }
        },
        HarnessEvent::Finished { is_error, result } => {
            lemma_ended_tells(reply, end_state(is_error), edit);
        },
        HarnessEvent::Failed(error) => {
            lemma_ended_tells(reply, ToolState::Failed, edit);
        },
        _ => {
            assert(mid.changes == reply.changes && mid.edit == reply.edit);
        },
    }
    assert forall|k: int, row: int|
        0 <= k < s && 0 <= row < reply.rows().len() && reply.rows()[row] == Some(k)
            && #[trigger] mid.parts[k] != reply.parts[k] implies #[trigger] noted_after(
        mid,
        edit,
        row,
    ) by {
        lemma_noted_mid(reply, mid, event, edit, k, row);
    }
    lemma_refreshed_tells(reply, mid, edit, ix);
}

proof fn lemma_ended_tells(v: ReplyView, state: ToolState, edit: u64)
    requires
        log_in_order(v),
        v.edit + v.parts.len() <= u64::MAX,
        edit <= v.edit,
        v.parts.len() < usize::MAX,
    ensures
        log_in_order(v.ended(state)),
        v.edit <= v.ended(state).edit <= v.edit + v.parts.len(),
        forall|k: int|
            0 <= k < v.parts.len() ==> blank(#[trigger] v.ended(state).parts[k]) == blank(
                v.parts[k],
            ),
        forall|k: int, row: int|
            0 <= k < v.parts.len() && 0 <= row < v.rows().len() && v.rows()[row] == Some(k)
                && #[trigger] v.ended(state).parts[k] != v.parts[k] ==> #[trigger] noted_after(
                v.ended(state),
                edit,
                row,
            ),
{
    let n = v.parts.len() as int;
    let mid = v.touch_running(v.rows(), n);
    lemma_touch_running(v, n, edit);
    lemma_touch_running_parts(v, v.rows(), n);
    let ended = v.ended(state);
    assert(ended.changes == mid.changes && ended.edit == mid.edit);
    assert forall|k: int| 0 <= k < v.parts.len() implies blank(#[trigger] ended.parts[k]) == blank(
        v.parts[k],
    ) by {
        assert(ended.parts[k] == ended_part(v.parts[k], state));
    }
    assert forall|k: int, row: int|
        0 <= k < v.parts.len() && 0 <= row < v.rows().len() && v.rows()[row] == Some(k)
            && #[trigger] ended.parts[k] != v.parts[k] implies #[trigger] noted_after(
        ended,
        edit,
        row,
    ) by {
        assert(ended.parts[k] == ended_part(v.parts[k], state));
        assert(running(v.parts[k]));
        assert(noted_after(mid, edit, row));
        let j = choose|j: int|
            0 <= j < mid.changes.len() && (#[trigger] mid.changes[j]).0 > edit
                && mid.changes[j].1 == row;
        assert(ended.changes[j].0 > edit && ended.changes[j].1 == row);
    }
}

/// The settled parts an event changes are those whose rows it notes.
proof fn lemma_noted_mid(
    reply: ReplyView,
    mid: ReplyView,
    event: HarnessEvent,
    edit: u64,
    k: int,
    row: int,
)
    requires
        log_in_order(reply),
        reply.edit + reply.parts.len() + 8 <= u64::MAX,
        reply.parts.len() + 1 < usize::MAX,
        edit == reply.edit,
        !leaves_rows(event),
        mid == changed_by(reply, event),
        0 <= k < settled(reply.parts.len()),
        0 <= row < reply.rows().len(),
        reply.rows()[row] == Some(k),
        mid.parts[k] != reply.parts[k],
    ensures
        noted_after(mid, edit, row),
{
    match event {
        HarnessEvent::ToolInput { id, summary } => {
            lemma_tool_part(reply, id@, reply.parts.len() as int);
            if let Some(part) = reply.tool(id@) {
                let call = PartView::Tool(
                    ToolCallView { summary: Some(summary@), ..reply.parts[part]->Tool_0 },
                );
                let changed = ReplyView { parts: reply.parts.update(part, call), ..reply };
                assert(log_in_order(changed));
                lemma_touch_part(reply, changed, part, edit);
                assert(k == part);
            }
        },
        HarnessEvent::ToolFinished { id, is_error } => {
            lemma_tool_part(reply, id@, reply.parts.len() as int);
            if let Some(part) = reply.tool(id@) {
                let call = PartView::Tool(
                    ToolCallView { state: end_state(is_error), ..reply.parts[part]->Tool_0 },
                );
                let changed = ReplyView { parts: reply.parts.update(part, call), ..reply };
                assert(log_in_order(changed));
                lemma_touch_part(reply, changed, part, edit);
                assert(k == part);
            }
        },
        HarnessEvent::Finished { is_error, result } => {
            lemma_ended_tells(reply, end_state(is_error), edit);
            let ended = reply.ended(end_state(is_error));
            assert(mid.parts[k] == ended.parts[k]);
            assert(noted_after(ended, edit, row));
            let j = choose|j: int|
                0 <= j < ended.changes.len() && (#[trigger] ended.changes[j]).0 > edit
                    && ended.changes[j].1 == row;
            assert(mid.changes[j].0 > edit && mid.changes[j].1 == row);
        },
        HarnessEvent::Failed(error) => {
            lemma_ended_tells(reply, ToolState::Failed, edit);
            assert(mid.parts[k] == reply.ended(ToolState::Failed).parts[k]);
        },
        _ => {},
    }
}

/// The last row that is a tool call is one of the rows.
pub proof fn last_tool_is_a_row(reply: ReplyView)
    ensures
        last_tool(reply.parts, reply.rows()) is Some ==> 0 <= last_tool(
            reply.parts,
            reply.rows(),
        )->0 < reply.rows().len(),
{
    lemma_last_tool(reply.parts, reply.rows(), last_tool(reply.parts, reply.rows()));
}

/// A reply stopped is done, and only what was still running in it changed.
pub proof fn stopping_is_done(reply: ReplyView, state: ToolState)
    ensures
        reply.stopped(state).done,
        reply.stopped(state).parts == ended_parts(reply.parts, state),
{
    lemma_refreshed_keeps(reply.ended(state), settled(reply.parts.len()));
}

/// Adding a part leaves a reply as done as it was, and what was in it as it was.
pub proof fn adding_keeps_done(reply: ReplyView, part: PartView)
    ensures
        reply.with_part(part).done == reply.done,
        reply.with_part(part).parts == reply.parts.push(part),
{
    lemma_refreshed_keeps(
        ReplyView { parts: reply.parts.push(part), ..reply },
        settled(reply.parts.len()),
    );
}

} // verus!
