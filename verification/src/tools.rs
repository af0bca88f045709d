//! The tools the harness calls, and what a call of one shows.
use vstd::prelude::*;
use crate::paths::text_of;
use crate::shell_format::{format_command, formatted};
use crate::text::{chars_of, concat, concat_of, end_of_run, find_from, group_runs, index_of, is_white,
    lemma_find_none, name_char, piece, push_all, repeat, repeated, run_end, same, stands_at,
    string_of, trim_end_of, trimmed_end_of, views, white, Class};
use crate::theme::{Hue, Icon};

verus! {

// ---------------------------------------------------------------------------
// Kinds of tool
// ---------------------------------------------------------------------------

/// The general type of a tool call, shown as its badge.
#[derive(Clone, Copy, Debug, PartialEq, Eq, Structural)]
pub enum ToolKind {
    Read,
    Edit,
    Command,
    Web,
    Agent,
    Other,
}

impl ToolKind {
    pub open spec fn kind_of(name: Seq<char>) -> ToolKind {
        if name == "Read"@ || name == "Glob"@ || name == "Grep"@ || name == "LS"@ || name
            == "NotebookRead"@ {
            ToolKind::Read
        } else if name == "Edit"@ || name == "MultiEdit"@ || name == "Write"@ || name
            == "NotebookEdit"@ {
            ToolKind::Edit
        } else if name == "Bash"@ || name == "BashOutput"@ || name == "KillShell"@ || name
            == "KillBash"@ {
            ToolKind::Command
        } else if name == "WebFetch"@ || name == "WebSearch"@ {
            ToolKind::Web
        } else if name == "Task"@ || name == "Agent"@ {
            ToolKind::Agent
        } else {
            ToolKind::Other
        }
    }

    pub fn of(tool_name: &str) -> (r: ToolKind)
        ensures
            r == ToolKind::kind_of(tool_name@),
    {
        if same(tool_name, "Read") || same(tool_name, "Glob") || same(tool_name, "Grep") || same(
            tool_name,
            "LS",
        ) || same(tool_name, "NotebookRead") {
            ToolKind::Read
        } else if same(tool_name, "Edit") || same(tool_name, "MultiEdit") || same(
            tool_name,
            "Write",
        ) || same(tool_name, "NotebookEdit") {
            ToolKind::Edit
        } else if same(tool_name, "Bash") || same(tool_name, "BashOutput") || same(
            tool_name,
            "KillShell",
        ) || same(tool_name, "KillBash") {
            ToolKind::Command
        } else if same(tool_name, "WebFetch") || same(tool_name, "WebSearch") {
            ToolKind::Web
        } else if same(tool_name, "Task") || same(tool_name, "Agent") {
            ToolKind::Agent
        } else {
            ToolKind::Other
        }
    }

    pub open spec fn label_text(self) -> Seq<char> {
        match self {
            ToolKind::Read => "Files"@,
            ToolKind::Edit => "Edit"@,
            ToolKind::Command => "Command"@,
            ToolKind::Web => "Web"@,
            ToolKind::Agent => "Agent"@,
            ToolKind::Other => "Tool"@,
        }
    }

    /// What its badge says.
    pub fn label(self) -> (r: &'static str)
        ensures
            r@ == self.label_text(),
    {
        match self {
            ToolKind::Read => "Files",
            ToolKind::Edit => "Edit",
            ToolKind::Command => "Command",
            ToolKind::Web => "Web",
            ToolKind::Agent => "Agent",
            ToolKind::Other => "Tool",
        }
    }

    pub open spec fn icon_shown(self) -> Icon {
        match self {
            ToolKind::Read => Icon::BookOpen,
            ToolKind::Edit => Icon::FilePenLine,
            ToolKind::Command => Icon::SquareTerminal,
            ToolKind::Web => Icon::Globe,
            ToolKind::Agent => Icon::Bot,
            ToolKind::Other => Icon::Wrench,
        }
    }

    pub fn icon(self) -> (r: Icon)
        ensures
            r == self.icon_shown(),
    {
        match self {
            ToolKind::Read => Icon::BookOpen,
            ToolKind::Edit => Icon::FilePenLine,
            ToolKind::Command => Icon::SquareTerminal,
            ToolKind::Web => Icon::Globe,
            ToolKind::Agent => Icon::Bot,
            ToolKind::Other => Icon::Wrench,
        }
    }

    pub open spec fn pending_text(self) -> Option<Seq<char>> {
        match self {
            ToolKind::Read => Some("Choosing what to read…"@),
            ToolKind::Edit => Some("Writing the edit…"@),
            ToolKind::Command => Some("Writing the command…"@),
            ToolKind::Web => Some("Preparing the request…"@),
            ToolKind::Agent => Some("Briefing the agent…"@),
            ToolKind::Other => None,
        }
    }

    /// What stands in for a call's input while it streams in, for a kind whose
    /// raw output would only be noise until the input is known. A tool of no
    /// known kind has none, and shows the raw output instead.
    pub fn pending_input(self) -> (r: Option<&'static str>)
        ensures
            match r {
                Some(text) => self.pending_text() == Some(text@),
                None => self.pending_text() is None,
            },
    {
        match self {
            ToolKind::Read => Some("Choosing what to read…"),
            ToolKind::Edit => Some("Writing the edit…"),
            ToolKind::Command => Some("Writing the command…"),
            ToolKind::Web => Some("Preparing the request…"),
            ToolKind::Agent => Some("Briefing the agent…"),
            ToolKind::Other => None,
        }
    }

    pub open spec fn hue_shown(self) -> Hue {
        match self {
            ToolKind::Read => Hue::Blue,
            ToolKind::Edit => Hue::Amber,
            ToolKind::Command => Hue::Purple,
            ToolKind::Web => Hue::Cyan,
            ToolKind::Agent => Hue::Green,
            ToolKind::Other => Hue::Grey,
        }
    }

    pub fn hue(self) -> (r: Hue)
        ensures
            r == self.hue_shown(),
    {
        match self {
            ToolKind::Read => Hue::Blue,
            ToolKind::Edit => Hue::Amber,
            ToolKind::Command => Hue::Purple,
            ToolKind::Web => Hue::Cyan,
            ToolKind::Agent => Hue::Green,
            ToolKind::Other => Hue::Grey,
        }
    }
}

/// How a tool call stands.
#[derive(Clone, Copy, Debug, PartialEq, Eq, Structural)]
pub enum ToolState {
    Running,
    Done,
    Failed,
}

impl ToolState {
    pub fn label(self) -> (r: &'static str)
        ensures
            r@ == (match self {
                ToolState::Running => "running"@,
                ToolState::Done => "done"@,
                ToolState::Failed => "failed"@,
            }),
    {
        match self {
            ToolState::Running => "running",
            ToolState::Done => "done",
            ToolState::Failed => "failed",
        }
    }
}

// ---------------------------------------------------------------------------
// Paths relative to the project
// ---------------------------------------------------------------------------

/// Whether a path after a character goes on from it.
pub open spec fn path_char(c: char) -> bool {
    name_char(c) || c == '/' || c == '.' || c == '-' || c == '~'
}

/// Whether a file name, written without quotes, doesn't go on with a character:
/// blanks, quotes and the shell's operators, what sets apart what is listed or
/// closes it, and the marks of prose, an ellipsis or a curly quote among them.
pub open spec fn ends_name(c: char) -> bool {
    white(c) || c == '\'' || c == '"' || c == '`' || c == ';' || c == '&' || c == '|' || c == '<'
        || c == '>' || c == '(' || c == ')' || c == ':' || c == ',' || c == ']' || c == '}' || c
        == '?' || c == '!' || (c > '\u{7f}' && !path_char(c))
}

/// Whether a backslash is no part of a name: it continues a line, or escapes a
/// quote.
pub open spec fn escapes_end(rest: Seq<char>) -> bool {
    rest[0] == '\\' && (rest.len() == 1 || rest[1] == '\n' || rest[1] == '"' || rest[1] == '\'')
}

/// Whether a path ends before `rest`, no name going on there.
pub open spec fn ends_path(rest: Seq<char>) -> bool {
    rest.len() == 0 || ends_name(rest[0]) || escapes_end(rest)
}

pub open spec fn starts_path(before: Seq<char>) -> bool {
    before.len() == 0 || !path_char(before.last())
}

/// `out`, and `rest` after it with `dir` written relative to itself.
pub open spec fn relative_from(rest: Seq<char>, dir: Seq<char>, out: Seq<char>) -> Seq<char>
    decreases rest.len(),
    via relative_from_shortens
{
    let at = find_from(rest, dir, 0);
    if dir.len() == 0 || at < 0 || at + dir.len() > rest.len() {
        out + rest
    } else {
        let out = out + rest.take(at);
        let after = rest.skip(at + dir.len());
        if starts_path(out) && ends_path(after) {
            relative_from(after, dir, out.push('.'))
        } else if starts_path(out) && after.len() > 0 && after[0] == '/' {
            let inside = after.skip(run_end(after, Class::Is('/'), 0));
            if ends_path(inside) {
                relative_from(inside, dir, out.push('.'))
            } else {
                relative_from(inside, dir, out)
            }
        } else {
            relative_from(after, dir, out + dir)
        }
    }
}

#[via_fn]
proof fn relative_from_shortens(rest: Seq<char>, dir: Seq<char>, out: Seq<char>) {
    broadcast use group_runs;

}

/// `text` with the project directory written relative to it.
pub open spec fn relative(text: Seq<char>, project_dir: Option<Seq<char>>) -> Seq<char> {
    match project_dir {
        Some(dir) => relative_from(text, trim_end_of(dir, Class::Is('/')), seq![]),
        None => text,
    }
}

fn is_path_char(c: char) -> (b: bool)
    ensures
        b == path_char(c),
{
    Class::Name.holds(c) || c == '/' || c == '.' || c == '-' || c == '~'
}

fn is_ending_name(c: char) -> (b: bool)
    ensures
        b == ends_name(c),
{
    is_white(c) || c == '\'' || c == '"' || c == '`' || c == ';' || c == '&' || c == '|' || c == '<'
        || c == '>' || c == '(' || c == ')' || c == ':' || c == ',' || c == ']' || c == '}' || c
        == '?' || c == '!' || (c > '\u{7f}' && !is_path_char(c))
}

/// Whether a path ends before `i`.
fn is_path_end(v: &[char], i: usize) -> (b: bool)
    requires
        i <= v@.len(),
    ensures
        b == ends_path(v@.skip(i as int)),
{
    if i >= v.len() || is_ending_name(v[i]) {
        return true;
    }
    v[i] == '\\' && (i + 1 >= v.len() || v[i + 1] == '\n' || v[i + 1] == '"' || v[i + 1] == '\'')
}

proof fn lemma_run_shift(s: Seq<char>, from: int, i: int)
    requires
        0 <= from <= s.len(),
        0 <= i <= s.len() - from,
    ensures
        run_end(s, Class::Is('/'), from + i) == from + run_end(s.skip(from), Class::Is('/'), i),
    decreases s.len() - from - i,
{
    if from + i < s.len() && s[from + i] == '/' {
        lemma_run_shift(s, from, i + 1);
    }
}

/// `text` with the project directory written relative to it: paths inside the
/// directory lose its path, and the directory itself reads `.`. A path that
/// only starts with the same characters, like a sibling directory, is kept.
pub fn relative_to_project(text: &str, project_dir: Option<&str>) -> (r: String)
    ensures
        r@ == relative(
            text@,
            match project_dir {
                Some(dir) => Some(dir@),
                None => None,
            },
        ),
{
    let project_dir = match project_dir {
        Some(dir) => dir,
        None => {
            return text.to_owned();
        },
    };
    let dir = trimmed_end_of(&chars_of(project_dir), Class::Is('/'));
    let v = chars_of(text);
    if dir.len() == 0 {
        proof {
            assert(relative_from(v@, dir@, seq![]) =~= v@);
        }
        return text.to_owned();
    }
    let mut out: Vec<char> = Vec::new();
    let mut i: usize = 0;
    proof {
        assert(v@.skip(0) =~= v@);
        assert(out@ =~= seq![]);
    }
    loop
        invariant_except_break
            relative_from(v@.skip(i as int), dir@, out@) == relative_from(v@, dir@, seq![]),
        invariant
            i <= v@.len(),
            dir@.len() > 0,
        ensures
            out@ == relative_from(v@, dir@, seq![]),
        decreases v@.len() - i,
    {
        let ghost rest = v@.skip(i as int);
        let ghost before = out@;
        let at = index_of(&v, &dir, i);
        proof {
            lemma_find_shift(v@, dir@, i as int, 0);
        }
        if at >= v.len() {
            push_all(&mut out, &piece(&v, i, v.len()));
            proof {
                assert(v@.subrange(i as int, v@.len() as int) =~= rest);
            }
            break;
        }
        push_all(&mut out, &piece(&v, i, at));
        let after: usize = at + dir.len();
        proof {
            assert(v@.subrange(i as int, at as int) =~= rest.take(at - i));
            assert(rest.skip(at - i + dir@.len()) =~= v@.skip(after as int));
        }
        let starts = out.len() == 0 || !is_path_char(out[out.len() - 1]);
        let ends = is_path_end(&v, after);
        if starts && ends {
            out.push('.');
            i = after;
        } else if starts && after < v.len() && v[after] == '/' {
            let inside = end_of_run(&v, Class::Is('/'), after);
            proof {
                let tail = v@.skip(after as int);
                lemma_run_shift(v@, after as int, 0);
                assert(tail.skip(run_end(tail, Class::Is('/'), 0)) =~= v@.skip(inside as int));
            }
            if is_path_end(&v, inside) {
                out.push('.');
            }
            i = inside;
        } else {
            push_all(&mut out, &dir);
            i = after;
        }
    }
    string_of(&out)
}

proof fn lemma_find_shift(s: Seq<char>, pattern: Seq<char>, i: int, k: int)
    requires
        0 <= i,
        0 <= k,
        i + k <= s.len(),
    ensures
        find_from(s, pattern, i + k) == i + find_from(s.skip(i), pattern, k),
    decreases s.len() - i - k,
{
    let rest = s.skip(i);
    if i + k < s.len() {
        if k + pattern.len() <= rest.len() {
            assert(rest.subrange(k, k + pattern.len()) =~= s.subrange(
                i + k,
                i + k + pattern.len(),
            ));
        }
        assert(stands_at(rest, pattern, k) == stands_at(s, pattern, i + k));
        if !stands_at(rest, pattern, k) {
            lemma_find_shift(s, pattern, i, k + 1);
        }
    }
}

// ---------------------------------------------------------------------------
// Code blocks
// ---------------------------------------------------------------------------

/// How many `c`s in a row `s` ends with.
pub open spec fn ending_run(s: Seq<char>, c: char) -> nat
    decreases s.len(),
{
    if s.len() > 0 && s.last() == c {
        ending_run(s.drop_last(), c) + 1
    } else {
        0
    }
}

/// The most `c`s in a row in `s`.
pub open spec fn longest_run(s: Seq<char>, c: char) -> nat
    decreases s.len(),
{
    if s.len() == 0 {
        0
    } else {
        let before = longest_run(s.drop_last(), c);
        let ending = ending_run(s, c);
        if ending > before {
            ending
        } else {
            before
        }
    }
}

pub open spec fn fence_for(code: Seq<char>) -> Seq<char> {
    let longest = longest_run(code, '`');
    if longest > 2 {
        repeat('`', longest + 1)
    } else {
        repeat('`', 3)
    }
}

pub open spec fn fenced(language: Seq<char>, code: Seq<char>) -> Seq<char> {
    concat(seq![fence_for(code), language, "\n"@, code, "\n"@, fence_for(code)])
}

/// `code` as a fenced markdown code block, its fence longer than any run of
/// backticks inside it.
pub fn code_block(language: &str, code: &str) -> (r: String)
    ensures
        r@ == fenced(language@, code@),
{
    let v = chars_of(code);
    let mut longest: usize = 0;
    let mut ending: usize = 0;
    let mut i: usize = 0;
    while i < v.len()
        invariant
            i <= v@.len(),
            ending <= i,
            longest <= i,
            ending == ending_run(v@.take(i as int), '`'),
            longest == longest_run(v@.take(i as int), '`'),
        decreases v@.len() - i,
    {
        proof {
            assert(v@.take(i + 1).drop_last() =~= v@.take(i as int));
            assert(v@.take(i + 1).last() == v@[i as int]);
        }
        if v[i] == '`' {
            ending += 1;
        } else {
            ending = 0;
        }
        if ending > longest {
            longest = ending;
        }
        i += 1;
    }
    proof {
        assert(v@.take(v@.len() as int) =~= v@);
    }
    let mut fence = repeated(
        '`',
        if longest > 2 {
            longest
        } else {
            2
        },
    );
    fence.push('`');
    proof {
        assert(fence@ =~= fence_for(v@));
    }
    let fence = string_of(&fence);
    let parts: Vec<&str> = vec![&fence, language, "\n", code, "\n", &fence];
    proof {
        assert(views(parts@) =~= seq![fence@, language@, "\n"@, code@, "\n"@, fence@]);
    }
    concat_of(parts)
}

/// No run of backticks in the code is as long as the fence around it.
pub proof fn a_fence_is_longer_than_what_it_fences(code: Seq<char>, start: int, len: nat)
    requires
        0 <= start,
        start + len <= code.len(),
        forall|k: int| start <= k < start + len ==> #[trigger] code[k] == '`',
    ensures
        len < fence_for(code).len(),
{
    lemma_run_counted(code, start, len);
}

proof fn lemma_run_counted(s: Seq<char>, start: int, len: nat)
    requires
        0 <= start,
        start + len <= s.len(),
        forall|k: int| start <= k < start + len ==> #[trigger] s[k] == '`',
    ensures
        len <= longest_run(s, '`'),
        start + len == s.len() ==> len <= ending_run(s, '`'),
    decreases s.len(),
{
    if s.len() > 0 && len > 0 {
        let rest = s.drop_last();
        if start + len == s.len() {
            assert(s[s.len() - 1] == '`');
            let less = (len - 1) as nat;
            assert forall|k: int| start <= k < start + less implies #[trigger] rest[k] == '`' by {
                assert(rest[k] == s[k]);
            }
            lemma_run_counted(rest, start, less);
        } else {
            assert forall|k: int| start <= k < start + len implies #[trigger] rest[k] == '`' by {
                assert(rest[k] == s[k]);
            }
            lemma_run_counted(rest, start, len);
        }
    }
}

pub open spec fn command_shown(command: Seq<char>) -> Seq<char> {
    fenced("bash"@, formatted(command))
}

// ---------------------------------------------------------------------------
// Calls
// ---------------------------------------------------------------------------

/// A call of a tool.
#[derive(Debug, PartialEq)]
pub struct ToolCall {
    pub id: String,
    pub name: String,
    /// Its input, once known.
    pub summary: Option<String>,
    pub state: ToolState,
}

#[verifier::ext_equal]
pub struct ToolCallView {
    pub id: Seq<char>,
    pub name: Seq<char>,
    pub summary: Option<Seq<char>>,
    pub state: ToolState,
}

impl View for ToolCall {
    type V = ToolCallView;

    open spec fn view(&self) -> ToolCallView {
        ToolCallView {
            id: self.id@,
            name: self.name@,
            summary: text_of(self.summary),
            state: self.state,
        }
    }
}

impl ToolCallView {
    pub open spec fn kind(self) -> ToolKind {
        ToolKind::kind_of(self.name)
    }

    pub open spec fn name_shown(self) -> Option<Seq<char>> {
        if self.kind() == ToolKind::Other || self.summary is None {
            Some(self.name)
        } else {
            None
        }
    }

    pub open spec fn on_a_file(self) -> bool {
        self.name == "Read"@ || self.name == "Edit"@ || self.name == "MultiEdit"@ || self.name
            == "Write"@ || self.name == "NotebookRead"@ || self.name == "NotebookEdit"@
    }

    pub open spec fn summary_shown(self, project_dir: Option<Seq<char>>) -> Option<Seq<char>> {
        match self.summary {
            Some(summary) => if self.kind() == ToolKind::Command {
                Some(command_shown(relative(summary, project_dir)))
            } else {
                Some(relative(summary, project_dir))
            },
            None => None,
        }
    }

    /// Whether it is still waiting on its input.
    pub open spec fn partial(self) -> bool {
        self.summary is None && self.state == ToolState::Running
    }
}

pub open spec fn opt_str(s: Option<&str>) -> Option<Seq<char>> {
    match s {
        Some(s) => Some(s@),
        None => None,
    }
}

impl ToolCall {
    /// The tool's name, for the output column. Left out when the badge already
    /// says what the tool is and there is a summary to show instead; a tool
    /// the badge only calls "Tool" keeps its name.
    pub fn shown_name(&self) -> (r: Option<&str>)
        ensures
            opt_str(r) == self@.name_shown(),
    {
        if ToolKind::of(&self.name) == ToolKind::Other || self.summary.is_none() {
            Some(self.name.as_str())
        } else {
            None
        }
    }

    /// Whether the call reads or edits one file, which its summary names.
    pub fn works_on_a_file(&self) -> (b: bool)
        ensures
            b == self@.on_a_file(),
    {
        same(&self.name, "Read") || same(&self.name, "Edit") || same(&self.name, "MultiEdit")
            || same(&self.name, "Write") || same(&self.name, "NotebookRead") || same(
            &self.name,
            "NotebookEdit",
        )
    }

    pub fn is_command(&self) -> (b: bool)
        ensures
            b == (self@.kind() == ToolKind::Command),
    {
        ToolKind::of(&self.name) == ToolKind::Command
    }

    /// What its output cell shows of its summary: a command laid out and
    /// fenced as markdown, or anything else with its paths made relative.
    pub fn shown_summary(&self, project_dir: Option<&str>) -> (r: Option<String>)
        ensures
            text_of(r) == self@.summary_shown(opt_str(project_dir)),
    {
        match &self.summary {
            Some(summary) => {
                let relative = relative_to_project(summary, project_dir);
                if self.is_command() {
                    Some(code_block("bash", &format_command(&relative)))
                } else {
                    Some(relative)
                }
            },
            None => None,
        }
    }
}

// ---------------------------------------------------------------------------
// What holds of paths made relative
// ---------------------------------------------------------------------------

/// Text that doesn't hold the project's directory is left as it is.
pub proof fn text_elsewhere_stays_as_it_is(text: Seq<char>, dir: Seq<char>)
    requires
        forall|i: int| !stands_at(text, trim_end_of(dir, Class::Is('/')), i),
    ensures
        relative(text, Some(dir)) == text,
        relative(text, None) == text,
{
    let dir = trim_end_of(dir, Class::Is('/'));
    lemma_find_none(text, dir, 0);
    assert(Seq::<char>::empty() + text =~= text);
}

/// A path that only starts with the same characters as the project's directory,
/// like a sibling's, is kept.
pub proof fn a_sibling_is_kept(text: Seq<char>, dir: Seq<char>)
    requires
        ({
            let dir = trim_end_of(dir, Class::Is('/'));
            let after = text.skip(dir.len() as int);
            &&& dir.len() > 0
            &&& dir.is_prefix_of(text)
            &&& !ends_path(after)
            &&& after[0] != '/'
            &&& forall|i: int| !stands_at(after, dir, i)
        }),
    ensures
        relative(text, Some(dir)) == text,
{
    let dir = trim_end_of(dir, Class::Is('/'));
    let after = text.skip(dir.len() as int);
    assert(text.subrange(0, dir.len() as int) =~= dir);
    assert(find_from(text, dir, 0) == 0);
    lemma_find_none(after, dir, 0);
    let out = Seq::<char>::empty() + text.take(0);
    assert(out =~= Seq::<char>::empty());
    assert(relative_from(text, dir, seq![]) == relative_from(after, dir, out + dir));
    assert((out + dir) + after =~= text);
}

} // verus!
