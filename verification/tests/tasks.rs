use suspense::harness::HarnessEvent;
use suspense::hidden_anchor::HiddenAnchor;
use suspense::history_list::{HistoryList, HistoryRow, ASK_HISTORY_IX};
use suspense::reply::{OutputRow, Reply, RAW_LINE_CHARS};
use suspense::send_mode::SendMode;
use suspense::task::{Compiled, PromptTask, RunRecord, SavedPrompt, Session, TaskStatus, STOPPED};
use suspense::task_table::{
    badge, code_block, detail, end_in_view, first_line, last_line, latest_row, latest_status, prompt_key, raw_tail_line,
    relative_to_project, row_markdown, row_status, steps_label, Detail, Item, Latest, LatestStatus, Layout, ListChange, MarkdownKind,
    TableSync, ToolCall, Tone,
};
use suspense::theme::{Hue, Icon};
use suspense::tools::{ToolKind, ToolState};

fn tool(id: &str, name: &str) -> HarnessEvent {
    HarnessEvent::ToolStarted { id: id.into(), name: name.into() }
}

fn input(id: &str, summary: &str) -> HarnessEvent {
    HarnessEvent::ToolInput { id: id.into(), summary: summary.into() }
}

fn finished(is_error: bool, result: &str) -> HarnessEvent {
    HarnessEvent::Finished { is_error, result: result.into() }
}

fn rows(reply: &Reply) -> Vec<OutputRow<'_>> {
    (0..reply.row_count()).map(|ix| reply.row(ix).unwrap()).collect()
}

fn anchor(name: &str) -> HiddenAnchor {
    HiddenAnchor { name: name.into(), mode: None, told: None, attached_text: vec![] }
}

fn compiled(anchor: &str, markdown: &str) -> Compiled {
    Compiled { anchor: anchor.into(), markdown: markdown.into() }
}

/// A reply is a row per piece of text and per tool call, in the order they
/// happened; text with nothing in it yet is left out.
#[test]
fn output_rows_follow_the_reply_in_order() {
    let mut reply = Reply::new(0);
    for event in [
        tool("t1", "Read"),
        HarnessEvent::TextStarted,
        tool("t2", "Bash"),
        HarnessEvent::TextStarted,
        HarnessEvent::TextDelta("Now the edits.".into()),
        tool("t3", "Edit"),
        HarnessEvent::ToolFinished { id: "t2".into(), is_error: true },
    ] {
        reply.apply(&event);
    }

    let rows: Vec<String> = rows(&reply)
        .iter()
        .map(|row| match row {
            OutputRow::Text(text) => format!("text {text}"),
            OutputRow::Tool(call) => format!("{} {}", call.name, call.state.label()),
            OutputRow::Error(error) => format!("error {error}"),
            OutputRow::Pending => "pending".into(),
        })
        .collect();
    assert_eq!(rows, ["Read running", "Bash failed", "text Now the edits.", "Edit running"]);
}

/// Until a reply is done its last row is still filling in: a pending row
/// while nothing is known of what comes next, text with no words yet, or a
/// tool call with no input yet. A finished reply has no such row.
#[test]
fn unfinished_reply_ends_in_a_row_still_filling_in() {
    let mut reply = Reply::new(0);
    assert_eq!(rows(&reply), [OutputRow::Pending]);

    reply.apply(&HarnessEvent::TextStarted);
    assert_eq!(rows(&reply), [OutputRow::Text("")]);
    reply.apply(&HarnessEvent::TextDelta("Looking.".into()));
    assert_eq!(rows(&reply), [OutputRow::Text("Looking."), OutputRow::Pending]);

    reply.apply(&tool("t1", "Read"));
    assert!(matches!(
        rows(&reply).as_slice(),
        [OutputRow::Text(_), OutputRow::Tool(call)] if call.summary.is_none()
    ));
    reply.apply(&input("t1", "a.rs"));
    assert_eq!(rows(&reply).last(), Some(&OutputRow::Pending));

    reply.apply(&HarnessEvent::TextStarted);
    reply.apply(&finished(false, ""));
    assert!(matches!(
        rows(&reply).as_slice(),
        [OutputRow::Text("Looking."), OutputRow::Tool(call)] if call.state == ToolState::Done
    ));
}

/// A reply keeps only the harness's last few raw output lines, each cut
/// short, to show while nothing else is known.
#[test]
fn reply_keeps_the_tail_of_its_raw_output() {
    let mut reply = Reply::new(0);
    for line in ["1", "2", "3", "4"] {
        reply.apply(&HarnessEvent::Output(line.into()));
    }
    assert_eq!(reply.raw_tail, ["2", "3", "4"]);
    assert_eq!(rows(&reply), [OutputRow::Pending]);

    reply.apply(&HarnessEvent::Output("é".repeat(RAW_LINE_CHARS * 2)));
    assert_eq!(reply.raw_tail.back().map(|line| line.chars().count()), Some(RAW_LINE_CHARS));
}

/// A tool call's name is left out of its output when its badge names it
/// and there is a summary; otherwise the name is kept.
#[test]
fn tool_name_is_shown_only_when_the_badge_does_not_say_it() {
    let call = |name: &str, summary: Option<&str>| {
        let mut reply = Reply::new(0);
        reply.apply(&tool("t", name));
        if let Some(summary) = summary {
            reply.apply(&input("t", summary));
        }
        let shown = match reply.row(0) {
            Some(OutputRow::Tool(call)) => call.shown_name().map(str::to_string),
            row => panic!("{row:?}"),
        };
        shown
    };
    assert_eq!(call("Read", Some("/tmp/a.txt")), None);
    assert_eq!(call("Bash", Some("ls")), None);
    assert_eq!(call("WebSearch", Some("gpui")), None);
    assert_eq!(call("Bash", None), Some("Bash".to_string()));
    assert_eq!(call("TodoWrite", Some("plan")), Some("TodoWrite".to_string()));
    assert_eq!(call("mcp__backlog__list", None), Some("mcp__backlog__list".to_string()));
}

/// A tool of a known kind says what it is getting ready to do while its
/// input streams in; any other tool shows the raw output.
#[test]
fn known_tools_replace_the_raw_output_while_their_input_streams() {
    for name in ["Read", "Grep", "Edit", "Write", "Bash", "WebFetch", "Task"] {
        assert!(ToolKind::of(name).pending_input().is_some(), "{name}");
    }
    assert_eq!(ToolKind::of("mcp__backlog__list").pending_input(), None);
}

/// Paths in the project directory are shown relative to it; anything
/// outside it, or only sharing its name's start, is left as it is.
#[test]
fn project_paths_are_shown_relative() {
    let dir = Some("/home/u/proj");
    assert_eq!(relative_to_project("/home/u/proj/src/main.rs", dir), "src/main.rs");
    assert_eq!(relative_to_project("/home/u/proj", dir), ".");
    assert_eq!(
        relative_to_project("cd /home/u/proj/ && ls '/home/u/proj/spec' /home/u/proj2", dir),
        "cd . && ls 'spec' /home/u/proj2"
    );
    assert_eq!(relative_to_project("/tmp/home/u/proj/a", dir), "/tmp/home/u/proj/a");
    assert_eq!(relative_to_project("/home/u/proj/a", None), "/home/u/proj/a");
}

/// A task compiles, runs, and is done once the harness finishes; a failed
/// run adds its error as a row, and a run stopped without a result fails.
#[test]
fn task_status_follows_its_run() {
    let mut task = PromptTask::new("Do it".into(), 1);
    assert_eq!(task.status, TaskStatus::Compiling);
    task.set_compiled(compiled("Prompt_0", "Do it"));
    assert_eq!(task.status, TaskStatus::Running);
    task.apply(&finished(false, "All done."));
    task.end();
    assert_eq!(task.status, TaskStatus::Done);

    let mut failed = PromptTask::new("Do it".into(), 2);
    failed.set_compiled(compiled("Prompt_1", "Do it"));
    failed.apply(&HarnessEvent::Failed("no harness".into()));
    failed.end();
    assert_eq!(failed.status, TaskStatus::Failed);
    assert_eq!(rows(&failed.reply), [OutputRow::Error("no harness")]);

    let mut stopped = PromptTask::new("Do it".into(), 3);
    stopped.set_compiled(compiled("Prompt_2", "Do it"));
    stopped.apply(&tool("t1", "Bash"));
    stopped.end();
    assert_eq!(stopped.status, TaskStatus::Failed);
    assert!(matches!(
        rows(&stopped.reply).as_slice(),
        [OutputRow::Tool(call), OutputRow::Error(_)] if call.state == ToolState::Failed
    ));
    assert_eq!(rows(&stopped.reply).last(), Some(&OutputRow::Error(STOPPED)));
}

/// A task from the history replays its recorded output into the task it
/// was; one with no record is shown as not recorded, with nothing pending.
#[test]
fn restored_tasks_replay_their_records() {
    let record = RunRecord {
        user_prompt: Some("Do it, compiled".into()),
        output: vec![
            tool("t1", "Read"),
            HarnessEvent::ToolFinished { id: "t1".into(), is_error: false },
            HarnessEvent::TextDelta("Done.".into()),
            finished(false, "Done."),
        ],
        error: None,
    };
    let task = PromptTask::restore(
        SavedPrompt { anchor: anchor("Prompt_7"), text: "Do it".into(), record: Some(record) },
        1,
    );
    assert_eq!(task.status, TaskStatus::Done);
    assert_eq!(task.compiled.as_ref().unwrap().anchor, "Prompt_7");
    assert!(matches!(
        rows(&task.reply).as_slice(),
        [OutputRow::Tool(call), OutputRow::Text("Done.")] if call.state == ToolState::Done
    ));

    let unrecorded = PromptTask::restore(
        SavedPrompt { anchor: anchor("Prompt_8"), text: "Old".into(), record: None },
        2,
    );
    assert_eq!(unrecorded.status, TaskStatus::Unrecorded);
    assert!(unrecorded.reply.done && unrecorded.compiled.is_none());
}

/// Tasks carry on the latest conversation in the history, passing over
/// runs that never reported one; a session is only resumed in its own
/// project, and one the harness could not resume is forgotten.
#[test]
fn sessions_resume_the_latest_conversation() {
    let saved = |output: Vec<HarnessEvent>| SavedPrompt {
        anchor: anchor("Prompt"),
        text: "Do it".into(),
        record: Some(RunRecord { user_prompt: None, output, error: None }),
    };
    let unrecorded = || SavedPrompt { anchor: anchor("Prompt"), text: "Old".into(), record: None };
    let history = vec![
        saved(vec![HarnessEvent::Session("old".into())]),
        saved(vec![HarnessEvent::Session("latest".into())]),
        saved(vec![]),
        unrecorded(),
    ];
    let mut session = Session::latest(&history, "/project");
    assert_eq!(Session::resume(&session, "/project").as_deref(), Some("latest"));
    assert_eq!(Session::resume(&session, "/other"), None);

    Session::forget(&mut session, "old");
    assert!(session.is_some(), "a different session was forgotten");
    Session::forget(&mut session, "latest");
    assert!(session.is_none());
    assert!(Session::latest(&vec![saved(vec![]), unrecorded()], "/project").is_none());
}

/// A run that finished with an error shows it, or that there was one.
#[test]
fn errors_told_are_shown() {
    let mut reply = Reply::new(0);
    assert_eq!(reply.apply(&finished(true, "")).as_deref(), Some("The harness reported an error."));
    assert!(reply.is_done());
    let mut reply = Reply::new(0);
    reply.apply(&tool("t1", "Bash"));
    assert_eq!(reply.apply(&finished(true, "Too long.")).as_deref(), Some("Too long."));
    assert!(matches!(reply.row(0), Some(OutputRow::Tool(call)) if call.state == ToolState::Failed));
    assert!(matches!(
        reply.apply(&HarnessEvent::Failed("gone".into())).as_deref(),
        Some("gone")
    ));
    reply.push_error("late".into());
    assert_eq!(reply.last_row(), Some(OutputRow::Error("late")));
}

/// A badge says what a row is; one of an unknown kind is only a tool.
#[test]
fn badges_say_what_rows_are() {
    let mut reply = Reply::new(0);
    assert!(badge(&reply.row(0).unwrap()).is_none());
    reply.apply(&HarnessEvent::TextDelta("Hi".into()));
    let said = badge(&reply.row(0).unwrap()).unwrap();
    assert_eq!((said.tone, said.icon, said.label), (Tone::Secondary, Icon::MessageSquare, "Reply"));
    reply.apply(&tool("t", "Bash"));
    let ran = badge(&reply.row(1).unwrap()).unwrap();
    assert_eq!(ran.icon, Icon::SquareTerminal);
    assert_eq!(row_status(&reply.row(1).unwrap()), Some(ToolState::Running));
    reply.push_error("No.".into());
    let error = badge(&reply.row(2).unwrap()).unwrap();
    assert_eq!((error.tone, error.label), (Tone::Danger, "Error"));
    assert_eq!(ToolKind::of("TodoWrite"), ToolKind::Other);
}

/// What a row's output column shows: a command laid out, a file that opens, a
/// skeleton while a known tool's input streams in, the raw tail for others.
#[test]
fn details_show_commands_files_and_what_is_on_its_way() {
    let mut reply = Reply::new(0);
    reply.apply(&tool("t", "Bash"));
    assert!(matches!(detail(&reply.row(0).unwrap(), None, true), Detail::Skeleton));
    reply.apply(&input("t", "ls /p/src"));
    match detail(&reply.row(0).unwrap(), Some("/p"), true) {
        Detail::Command(command) => assert_eq!(command, code_block("bash", "ls src")),
        _ => panic!("a command is laid out"),
    }
    reply.apply(&tool("u", "Read"));
    reply.apply(&input("u", "/p/a.rs"));
    match detail(&reply.row(1).unwrap(), Some("/p"), true) {
        Detail::Tool(shown) => {
            assert_eq!(shown.name, None);
            assert_eq!(shown.summary.as_deref(), Some("a.rs"));
            assert_eq!(shown.opens.as_deref(), Some("/p/a.rs"));
        }
        _ => panic!("a file is shown"),
    }
    reply.apply(&tool("v", "mcp__x"));
    match detail(&reply.row(2).unwrap(), None, false) {
        Detail::Tool(shown) => assert!(shown.raw_tail && shown.name.as_deref() == Some("mcp__x")),
        _ => panic!("a tool is shown"),
    }
    assert_eq!(raw_tail_line(&reply, 0), "Waiting for the harness…");
    assert_eq!(raw_tail_line(&reply, 1), "\u{a0}");
    reply.apply(&HarnessEvent::Output("{}".into()));
    assert_eq!(raw_tail_line(&reply, 0), "{}");
}

/// A fence is longer than any run of backticks in what it fences.
#[test]
fn fences_are_longer_than_what_they_fence() {
    assert_eq!(code_block("bash", "ls"), "```bash\nls\n```");
    assert_eq!(code_block("", "a ```` b"), "`````\na ```` b\n`````");
}

/// The steps before an answer can be collapsed into one item.
#[test]
fn steps_collapse_into_an_item() {
    let mut reply = Reply::new(0);
    reply.apply(&tool("t", "Read"));
    reply.apply(&input("t", "a"));
    reply.apply(&HarnessEvent::TextDelta("Done.".into()));
    reply.apply(&finished(false, "Done."));
    let open = Layout::of(&reply, None);
    assert_eq!((open.items(), open.steps), (2, None));
    let collapsed = Layout::of(&reply, Some(false));
    assert_eq!(collapsed.items(), 2);
    assert_eq!(collapsed.item(0), Item::Steps);
    assert_eq!(collapsed.item(1), Item::Row(1));
    assert_eq!(collapsed.item_of(0), None);
    let shown = Layout::of(&reply, Some(true));
    assert_eq!(shown.items(), 3);
    assert_eq!(shown.item_of(0), Some(1));
    assert_eq!(steps_label(false, 1), "Show 1 step");
    assert_eq!(steps_label(true, 2), "Hide 2 steps");
}

/// The list of a table is told of rows that come, and of none it has.
#[test]
fn the_list_is_told_of_rows() {
    let mut reply = Reply::new(5);
    let mut sync = TableSync::default();
    let layout = Layout::of(&reply, None);
    assert_eq!(
        sync.update(3, 0, &reply, layout, &vec![]),
        [ListChange::Splice { start: 3, end: 3, count: 1 }]
    );
    assert!(sync.update(3, 0, &reply, layout, &vec![]).is_empty());
    reply.apply(&tool("t", "Read"));
    reply.apply(&input("t", "a"));
    let layout = Layout::of(&reply, None);
    assert!(!sync.update(3, 0, &reply, layout, &vec![]).is_empty());
    assert!(sync.update(3, 0, &reply, layout, &vec![]).is_empty());
}

#[test]
fn lines_heads_and_ends() {
    assert_eq!(first_line("\n \n First\nsecond"), " First");
    assert_eq!(last_line("one\ntwo\n\n"), "two");
    let mut reply = Reply::new(0);
    reply.apply(&HarnessEvent::TextDelta("One.\nTwo.".into()));
    assert!(matches!(
        latest_row(&reply, None),
        Latest::Waiting(None, "Waiting for the harness…")
    ));
    assert_eq!(latest_status(&reply), LatestStatus::Spinner);
    reply.apply(&HarnessEvent::Output("{}".into()));
    assert!(matches!(latest_row(&reply, None), Latest::Raw(line) if line == "{}"));
    reply.apply(&finished(false, ""));
    assert!(matches!(latest_row(&reply, None), Latest::Line(line) if line == "Two."));
    assert_eq!(latest_status(&reply), LatestStatus::Nothing);
    let mut reply = Reply::new(0);
    reply.apply(&tool("t", "mcp__x"));
    assert!(matches!(
        latest_row(&reply, None),
        Latest::Waiting(Some(name), "Waiting for the harness…") if name == "mcp__x"
    ));
    assert_eq!(latest_status(&reply), LatestStatus::State(ToolState::Running));
    reply.apply(&HarnessEvent::Output("{}".into()));
    assert!(matches!(
        latest_row(&reply, None),
        Latest::RawTool(Some(name), line) if name == "mcp__x" && line == "{}"
    ));
    reply = Reply::new(0);
    reply.apply(&HarnessEvent::TextDelta("One.\nTwo.".into()));
    assert!(end_in_view(0, None, true) && end_in_view(3, Some(false), true));
    assert!(!end_in_view(3, Some(true), true) && !end_in_view(3, None, true));
    assert!(end_in_view(3, None, false));
    assert_eq!(prompt_key(4).kind, MarkdownKind::Prompt);
    let (key, text) = row_markdown(&reply, 2, 0, None).unwrap();
    assert_eq!((key.kind, key.table, key.row), (MarkdownKind::Output, 2, 0));
    assert_eq!(text, "One.\nTwo.");
    assert!(row_markdown(&reply, 2, 1, None).is_none());
}

/// A call made by hand: what it works on, and how it is shown.
#[test]
fn calls_know_what_they_work_on() {
    let call = |name: &str| ToolCall {
        id: "t".into(),
        name: name.into(),
        summary: Some("x".into()),
        state: ToolState::Done,
    };
    assert!(call("Write").works_on_a_file() && !call("Grep").works_on_a_file());
    assert!(call("BashOutput").is_command() && !call("Read").is_command());
    assert_eq!(call("Grep").shown_summary(None).as_deref(), Some("x"));
}

/// A reply notes which rows changed, for a list drawn before to remeasure.
#[test]
fn rows_changed_since_are_noted() {
    let mut reply = Reply::new(0);
    reply.apply(&tool("t", "Read"));
    let edit = reply.edit;
    assert!(reply.changed_since(edit).is_empty());
    reply.apply(&input("t", "a"));
    assert!(reply.changed_since(edit).contains(&0));
}

/// Items of the history list: a heading each, and the open one's prompt, table
/// and end beneath it.
#[test]
fn the_open_item_has_its_rows_beneath_it() {
    assert_eq!(HistoryList::row_at(2, None), HistoryRow::Heading(2));
    let open = Some((1, 2));
    assert_eq!(HistoryList::row_at(0, open), HistoryRow::Heading(0));
    assert_eq!(HistoryList::row_at(1, open), HistoryRow::Heading(1));
    assert_eq!(HistoryList::row_at(2, open), HistoryRow::Prompt(1));
    assert_eq!(HistoryList::row_at(3, open), HistoryRow::TableHeader(1));
    assert_eq!(HistoryList::row_at(4, open), HistoryRow::TableRow(1, 0));
    assert_eq!(HistoryList::row_at(6, open), HistoryRow::End(1));
    assert_eq!(HistoryList::row_at(7, open), HistoryRow::Heading(2));

    let mut list = HistoryList::tasks();
    assert_eq!(list.label(0), "No previous tasks");
    assert_eq!(list.label(1), "1 previous task");
    assert_eq!(list.label(3), "3 previous tasks");
    list.toggle();
    assert!(list.expanded && list.take_scroll() && !list.take_scroll());
    list.click(1);
    assert_eq!((list.open_of(2), list.open_of(1)), (Some(1), None));
    list.click(1);
    assert_eq!(list.open_of(2), None);
}

#[test]
fn statuses_have_labels_and_hues() {
    assert_eq!(TaskStatus::Unrecorded.label(), "Not recorded");
    assert_eq!(TaskStatus::Failed.hue(), Hue::Red);
    assert!(TaskStatus::Building.is_active() && !TaskStatus::Done.is_active());
    assert_eq!((SendMode::Both.label(), SendMode::Both.key()), ("Chain", "combined"));
}

/// A sibling whose name only starts the same is kept, whatever its name goes on
/// with.
#[test]
fn siblings_are_kept() {
    let dir = Some("/home/u/proj");
    for kept in [
        "/home/u/proj@old/a",
        "/home/u/proj+x",
        "/home/u/proj=x",
        "/home/u/proj#2/a",
        "/home/u/proj*",
        "/home/u/proj{1,2}",
    ] {
        assert_eq!(relative_to_project(kept, dir), kept);
    }
    assert_eq!(relative_to_project("/home/u/proj: no", dir), ".: no");
    assert_eq!(relative_to_project("/home/u/proj:/home/u/proj/a", dir), ".:a");
    assert_eq!(relative_to_project("(/home/u/proj)", dir), "(.)");
    assert_eq!(relative_to_project("ls /home/u/proj/*", dir), "ls *");
    assert_eq!(relative_to_project("/home/u/proj//a /home/u/proj//", dir), "a .");
    assert_eq!(relative_to_project("/home/u/proj\\ old", dir), "/home/u/proj\\ old");
}

/// The directory itself reads `.` before the marks of prose too.
#[test]
fn marks_after_the_directory_are_no_name() {
    let dir = Some("/p");
    for (text, shown) in [
        ("/p?", ".?"),
        ("in /p! yes", "in .! yes"),
        ("/p…", ".…"),
        ("“/p”", "“.”"),
        ("is it /p?!", "is it .?!"),
        (r#"\"/p\""#, r#"\".\""#),
        ("cd /p\\\n && ls", "cd .\\\n && ls"),
        ("/p/?", ".?"),
        ("from=/p,to=/w", "from=.,to=/w"),
        ("/p:12", ".:12"),
        ("[/p]a", "[.]a"),
        ("/p?x", ".?x"),
    ] {
        assert_eq!(relative_to_project(text, dir), shown);
    }
}

/// Another task's output starts afresh, at its top.
#[test]
fn another_tasks_output_is_drawn_afresh() {
    let mut task = PromptTask::new("Do it".into(), 7);
    task.apply(&tool("a", "Read"));
    task.apply(&finished(false, "All done."));
    let layout = Layout::of(&task.reply, None);
    let count = layout.items();
    let mut sync = TableSync::default();
    let afresh = [
        ListChange::Reset { count: 0 },
        ListChange::Splice { start: 0, end: 0, count },
    ];
    assert_eq!(sync.draw(1, &task.reply, layout, &vec![]), afresh);
    assert!(sync.draw(1, &task.reply, layout, &vec![]).is_empty());
    assert_eq!(sync.draw(2, &task.reply, layout, &vec![]), afresh);
    let other = PromptTask::new("Do that".into(), 8);
    let layout = Layout::of(&other.reply, None);
    assert_eq!(
        sync.draw(2, &other.reply, layout, &vec![]),
        [
            ListChange::Reset { count: 0 },
            ListChange::Splice { start: 0, end: 0, count: layout.items() },
        ]
    );
}

/// The open item of a history is known by its table, its prompt and its rows.
#[test]
fn the_open_item_is_laid_out() {
    let mut task = PromptTask::new("Ask".into(), 4);
    task.set_compiled(compiled("Prompt_0", "Ask"));
    task.apply(&tool("a", "Read"));
    task.apply(&HarnessEvent::TextDelta("The answer.".into()));
    task.apply(&finished(false, "The answer."));
    let tasks = vec![PromptTask::new("Other".into(), 3), task];
    let mut list = HistoryList::answers();
    assert!(list.open_item(&tasks, &vec![], &vec![]).is_none());
    list.click(5);
    assert!(list.open_item(&tasks, &vec![], &vec![]).is_none(), "there is no such item");
    list.click(1);
    let ix = ASK_HISTORY_IX + 1;
    let item = list.open_item(&tasks, &vec![], &vec![prompt_key(1)]).unwrap();
    assert_eq!((item.task_ix, item.compiled, item.prompt_parsed), (ix, true, false));
    assert_eq!(item.layout, Layout::of(&tasks[1].reply, Some(false)));
    let item = list.open_item(&tasks, &vec![7, ix], &vec![prompt_key(ix)]).unwrap();
    assert!(item.prompt_parsed);
    assert_eq!(item.layout, Layout::of(&tasks[1].reply, Some(true)));

    let told = list.lay_out(&tasks, &vec![], &vec![]);
    assert_eq!(told[0], ListChange::Reset { count: 2 });
    assert!(told.contains(&ListChange::Splice { start: 2, end: 2, count: 3 }));
    assert!(list.lay_out(&tasks, &vec![], &vec![]).is_empty());
    assert_eq!(
        list.lay_out(&tasks, &vec![], &vec![prompt_key(ix)]),
        [ListChange::Remeasure { start: 2, end: 3 }]
    );

    let mut whole = HistoryList::tasks();
    whole.click(1);
    let item = whole.open_item(&tasks, &vec![1], &vec![]).unwrap();
    assert_eq!((item.task_ix, item.layout), (1, Layout::of(&tasks[1].reply, None)));
}
