use suspense::activity::{project_name, title_in, JobKind};
use suspense::harness::HarnessEvent;
use suspense::hidden_anchor::HiddenAnchor;
use suspense::history_list::{question_ix, ASK_IX};
use suspense::prompt_mode::{Entered, PromptMode, Switched};
use suspense::prompt_queue::QueuedPrompt;
use suspense::prompt_view::{
    file_moved, file_opening, hint, Content, FileMoved, FileOpening, Pane, PaneShown, SelectionPopover, PANE_SLIDE_TIME,
};
use suspense::queueing::{EditOver, SendAs};
use suspense::questions::asked_error;
use suspense::reply::ReplyPart;
use suspense::runs::{Built, Redraw};
use suspense::task_table::ListChange;
use suspense::send_mode::SendMode;
use suspense::task::{Compiled, PromptTask, Session, TaskStatus};

fn anchor(name: &str, mode: Option<SendMode>) -> HiddenAnchor {
    HiddenAnchor { name: name.into(), mode, told: None, attached_text: vec!["note".into()] }
}

fn queued(file: &str, text: &str) -> QueuedPrompt {
    QueuedPrompt {
        file: file.into(),
        anchor: anchor("Prompt", Some(SendMode::Spec)),
        text: text.into(),
    }
}

fn in_project(dir: &str) -> PromptMode {
    let mut mode = PromptMode::new();
    assert!(mode.project_changed(Some(dir.into())).unwrap().load);
    mode
}

fn texts(mode: &PromptMode) -> Vec<&str> {
    mode.screen.queue.iter().map(|item| item.text.as_str()).collect()
}

/// A queued prompt is edited in the chat input, held meanwhile, and saved
/// back in its place; a prompt queued on purpose while the harness is free
/// waits rather than being sent.
#[test]
fn queued_prompts_are_edited_in_place_and_queued_on_purpose() {
    let mut mode = in_project("/p");
    mode.load_queue(vec![queued("/q/1.pi", "first"), queued("/q/2.pi", "second")]);
    assert_eq!(mode.queued_texts(), ["first", "second"]);
    let (first, second) = (mode.screen.queue[0].id, mode.screen.queue[1].id);

    // Edited, the first prompt is held: Send next sends nothing.
    assert!(mode.edit_queued(first).is_some());
    assert!(mode.send_next_clicked().is_none(), "an edited prompt was sent");
    // Editing another cancels the first edit.
    let edit = mode.edit_queued(second).unwrap();
    assert_eq!((edit.text.as_str(), edit.position, edit.mode), ("second", 2, SendMode::Spec));
    assert_eq!(edit.attached_text, ["note"]);
    assert_eq!(mode.editing_queued, Some(second));
    mode.screen.working = true;
    let EditOver::Save { id, was, was_text } = mode.queued_edit_over(Some("second, edited".into()))
    else {
        panic!("the edit is saved");
    };
    assert_eq!((id, was.file.as_str(), was_text.as_str()), (second, "/q/2.pi", "second"));
    assert!(mode.screen.queue[1].saved.is_none());
    let saving = mode.queued_edit_saved(id, Ok(queued("/q/2.pi", "second, edited")), was_text);
    assert!(saving.error.is_none() && saving.next.is_none());
    assert_eq!(mode.screen.queue[1].saved.as_ref().unwrap().text, "second, edited");
    assert_eq!(texts(&mode), ["first", "second, edited"]);
    assert_eq!(mode.editing_queued, None);

    // Queued on purpose with the harness free, it waits.
    mode.screen.working = false;
    mode.screen.queue.retain(|item| item.id == second);
    mode.screen.auto_send = true;
    mode.screen.queue_held = false;
    assert_eq!(mode.submit_as(SendMode::Code, true), SendAs::Queued(true));
    let id = mode.enqueue("on purpose".into(), true).unwrap();
    let saving = mode.queue_saved(id, Ok(queued("/q/3.pi", "on purpose")));
    assert!(saving.next.is_none(), "queued on purpose, it was sent");
    assert_eq!(texts(&mode), ["second, edited", "on purpose"]);
    assert!(mode.screen.tasks.is_empty());
}

/// Switching projects leaves the work of the one left running in the
/// background: its run still writes into it, never into the project on
/// screen, and switching back shows it just as it is, loading nothing
/// again.
#[test]
fn a_project_left_keeps_its_work_running() {
    let mut mode = in_project("/work/alpha");
    let task = mode.push_task("Work in alpha".into());
    mode.screen.working = true;
    mode.apply_event(task, &HarnessEvent::TextStarted, true, true);
    let question = mode.push_ask("Ask in alpha".into());

    assert!(mode.project_changed(Some("/work/beta".into())).unwrap().load);
    assert!(mode.screen.tasks.is_empty() && mode.screen.asks.is_empty() && !mode.screen.working);
    assert!(mode.is_working(), "alpha's work stopped counting");
    let busy = mode.busy_projects();
    assert_eq!(busy.len(), 1);
    assert_eq!(busy[0].project_dir, "/work/alpha");
    assert_eq!(busy[0].task.as_deref(), Some("Work in alpha"));
    assert_eq!(busy[0].questions, [(question, "Ask in alpha".to_string())]);
    let jobs = mode.running_jobs();
    let titles: Vec<&str> = jobs.iter().map(|job| job.title.as_str()).collect();
    assert_eq!(titles, ["Task · alpha", "Question · alpha"]);
    assert!(jobs.iter().all(|job| job.project.as_deref() == Some("/work/alpha")));
    assert_eq!(jobs[1].kind, JobKind::Question(question));

    // Alpha's run writes back into alpha, not beta on screen.
    let entered = mode.enter("/work/alpha");
    assert!(matches!(entered, Entered::Background(_, false)));
    let redraw =
        mode.apply_event(task, &HarnessEvent::TextDelta("Still going.".into()), true, true);
    assert_eq!(redraw, Redraw::Nothing);
    mode.ask_over(question);
    mode.leave(entered);
    assert!(mode.screen.tasks.is_empty() && mode.screen.asks.is_empty());
    assert_eq!(mode.screen.project_dir.as_deref(), Some("/work/beta"));

    let back = mode.project_changed(Some("/work/alpha".into())).unwrap();
    assert!(!back.load, "alpha is loaded again");
    assert!(back.busy, "alpha's work stopped");
    assert_eq!(mode.screen.tasks.len(), 1, "alpha's tasks were loaded again");
    assert!(mode.screen.working);
    assert!(mode.screen.tasks[0]
        .reply
        .parts
        .iter()
        .any(|part| matches!(part, ReplyPart::Text(text) if text.contains("Still going."))));
    assert_eq!(mode.screen.asks.len(), 1);
    assert!(!mode.screen.asks[0].task.status.is_active());
    // Now on screen, alpha's jobs are no longer headed with its name.
    let jobs = mode.running_jobs();
    let titles: Vec<&str> = jobs.iter().map(|job| job.title.as_str()).collect();
    assert_eq!(titles, ["Task"]);
    assert_eq!(mode.enter("/elsewhere"), Entered::NotOpen);
    assert_eq!(mode.enter("/work/alpha"), Entered::OnScreen);
}

/// Sent while the harness works, a prompt is queued; a question never is.
#[test]
fn prompts_are_sent_asked_or_queued() {
    let mut mode = PromptMode::new();
    assert_eq!(mode.send_as(SendMode::Code), SendAs::NoProject);
    assert!(mode.enqueue("x".into(), false).is_none());
    assert!(mode.start("x".into(), None).is_none());
    assert!(mode.ask("x".into()).is_none());
    assert_eq!(mode.preview_in(), Err("Open a project to preview the prompt."));
    mode.project_changed(Some("/p".into()));
    assert_eq!(mode.preview_in(), Ok("/p".to_string()));
    assert_eq!(mode.send_as(SendMode::Code), SendAs::Task);
    assert_eq!(mode.send_as(SendMode::Ask), SendAs::Question);
    mode.screen.working = true;
    assert_eq!(mode.send_as(SendMode::Code), SendAs::Queued(false));
    assert_eq!(mode.send_as(SendMode::Ask), SendAs::Question);
}

/// Prompts are sent one by one, in order, once the harness is free.
#[test]
fn the_queue_is_sent_in_order() {
    let mut mode = in_project("/p");
    mode.screen.working = true;
    let one = mode.enqueue("one".into(), false).unwrap();
    let two = mode.enqueue("two".into(), false).unwrap();
    assert!(mode.queue_saved(two, Ok(queued("/q/2", "two"))).next.is_none());
    assert!(mode.queue_saved(one, Ok(queued("/q/1", "one"))).next.is_none());
    mode.screen.working = false;
    let next = mode.auto_send_next().unwrap();
    assert_eq!((next.text.as_str(), next.saved.file.as_str()), ("one", "/q/1"));
    mode.screen.working = true;
    assert!(mode.auto_send_next().is_none());
    mode.screen.working = false;
    assert!(mode.set_auto_send(false).is_none());
    assert!(mode.auto_send_next().is_none());
    assert_eq!(mode.send_next_clicked().unwrap().text, "two");
    assert!(mode.send_next_clicked().is_none());
}

/// One that can't be saved leaves the queue; one cancelled while it is saved
/// leaves its file behind to be removed; an edit goes with its prompt.
#[test]
fn queued_prompts_fail_and_are_cancelled() {
    let mut mode = in_project("/p");
    mode.screen.working = true;
    let one = mode.enqueue("one".into(), false).unwrap();
    let saving = mode.queue_saved(one, Err("disk full".into()));
    assert_eq!(saving.error.as_deref(), Some("disk full"));
    assert!(mode.screen.queue.is_empty());
    let two = mode.enqueue("two".into(), false).unwrap();
    assert!(mode.file_to_cancel(two).is_none());
    mode.cancel(two, true);
    let saving = mode.queue_saved(two, Ok(queued("/q/2", "two")));
    assert_eq!(saving.unneeded.as_deref(), Some("/q/2"));

    let three = mode.enqueue("three".into(), false).unwrap();
    let four = mode.enqueue("four".into(), false).unwrap();
    mode.queue_saved(three, Ok(queued("/q/3", "three")));
    mode.queue_saved(four, Ok(queued("/q/4", "four")));
    mode.edit_queued(four);
    assert_eq!(mode.editing_position(), Some(2));
    assert_eq!(mode.file_to_cancel(three).as_deref(), Some("/q/3"));
    let cancelled = mode.cancel(three, true);
    assert!(!cancelled.edit_over);
    assert_eq!(cancelled.position, Some(1));
    assert!(mode.cancel(four, false).edit_over);
    assert_eq!(texts(&mode), ["four"]);

    let shown = mode.queue_shown().unwrap();
    assert_eq!((shown.label.as_str(), shown.send_next), ("1 queued", None));
    assert!(shown.rows.is_none());
    assert!(mode.toggle_queue());
    mode.screen.working = false;
    let shown = mode.queue_shown().unwrap();
    assert_eq!(shown.send_next, Some(true));
    assert_eq!(shown.rows.unwrap()[0].number, "1.");
    mode.edit_queued(four);
    assert!(mode.cancel_queued_edit() && !mode.cancel_queued_edit());
}

/// A prompt whose edit can't be saved stays as it was.
#[test]
fn an_edit_that_fails_leaves_the_prompt() {
    let mut mode = in_project("/p");
    mode.load_queue(vec![queued("/q/1", "first")]);
    let id = mode.screen.queue[0].id;
    mode.edit_queued(id);
    mode.screen.working = true;
    let EditOver::Save { id, was, was_text } = mode.queued_edit_over(Some("other".into())) else {
        panic!("the edit is saved");
    };
    let saving = mode.queued_edit_saved(id, Err((was, "no room".into())), was_text);
    assert_eq!(saving.error.as_deref(), Some("no room"));
    assert_eq!(texts(&mode), ["first"]);
    assert!(matches!(mode.queued_edit_over(None), EditOver::Nothing));
}

/// A task that works on files is built for, then compiled and run; once it
/// finishes well it leaves a note for the next commit.
#[test]
fn a_run_builds_compiles_runs_and_notes() {
    let mut mode = in_project("/p");
    mode.screen.session =
        Some(Session { project_dir: "/p".into(), id: "s1".into() });
    let mut run = mode.start("Do it".into(), Some(SendMode::Code)).unwrap();
    assert!(run.builds && mode.screen.working);
    assert_eq!(run.resume.as_deref(), Some("s1"));
    assert_eq!(mode.screen.tasks[0].status, TaskStatus::Building);
    mode.run_built(0, Built::Failed("line 1".into()));
    assert_eq!(mode.screen.tasks[0].status, TaskStatus::Compiling);
    assert!(matches!(&mode.screen.tasks[0].reply.parts[0], ReplyPart::Error(_)));
    mode.show_compiled(0, "Prompt_1".into(), "Do it, compiled".into());
    assert_eq!(mode.screen.tasks[0].status, TaskStatus::Running);
    for event in [
        HarnessEvent::Session("s2".into()),
        HarnessEvent::Finished { is_error: false, result: "Did it.".into() },
    ] {
        run.note(&event);
        mode.run_event(&run, &event, true, true);
    }
    mode.harness_done(&run);
    assert_eq!(mode.screen.session.as_ref().unwrap().id, "s2");
    mode.screen.history_stale = true;
    let over = mode.run_over(&run, Some("full".into()));
    assert_eq!(over.note, Some(("Do it".to_string(), "Did it.".to_string())));
    assert_eq!(over.load_history.as_deref(), Some("/p"));
    assert!(!mode.screen.working);
    assert_eq!(mode.screen.tasks[0].status, TaskStatus::Done);
    assert!(matches!(
        mode.screen.tasks[0].reply.parts.last(),
        Some(ReplyPart::Error(error))
            if error == "Could not save the task to the history: full"
    ));
}

/// A conversation the harness could not carry on is forgotten.
#[test]
fn a_conversation_not_carried_on_is_forgotten() {
    let mut mode = in_project("/p");
    mode.screen.session = Some(Session { project_dir: "/p".into(), id: "s1".into() });
    let run = mode.start("Do it".into(), Some(SendMode::Spec)).unwrap();
    mode.run_failed(0, "no harness".into());
    mode.harness_done(&run);
    assert!(mode.screen.session.is_none());
    let over = mode.run_over(&run, None);
    assert!(over.note.is_none() && over.load_history.is_none());
    assert_eq!(mode.screen.tasks[0].status, TaskStatus::Failed);
}

/// The history replaces the tasks only while the harness is free.
#[test]
fn the_history_waits_for_the_harness() {
    let mut mode = in_project("/p");
    mode.screen.working = true;
    assert!(mode.load_history().is_none());
    assert!(mode.screen.history_stale);
    assert!(!mode.history_loaded(vec![PromptTask::new("old".into(), 9)], None));
    mode.screen.working = false;
    assert_eq!(mode.load_history().as_deref(), Some("/p"));
    assert!(mode.history_loaded(vec![PromptTask::new("old".into(), 9)], None));
    assert_eq!(mode.screen.tasks.len(), 1);
    assert!(mode.set_output_lock(true) && !mode.set_output_lock(true));
    assert!(!mode.set_output_lock(false));
}

/// Questions run beside the task, and are answered or closed among the previous
/// answers.
#[test]
fn questions_are_asked_opened_and_closed() {
    let mut mode = in_project("/p");
    mode.screen.working = true;
    let mut one = mode.ask("One?".into()).unwrap();
    let two = mode.ask("Two?".into()).unwrap();
    assert_eq!(mode.screen.asks.len(), 2);
    mode.ask_compiled(one.id, "Ask_1".into(), "One?".into());
    for event in [
        HarnessEvent::Session("a1".into()),
        HarnessEvent::TextDelta("Yes.".into()),
        HarnessEvent::Finished { is_error: false, result: "Yes.".into() },
    ] {
        one.note(&event);
        mode.ask_event(&one, &event);
    }
    mode.ask_done(&one);
    mode.ask_over(one.id);
    assert_eq!(mode.screen.ask_session.as_ref().unwrap().id, "a1");
    assert_eq!(mode.expanded(), Some(one.id), "an answer opens once it is over");
    mode.collapse_ask(one.id);
    mode.ask_failed(two.id, "no harness".into());
    let stack = mode.ask_stack().unwrap();
    assert!(!stack.history_row);
    assert_eq!(stack.cards.len(), 2);
    assert_eq!((stack.cards[0].close, stack.cards[0].heading.as_str()), ("Close", "One?"));
    assert!(!stack.cards[0].line_above && stack.cards[1].line_above);

    assert!(mode.expand_ask(one.id));
    assert_eq!(mode.expanded(), Some(one.id));
    assert_eq!(mode.ask_stack().unwrap().cards.len(), 1);
    assert!(mode.drawer_open());
    assert_eq!(mode.drawer_count(), 1);
    assert!(mode.drag_drawer() && mode.drawer_follows_drag());
    mode.collapse_ask(one.id);
    assert!(!mode.drawer_open());
    mode.on_ask_tab = true;
    mode.screen.ask_history.toggle();
    assert!(mode.ask_history_shown());
    mode.close_answer_drawer();
    assert!(!mode.ask_history_shown());

    mode.close_ask(two.id);
    assert_eq!(mode.screen.answers.len(), 1);
    assert_eq!(mode.screen.answers[0].text, "Two?");
    assert!(!mode.expand_ask(two.id));
    mode.toggle_steps(7);
    assert!(mode.are_steps_shown(7) && !mode.are_steps_shown(6));
    mode.toggle_steps(7);
    assert!(!mode.are_steps_shown(7));
    assert_eq!(
        asked_error(None, Some("unresolved".into()), Some("no".into())).as_deref(),
        Some("unresolved")
    );
}

/// The answers saved are previous ones, but for those still open; the
/// conversation they left off is carried on, unless one was asked since.
#[test]
fn answers_load_but_for_those_open() {
    let mut mode = in_project("/p");
    let run = mode.ask("Open?".into()).unwrap();
    mode.ask_compiled(run.id, "Ask_1".into(), "Open?".into());
    let answer = |anchor: &str| {
        let mut task = PromptTask::new(anchor.into(), 40);
        task.set_compiled(Compiled { anchor: anchor.into(), markdown: "m".into() });
        task
    };
    let session = |id: &str| Some(Session { project_dir: "/p".into(), id: id.into() });
    mode.answers_loaded(vec![answer("Ask_0"), answer("Ask_1")], session("left"));
    let texts: Vec<&str> = mode.screen.answers.iter().map(|task| task.text.as_str()).collect();
    assert_eq!(texts, ["Ask_0"]);
    assert_eq!(mode.screen.ask_session.as_ref().unwrap().id, "left");
    mode.answers_loaded(vec![], session("other"));
    assert_eq!(mode.screen.ask_session.as_ref().unwrap().id, "left");

    assert!(mode.set_ask_lock(run.id, true) && !mode.set_ask_lock(run.id, true));
    assert!(mode.ask_event(&run, &HarnessEvent::TextStarted), "a locked answer scrolls");
    assert!(!mode.set_ask_lock(run.id, false) && !mode.set_ask_lock(99, true));
    mode.ask_over(run.id);
    mode.screen.task_history.toggle();
    mode.reveal_task();
    assert!(!mode.drawer_open() && !mode.screen.task_history.expanded);
    mode.expand_ask(run.id);
    mode.reveal_question();
    assert!(!mode.drawer_open());
}

/// What fills the view, and what heads it.
#[test]
fn parts_in_view_follow_the_tasks() {
    let mut mode = PromptMode::new();
    assert_eq!(mode.content(), Content::Hint);
    assert_eq!(hint(false), "Open a project to start prompting.");
    mode.project_changed(Some("/p".into()));
    mode.push_task("One".into());
    assert_eq!(mode.header_task(), Some(0));
    assert_eq!(mode.previous_tasks(), (0, true));
    mode.screen.task_history.toggle();
    assert_eq!((mode.content(), mode.header_task()), (Content::History, None));
}

/// The file pane slides in, splits the view, and slides out.
#[test]
fn the_file_pane_slides() {
    let mut pane = Pane { open: false, times: 0, opened: None, closing: None };
    assert_eq!(pane.shown(0, true), PaneShown::Nothing);
    pane.show(100);
    assert_eq!(pane.shown(100, true), PaneShown::SlidingIn(1));
    assert_eq!(pane.shown(100, false), PaneShown::Split);
    assert_eq!(pane.shown(100 + PANE_SLIDE_TIME, true), PaneShown::Split);
    pane.close(1000);
    assert_eq!(pane.shown(1001, true), PaneShown::SlidingOut(1));
    assert_eq!(pane.shown(1000 + PANE_SLIDE_TIME, true), PaneShown::Nothing);
}

/// Unsaved changes to the file open are asked about before another shows.
#[test]
fn unsaved_changes_are_asked_about() {
    assert_eq!(file_opening(None), FileOpening::Shows);
    assert_eq!(file_opening(Some(false)), FileOpening::Shows);
    assert_eq!(file_opening(Some(true)), FileOpening::Asks);
}

/// The file open follows a folder moved or deleted.
#[test]
fn the_file_open_follows_moves() {
    let opens = |moved: FileMoved| match moved {
        FileMoved::Opens(path) => path,
        FileMoved::Stays => "stays".into(),
        FileMoved::Closes => "closes".into(),
    };
    assert_eq!(opens(file_moved("/p/a/b.rs", false, "/p/a", Some("/p/c"))), "/p/c/b.rs");
    assert_eq!(opens(file_moved("/p/a", false, "/p/a", Some("/p/c"))), "/p/c");
    assert_eq!(opens(file_moved("/p/a/b.rs", true, "/p/a", Some("/p/c"))), "stays");
    assert_eq!(opens(file_moved("/p/a/b.rs", true, "/p/a", None)), "closes");
    assert_eq!(opens(file_moved("/p/ab.rs", false, "/p/a", None)), "stays");
}

/// Nothing on screen carries over from the project left.
#[test]
fn nothing_on_screen_carries_over() {
    let mut mode = in_project("/work/alpha");
    mode.push_task("Work in alpha".into());
    mode.set_output_lock(true);
    assert!(mode.draw_output(&vec![]).is_some());
    assert!(mode.draw_output(&vec![]).unwrap().is_empty());
    assert!(!mode.text_selected("text".into()), "the drawer is closed");
    mode.on_ask_tab = true;
    mode.screen.ask_history.toggle();
    assert!(mode.text_selected("text".into()));
    mode.selection_drawn();
    assert_eq!(mode.selection.text.as_deref(), Some("text"));

    assert_eq!(mode.project_changed(Some("/work/alpha".into())), None);
    assert_eq!(mode.selection.text.as_deref(), Some("text"));
    let switched = mode.project_changed(Some("/work/beta".into())).unwrap();
    assert_eq!(
        switched,
        Switched { load: true, output: ListChange::Reset { count: 0 }, busy: false }
    );
    assert_eq!(mode.take_selection(), None);
    assert!(!mode.output_locked);
    assert!(mode.output_table.layout.is_none());
    assert!(mode.draw_output(&vec![]).is_none(), "nothing was sent in beta");
}

/// Tasks, previous answers and questions number their tables apart.
#[test]
fn tables_are_numbered_apart() {
    let mut mode = in_project("/p");
    let first = mode.push_ask("First".into());
    let second = mode.push_ask("Second".into());
    assert_eq!((question_ix(first), question_ix(second)), (usize::MAX - 1, usize::MAX - 2));
    assert_eq!(mode.screen.task_history.id_base, 0);
    assert_eq!(mode.screen.ask_history.id_base, usize::MAX / 2);
    let stack = mode.ask_stack().unwrap();
    let cards: Vec<usize> = stack.cards.iter().map(|card| card.task_ix).collect();
    assert_eq!(cards.len(), 2);
    assert!(cards.contains(&(ASK_IX - first)) && cards.contains(&(ASK_IX - second)));
}

/// The popover by selected text shows for text, in an open drawer.
#[test]
fn selected_text_is_offered() {
    let mut popover = SelectionPopover { text: None };
    assert!(!popover.selected("  \n".into(), true));
    assert!(!popover.selected("text".into(), false));
    assert!(popover.selected("text".into(), true));
    popover.drawn(true);
    assert_eq!(popover.take().as_deref(), Some("text"));
    assert_eq!(popover.take(), None);
    assert!(popover.selected("text".into(), true));
    popover.drawn(false);
    assert_eq!(popover.take(), None, "it stayed without the drawer");
}

#[test]
fn projects_are_named_by_their_folder() {
    assert_eq!(project_name("/work/alpha/"), "alpha");
    assert_eq!(project_name("/"), "/");
    assert_eq!(title_in("Task", Some("/work/alpha")), "Task · alpha");
    assert_eq!(title_in("Task", None), "Task");
}

/// A prompt sent without a project says so.
#[test]
fn sending_needs_a_project() {
    let mode = PromptMode::new();
    assert_eq!(
        mode.send_as(SendMode::Code).note(),
        Some(("No project open", "Open a project before sending a prompt."))
    );
    assert_eq!(in_project("/p").send_as(SendMode::Code).note(), None);
}
