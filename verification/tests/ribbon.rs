use suspense::activity::{Job, JobKind};
use suspense::ribbon::RibbonTab::{Application, Code, Project, Research, Spec};
use suspense::ribbon::{
    build_title, collapsed_text, escape, primary_row, title_font, toggle_open, was_collapsed,
    BuildOutcome, Command, CommandSize, Group, Ribbon, RibbonTab, RowItem,
};
use suspense::send_mode::SendMode;
use suspense::theme::Icon;

fn job(id: usize, title: &str, detail: Option<&str>) -> Job {
    Job {
        kind: JobKind::Question(id),
        title: title.into(),
        detail: detail.map(str::to_string),
        project: None,
    }
}

/// Ctrl/Cmd+click opens a tab alongside the others, in the order of the
/// tabs, or closes it, but never the last one open.
#[test]
fn ctrl_click_opens_and_closes_tabs_alongside_others() {
    assert_eq!(toggle_open(&vec![Spec], Project), [Project, Spec]);
    assert_eq!(toggle_open(&vec![Project, Spec], Application), [Project, Spec, Application]);
    assert_eq!(toggle_open(&vec![Project, Code, Spec], Code), [Project, Spec]);
    assert_eq!(toggle_open(&vec![Spec], Spec), [Spec]);
}

/// A tab clicked twice with Ctrl/Cmd leaves the tabs as they were.
#[test]
fn toggling_twice_changes_nothing() {
    let open = vec![Code, Research];
    for tab in RibbonTab::all() {
        assert_eq!(toggle_open(&toggle_open(&open, tab), tab), open);
    }
}

/// A click opens a tab alone, and a double-click collapses the ribbon; showing
/// a tab by its place expands it.
#[test]
fn tabs_open_and_the_ribbon_collapses() {
    let mut ribbon = Ribbon::new(false);
    assert_eq!(ribbon.open_tabs, [Project]);
    assert!(!ribbon.tab_clicked(Spec, 1, false));
    assert_eq!(ribbon.open_tabs, [Spec]);
    assert_eq!(ribbon.body_mode(), Some(SendMode::Spec));
    assert!(!ribbon.tab_clicked(Code, 2, true));
    assert_eq!(ribbon.open_tabs, [Code, Spec]);
    assert_eq!(ribbon.body_mode(), None);
    assert!(ribbon.tab_clicked(Code, 2, false));
    assert!(ribbon.is_collapsed());
    assert_eq!(ribbon.collapse_tooltip(), "Expand the ribbon");
    assert!(!ribbon.tab_clicked(Code, 2, false));
    assert!(!ribbon.show_tab_at(5) && ribbon.collapsed);
    assert!(ribbon.show_tab_at(4));
    assert_eq!(ribbon.open_tabs, [Application]);
    assert!(!ribbon.collapsed);
    assert_eq!(ribbon.collapse_tooltip(), "Collapse the ribbon to its primary commands");
}

/// The list of what's running closes once nothing is.
#[test]
fn jobs_are_shown_while_they_run() {
    let mut ribbon = Ribbon::new(false);
    assert_eq!(ribbon.activity(), None);
    assert!(ribbon.set_jobs(vec![job(1, "Question", Some("Why?"))]));
    assert!(!ribbon.set_jobs(vec![job(1, "Question", Some("Why?"))]));
    assert_eq!(ribbon.activity().as_deref(), Some("Question: Why?"));
    assert!(ribbon.set_jobs(vec![job(1, "Task", None)]));
    assert_eq!(ribbon.activity().as_deref(), Some("Task"));
    ribbon.toggle_jobs();
    assert!(ribbon.set_jobs(vec![job(1, "Task", None), job(2, "Question", None)]));
    assert_eq!(ribbon.activity().as_deref(), Some("2 things running"));
    assert!(ribbon.jobs_open);
    assert!(ribbon.set_jobs(vec![]));
    assert!(!ribbon.jobs_open);
    ribbon.toggle_jobs();
    ribbon.close_jobs();
    assert!(!ribbon.jobs_open);
}

/// A build runs once in a project at a time, and says where it ran when another
/// is on screen by then.
#[test]
fn builds_run_once_in_a_project() {
    let mut ribbon = Ribbon::new(false);
    assert!(!ribbon.can_build(None) && !ribbon.build(None));
    assert!(ribbon.build(Some("/w/a")));
    assert!(!ribbon.build(Some("/w/a/")), "it was built twice at once");
    assert!(ribbon.build(Some("/w/b")));
    assert!(ribbon.is_building_here(Some("/w/a")) && !ribbon.is_building_here(None));
    let shown = ribbon.command_shown(Command::BuildSpec, Some("/w/a"));
    assert_eq!(shown.tooltip, "The spec is building");
    assert!(shown.disabled && shown.loading);
    ribbon.built("/w/a");
    assert_eq!(ribbon.building_projects(), ["/w/b"]);
    assert!(ribbon.can_build(Some("/w/a")) && ribbon.is_building());

    assert_eq!(build_title(BuildOutcome::Built(1), "/w/a", Some("/w/a")), "Built 1 file");
    assert_eq!(build_title(BuildOutcome::Built(3), "/w/a", Some("/w/b")), "Built 3 files in a");
    assert_eq!(build_title(BuildOutcome::Failed, "/w/a", None), "Build failed in a");
    assert_eq!(
        build_title(BuildOutcome::NotRun, "/w/a", Some("/w/a")),
        "Could not run piton build"
    );
}

/// Commands sit in groups, the primary ones in the collapsed row too; one that
/// can't run is disabled, with why.
#[test]
fn commands_are_grouped() {
    let mut ribbon = Ribbon::new(false);
    ribbon.select_tab(Spec);
    let groups = ribbon.groups();
    let titles: Vec<(&str, usize)> =
        groups.iter().map(|g| (g.group.title(), g.commands.len())).collect();
    assert_eq!(
        titles,
        [("Build", 1), ("Components", 4), ("Analysis", 2), ("Skills", 1), ("Refactor", 1)]
    );
    assert_eq!(groups[1].commands[1].command, Command::NewConcept);
    assert_eq!(groups[1].commands[1].size, CommandSize::Slim);
    assert_eq!(groups[1].group, Group::Components);
    ribbon.select_tab(Code);
    assert!(ribbon.groups().is_empty());
    assert_eq!(
        primary_row(),
        [
            RowItem::Command(Command::NewProject),
            RowItem::Command(Command::OpenProject),
            RowItem::Divider,
            RowItem::Command(Command::BuildSpec),
            RowItem::Command(Command::AnalyzeDivergence),
            RowItem::Divider,
            RowItem::Command(Command::DarkMode),
            RowItem::Command(Command::Settings),
        ]
    );
    let shown = ribbon.command_shown(Command::Rescope, None);
    assert!(shown.disabled);
    assert_eq!(shown.tooltip, "Open a project to rescope its spec");
    assert_eq!((shown.id, shown.icon, shown.label), ("rescope", Icon::Shapes, "Rescope"));
    assert!(!ribbon.command_shown(Command::NewProject, None).disabled);
    let labels: Vec<&str> = RibbonTab::all().into_iter().map(|tab| tab.label()).collect();
    assert_eq!(labels, ["Project", "Code", "Spec", "Research", "Application"]);
}

#[test]
fn titles_are_escaped_and_the_choice_remembered() {
    assert_eq!(escape("a<b> & \"c\""), "a&lt;b&gt; &amp; &quot;c&quot;");
    assert_eq!(title_font(".SystemUIFont"), "sans-serif");
    assert_eq!(title_font("Inter"), "'Inter', sans-serif");
    assert!(was_collapsed(collapsed_text(true)) && !was_collapsed(collapsed_text(false)));
    assert!(was_collapsed(" collapsed\n") && !was_collapsed(""));
}
