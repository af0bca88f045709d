//! The ribbon along the top of the main window: tabs, with the open tabs'
//! commands beneath them in labelled groups.
//!
//! Following the usual ribbon conventions: tooltips explain rather than repeat
//! the label, a command that can't run is disabled rather than hidden, and the
//! ribbon collapses by double-clicking a tab or its chevron, which is remembered
//! across launches. Collapsed, the tabs go too, and the commands marked primary
//! sit small in a single row.
use vstd::prelude::*;
use crate::activity::{job_views, name_of_project, project_name, Job};
use crate::hidden_anchor::copy_texts;
use crate::paths::{is_same_path, same_path, text_of};
use crate::send_mode::SendMode;
use crate::text::{chars_of, concat, concat_of, decimal, decimal_of, replace, replaced, same, spells,
    string_of, trim, trimmed, views};
use crate::theme::Icon;

verus! {

// ---------------------------------------------------------------------------
// Tabs
// ---------------------------------------------------------------------------

/// A tab of the ribbon.
#[derive(Clone, Copy, Debug, PartialEq, Eq, Structural)]
pub enum RibbonTab {
    Project,
    Code,
    Spec,
    Research,
    Application,
}

impl RibbonTab {
    /// Every tab, in order.
    pub open spec fn every() -> Seq<RibbonTab> {
        seq![
            RibbonTab::Project,
            RibbonTab::Code,
            RibbonTab::Spec,
            RibbonTab::Research,
            RibbonTab::Application,
        ]
    }

    /// Where a tab is among every tab.
    pub open spec fn index(self) -> int {
        match self {
            RibbonTab::Project => 0,
            RibbonTab::Code => 1,
            RibbonTab::Spec => 2,
            RibbonTab::Research => 3,
            RibbonTab::Application => 4,
        }
    }

    /// Every tab, in order.
    pub fn all() -> (r: Vec<RibbonTab>)
        ensures
            r@ == RibbonTab::every(),
    {
        let r: Vec<RibbonTab> = vec![
            RibbonTab::Project,
            RibbonTab::Code,
            RibbonTab::Spec,
            RibbonTab::Research,
            RibbonTab::Application,
        ];
        proof {
            assert(r@ =~= RibbonTab::every());
        }
        r
    }

    pub fn label(self) -> (r: &'static str)
        ensures
            r@ == (match self {
                RibbonTab::Project => "Project"@,
                RibbonTab::Code => "Code"@,
                RibbonTab::Spec => "Spec"@,
                RibbonTab::Research => "Research"@,
                RibbonTab::Application => "Application"@,
            }),
    {
        match self {
            RibbonTab::Project => "Project",
            RibbonTab::Code => "Code",
            RibbonTab::Spec => "Spec",
            RibbonTab::Research => "Research",
            RibbonTab::Application => "Application",
        }
    }

    pub open spec fn mode_of(self) -> Option<SendMode> {
        match self {
            RibbonTab::Code => Some(SendMode::Code),
            RibbonTab::Spec => Some(SendMode::Spec),
            _ => None,
        }
    }

    /// The chat input mode the tab works on, whose colour it takes while
    /// open: Code and Spec have one; the others don't.
    pub fn mode(self) -> (r: Option<SendMode>)
        ensures
            r == self.mode_of(),
    {
        match self {
            RibbonTab::Code => Some(SendMode::Code),
            RibbonTab::Spec => Some(SendMode::Spec),
            _ => None,
        }
    }
}

/// Whether tabs are in the order of the tabs, each once.
pub open spec fn in_tab_order(tabs: Seq<RibbonTab>) -> bool {
    forall|i: int, j: int|
        0 <= i < j < tabs.len() ==> (#[trigger] tabs[i]).index() < (#[trigger] tabs[j]).index()
}

/// Whether a tab is open once another is clicked.
pub open spec fn stays_open(open: Seq<RibbonTab>, clicked: RibbonTab, tab: RibbonTab) -> bool {
    if tab == clicked {
        !open.contains(tab)
    } else {
        open.contains(tab)
    }
}

/// Those of some tabs that are open once one is clicked.
pub open spec fn open_of(
    tabs: Seq<RibbonTab>,
    open: Seq<RibbonTab>,
    clicked: RibbonTab,
) -> Seq<RibbonTab>
    decreases tabs.len(),
{
    if tabs.len() == 0 {
        seq![]
    } else if stays_open(open, clicked, tabs.last()) {
        open_of(tabs.drop_last(), open, clicked).push(tabs.last())
    } else {
        open_of(tabs.drop_last(), open, clicked)
    }
}

/// The open tabs once one is Ctrl/Cmd+clicked: opened alongside the others, or
/// closed if it was open and isn't the only one.
pub open spec fn toggled(open: Seq<RibbonTab>, tab: RibbonTab) -> Seq<RibbonTab> {
    if open.contains(tab) && open.len() == 1 {
        open
    } else {
        open_of(RibbonTab::every(), open, tab)
    }
}

fn is_open(open: &Vec<RibbonTab>, tab: RibbonTab) -> (b: bool)
    ensures
        b == open@.contains(tab),
{
    let mut i: usize = 0;
    while i < open.len()
        invariant
            i <= open@.len(),
            forall|k: int| 0 <= k < i ==> open@[k] != tab,
        decreases open@.len() - i,
    {
        if open[i] == tab {
            return true;
        }
        i += 1;
    }
    false
}

fn copy_tabs(tabs: &Vec<RibbonTab>) -> (r: Vec<RibbonTab>)
    ensures
        r@ == tabs@,
{
    let mut r: Vec<RibbonTab> = Vec::new();
    let mut i: usize = 0;
    while i < tabs.len()
        invariant
            i <= tabs@.len(),
            r@ == tabs@.take(i as int),
        decreases tabs@.len() - i,
    {
        r.push(tabs[i]);
        i += 1;
        proof {
            assert(r@ =~= tabs@.take(i as int));
        }
    }
    proof {
        assert(tabs@.take(tabs@.len() as int) =~= tabs@);
    }
    r
}

/// The open tabs once `tab` is Ctrl/Cmd+clicked: opened alongside `open`, or
/// closed if it was open and isn't the only one; always in the order of the
/// tabs.
pub fn toggle_open(open: &Vec<RibbonTab>, tab: RibbonTab) -> (r: Vec<RibbonTab>)
    ensures
        r@ == toggled(open@, tab),
{
    if is_open(open, tab) && open.len() == 1 {
        return copy_tabs(open);
    }
    let all = RibbonTab::all();
    let mut r: Vec<RibbonTab> = Vec::new();
    let mut i: usize = 0;
    proof {
        assert(r@ =~= open_of(all@.take(0), open@, tab));
    }
    while i < all.len()
        invariant
            i <= all@.len(),
            r@ == open_of(all@.take(i as int), open@, tab),
        decreases all@.len() - i,
    {
        let candidate = all[i];
        let stays = if candidate == tab {
            !is_open(open, candidate)
        } else {
            is_open(open, candidate)
        };
        if stays {
            r.push(candidate);
        }
        i += 1;
        proof {
            assert(all@.take(i as int).drop_last() =~= all@.take(i - 1));
            assert(all@.take(i as int).last() == candidate);
        }
    }
    proof {
        assert(all@.take(all@.len() as int) =~= all@);
    }
    r
}

// ---------------------------------------------------------------------------
// Commands
// ---------------------------------------------------------------------------

/// A command in the ribbon, from whichever tab holds it.
#[derive(Clone, Copy, Debug, PartialEq, Eq, Structural)]
pub enum Command {
    NewProject,
    OpenProject,
    BuildSpec,
    NewScope,
    NewConcept,
    NewShape,
    NewInstruction,
    AnalyzeDivergence,
    ViewDivergenceReports,
    GenerateSkills,
    Rescope,
    DarkMode,
    Settings,
}

/// How much room a command takes.
#[derive(Clone, Copy, Debug, PartialEq, Eq, Structural)]
pub enum CommandSize {
    Full,
    Slim,
}

/// What commands sit together.
#[derive(Clone, Copy, Debug, PartialEq, Eq, Structural)]
pub enum Group {
    Project,
    Build,
    Components,
    Analysis,
    Skills,
    Refactor,
    Appearance,
    Preferences,
}

impl Group {
    /// What the group is titled.
    pub fn title(self) -> (r: &'static str)
        ensures
            r@ == (match self {
                Group::Project => "Project"@,
                Group::Build => "Build"@,
                Group::Components => "Components"@,
                Group::Analysis => "Analysis"@,
                Group::Skills => "Skills"@,
                Group::Refactor => "Refactor"@,
                Group::Appearance => "Appearance"@,
                Group::Preferences => "Preferences"@,
            }),
    {
        match self {
            Group::Project => "Project",
            Group::Build => "Build",
            Group::Components => "Components",
            Group::Analysis => "Analysis",
            Group::Skills => "Skills",
            Group::Refactor => "Refactor",
            Group::Appearance => "Appearance",
            Group::Preferences => "Preferences",
        }
    }
}

/// Where a command sits in its tab, and whether it stays in the collapsed
/// ribbon.
#[derive(Clone, Copy, Debug, PartialEq, Eq, Structural)]
pub struct CommandPlace {
    pub command: Command,
    pub group: Group,
    pub size: CommandSize,
    /// Shown, small, in the collapsed ribbon.
    pub primary: bool,
}

pub open spec fn at(command: Command, group: Group, size: CommandSize, primary: bool) -> CommandPlace {
    CommandPlace { command, group, size, primary }
}

/// A tab's commands, in the order of its groups.
pub open spec fn commands_of(tab: RibbonTab) -> Seq<CommandPlace> {
    match tab {
        RibbonTab::Project => seq![
            at(Command::NewProject, Group::Project, CommandSize::Slim, true),
            at(Command::OpenProject, Group::Project, CommandSize::Slim, true),
        ],
        RibbonTab::Spec => seq![
            at(Command::BuildSpec, Group::Build, CommandSize::Full, true),
            at(Command::NewScope, Group::Components, CommandSize::Full, false),
            at(Command::NewConcept, Group::Components, CommandSize::Slim, false),
            at(Command::NewShape, Group::Components, CommandSize::Slim, false),
            at(Command::NewInstruction, Group::Components, CommandSize::Slim, false),
            at(Command::AnalyzeDivergence, Group::Analysis, CommandSize::Full, true),
            at(Command::ViewDivergenceReports, Group::Analysis, CommandSize::Slim, false),
            at(Command::GenerateSkills, Group::Skills, CommandSize::Full, false),
            at(Command::Rescope, Group::Refactor, CommandSize::Full, false),
        ],
        RibbonTab::Application => seq![
            at(Command::DarkMode, Group::Appearance, CommandSize::Full, true),
            at(Command::Settings, Group::Preferences, CommandSize::Full, true),
        ],
        RibbonTab::Code | RibbonTab::Research => seq![],
    }
}

fn place(command: Command, group: Group, size: CommandSize, primary: bool) -> (r: CommandPlace)
    ensures
        r == at(command, group, size, primary),
{
    CommandPlace { command, group, size, primary }
}

impl RibbonTab {
    /// The tab's commands, in the order of its groups.
    pub fn commands(self) -> (r: Vec<CommandPlace>)
        ensures
            r@ == commands_of(self),
    {
        let r: Vec<CommandPlace> = match self {
            RibbonTab::Project => vec![
                place(Command::NewProject, Group::Project, CommandSize::Slim, true),
                place(Command::OpenProject, Group::Project, CommandSize::Slim, true),
            ],
            RibbonTab::Spec => vec![
                place(Command::BuildSpec, Group::Build, CommandSize::Full, true),
                place(Command::NewScope, Group::Components, CommandSize::Full, false),
                place(Command::NewConcept, Group::Components, CommandSize::Slim, false),
                place(Command::NewShape, Group::Components, CommandSize::Slim, false),
                place(Command::NewInstruction, Group::Components, CommandSize::Slim, false),
                place(Command::AnalyzeDivergence, Group::Analysis, CommandSize::Full, true),
                place(Command::ViewDivergenceReports, Group::Analysis, CommandSize::Slim, false),
                place(Command::GenerateSkills, Group::Skills, CommandSize::Full, false),
                place(Command::Rescope, Group::Refactor, CommandSize::Full, false),
            ],
            RibbonTab::Application => vec![
                place(Command::DarkMode, Group::Appearance, CommandSize::Full, true),
                place(Command::Settings, Group::Preferences, CommandSize::Full, true),
            ],
            RibbonTab::Code | RibbonTab::Research => Vec::new(),
        };
        proof {
            assert(r@ =~= commands_of(self));
        }
        r
    }
}

/// How a command's control is shown.
#[derive(Clone, Copy)]
pub struct CommandShown {
    pub id: &'static str,
    pub icon: Icon,
    pub label: &'static str,
    pub tooltip: &'static str,
    pub disabled: bool,
    pub loading: bool,
}

/// Whether a command needs a project to be open.
pub open spec fn needs_project(command: Command) -> bool {
    command != Command::NewProject && command != Command::OpenProject && command
        != Command::DarkMode && command != Command::Settings
}

/// What a command's tooltip says: what it does, or why it can't.
pub open spec fn tooltip_of(command: Command, project: bool, building: bool) -> Seq<char> {
    match command {
        Command::NewProject => "Create a new project and open it"@,
        Command::OpenProject => "Pick a piton.config.pi file; its folder becomes the project"@,
        Command::BuildSpec => if !project {
            "Open a project to build its spec"@
        } else if building {
            "The spec is building"@
        } else {
            "Run piton build to compile the spec"@
        },
        Command::NewScope => if project {
            "Create a scope, with its concept and shape"@
        } else {
            "Open a project to add a scope to its spec"@
        },
        Command::NewConcept => if project {
            "Create a concept in a spec file"@
        } else {
            "Open a project to add a concept to its spec"@
        },
        Command::NewShape => if project {
            "Create a shape in a spec file"@
        } else {
            "Open a project to add a shape to its spec"@
        },
        Command::NewInstruction => if project {
            "Write an instruction for a folder or file of the code"@
        } else {
            "Open a project to add an instruction to its spec"@
        },
        Command::AnalyzeDivergence => if project {
            "Analyze how the code and the spec have diverged"@
        } else {
            "Open a project to analyze it"@
        },
        Command::ViewDivergenceReports => if project {
            "Show the reports of earlier divergence analyses"@
        } else {
            "Open a project to view its reports"@
        },
        Command::GenerateSkills => if project {
            "Find which scopes skills should be built for"@
        } else {
            "Open a project to generate skills for it"@
        },
        Command::Rescope => if project {
            "Find concepts the spec repeats that could be scopes of their own"@
        } else {
            "Open a project to rescope its spec"@
        },
        Command::DarkMode => ""@,
        Command::Settings => "Edit the system prompt each chat tab sends"@,
    }
}

/// The id, icon and label of a command's control.
pub open spec fn face_of(command: Command) -> (Seq<char>, Icon, Seq<char>) {
    match command {
        Command::NewProject => ("new-project"@, Icon::FolderPlus, "New Project"@),
        Command::OpenProject => ("project-directory"@, Icon::FolderOpen, "Open Project…"@),
        Command::BuildSpec => ("build"@, Icon::Hammer, "Build Spec"@),
        Command::NewScope => ("new-scope"@, Icon::Cube, "New Scope"@),
        Command::NewConcept => ("new-concept"@, Icon::Lightbulb, "New Concept"@),
        Command::NewShape => ("new-shape"@, Icon::Shapes, "New Shape"@),
        Command::NewInstruction => ("new-instruction"@, Icon::ScrollText, "New Instruction"@),
        Command::AnalyzeDivergence => (
            "analyze-divergence"@,
            Icon::GitCompareArrows,
            "Analyze Divergence"@,
        ),
        Command::ViewDivergenceReports => (
            "view-divergence-reports"@,
            Icon::FileText,
            "View Divergence Reports"@,
        ),
        Command::GenerateSkills => ("generate-skills"@, Icon::Sparkles, "Generate Skills"@),
        Command::Rescope => ("rescope"@, Icon::Shapes, "Rescope"@),
        Command::DarkMode => ("dark-mode"@, Icon::Moon, "Dark mode"@),
        Command::Settings => ("settings"@, Icon::Settings, "Settings"@),
    }
}

fn face(command: Command) -> (r: (&'static str, Icon, &'static str))
    ensures
        (r.0@, r.1, r.2@) == face_of(command),
{
    match command {
        Command::NewProject => ("new-project", Icon::FolderPlus, "New Project"),
        Command::OpenProject => ("project-directory", Icon::FolderOpen, "Open Project…"),
        Command::BuildSpec => ("build", Icon::Hammer, "Build Spec"),
        Command::NewScope => ("new-scope", Icon::Cube, "New Scope"),
        Command::NewConcept => ("new-concept", Icon::Lightbulb, "New Concept"),
        Command::NewShape => ("new-shape", Icon::Shapes, "New Shape"),
        Command::NewInstruction => ("new-instruction", Icon::ScrollText, "New Instruction"),
        Command::AnalyzeDivergence => (
            "analyze-divergence",
            Icon::GitCompareArrows,
            "Analyze Divergence",
        ),
        Command::ViewDivergenceReports => (
            "view-divergence-reports",
            Icon::FileText,
            "View Divergence Reports",
        ),
        Command::GenerateSkills => ("generate-skills", Icon::Sparkles, "Generate Skills"),
        Command::Rescope => ("rescope", Icon::Shapes, "Rescope"),
        Command::DarkMode => ("dark-mode", Icon::Moon, "Dark mode"),
        Command::Settings => ("settings", Icon::Settings, "Settings"),
    }
}

fn tooltip(command: Command, project: bool, building: bool) -> (r: &'static str)
    ensures
        r@ == tooltip_of(command, project, building),
{
    match command {
        Command::NewProject => "Create a new project and open it",
        Command::OpenProject => "Pick a piton.config.pi file; its folder becomes the project",
        Command::BuildSpec => if !project {
            "Open a project to build its spec"
        } else if building {
            "The spec is building"
        } else {
            "Run piton build to compile the spec"
        },
        Command::NewScope => if project {
            "Create a scope, with its concept and shape"
        } else {
            "Open a project to add a scope to its spec"
        },
        Command::NewConcept => if project {
            "Create a concept in a spec file"
        } else {
            "Open a project to add a concept to its spec"
        },
        Command::NewShape => if project {
            "Create a shape in a spec file"
        } else {
            "Open a project to add a shape to its spec"
        },
        Command::NewInstruction => if project {
            "Write an instruction for a folder or file of the code"
        } else {
            "Open a project to add an instruction to its spec"
        },
        Command::AnalyzeDivergence => if project {
            "Analyze how the code and the spec have diverged"
        } else {
            "Open a project to analyze it"
        },
        Command::ViewDivergenceReports => if project {
            "Show the reports of earlier divergence analyses"
        } else {
            "Open a project to view its reports"
        },
        Command::GenerateSkills => if project {
            "Find which scopes skills should be built for"
        } else {
            "Open a project to generate skills for it"
        },
        Command::Rescope => if project {
            "Find concepts the spec repeats that could be scopes of their own"
        } else {
            "Open a project to rescope its spec"
        },
        Command::DarkMode => "",
        Command::Settings => "Edit the system prompt each chat tab sends",
    }
}

// ---------------------------------------------------------------------------
// The ribbon
// ---------------------------------------------------------------------------

/// The ribbon's state.
pub struct Ribbon {
    /// The open tabs, in the order of the tabs; never empty. A click opens one
    /// alone, and Ctrl/Cmd+click opens or closes one alongside the others.
    pub open_tabs: Vec<RibbonTab>,
    /// Collapsed to a row of its primary commands; the choice is kept across
    /// launches.
    pub collapsed: bool,
    /// The projects a build is running in.
    pub building: Vec<String>,
    /// Everything running, shown as a spinner beside the project's name.
    pub jobs: Vec<Job>,
    /// Whether the list of what's running is open.
    pub jobs_open: bool,
}

/// Something in the collapsed ribbon's row.
#[derive(Clone, Copy, Debug, PartialEq, Eq, Structural)]
pub enum RowItem {
    /// Between one tab's commands and the next.
    Divider,
    Command(Command),
}

/// A group of commands as it is shown.
pub struct GroupShown {
    pub group: Group,
    pub commands: Vec<CommandPlace>,
}

pub open spec fn group_views(v: Seq<GroupShown>) -> Seq<(Group, Seq<CommandPlace>)> {
    v.map_values(|g: GroupShown| (g.group, g.commands@))
}

/// Groups with one more command: in the last when it is of that group, else in
/// one of its own.
pub open spec fn with_command(
    groups: Seq<(Group, Seq<CommandPlace>)>,
    place: CommandPlace,
) -> Seq<(Group, Seq<CommandPlace>)> {
    if groups.len() > 0 && groups.last().0 == place.group {
        groups.drop_last().push((place.group, groups.last().1.push(place)))
    } else {
        groups.push((place.group, seq![place]))
    }
}

pub open spec fn grouped(places: Seq<CommandPlace>) -> Seq<(Group, Seq<CommandPlace>)>
    decreases places.len(),
{
    if places.len() == 0 {
        seq![]
    } else {
        with_command(grouped(places.drop_last()), places.last())
    }
}

/// The groups of the open tabs' commands, tab by tab.
pub open spec fn groups_of(tabs: Seq<RibbonTab>) -> Seq<(Group, Seq<CommandPlace>)>
    decreases tabs.len(),
{
    if tabs.len() == 0 {
        seq![]
    } else {
        groups_of(tabs.drop_last()) + grouped(commands_of(tabs.last()))
    }
}

/// A row with the primary commands among some added, a divider first when the
/// row has commands of another tab.
pub open spec fn with_primary(row: Seq<RowItem>, places: Seq<CommandPlace>, first: bool) -> Seq<
    RowItem,
>
    decreases places.len(),
{
    if places.len() == 0 {
        row
    } else {
        let before = with_primary(row, places.drop_last(), first);
        if !places.last().primary {
            before
        } else if before.len() == row.len() && !first {
            before.push(RowItem::Divider).push(RowItem::Command(places.last().command))
        } else {
            before.push(RowItem::Command(places.last().command))
        }
    }
}

/// Every primary command of some tabs, a divider between one tab's commands and
/// the next.
pub open spec fn primary_of(tabs: Seq<RibbonTab>) -> Seq<RowItem>
    decreases tabs.len(),
{
    if tabs.len() == 0 {
        seq![]
    } else {
        let before = primary_of(tabs.drop_last());
        with_primary(before, commands_of(tabs.last()), before.len() == 0)
    }
}

fn add_primary(row: &mut Vec<RowItem>, places: &Vec<CommandPlace>)
    ensures
        final(row)@ == with_primary(old(row)@, places@, old(row)@.len() == 0),
{
    let had = row.len();
    let mut i: usize = 0;
    while i < places.len()
        invariant
            i <= places@.len(),
            had == old(row)@.len(),
            row@ == with_primary(old(row)@, places@.take(i as int), had == 0),
        decreases places@.len() - i,
    {
        let place = places[i];
        if place.primary {
            if row.len() == had && had > 0 {
                row.push(RowItem::Divider);
            }
            row.push(RowItem::Command(place.command));
        }
        i += 1;
        proof {
            assert(places@.take(i as int).drop_last() =~= places@.take(i - 1));
            assert(places@.take(i as int).last() == place);
        }
    }
    proof {
        assert(places@.take(places@.len() as int) =~= places@);
    }
}

/// The collapsed ribbon's row: every primary command, a divider between one
/// tab's commands and the next.
pub fn primary_row() -> (r: Vec<RowItem>)
    ensures
        r@ == primary_of(RibbonTab::every()),
{
    let tabs = RibbonTab::all();
    let mut row: Vec<RowItem> = Vec::new();
    let mut i: usize = 0;
    proof {
        assert(row@ =~= primary_of(tabs@.take(0)));
    }
    while i < tabs.len()
        invariant
            i <= tabs@.len(),
            row@ == primary_of(tabs@.take(i as int)),
        decreases tabs@.len() - i,
    {
        add_primary(&mut row, &tabs[i].commands());
        i += 1;
        proof {
            assert(tabs@.take(i as int).drop_last() =~= tabs@.take(i - 1));
            assert(tabs@.take(i as int).last() == tabs@[i - 1]);
        }
    }
    proof {
        assert(tabs@.take(tabs@.len() as int) =~= tabs@);
    }
    row
}

fn add_groups(groups: &mut Vec<GroupShown>, places: &Vec<CommandPlace>)
    ensures
        group_views(final(groups)@) == group_views(old(groups)@) + grouped(places@),
{
    let ghost before = group_views(groups@);
    let mut own: Vec<GroupShown> = Vec::new();
    let mut i: usize = 0;
    proof {
        assert(group_views(own@) =~= grouped(places@.take(0)));
    }
    while i < places.len()
        invariant
            i <= places@.len(),
            groups@ == old(groups)@,
            group_views(own@) == grouped(places@.take(i as int)),
        decreases places@.len() - i,
    {
        let place = places[i];
        let ghost had = group_views(own@);
        proof {
            assert(places@.take(i + 1).drop_last() =~= places@.take(i as int));
            assert(places@.take(i + 1).last() == place);
            if own@.len() > 0 {
                assert(had.last() == (own@.last().group, own@.last().commands@));
            }
        }
        let n = own.len();
        if n > 0 && own[n - 1].group == place.group {
            let mut last = own.remove(n - 1);
            last.commands.push(place);
            own.push(last);
            proof {
                assert(group_views(own@) =~= with_command(had, place));
            }
        } else {
            let mut commands: Vec<CommandPlace> = Vec::new();
            commands.push(place);
            proof {
                assert(commands@ =~= seq![place]);
            }
            own.push(GroupShown { group: place.group, commands });
            proof {
                assert(group_views(own@) =~= with_command(had, place));
            }
        }
        i += 1;
    }
    proof {
        assert(places@.take(places@.len() as int) =~= places@);
    }
    let ghost more = own@;
    groups.append(&mut own);
    proof {
        assert(group_views(groups@) =~= before + group_views(more));
    }
}

/// Whether a project is among those a build is running in.
pub open spec fn builds_in(building: Seq<String>, dir: Seq<char>) -> bool {
    exists|k: int| 0 <= k < building.len() && same_path((#[trigger] building[k])@, dir)
}

/// The projects a build is running in but one.
pub open spec fn built_in(building: Seq<Seq<char>>, dir: Seq<char>) -> Seq<Seq<char>>
    decreases building.len(),
{
    if building.len() == 0 {
        seq![]
    } else if same_path(building.last(), dir) {
        built_in(building.drop_last(), dir)
    } else {
        built_in(building.drop_last(), dir).push(building.last())
    }
}

impl Ribbon {
    pub open spec fn wf(self) -> bool {
        self.open_tabs@.len() > 0 && in_tab_order(self.open_tabs@)
    }

    /// The ribbon at launch, as collapsed as it was left. Always with the
    /// Project tab open: which was last open isn't kept.
    pub fn new(collapsed: bool) -> (r: Ribbon)
        ensures
            r.wf(),
            r.open_tabs@ == seq![RibbonTab::Project],
            r.collapsed == collapsed,
            r.building@.len() == 0 && r.jobs@.len() == 0 && !r.jobs_open,
    {
        let mut open_tabs: Vec<RibbonTab> = Vec::new();
        open_tabs.push(RibbonTab::Project);
        proof {
            assert(open_tabs@ =~= seq![RibbonTab::Project]);
        }
        Ribbon {
            open_tabs,
            collapsed,
            building: Vec::new(),
            jobs: Vec::new(),
            jobs_open: false,
        }
    }

    pub fn is_collapsed(&self) -> (b: bool)
        ensures
            b == self.collapsed,
    {
        self.collapsed
    }

    /// Collapses the ribbon to its primary commands, or expands it again. The
    /// choice is to be remembered.
    pub fn toggle_collapsed(&mut self)
        ensures
            *final(self) == (Ribbon { collapsed: !old(self).collapsed, ..*old(self) }),
    {
        self.collapsed = !self.collapsed;
    }

    /// A tab was clicked: it opens alone, and a double-click collapses the
    /// ribbon; with `add`, from Ctrl/Cmd+click, it opens alongside the others,
    /// or closes if it was open, unless it is the only one. Returns whether the
    /// ribbon collapsed, which is to be remembered.
    pub fn tab_clicked(&mut self, tab: RibbonTab, clicks: usize, add: bool) -> (collapsed: bool)
        requires
            old(self).wf(),
        ensures
            final(self).wf(),
            final(self).open_tabs@ == (if add {
                toggled(old(self).open_tabs@, tab)
            } else {
                seq![tab]
            }),
            collapsed == (!add && clicks >= 2 && !old(self).collapsed),
            *final(self) == (Ribbon {
                open_tabs: final(self).open_tabs,
                collapsed: old(self).collapsed || collapsed,
                ..*old(self)
            }),
    {
        if add {
            proof {
                tabs_stay_open_and_in_order(self.open_tabs@, tab);
            }
            self.open_tabs = toggle_open(&self.open_tabs, tab);
            return false;
        }
        self.select_tab(tab);
        if clicks >= 2 && !self.collapsed {
            self.toggle_collapsed();
            return true;
        }
        false
    }

    /// Opens the tab at `ix`, counting from 0 in the order the tabs are shown,
    /// alone, as a click does, expanding the ribbon if it is collapsed. An
    /// index past the last tab does nothing. Returns whether the ribbon
    /// expanded, which is to be remembered.
    pub fn show_tab_at(&mut self, ix: usize) -> (expanded: bool)
        requires
            old(self).wf(),
        ensures
            final(self).wf(),
            ix >= 5 ==> !expanded && *final(self) == *old(self),
            ix < 5 ==> {
                &&& expanded == old(self).collapsed
                &&& final(self).open_tabs@ == seq![RibbonTab::every()[ix as int]]
                &&& *final(self) == (Ribbon {
                    open_tabs: final(self).open_tabs,
                    collapsed: false,
                    ..*old(self)
                })
            },
    {
        let tabs = RibbonTab::all();
        if ix >= tabs.len() {
            return false;
        }
        let expanded = self.collapsed;
        if self.collapsed {
            self.toggle_collapsed();
        }
        self.select_tab(tabs[ix]);
        expanded
    }

    /// Opens `tab` alone.
    pub fn select_tab(&mut self, tab: RibbonTab)
        ensures
            final(self).wf(),
            final(self).open_tabs@ == seq![tab],
            *final(self) == (Ribbon { open_tabs: final(self).open_tabs, ..*old(self) }),
    {
        let mut open: Vec<RibbonTab> = Vec::new();
        open.push(tab);
        proof {
            assert(open@ =~= seq![tab]);
        }
        self.open_tabs = open;
    }

    /// Everything running, as the spinner and its list show it. The list
    /// closes once nothing is. Returns whether anything changed.
    pub fn set_jobs(&mut self, jobs: Vec<Job>) -> (changed: bool)
        ensures
            changed == (job_views(old(self).jobs@) != job_views(jobs@)),
            !changed ==> *final(self) == *old(self),
            changed ==> *final(self) == (Ribbon {
                jobs,
                jobs_open: old(self).jobs_open && jobs@.len() > 0,
                ..*old(self)
            }),
    {
        if same_jobs(&self.jobs, &jobs) {
            return false;
        }
        if jobs.len() == 0 {
            self.jobs_open = false;
        }
        self.jobs = jobs;
        true
    }

    /// Closes the list of what's running.
    pub fn close_jobs(&mut self)
        ensures
            *final(self) == (Ribbon { jobs_open: false, ..*old(self) }),
    {
        self.jobs_open = false;
    }

    /// The spinner was clicked: the list of what's running opens or closes.
    pub fn toggle_jobs(&mut self)
        ensures
            *final(self) == (Ribbon { jobs_open: !old(self).jobs_open, ..*old(self) }),
    {
        self.jobs_open = !self.jobs_open;
    }

    pub open spec fn activity_text(self) -> Option<Seq<char>> {
        if self.jobs@.len() == 0 {
            None
        } else if self.jobs@.len() == 1 {
            let job = self.jobs@[0]@;
            match job.detail {
                Some(detail) => Some(concat(seq![job.title, ": "@, detail])),
                None => Some(job.title),
            }
        } else {
            Some(concat(seq![decimal(self.jobs@.len()), " things running"@]))
        }
    }

    /// What the spinner's tooltip says while anything is running.
    pub fn activity(&self) -> (r: Option<String>)
        ensures
            text_of(r) == self.activity_text(),
    {
        let count = self.jobs.len();
        if count == 0 {
            return None;
        }
        if count == 1 {
            let job = &self.jobs[0];
            return match &job.detail {
                Some(detail) => {
                    let parts: Vec<&str> = vec![&job.title, ": ", detail];
                    proof {
                        assert(views(parts@) =~= seq![job.title@, ": "@, detail@]);
                    }
                    Some(concat_of(parts))
                },
                None => Some(job.title.clone()),
            };
        }
        let digits = string_of(&decimal_of(count as u128));
        let parts: Vec<&str> = vec![&digits, " things running"];
        proof {
            assert(views(parts@) =~= seq![digits@, " things running"@]);
        }
        Some(concat_of(parts))
    }

    /// What the chevron's tooltip says.
    pub fn collapse_tooltip(&self) -> (r: &'static str)
        ensures
            r@ == (if self.collapsed {
                "Expand the ribbon"@
            } else {
                "Collapse the ribbon to its primary commands"@
            }),
    {
        if self.collapsed {
            "Expand the ribbon"
        } else {
            "Collapse the ribbon to its primary commands"
        }
    }

    /// The groups of the open tabs' commands, tab by tab. With none, there are
    /// "No commands yet".
    pub fn groups(&self) -> (r: Vec<GroupShown>)
        ensures
            group_views(r@) == groups_of(self.open_tabs@),
    {
        let mut r: Vec<GroupShown> = Vec::new();
        let mut i: usize = 0;
        proof {
            assert(group_views(r@) =~= groups_of(self.open_tabs@.take(0)));
        }
        while i < self.open_tabs.len()
            invariant
                i <= self.open_tabs@.len(),
                group_views(r@) == groups_of(self.open_tabs@.take(i as int)),
            decreases self.open_tabs@.len() - i,
        {
            add_groups(&mut r, &self.open_tabs[i].commands());
            i += 1;
            proof {
                assert(self.open_tabs@.take(i as int).drop_last() =~= self.open_tabs@.take(i - 1));
                assert(self.open_tabs@.take(i as int).last() == self.open_tabs@[i - 1]);
            }
        }
        proof {
            assert(self.open_tabs@.take(self.open_tabs@.len() as int) =~= self.open_tabs@);
        }
        r
    }

    /// The mode the ribbon's body is tinted for: that of a tab open alone.
    pub fn body_mode(&self) -> (r: Option<SendMode>)
        ensures
            r == (if self.open_tabs@.len() == 1 {
                self.open_tabs@[0].mode_of()
            } else {
                None
            }),
    {
        if self.open_tabs.len() == 1 {
            self.open_tabs[0].mode()
        } else {
            None
        }
    }
}

fn same_text(a: &Option<String>, b: &Option<String>) -> (r: bool)
    ensures
        r == (text_of(*a) == text_of(*b)),
{
    match (a, b) {
        (Some(a), Some(b)) => same(a, b),
        (None, None) => true,
        _ => false,
    }
}

fn same_jobs(a: &Vec<Job>, b: &Vec<Job>) -> (r: bool)
    ensures
        r == (job_views(a@) == job_views(b@)),
{
    proof {
        assert(job_views(a@).len() == a@.len() && job_views(b@).len() == b@.len());
    }
    if a.len() != b.len() {
        return false;
    }
    let mut i: usize = 0;
    while i < a.len()
        invariant
            i <= a@.len(),
            a@.len() == b@.len(),
            forall|k: int| 0 <= k < i ==> a@[k]@ == b@[k]@,
        decreases a@.len() - i,
    {
        if a[i].kind != b[i].kind || !same(&a[i].title, &b[i].title) || !same_text(
            &a[i].detail,
            &b[i].detail,
        ) || !same_text(&a[i].project, &b[i].project) {
            proof {
                assert(a@[i as int]@ != b@[i as int]@);
                assert(job_views(a@)[i as int] != job_views(b@)[i as int]);
            }
            return false;
        }
        proof {
            assert(a@[i as int]@ =~= b@[i as int]@);
        }
        i += 1;
    }
    proof {
        assert(job_views(a@) =~= job_views(b@));
    }
    true
}

// ---------------------------------------------------------------------------
// Building
// ---------------------------------------------------------------------------

/// What came of a build: how many files it wrote, that it failed with a report,
/// or that it could not be run.
#[derive(Clone, Copy, Debug, PartialEq, Eq, Structural)]
pub enum BuildOutcome {
    Built(usize),
    Failed,
    NotRun,
}

/// Where a build ran, when that isn't the project on screen.
pub open spec fn elsewhere(dir: Seq<char>, on_screen: Option<Seq<char>>) -> Seq<char> {
    if on_screen is Some && same_path(on_screen->0, dir) {
        ""@
    } else {
        " in "@ + name_of_project(dir)
    }
}

pub open spec fn outcome_text(outcome: BuildOutcome) -> Seq<char> {
    match outcome {
        BuildOutcome::Built(count) => if count == 1 {
            "Built 1 file"@
        } else {
            concat(seq!["Built "@, decimal(count as nat), " files"@])
        },
        BuildOutcome::Failed => "Build failed"@,
        BuildOutcome::NotRun => "Could not run piton build"@,
    }
}

/// What says how a build in `dir` went, naming the project when another is on
/// screen by then.
pub fn build_title(outcome: BuildOutcome, dir: &str, on_screen: Option<&str>) -> (r: String)
    ensures
        r@ == outcome_text(outcome) + elsewhere(
            dir@,
            match on_screen {
                Some(dir) => Some(dir@),
                None => None,
            },
        ),
{
    let mut title = match outcome {
        BuildOutcome::Built(count) => if count == 1 {
            chars_of("Built 1 file")
        } else {
            let digits = string_of(&decimal_of(count as u128));
            let parts: Vec<&str> = vec!["Built ", &digits, " files"];
            proof {
                assert(views(parts@) =~= seq!["Built "@, digits@, " files"@]);
            }
            chars_of(&concat_of(parts))
        },
        BuildOutcome::Failed => chars_of("Build failed"),
        BuildOutcome::NotRun => chars_of("Could not run piton build"),
    };
    let here = match on_screen {
        Some(shown) => is_same_path(shown, dir),
        None => false,
    };
    if here {
        crate::text::push_str(&mut title, "");
    } else {
        let mut place = chars_of(" in ");
        crate::text::push_str(&mut place, &project_name(dir));
        crate::text::push_all(&mut title, &place);
    }
    string_of(&title)
}

impl Ribbon {
    /// Whether a build is running in any open project.
    pub fn is_building(&self) -> (b: bool)
        ensures
            b == (self.building@.len() > 0),
    {
        self.building.len() > 0
    }

    /// The projects a build is running in.
    pub fn building_projects(&self) -> (r: Vec<String>)
        ensures
            views(r@) == views(self.building@),
    {
        copy_texts(&self.building)
    }

    fn is_building_in(&self, dir: &str) -> (b: bool)
        ensures
            b == builds_in(self.building@, dir@),
    {
        let mut i: usize = 0;
        while i < self.building.len()
            invariant
                i <= self.building@.len(),
                forall|k: int| 0 <= k < i ==> !same_path((#[trigger] self.building@[k])@, dir@),
            decreases self.building@.len() - i,
        {
            if is_same_path(&self.building[i], dir) {
                return true;
            }
            i += 1;
        }
        false
    }

    /// Whether a build is running in the project on screen.
    pub fn is_building_here(&self, project_dir: Option<&str>) -> (b: bool)
        ensures
            b == (project_dir is Some && builds_in(self.building@, project_dir->0@)),
    {
        match project_dir {
            Some(dir) => self.is_building_in(dir),
            None => false,
        }
    }

    /// Whether Build can run: there is a project and no build is running in
    /// it.
    pub fn can_build(&self, project_dir: Option<&str>) -> (b: bool)
        ensures
            b == (project_dir is Some && !builds_in(self.building@, project_dir->0@)),
    {
        project_dir.is_some() && !self.is_building_here(project_dir)
    }

    /// Starts a build in the project, where it can run. Returns whether one is
    /// to be run.
    pub fn build(&mut self, project_dir: Option<&str>) -> (started: bool)
        ensures
            started == (project_dir is Some && !builds_in(
                old(self).building@,
                project_dir->0@,
            )),
            !started ==> *final(self) == *old(self),
            started ==> views(final(self).building@) == views(old(self).building@).push(
                project_dir->0@,
            ) && builds_in(final(self).building@, project_dir->0@),
            *final(self) == (Ribbon { building: final(self).building, ..*old(self) }),
    {
        match project_dir {
            Some(dir) => {
                if self.is_building_in(dir) {
                    return false;
                }
                self.building.push(dir.to_owned());
                proof {
                    assert(views(self.building@) =~= views(old(self).building@).push(dir@));
                    let n = old(self).building@.len() as int;
                    assert(same_path(self.building@[n]@, dir@));
                }
                true
            },
            None => false,
        }
    }

    /// The build in `dir` is over.
    pub fn built(&mut self, dir: &str)
        ensures
            views(final(self).building@) == built_in(views(old(self).building@), dir@),
            *final(self) == (Ribbon { building: final(self).building, ..*old(self) }),
    {
        let ghost all = views(self.building@);
        let mut rest: Vec<String> = Vec::new();
        let mut i: usize = 0;
        proof {
            assert(views(rest@) =~= built_in(all.take(0), dir@));
        }
        while i < self.building.len()
            invariant
                i <= self.building@.len(),
                *self == *old(self),
                all == views(self.building@),
                views(rest@) == built_in(all.take(i as int), dir@),
            decreases self.building@.len() - i,
        {
            let ghost before = views(rest@);
            proof {
                assert(all.take(i + 1).drop_last() =~= all.take(i as int));
                assert(all.take(i + 1).last() == self.building@[i as int]@);
            }
            if !is_same_path(&self.building[i], dir) {
                rest.push(self.building[i].clone());
                proof {
                    assert(views(rest@) =~= before.push(all[i as int]));
                }
            }
            i += 1;
        }
        proof {
            assert(all.take(all.len() as int) =~= all);
        }
        self.building = rest;
    }

    /// How a command's control is shown. One that can't run is disabled rather
    /// than hidden, so it is always found in the same place, with the tooltip
    /// saying why.
    pub fn command_shown(&self, command: Command, project_dir: Option<&str>) -> (r: CommandShown)
        ensures
            ({
                let project = project_dir is Some;
                let building = project && builds_in(self.building@, project_dir->0@);
                &&& (r.id@, r.icon, r.label@) == face_of(command)
                &&& r.tooltip@ == tooltip_of(command, project, building)
                &&& r.disabled == (needs_project(command) && (!project || (command
                    == Command::BuildSpec && building)))
                &&& r.loading == (command == Command::BuildSpec && building)
            }),
    {
        let project = project_dir.is_some();
        let building = self.is_building_here(project_dir);
        let (id, icon, label) = face(command);
        let needs = command != Command::NewProject && command != Command::OpenProject && command
            != Command::DarkMode && command != Command::Settings;
        CommandShown {
            id,
            icon,
            label,
            tooltip: tooltip(command, project, building),
            disabled: needs && (!project || (command == Command::BuildSpec && building)),
            loading: command == Command::BuildSpec && building,
        }
    }
}

// ---------------------------------------------------------------------------
// Titles and the choice remembered
// ---------------------------------------------------------------------------

pub open spec fn escaped(text: Seq<char>) -> Seq<char> {
    replace(
        replace(
            replace(replace(text, "&"@, "&amp;"@), "<"@, "&lt;"@),
            ">"@,
            "&gt;"@,
        ),
        "\""@,
        "&quot;"@,
    )
}

/// Text as it is written in an SVG.
pub fn escape(text: &str) -> (r: String)
    ensures
        r@ == escaped(text@),
{
    proof {
        reveal_strlit("&");
        reveal_strlit("<");
        reveal_strlit(">");
        reveal_strlit("\"");
    }
    let text = replaced(&chars_of(text), &chars_of("&"), &chars_of("&amp;"));
    let text = replaced(&text, &chars_of("<"), &chars_of("&lt;"));
    let text = replaced(&text, &chars_of(">"), &chars_of("&gt;"));
    let text = replaced(&text, &chars_of("\""), &chars_of("&quot;"));
    string_of(&text)
}

/// The font a group's title is drawn in. What draws it doesn't know names that
/// start with a dot, so those take the usual sans serif.
pub fn title_font(font: &str) -> (r: String)
    ensures
        r@ == (if font@.len() > 0 && font@[0] == '.' {
            "sans-serif"@
        } else {
            concat(seq!["'"@, escaped(font@), "', sans-serif"@])
        }),
{
    let chars = chars_of(font);
    if chars.len() > 0 && chars[0] == '.' {
        return "sans-serif".to_owned();
    }
    let name = escape(font);
    let parts: Vec<&str> = vec!["'", &name, "', sans-serif"];
    proof {
        assert(views(parts@) =~= seq!["'"@, name@, "', sans-serif"@]);
    }
    concat_of(parts)
}

/// How the choice to collapse the ribbon is saved.
pub fn collapsed_text(collapsed: bool) -> (r: &'static str)
    ensures
        r@ == (if collapsed {
            "collapsed"@
        } else {
            "expanded"@
        }),
{
    if collapsed {
        "collapsed"
    } else {
        "expanded"
    }
}

/// Whether the ribbon was left collapsed, by what was saved.
pub fn was_collapsed(saved: &str) -> (b: bool)
    ensures
        b == (trim(saved@) == "collapsed"@),
{
    spells(&trimmed(&chars_of(saved)), "collapsed")
}

// ---------------------------------------------------------------------------
// What holds of the open tabs
// ---------------------------------------------------------------------------

proof fn lemma_open_of(tabs: Seq<RibbonTab>, open: Seq<RibbonTab>, clicked: RibbonTab)
    requires
        in_tab_order(tabs),
    ensures
        in_tab_order(open_of(tabs, open, clicked)),
        forall|tab: RibbonTab| #[trigger]
            open_of(tabs, open, clicked).contains(tab) == (tabs.contains(tab) && stays_open(
                open,
                clicked,
                tab,
            )),
    decreases tabs.len(),
{
    if tabs.len() > 0 {
        let rest = tabs.drop_last();
        let last = tabs.last();
        assert(in_tab_order(rest)) by {
            assert forall|i: int, j: int| 0 <= i < j < rest.len() implies (
            #[trigger] rest[i]).index() < (#[trigger] rest[j]).index() by {
                assert(rest[i] == tabs[i] && rest[j] == tabs[j]);
            }
        }
        lemma_open_of(rest, open, clicked);
        let before = open_of(rest, open, clicked);
        let now = open_of(tabs, open, clicked);
        assert forall|tab: RibbonTab| #[trigger] now.contains(tab) == (tabs.contains(tab)
            && stays_open(open, clicked, tab)) by {
            if tabs.contains(tab) {
                let k = choose|k: int| 0 <= k < tabs.len() && tabs[k] == tab;
                if k < rest.len() {
                    assert(rest[k] == tab);
                }
            }
            if rest.contains(tab) {
                let k = choose|k: int| 0 <= k < rest.len() && rest[k] == tab;
                assert(tabs[k] == tab);
            }
            assert(tabs[tabs.len() - 1] == last);
            if before.contains(tab) {
                let k = choose|k: int| 0 <= k < before.len() && before[k] == tab;
                assert(now[k] == tab);
            }
            if now.contains(tab) {
                let k = choose|k: int| 0 <= k < now.len() && now[k] == tab;
                if k < before.len() {
                    assert(before[k] == tab);
                }
            }
            if stays_open(open, clicked, last) {
                assert(now[before.len() as int] == last);
            }
        }
        assert forall|i: int, j: int| 0 <= i < j < now.len() implies (#[trigger] now[i]).index()
            < (#[trigger] now[j]).index() by {
            assert(now[i] == before[i]);
            if j < before.len() {
                assert(now[j] == before[j]);
            } else {
                assert(before.contains(before[i]));
                assert(rest.contains(before[i]));
                let k = choose|k: int| 0 <= k < rest.len() && rest[k] == before[i];
                assert(tabs[k] == before[i]);
                assert(tabs[tabs.len() - 1] == last);
            }
        }
    }
}

proof fn lemma_every()
    ensures
        in_tab_order(RibbonTab::every()),
        forall|tab: RibbonTab| #[trigger] RibbonTab::every().contains(tab),
{
    let all = RibbonTab::every();
    assert(all[0] == RibbonTab::Project && all[1] == RibbonTab::Code && all[2] == RibbonTab::Spec
        && all[3] == RibbonTab::Research && all[4] == RibbonTab::Application);
    assert forall|tab: RibbonTab| #[trigger] all.contains(tab) by {
        assert(all[tab.index()] == tab);
    }
}

/// There is always a tab open, and the open tabs are always in the order of the
/// tabs, whichever is clicked.
pub proof fn tabs_stay_open_and_in_order(open: Seq<RibbonTab>, tab: RibbonTab)
    requires
        open.len() > 0,
        in_tab_order(open),
    ensures
        toggled(open, tab).len() > 0,
        in_tab_order(toggled(open, tab)),
{
    lemma_every();
    lemma_open_of(RibbonTab::every(), open, tab);
    let now = open_of(RibbonTab::every(), open, tab);
    if !open.contains(tab) {
        assert(now.contains(tab));
    } else if open.len() > 1 {
        let other = if open[0] == tab {
            open[1]
        } else {
            open[0]
        };
        assert(open[0].index() < open[1].index());
        assert(open.contains(other) && other != tab);
        assert(now.contains(other));
    }
}

/// Tabs in order with the same members are the same.
proof fn lemma_same_tabs(one: Seq<RibbonTab>, other: Seq<RibbonTab>)
    requires
        in_tab_order(one),
        in_tab_order(other),
        forall|tab: RibbonTab| #[trigger] one.contains(tab) == other.contains(tab),
    ensures
        one == other,
    decreases one.len(),
{
    if one.len() == 0 {
        if other.len() > 0 {
            assert(other.contains(other[0]));
            assert(one.contains(other[0]));
        }
        assert(one =~= other);
    } else {
        assert(one.contains(one.last()));
        assert(other.len() > 0);
        assert(other.contains(other.last()));
        let a = one.last();
        let b = other.last();
        assert(one.contains(b));
        assert(other.contains(a));
        let i = choose|i: int| 0 <= i < one.len() && one[i] == b;
        let j = choose|j: int| 0 <= j < other.len() && other[j] == a;
        if i < one.len() - 1 {
            assert(one[i].index() < one[one.len() - 1].index());
        }
        if j < other.len() - 1 {
            assert(other[j].index() < other[other.len() - 1].index());
        }
        assert(a == b) by {
            assert(b.index() <= a.index() && a.index() <= b.index());
        }
        let p = one.drop_last();
        let q = other.drop_last();
        assert forall|tab: RibbonTab| #[trigger] p.contains(tab) == q.contains(tab) by {
            if p.contains(tab) {
                let k = choose|k: int| 0 <= k < p.len() && p[k] == tab;
                assert(one[k] == tab);
                assert(one[k].index() < one[one.len() - 1].index());
                assert(one.contains(tab));
                let m = choose|m: int| 0 <= m < other.len() && other[m] == tab;
                assert(m < other.len() - 1);
                assert(q[m] == tab);
            }
            if q.contains(tab) {
                let k = choose|k: int| 0 <= k < q.len() && q[k] == tab;
                assert(other[k] == tab);
                assert(other[k].index() < other[other.len() - 1].index());
                assert(other.contains(tab));
                assert(one.contains(tab));
                let m = choose|m: int| 0 <= m < one.len() && one[m] == tab;
                assert(m < one.len() - 1);
                assert(p[m] == tab);
            }
        }
        assert forall|i: int, j: int| 0 <= i < j < p.len() implies (#[trigger] p[i]).index() < (
        #[trigger] p[j]).index() by {
            assert(p[i] == one[i] && p[j] == one[j]);
        }
        assert forall|i: int, j: int| 0 <= i < j < q.len() implies (#[trigger] q[i]).index() < (
        #[trigger] q[j]).index() by {
            assert(q[i] == other[i] && q[j] == other[j]);
        }
        lemma_same_tabs(p, q);
        assert(p.push(a) =~= one);
        assert(q.push(b) =~= other);
    }
}

/// Ctrl/Cmd+clicking a tab twice leaves the tabs that were open.
pub proof fn clicking_a_tab_twice_changes_nothing(open: Seq<RibbonTab>, tab: RibbonTab)
    requires
        open.len() > 0,
        in_tab_order(open),
    ensures
        toggled(toggled(open, tab), tab) == open,
{
    if !(open.contains(tab) && open.len() == 1) {
        lemma_every();
        lemma_open_of(RibbonTab::every(), open, tab);
        let now = toggled(open, tab);
        tabs_stay_open_and_in_order(open, tab);
        lemma_open_of(RibbonTab::every(), now, tab);
        if !open.contains(tab) {
            assert(now.contains(tab));
            assert(open.contains(open[0]));
            assert(now.contains(open[0]));
            if now.len() == 1 {
                let i = choose|i: int| 0 <= i < now.len() && now[i] == tab;
                let j = choose|j: int| 0 <= j < now.len() && now[j] == open[0];
                assert(i == j);
            }
        } else {
            assert(!now.contains(tab));
        }
        let again = open_of(RibbonTab::every(), now, tab);
        assert(toggled(now, tab) == again);
        assert forall|t: RibbonTab| #[trigger] again.contains(t) == open.contains(t) by {
            assert(RibbonTab::every().contains(t));
            assert(now.contains(t) == stays_open(open, tab, t));
        }
        lemma_same_tabs(again, open);
    }
}

// ---------------------------------------------------------------------------
// What holds of builds
// ---------------------------------------------------------------------------

/// A build that is over leaves the other projects' builds as they were, and
/// its own project free to be built again.
pub proof fn a_build_over_leaves_the_others(building: Seq<Seq<char>>, dir: Seq<char>)
    ensures
        forall|k: int|
            0 <= k < built_in(building, dir).len() ==> !same_path(
                #[trigger] built_in(building, dir)[k],
                dir,
            ),
        forall|other: Seq<char>| #[trigger]
            building.contains(other) && !same_path(other, dir) ==> built_in(
                building,
                dir,
            ).contains(other),
    decreases building.len(),
{
    if building.len() > 0 {
        let rest = building.drop_last();
        a_build_over_leaves_the_others(rest, dir);
        let now = built_in(building, dir);
        let before = built_in(rest, dir);
        assert forall|other: Seq<char>| #[trigger]
            building.contains(other) && !same_path(other, dir) implies now.contains(other) by {
            let k = choose|k: int| 0 <= k < building.len() && building[k] == other;
            if k < rest.len() {
                assert(rest[k] == other);
                assert(rest.contains(other));
                assert(before.contains(other));
                let m = choose|m: int| 0 <= m < before.len() && before[m] == other;
                assert(now[m] == other);
            } else {
                assert(now[before.len() as int] == other);
            }
        }
        assert forall|k: int| 0 <= k < now.len() implies !same_path(#[trigger] now[k], dir) by {
            if k < before.len() {
                assert(now[k] == before[k]);
            }
        }
    }
}

/// Once a build is over, the projects building are those that were before it
/// started.
pub proof fn a_build_comes_and_goes(building: Seq<Seq<char>>, dir: Seq<char>)
    requires
        forall|k: int| 0 <= k < building.len() ==> !same_path(#[trigger] building[k], dir),
    ensures
        built_in(building.push(dir), dir) == building,
    decreases building.len(),
{
    assert(building.push(dir).drop_last() =~= building);
    assert(building.push(dir).last() == dir);
    if building.len() > 0 {
        let rest = building.drop_last();
        assert forall|k: int| 0 <= k < rest.len() implies !same_path(#[trigger] rest[k], dir) by {
            assert(rest[k] == building[k]);
        }
        a_build_comes_and_goes(rest, dir);
        assert(rest.push(dir).drop_last() =~= rest);
        assert(rest.push(dir).last() == dir);
        assert(built_in(rest, dir) == rest);
        assert(!same_path(building[building.len() - 1], dir));
        assert(built_in(building, dir) =~= building);
    } else {
        assert(building =~= seq![]);
    }
}

} // verus!
