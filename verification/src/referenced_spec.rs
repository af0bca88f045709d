//! The spec files a task references: those its prompt imports from, then those
//! the harness or a subagent it starts reads, edits, or writes, whether with a
//! file tool, a shell command, or a search naming them, in the spec location or
//! among the reference files, each once.
use vstd::prelude::*;
use serde_json::Value;
use crate::harness::{member, text_members, HarnessEvent};
use crate::listing::{Listing, ListingView};
use crate::paths::{file_name, file_name_of, folder_name, folder_name_of, is_within, join_path,
    joined_path, normalize, normalized, stem, stem_of, text_of, within};
use crate::shell_paths::{analyze, asked, file_views, finds, first_file, found_in, names_in,
    only_what_is_asked_about_counts, paths_asked_about, paths_in, scope_views, settled, Scope,
    ScopeView};
use crate::text::{chars_of, lines, lines_of, push_str, same, string_of, views};

verus! {

/// Where the reference files built from the spec are, in the harness's
/// directory.
pub const REFERENCE_DIR: &'static str = "reference";

// ---------------------------------------------------------------------------
// Files referenced
// ---------------------------------------------------------------------------

/// A spec file the task references.
pub struct Referenced {
    pub path: String,
    /// Whether it was edited or written, rather than only read or imported.
    pub edited: bool,
    /// Whether a subagent the harness started referenced it.
    pub by_subagent: bool,
}

#[verifier::ext_equal]
pub struct ReferencedView {
    pub path: Seq<char>,
    pub edited: bool,
    pub by_subagent: bool,
}

impl View for Referenced {
    type V = ReferencedView;

    open spec fn view(&self) -> ReferencedView {
        ReferencedView { path: self.path@, edited: self.edited, by_subagent: self.by_subagent }
    }
}

pub open spec fn referenced_views(v: Seq<Referenced>) -> Seq<ReferencedView> {
    v.map_values(|r: Referenced| r@)
}

/// Where a path is among files from `i` on, or how many there are if it isn't.
pub open spec fn place_of(files: Seq<ReferencedView>, path: Seq<char>, i: int) -> int
    decreases files.len() - i,
{
    if 0 <= i < files.len() && files[i].path != path {
        place_of(files, path, i + 1)
    } else {
        i
    }
}

/// The files with one more reference noted: marked on the file when it is
/// there, else added.
pub open spec fn noted(files: Seq<ReferencedView>, file: ReferencedView) -> Seq<ReferencedView> {
    let at = place_of(files, file.path, 0);
    if 0 <= at < files.len() {
        files.update(
            at,
            ReferencedView {
                path: files[at].path,
                edited: files[at].edited || file.edited,
                by_subagent: files[at].by_subagent || file.by_subagent,
            },
        )
    } else {
        files.push(file)
    }
}

fn note_in(files: &mut Vec<Referenced>, file: Referenced)
    ensures
        referenced_views(final(files)@) == noted(referenced_views(old(files)@), file@),
{
    let ghost all = referenced_views(files@);
    let mut i: usize = 0;
    while i < files.len()
        invariant
            i <= files@.len(),
            files@ == old(files)@,
            all == referenced_views(files@),
            place_of(all, file@.path, i as int) == place_of(all, file@.path, 0),
        decreases files@.len() - i,
    {
        proof {
            assert(all[i as int] == files@[i as int]@);
        }
        if same(&files[i].path, &file.path) {
            let merged = Referenced {
                path: files[i].path.clone(),
                edited: files[i].edited || file.edited,
                by_subagent: files[i].by_subagent || file.by_subagent,
            };
            files.set(i, merged);
            proof {
                assert(referenced_views(files@) =~= noted(all, file@));
            }
            return ;
        }
        i += 1;
    }
    files.push(file);
    proof {
        assert(referenced_views(files@) =~= all.push(file@));
    }
}

// ---------------------------------------------------------------------------
// Calls
// ---------------------------------------------------------------------------

/// What the rules read of a tool call's input.
pub struct ToolInput {
    pub file_path: Option<String>,
    pub notebook_path: Option<String>,
    pub path: Option<String>,
    pub command: Option<String>,
}

#[verifier::ext_equal]
pub struct ToolInputView {
    pub file_path: Option<Seq<char>>,
    pub notebook_path: Option<Seq<char>>,
    pub path: Option<Seq<char>>,
    pub command: Option<Seq<char>>,
}

impl View for ToolInput {
    type V = ToolInputView;

    open spec fn view(&self) -> ToolInputView {
        ToolInputView {
            file_path: text_of(self.file_path),
            notebook_path: text_of(self.notebook_path),
            path: text_of(self.path),
            command: text_of(self.command),
        }
    }
}

pub open spec fn member_of(members: Map<Seq<char>, Seq<char>>, key: Seq<char>) -> Option<
    Seq<char>,
> {
    if members.contains_key(key) {
        Some(members[key])
    } else {
        None
    }
}

/// A tool call's input, of the string members of its JSON.
pub open spec fn input_of(members: Map<Seq<char>, Seq<char>>) -> ToolInputView {
    ToolInputView {
        file_path: member_of(members, "file_path"@),
        notebook_path: member_of(members, "notebook_path"@),
        path: member_of(members, "path"@),
        command: member_of(members, "command"@),
    }
}

/// What the rules read of a tool call's input.
pub fn read_input(input: &Value) -> (r: ToolInput)
    ensures
        r@ == input_of(text_members(*input)),
{
    ToolInput {
        file_path: member(input, "file_path"),
        notebook_path: member(input, "notebook_path"),
        path: member(input, "path"),
        command: member(input, "command"),
    }
}

/// A call that takes files in by folders or patterns, whose output names the
/// files it counts.
pub struct Call {
    pub id: String,
    pub scopes: Vec<Scope>,
}

#[verifier::ext_equal]
pub struct CallView {
    pub id: Seq<char>,
    pub scopes: Seq<ScopeView>,
}

impl View for Call {
    type V = CallView;

    open spec fn view(&self) -> CallView {
        CallView { id: self.id@, scopes: scope_views(self.scopes@) }
    }
}

pub open spec fn call_views(v: Seq<Call>) -> Seq<CallView> {
    v.map_values(|c: Call| c@)
}

/// The calls but the one with an id.
pub open spec fn calls_without(calls: Seq<CallView>, id: Seq<char>) -> Seq<CallView>
    decreases calls.len(),
{
    if calls.len() == 0 {
        seq![]
    } else if calls.last().id == id {
        calls_without(calls.drop_last(), id)
    } else {
        calls_without(calls.drop_last(), id).push(calls.last())
    }
}

/// The scopes of the call with an id, if it has any.
pub open spec fn scopes_of(calls: Seq<CallView>, id: Seq<char>) -> Option<Seq<ScopeView>>
    decreases calls.len(),
{
    if calls.len() == 0 {
        None
    } else if calls.last().id == id {
        Some(calls.last().scopes)
    } else {
        scopes_of(calls.drop_last(), id)
    }
}

// ---------------------------------------------------------------------------
// References
// ---------------------------------------------------------------------------

/// Every file a run's tool calls reference, wherever it is, in the order
/// first referenced, as the run's events arrive.
pub struct References {
    /// Where relative paths are read from.
    pub project_dir: String,
    pub files: Vec<Referenced>,
    /// The calls that take files in by folders or patterns, by id.
    pub calls: Vec<Call>,
}

#[verifier::ext_equal]
pub struct ReferencesView {
    pub project_dir: Seq<char>,
    pub files: Seq<ReferencedView>,
    pub calls: Seq<CallView>,
}

impl View for References {
    type V = ReferencesView;

    open spec fn view(&self) -> ReferencesView {
        ReferencesView {
            project_dir: self.project_dir@,
            files: referenced_views(self.files@),
            calls: call_views(self.calls@),
        }
    }
}

pub open spec fn reads_files(name: Seq<char>) -> bool {
    name == "Read"@ || name == "NotebookRead"@
}

pub open spec fn edits_files(name: Seq<char>) -> bool {
    name == "Edit"@ || name == "MultiEdit"@ || name == "Write"@ || name == "NotebookEdit"@
}

pub open spec fn searches(name: Seq<char>) -> bool {
    name == "Grep"@ || name == "Glob"@
}

impl ReferencesView {
    pub open spec fn note(self, path: Seq<char>, edited: bool, by_subagent: bool) -> ReferencesView {
        ReferencesView {
            files: noted(self.files, ReferencedView { path, edited, by_subagent }),
            ..self
        }
    }

    pub open spec fn note_each(self, files: Seq<(Seq<char>, bool)>, by_subagent: bool)
        -> ReferencesView
        decreases files.len(),
    {
        if files.len() == 0 {
            self
        } else {
            self.note_each(files.drop_last(), by_subagent).note(
                files.last().0,
                files.last().1,
                by_subagent,
            )
        }
    }

    /// A call's scopes kept for its output, in place of any kept for its id.
    pub open spec fn keep(self, id: Seq<char>, scopes: Seq<ScopeView>) -> ReferencesView {
        ReferencesView {
            calls: calls_without(self.calls, id).push(CallView { id, scopes }),
            ..self
        }
    }

    /// A path read from the project.
    pub open spec fn path(self, text: Seq<char>) -> Seq<char> {
        normalized(join_path(self.project_dir, text))
    }

    /// A tool was called.
    pub open spec fn called(
        self,
        id: Seq<char>,
        name: Seq<char>,
        input: ToolInputView,
        subagent: bool,
        listing: ListingView,
    ) -> ReferencesView {
        if reads_files(name) || edits_files(name) {
            let file = if input.file_path is Some {
                input.file_path
            } else {
                input.notebook_path
            };
            match file {
                Some(file) => self.note(self.path(file), edits_files(name), subagent),
                None => self,
            }
        } else if searches(name) {
            let dir = match input.path {
                Some(path) => self.path(path),
                None => self.project_dir,
            };
            self.keep(id, seq![ScopeView { dir, base: self.project_dir }])
        } else if name == "Bash"@ && input.command is Some {
            let found = settled(found_in(input.command->0, self.project_dir), listing);
            let noted = self.note_each(found.files, subagent);
            if found.scopes.len() > 0 {
                noted.keep(id, found.scopes)
            } else {
                noted
            }
        } else {
            self
        }
    }

    pub open spec fn note_named(
        self,
        lines: Seq<Seq<char>>,
        scopes: Seq<ScopeView>,
        by_subagent: bool,
        listing: ListingView,
    ) -> ReferencesView
        decreases lines.len(),
    {
        if lines.len() == 0 {
            self
        } else {
            let before = self.note_named(lines.drop_last(), scopes, by_subagent, listing);
            match named_by(scopes, lines.last(), listing, 0) {
                Some(path) => before.note(path, false, by_subagent),
                None => before,
            }
        }
    }

    /// A tool call's output came: the files it names in the call's scopes
    /// count.
    pub open spec fn returned(
        self,
        id: Seq<char>,
        output: Seq<char>,
        subagent: bool,
        listing: ListingView,
    ) -> ReferencesView {
        match scopes_of(self.calls, id) {
            Some(scopes) => ReferencesView {
                calls: calls_without(self.calls, id),
                ..self
            }.note_named(lines(output), scopes, subagent, listing),
            None => self,
        }
    }
}

/// The file a line names in the first of some scopes, from `i` on, that it
/// names one in.
pub open spec fn named_by(
    scopes: Seq<ScopeView>,
    line: Seq<char>,
    listing: ListingView,
    i: int,
) -> Option<Seq<char>>
    decreases scopes.len() - i,
{
    if i < 0 || i >= scopes.len() {
        None
    } else {
        match first_file(paths_in(scopes[i], names_in(line)), listing, 0) {
            Some(path) => Some(path),
            None => named_by(scopes, line, listing, i + 1),
        }
    }
}

/// What a harness event does to the references.
pub open spec fn applied(
    references: ReferencesView,
    event: HarnessEvent,
    listing: ListingView,
) -> ReferencesView {
    match event {
        HarnessEvent::ToolCalled { id, name, input, subagent } => references.called(
            id@,
            name@,
            input_of(text_members(input)),
            subagent,
            listing,
        ),
        HarnessEvent::ToolOutput { id, output, subagent } => references.returned(
            id@,
            output@,
            subagent,
            listing,
        ),
        _ => references,
    }
}

fn copy_scopes(scopes: &Vec<Scope>) -> (r: Vec<Scope>)
    ensures
        scope_views(r@) == scope_views(scopes@),
{
    let mut r: Vec<Scope> = Vec::new();
    let mut i: usize = 0;
    while i < scopes.len()
        invariant
            i <= scopes@.len(),
            scope_views(r@) == scope_views(scopes@).take(i as int),
        decreases scopes@.len() - i,
    {
        let ghost before = scope_views(r@);
        r.push(Scope { dir: scopes[i].dir.clone(), base: scopes[i].base.clone() });
        proof {
            assert(scope_views(r@) =~= before.push(scopes@[i as int]@));
            assert(scope_views(scopes@).take(i + 1) =~= scope_views(scopes@).take(i as int).push(
                scopes@[i as int]@,
            ));
        }
        i += 1;
    }
    proof {
        assert(scope_views(scopes@).take(scopes@.len() as int) =~= scope_views(scopes@));
    }
    r
}

fn name_in(scopes: &Vec<Scope>, line: &str, listing: &Listing) -> (r: Option<String>)
    ensures
        text_of(r) == named_by(scope_views(scopes@), line@, listing@, 0),
{
    let ghost all = scope_views(scopes@);
    let mut i: usize = 0;
    while i < scopes.len()
        invariant
            i <= scopes@.len(),
            all == scope_views(scopes@),
            named_by(all, line@, listing@, i as int) == named_by(all, line@, listing@, 0),
        decreases scopes@.len() - i,
    {
        proof {
            assert(all[i as int] == scopes@[i as int]@);
        }
        let found = scopes[i].named_in(line, listing);
        if found.is_some() {
            return found;
        }
        i += 1;
    }
    None
}

impl References {
    /// No references yet, in a project, relative paths read from it.
    pub fn new(project_dir: Option<String>) -> (r: References)
        ensures
            r@ == (ReferencesView {
                project_dir: match project_dir {
                    Some(dir) => dir@,
                    None => ""@,
                },
                files: seq![],
                calls: seq![],
            }),
    {
        let project_dir = match project_dir {
            Some(dir) => dir,
            None => "".to_owned(),
        };
        let r = References { project_dir, files: Vec::new(), calls: Vec::new() };
        proof {
            assert(r@.files =~= seq![]);
            assert(r@.calls =~= seq![]);
        }
        r
    }

    fn note(&mut self, path: String, edited: bool, by_subagent: bool)
        ensures
            final(self)@ == old(self)@.note(path@, edited, by_subagent),
    {
        note_in(&mut self.files, Referenced { path, edited, by_subagent });
    }

    /// Forgets the call with an id.
    fn forget(&mut self, id: &str)
        ensures
            final(self)@ == (ReferencesView {
                calls: calls_without(old(self)@.calls, id@),
                ..old(self)@
            }),
    {
        let ghost all = call_views(self.calls@);
        let mut kept: Vec<Call> = Vec::new();
        let mut i: usize = 0;
        proof {
            assert(call_views(kept@) =~= calls_without(all.take(0), id@));
        }
        while i < self.calls.len()
            invariant
                i <= self.calls@.len(),
                *self == *old(self),
                all == call_views(self.calls@),
                call_views(kept@) == calls_without(all.take(i as int), id@),
            decreases self.calls@.len() - i,
        {
            let ghost before = call_views(kept@);
            proof {
                assert(all.take(i + 1).drop_last() =~= all.take(i as int));
                assert(all.take(i + 1).last() == self.calls@[i as int]@);
            }
            if !same(&self.calls[i].id, id) {
                let call = Call {
                    id: self.calls[i].id.clone(),
                    scopes: copy_scopes(&self.calls[i].scopes),
                };
                kept.push(call);
                proof {
                    assert(call_views(kept@) =~= before.push(call@));
                }
            }
            i += 1;
        }
        proof {
            assert(all.take(all.len() as int) =~= all);
        }
        self.calls = kept;
    }

    fn keep(&mut self, id: &str, scopes: Vec<Scope>)
        ensures
            final(self)@ == old(self)@.keep(id@, scope_views(scopes@)),
    {
        self.forget(id);
        let ghost before = call_views(self.calls@);
        let call = Call { id: id.to_owned(), scopes };
        self.calls.push(call);
        proof {
            assert(call_views(self.calls@) =~= before.push(call@));
        }
    }

    fn path(&self, text: &str) -> (r: String)
        ensures
            r@ == self@.path(text@),
    {
        normalize(&joined_path(&self.project_dir, text))
    }

    /// The scopes kept for a call.
    fn scopes(&self, id: &str) -> (r: Option<Vec<Scope>>)
        ensures
            match r {
                Some(scopes) => scopes_of(self@.calls, id@) == Some(scope_views(scopes@)),
                None => scopes_of(self@.calls, id@) is None,
            },
    {
        let ghost all = call_views(self.calls@);
        let mut i: usize = self.calls.len();
        proof {
            assert(all.take(i as int) =~= all);
        }
        while i > 0
            invariant
                i <= self.calls@.len(),
                all == call_views(self.calls@),
                scopes_of(all.take(i as int), id@) == scopes_of(all, id@),
            decreases i,
        {
            proof {
                assert(all.take(i as int).last() == self.calls@[i - 1]@);
                assert(all.take(i as int).drop_last() =~= all.take(i - 1));
            }
            i -= 1;
            if same(&self.calls[i].id, id) {
                return Some(copy_scopes(&self.calls[i].scopes));
            }
        }
        None
    }

    /// Notes the files a tool call's input references, `listing` being what
    /// there is of the paths it asks about.
    pub fn called(
        &mut self,
        id: &str,
        name: &str,
        input: &ToolInput,
        subagent: bool,
        listing: &Listing,
    )
        ensures
            final(self)@ == old(self)@.called(id@, name@, input@, subagent, listing@),
    {
        let edits = same(name, "Edit") || same(name, "MultiEdit") || same(name, "Write") || same(
            name,
            "NotebookEdit",
        );
        if same(name, "Read") || same(name, "NotebookRead") || edits {
            if let Some(file) = &input.file_path {
                let path = self.path(file);
                self.note(path, edits, subagent);
            } else if let Some(file) = &input.notebook_path {
                let path = self.path(file);
                self.note(path, edits, subagent);
            }
        } else if same(name, "Grep") || same(name, "Glob") {
            let dir = match &input.path {
                Some(path) => self.path(path),
                None => self.project_dir.clone(),
            };
            let scope = Scope { dir, base: self.project_dir.clone() };
            let mut scopes: Vec<Scope> = Vec::new();
            scopes.push(scope);
            proof {
                assert(scope_views(scopes@) =~= seq![scope@]);
            }
            self.keep(id, scopes);
        } else if same(name, "Bash") {
            if let Some(command) = &input.command {
                let found = analyze(command, &self.project_dir, listing);
                let ghost all = file_views(found.files@);
                let mut i: usize = 0;
                while i < found.files.len()
                    invariant
                        i <= found.files@.len(),
                        all == file_views(found.files@),
                        self@ == old(self)@.note_each(all.take(i as int), subagent),
                    decreases found.files@.len() - i,
                {
                    self.note(found.files[i].0.clone(), found.files[i].1, subagent);
                    i += 1;
                    proof {
                        assert(all.take(i as int).drop_last() =~= all.take(i - 1));
                        assert(all.take(i as int).last() == (
                            found.files@[i - 1].0@,
                            found.files@[i - 1].1,
                        ));
                    }
                }
                proof {
                    assert(all.take(all.len() as int) =~= all);
                    assert(scope_views(found.scopes@).len() == found.scopes@.len());
                }
                if found.scopes.len() > 0 {
                    self.keep(id, found.scopes);
                }
            }
        }
    }

    /// Notes the files a tool call's output names, `listing` being what there
    /// is of the paths it may name.
    pub fn returned(&mut self, id: &str, output: &str, subagent: bool, listing: &Listing)
        ensures
            final(self)@ == old(self)@.returned(id@, output@, subagent, listing@),
    {
        let scopes = match self.scopes(id) {
            Some(scopes) => scopes,
            None => {
                return ;
            },
        };
        self.forget(id);
        let ghost start = self@;
        let lines = lines_of(&chars_of(output));
        let ghost all = views(lines@);
        let mut i: usize = 0;
        while i < lines.len()
            invariant
                i <= lines@.len(),
                all == views(lines@),
                self@ == start.note_named(
                    all.take(i as int),
                    scope_views(scopes@),
                    subagent,
                    listing@,
                ),
            decreases lines@.len() - i,
        {
            if let Some(path) = name_in(&scopes, &string_of(&lines[i]), listing) {
                self.note(path, false, subagent);
            }
            i += 1;
            proof {
                assert(all.take(i as int).drop_last() =~= all.take(i - 1));
                assert(all.take(i as int).last() == lines@[i - 1]@);
            }
        }
        proof {
            assert(all.take(all.len() as int) =~= all);
        }
    }

    /// Notes the files a tool call's input or output references, `listing`
    /// being what there is of the paths `paths_asked_about` gives for it.
    pub fn apply(&mut self, event: &HarnessEvent, listing: &Listing)
        ensures
            final(self)@ == applied(old(self)@, *event, listing@),
    {
        match event {
            HarnessEvent::ToolCalled { id, name, input, subagent } => {
                let input = read_input(input);
                self.called(id, name, &input, *subagent, listing);
            },
            HarnessEvent::ToolOutput { id, output, subagent } => {
                self.returned(id, output, *subagent, listing);
            },
            _ => {},
        }
    }
}

// ---------------------------------------------------------------------------
// The spec files among them
// ---------------------------------------------------------------------------

/// A file imported, as it is listed.
pub open spec fn import(path: Seq<char>) -> ReferencedView {
    ReferencedView { path: normalized(path), edited: false, by_subagent: false }
}

/// The files imported, each once, in the order first imported.
pub open spec fn imports(imported: Seq<Seq<char>>) -> Seq<ReferencedView>
    decreases imported.len(),
{
    if imported.len() == 0 {
        seq![]
    } else {
        noted(imports(imported.drop_last()), import(imported.last()))
    }
}

/// Whether a path is in the spec location or among the reference files.
pub open spec fn is_spec(
    path: Seq<char>,
    reference_dir: Seq<char>,
    spec_dir: Option<Seq<char>>,
) -> bool {
    (spec_dir is Some && within(path, spec_dir->0)) || within(path, reference_dir)
}

/// Where the reference files of a project are, `harness_dir` being the
/// harness's directory in it.
pub open spec fn reference_files(project_dir: Seq<char>, harness_dir: Seq<char>) -> Seq<char> {
    join_path(join_path(project_dir, harness_dir), REFERENCE_DIR@)
}

/// Files with the spec files among some references noted.
pub open spec fn with_spec_files(
    files: Seq<ReferencedView>,
    references: Seq<ReferencedView>,
    reference_dir: Seq<char>,
    spec_dir: Option<Seq<char>>,
) -> Seq<ReferencedView>
    decreases references.len(),
{
    if references.len() == 0 {
        files
    } else {
        let before = with_spec_files(files, references.drop_last(), reference_dir, spec_dir);
        if is_spec(references.last().path, reference_dir, spec_dir) {
            noted(before, references.last())
        } else {
            before
        }
    }
}

/// The spec files a task references: `imported`, the files its prompt imports
/// from, then those its run references in `spec_dir` or the reference files,
/// each once, in the order first referenced.
pub fn collect(
    imported: &Vec<String>,
    references: &References,
    project_dir: &str,
    harness_dir: &str,
    spec_dir: Option<&str>,
) -> (r: Vec<Referenced>)
    ensures
        referenced_views(r@) == with_spec_files(
            imports(views(imported@)),
            references@.files,
            reference_files(project_dir@, harness_dir@),
            match spec_dir {
                Some(dir) => Some(dir@),
                None => None,
            },
        ),
{
    let ghost spec = match spec_dir {
        Some(dir) => Some(dir@),
        None => None,
    };
    let reference_dir = joined_path(&joined_path(project_dir, harness_dir), REFERENCE_DIR);
    let mut files: Vec<Referenced> = Vec::new();
    let ghost paths = views(imported@);
    let mut i: usize = 0;
    proof {
        assert(referenced_views(files@) =~= imports(paths.take(0)));
    }
    while i < imported.len()
        invariant
            i <= imported@.len(),
            paths == views(imported@),
            referenced_views(files@) == imports(paths.take(i as int)),
        decreases imported@.len() - i,
    {
        proof {
            assert(paths.take(i + 1).drop_last() =~= paths.take(i as int));
            assert(paths.take(i + 1).last() == imported@[i as int]@);
        }
        let file = Referenced {
            path: normalize(&imported[i]),
            edited: false,
            by_subagent: false,
        };
        proof {
            assert(file@ =~= import(imported@[i as int]@));
        }
        note_in(&mut files, file);
        i += 1;
    }
    let ghost start = imports(paths);
    let ghost all = referenced_views(references.files@);
    proof {
        assert(paths.take(paths.len() as int) =~= paths);
    }
    let mut k: usize = 0;
    while k < references.files.len()
        invariant
            k <= references.files@.len(),
            all == referenced_views(references.files@),
            spec == (match spec_dir {
                Some(dir) => Some(dir@),
                None => None,
            }),
            reference_dir@ == reference_files(project_dir@, harness_dir@),
            referenced_views(files@) == with_spec_files(
                start,
                all.take(k as int),
                reference_dir@,
                spec,
            ),
        decreases references.files@.len() - k,
    {
        let file = &references.files[k];
        proof {
            assert(all.take(k + 1).drop_last() =~= all.take(k as int));
            assert(all.take(k + 1).last() == file@);
        }
        let in_spec = match spec_dir {
            Some(dir) => is_within(&file.path, dir),
            None => false,
        };
        if in_spec || is_within(&file.path, &reference_dir) {
            note_in(
                &mut files,
                Referenced {
                    path: file.path.clone(),
                    edited: file.edited,
                    by_subagent: file.by_subagent,
                },
            );
        }
        k += 1;
    }
    proof {
        assert(all.take(all.len() as int) =~= all);
    }
    files
}

pub open spec fn name_shown(path: Seq<char>) -> Seq<char> {
    match file_name(path) {
        Some(name) => if stem(name) == "index"@ && folder_name(path) is Some {
            folder_name(path)->0.push('/') + name
        } else {
            name
        },
        None => path,
    }
}

/// What a row shows of `path`: its file name, after the folder it is in when
/// it is an index file, as `chat-input/index.pi`.
pub fn shown_name(path: &str) -> (r: String)
    ensures
        r@ == name_shown(path@),
{
    let name = match file_name_of(path) {
        Some(name) => name,
        None => {
            return path.to_owned();
        },
    };
    if same(&stem_of(&name), "index") {
        if let Some(folder) = folder_name_of(path) {
            let mut shown = chars_of(&folder);
            shown.push('/');
            push_str(&mut shown, &name);
            return string_of(&shown);
        }
    }
    name
}

// ---------------------------------------------------------------------------
// What to look up
// ---------------------------------------------------------------------------

/// The paths a line may name in some scopes.
pub open spec fn asked_in_line(scopes: Seq<ScopeView>, line: Seq<char>) -> Seq<Seq<char>>
    decreases scopes.len(),
{
    if scopes.len() == 0 {
        seq![]
    } else {
        asked_in_line(scopes.drop_last(), line) + paths_in(scopes.last(), names_in(line))
    }
}

/// The paths some lines may name in some scopes.
pub open spec fn asked_in_lines(scopes: Seq<ScopeView>, lines: Seq<Seq<char>>) -> Seq<Seq<char>>
    decreases lines.len(),
{
    if lines.len() == 0 {
        seq![]
    } else {
        asked_in_lines(scopes, lines.drop_last()) + asked_in_line(scopes, lines.last())
    }
}

/// The paths to look up before an event is applied.
pub open spec fn asked_for(references: ReferencesView, event: HarnessEvent) -> Seq<Seq<char>> {
    match event {
        HarnessEvent::ToolCalled { id, name, input, subagent } => {
            let input = input_of(text_members(input));
            if name@ == "Bash"@ && input.command is Some {
                asked(found_in(input.command->0, references.project_dir))
            } else {
                seq![]
            }
        },
        HarnessEvent::ToolOutput { id, output, subagent } => match scopes_of(
            references.calls,
            id@,
        ) {
            Some(scopes) => asked_in_lines(scopes, lines(output@)),
            None => seq![],
        },
        _ => seq![],
    }
}

fn add_texts(all: &mut Vec<String>, more: &Vec<String>)
    ensures
        views(final(all)@) == views(old(all)@) + views(more@),
{
    let mut i: usize = 0;
    proof {
        assert(views(all@) =~= views(old(all)@) + views(more@).take(0));
    }
    while i < more.len()
        invariant
            i <= more@.len(),
            views(all@) == views(old(all)@) + views(more@).take(i as int),
        decreases more@.len() - i,
    {
        let ghost before = views(all@);
        all.push(more[i].clone());
        proof {
            assert(views(all@) =~= before.push(more@[i as int]@));
            assert(views(old(all)@) + views(more@).take(i + 1) =~= before.push(
                more@[i as int]@,
            ));
        }
        i += 1;
    }
    proof {
        assert(views(more@).take(more@.len() as int) =~= views(more@));
    }
}

fn line_asks(scopes: &Vec<Scope>, line: &str) -> (r: Vec<String>)
    ensures
        views(r@) == asked_in_line(scope_views(scopes@), line@),
{
    let ghost all = scope_views(scopes@);
    let mut r: Vec<String> = Vec::new();
    let mut i: usize = 0;
    proof {
        assert(views(r@) =~= asked_in_line(all.take(0), line@));
    }
    while i < scopes.len()
        invariant
            i <= scopes@.len(),
            all == scope_views(scopes@),
            views(r@) == asked_in_line(all.take(i as int), line@),
        decreases scopes@.len() - i,
    {
        add_texts(&mut r, &scopes[i].paths_named_in(line));
        i += 1;
        proof {
            assert(all.take(i as int).drop_last() =~= all.take(i - 1));
            assert(all.take(i as int).last() == scopes@[i - 1]@);
        }
    }
    proof {
        assert(all.take(all.len() as int) =~= all);
    }
    r
}

impl References {
    /// The paths to look up before an event is applied.
    pub fn asks(&self, event: &HarnessEvent) -> (r: Vec<String>)
        ensures
            views(r@) == asked_for(self@, *event),
    {
        let mut r: Vec<String> = Vec::new();
        proof {
            assert(views(r@) =~= seq![]);
        }
        match event {
            HarnessEvent::ToolCalled { id: _, name, input, subagent: _ } => {
                if same(name, "Bash") {
                    if let Some(command) = read_input(input).command {
                        return paths_asked_about(&finds(&command, &self.project_dir));
                    }
                }
                r
            },
            HarnessEvent::ToolOutput { id, output, subagent: _ } => {
                if let Some(scopes) = self.scopes(id) {
                    let lines = lines_of(&chars_of(output));
                    let ghost all = views(lines@);
                    let ghost within = scope_views(scopes@);
                    let mut i: usize = 0;
                    proof {
                        assert(views(r@) =~= asked_in_lines(within, all.take(0)));
                    }
                    while i < lines.len()
                        invariant
                            i <= lines@.len(),
                            all == views(lines@),
                            within == scope_views(scopes@),
                            views(r@) == asked_in_lines(within, all.take(i as int)),
                        decreases lines@.len() - i,
                    {
                        add_texts(&mut r, &line_asks(&scopes, &string_of(&lines[i])));
                        i += 1;
                        proof {
                            assert(all.take(i as int).drop_last() =~= all.take(i - 1));
                            assert(all.take(i as int).last() == lines@[i - 1]@);
                        }
                    }
                    proof {
                        assert(all.take(all.len() as int) =~= all);
                    }
                }
                r
            },
            _ => r,
        }
    }
}

// ---------------------------------------------------------------------------
// What holds of references
// ---------------------------------------------------------------------------

/// Whether two listings agree on some paths.
pub open spec fn agree(one: ListingView, other: ListingView, paths: Seq<Seq<char>>) -> bool {
    &&& forall|path: Seq<char>| #[trigger]
        paths.contains(path) ==> one.files.contains(path) == other.files.contains(path)
    &&& forall|path: Seq<char>| #[trigger]
        paths.contains(path) ==> one.folders.contains(path) == other.folders.contains(path)
}

proof fn lemma_agree_parts(
    one: ListingView,
    other: ListingView,
    first: Seq<Seq<char>>,
    second: Seq<Seq<char>>,
)
    requires
        agree(one, other, first + second),
    ensures
        agree(one, other, first),
        agree(one, other, second),
{
    let all = first + second;
    assert forall|path: Seq<char>| #[trigger] first.contains(path) implies all.contains(path) by {
        let k = choose|k: int| 0 <= k < first.len() && first[k] == path;
        assert(all[k] == path);
    }
    assert forall|path: Seq<char>| #[trigger] second.contains(path) implies all.contains(path) by {
        let k = choose|k: int| 0 <= k < second.len() && second[k] == path;
        assert(all[first.len() + k] == path);
    }
}

proof fn lemma_first_file_agrees(
    paths: Seq<Seq<char>>,
    one: ListingView,
    other: ListingView,
    i: int,
)
    requires
        agree(one, other, paths),
        0 <= i <= paths.len(),
    ensures
        first_file(paths, one, i) == first_file(paths, other, i),
    decreases paths.len() - i,
{
    if i < paths.len() {
        assert(paths.contains(paths[i]));
        lemma_first_file_agrees(paths, one, other, i + 1);
    }
}

proof fn lemma_line_asks_of_each(scopes: Seq<ScopeView>, line: Seq<char>, i: int)
    requires
        0 <= i < scopes.len(),
    ensures
        forall|path: Seq<char>| #[trigger]
            paths_in(scopes[i], names_in(line)).contains(path) ==> asked_in_line(
                scopes,
                line,
            ).contains(path),
    decreases scopes.len(),
{
    let all = asked_in_line(scopes, line);
    let last = paths_in(scopes.last(), names_in(line));
    let rest = asked_in_line(scopes.drop_last(), line);
    assert forall|path: Seq<char>| #[trigger]
        paths_in(scopes[i], names_in(line)).contains(path) implies all.contains(path) by {
        if i == scopes.len() - 1 {
            let k = choose|k: int| 0 <= k < last.len() && last[k] == path;
            assert(all[rest.len() + k] == path);
        } else {
            assert(scopes.drop_last()[i] == scopes[i]);
            lemma_line_asks_of_each(scopes.drop_last(), line, i);
            assert(rest.contains(path));
            let k = choose|k: int| 0 <= k < rest.len() && rest[k] == path;
            assert(all[k] == path);
        }
    }
}

proof fn lemma_named_by_agrees(
    scopes: Seq<ScopeView>,
    line: Seq<char>,
    one: ListingView,
    other: ListingView,
    i: int,
)
    requires
        agree(one, other, asked_in_line(scopes, line)),
        0 <= i <= scopes.len(),
    ensures
        named_by(scopes, line, one, i) == named_by(scopes, line, other, i),
    decreases scopes.len() - i,
{
    if i < scopes.len() {
        let paths = paths_in(scopes[i], names_in(line));
        lemma_line_asks_of_each(scopes, line, i);
        assert(agree(one, other, paths)) by {
            let all = asked_in_line(scopes, line);
            assert forall|path: Seq<char>| #[trigger] paths.contains(path) implies all.contains(
                path,
            ) by {}
        }
        lemma_first_file_agrees(paths, one, other, 0);
        lemma_named_by_agrees(scopes, line, one, other, i + 1);
    }
}

proof fn lemma_note_named_agrees(
    references: ReferencesView,
    lines: Seq<Seq<char>>,
    scopes: Seq<ScopeView>,
    by_subagent: bool,
    one: ListingView,
    other: ListingView,
)
    requires
        agree(one, other, asked_in_lines(scopes, lines)),
    ensures
        references.note_named(lines, scopes, by_subagent, one) == references.note_named(
            lines,
            scopes,
            by_subagent,
            other,
        ),
    decreases lines.len(),
{
    if lines.len() > 0 {
        lemma_agree_parts(
            one,
            other,
            asked_in_lines(scopes, lines.drop_last()),
            asked_in_line(scopes, lines.last()),
        );
        lemma_note_named_agrees(references, lines.drop_last(), scopes, by_subagent, one, other);
        lemma_named_by_agrees(scopes, lines.last(), one, other, 0);
    }
}

/// What an event notes follows from what there is of the paths looked up for
/// it: what is anywhere else on disk makes no difference.
pub proof fn only_what_is_looked_up_counts(
    references: ReferencesView,
    event: HarnessEvent,
    one: ListingView,
    other: ListingView,
)
    requires
        agree(one, other, asked_for(references, event)),
    ensures
        applied(references, event, one) == applied(references, event, other),
{
    match event {
        HarnessEvent::ToolCalled { id, name, input, subagent } => {
            let input = input_of(text_members(input));
            if name@ == "Bash"@ && input.command is Some {
                only_what_is_asked_about_counts(
                    found_in(input.command->0, references.project_dir),
                    one,
                    other,
                );
            }
        },
        HarnessEvent::ToolOutput { id, output, subagent } => {
            match scopes_of(references.calls, id@) {
                Some(scopes) => {
                    let rest = ReferencesView {
                        calls: calls_without(references.calls, id@),
                        ..references
                    };
                    lemma_note_named_agrees(rest, lines(output@), scopes, subagent, one, other);
                },
                None => {},
            }
        },
        _ => {},
    }
}

/// Whether no file is listed twice.
pub open spec fn each_once(files: Seq<ReferencedView>) -> bool {
    forall|i: int, j: int|
        0 <= i < j < files.len() ==> (#[trigger] files[i]).path != (#[trigger] files[j]).path
}

pub proof fn lemma_place_of(files: Seq<ReferencedView>, path: Seq<char>, i: int)
    requires
        0 <= i <= files.len(),
    ensures
        i <= place_of(files, path, i) <= files.len(),
        place_of(files, path, i) < files.len() ==> files[place_of(files, path, i)].path == path,
        forall|k: int| i <= k < place_of(files, path, i) ==> (#[trigger] files[k]).path != path,
    decreases files.len() - i,
{
    if i < files.len() && files[i].path != path {
        lemma_place_of(files, path, i + 1);
    }
}

/// Noting a reference keeps every file where it was, listed once, and never
/// takes back that it was edited or referenced by a subagent.
pub proof fn noting_keeps_what_was_noted(files: Seq<ReferencedView>, file: ReferencedView)
    requires
        each_once(files),
    ensures
        each_once(noted(files, file)),
        noted(files, file).len() >= files.len(),
        forall|k: int|
            0 <= k < files.len() ==> (#[trigger] noted(files, file)[k]).path == files[k].path && (
            files[k].edited ==> noted(files, file)[k].edited) && (files[k].by_subagent ==> noted(
                files,
                file,
            )[k].by_subagent),
        exists|k: int|
            0 <= k < noted(files, file).len() && (#[trigger] noted(files, file)[k]).path
                == file.path,
{
    lemma_place_of(files, file.path, 0);
    let now = noted(files, file);
    let at = place_of(files, file.path, 0);
    assert(now[at].path == file.path);
    assert forall|i: int, j: int| 0 <= i < j < now.len() implies (#[trigger] now[i]).path != (
    #[trigger] now[j]).path by {
        if j < files.len() {
            assert(now[i].path == files[i].path && now[j].path == files[j].path);
        } else {
            assert(now[i] == files[i]);
        }
    }
}

proof fn lemma_imported_once(imported: Seq<Seq<char>>)
    ensures
        each_once(imports(imported)),
        forall|k: int|
            0 <= k < imported.len() ==> exists|m: int|
                0 <= m < imports(imported).len() && (#[trigger] imports(imported)[m]).path
                    == normalized(#[trigger] imported[k]),
    decreases imported.len(),
{
    if imported.len() > 0 {
        let rest = imported.drop_last();
        let before = imports(rest);
        let now = imports(imported);
        lemma_imported_once(rest);
        noting_keeps_what_was_noted(before, import(imported.last()));
        assert forall|k: int| 0 <= k < imported.len() implies exists|m: int|
            0 <= m < now.len() && (#[trigger] now[m]).path == normalized(#[trigger] imported[k]) by {
            if k < rest.len() {
                assert(rest[k] == imported[k]);
                let m = choose|m: int|
                    0 <= m < before.len() && (#[trigger] before[m]).path == normalized(rest[k]);
                assert(now[m].path == before[m].path);
            } else {
                let m = choose|m: int|
                    0 <= m < now.len() && (#[trigger] now[m]).path == import(imported.last()).path;
                assert(now[m].path == normalized(imported[k]));
            }
        }
    }
}

/// The spec files collected are each listed once, whatever is imported or
/// referenced how often.
pub proof fn spec_files_are_listed_once(
    imported: Seq<Seq<char>>,
    references: Seq<ReferencedView>,
    reference_dir: Seq<char>,
    spec_dir: Option<Seq<char>>,
)
    ensures
        each_once(with_spec_files(imports(imported), references, reference_dir, spec_dir)),
    decreases references.len(),
{
    if references.len() > 0 {
        let rest = references.drop_last();
        spec_files_are_listed_once(imported, rest, reference_dir, spec_dir);
        noting_keeps_what_was_noted(
            with_spec_files(imports(imported), rest, reference_dir, spec_dir),
            references.last(),
        );
    } else {
        lemma_imported_once(imported);
    }
}

/// Every file imported is listed, before any that is only referenced.
pub proof fn every_import_is_listed(
    imported: Seq<Seq<char>>,
    references: Seq<ReferencedView>,
    reference_dir: Seq<char>,
    spec_dir: Option<Seq<char>>,
    k: int,
)
    requires
        0 <= k < imported.len(),
    ensures
        ({
            let files = with_spec_files(imports(imported), references, reference_dir, spec_dir);
            exists|m: int|
                0 <= m < imports(imported).len() && m < files.len() && (
                #[trigger] files[m]).path == normalized(imported[k])
        }),
{
    lemma_imported_once(imported);
    lemma_collected(imports(imported), references, reference_dir, spec_dir);
    let files = with_spec_files(imports(imported), references, reference_dir, spec_dir);
    let m = choose|m: int|
        0 <= m < imports(imported).len() && (#[trigger] imports(imported)[m]).path == normalized(
            imported[k],
        );
    assert(files[m].path == imports(imported)[m].path);
}

/// Beside the imports, the files collected are only those of the spec location
/// or the reference files.
pub proof fn only_spec_files_are_collected(
    imported: Seq<Seq<char>>,
    references: Seq<ReferencedView>,
    reference_dir: Seq<char>,
    spec_dir: Option<Seq<char>>,
    k: int,
)
    requires
        0 <= k < with_spec_files(imports(imported), references, reference_dir, spec_dir).len(),
    ensures
        ({
            let files = with_spec_files(imports(imported), references, reference_dir, spec_dir);
            if k < imports(imported).len() {
                files[k].path == imports(imported)[k].path
            } else {
                is_spec(files[k].path, reference_dir, spec_dir)
            }
        }),
        imports(imported).len() <= with_spec_files(
            imports(imported),
            references,
            reference_dir,
            spec_dir,
        ).len(),
    decreases references.len(),
{
    lemma_collected(imports(imported), references, reference_dir, spec_dir);
}

proof fn lemma_collected(
    files: Seq<ReferencedView>,
    references: Seq<ReferencedView>,
    reference_dir: Seq<char>,
    spec_dir: Option<Seq<char>>,
)
    ensures
        files.len() <= with_spec_files(files, references, reference_dir, spec_dir).len(),
        forall|k: int|
            0 <= k < with_spec_files(files, references, reference_dir, spec_dir).len() ==> if k
                < files.len() {
                (#[trigger] with_spec_files(files, references, reference_dir, spec_dir)[k]).path
                    == files[k].path
            } else {
                is_spec(
                    with_spec_files(files, references, reference_dir, spec_dir)[k].path,
                    reference_dir,
                    spec_dir,
                )
            },
    decreases references.len(),
{
    if references.len() > 0 {
        lemma_collected(files, references.drop_last(), reference_dir, spec_dir);
    }
}

} // verus!
