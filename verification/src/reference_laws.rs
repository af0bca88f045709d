//! What holds of the files a run references, told of the events that came and
//! what is listed before and after them.
use vstd::prelude::*;
use crate::harness::{text_members, HarnessEvent};
use crate::listing::ListingView;
use crate::paths::{join_path, normalized, within};
use crate::referenced_spec::{applied, imports, is_spec, lemma_place_of, member_of, noted,
    place_of, with_spec_files, ReferencedView, ReferencesView};
use crate::shell_paths::{before, first_file, found_in, headed, names_in, paths_in, settled, stripped,
    ScopeView};
use crate::text::{group_runs, lemma_run_end_is, trim, Class};

verus! {

// ---------------------------------------------------------------------------
// Marks
// ---------------------------------------------------------------------------

/// Whether an event was reported by a subagent.
pub open spec fn from_subagent(event: HarnessEvent) -> bool {
    match event {
        HarnessEvent::ToolCalled { id, name, input, subagent } => subagent,
        HarnessEvent::ToolOutput { id, output, subagent } => subagent,
        _ => false,
    }
}

/// Whether a path is among files.
pub open spec fn lists(files: Seq<ReferencedView>, path: Seq<char>) -> bool {
    exists|k: int| 0 <= k < files.len() && (#[trigger] files[k]).path == path
}

/// Whether files are others with references by one of the harness or a subagent
/// added: those there before stay in place, marked as a subagent's where they
/// were or where they are newly so, and those that are new are marked as theirs.
pub open spec fn marked(
    before: Seq<ReferencedView>,
    after: Seq<ReferencedView>,
    by_subagent: bool,
) -> bool {
    &&& before.len() <= after.len()
    &&& forall|k: int|
        0 <= k < before.len() ==> {
            &&& (#[trigger] after[k]).path == before[k].path
            &&& before[k].edited ==> after[k].edited
            &&& before[k].by_subagent ==> after[k].by_subagent
            &&& after[k].by_subagent ==> before[k].by_subagent || by_subagent
            &&& after[k].edited != before[k].edited && by_subagent ==> after[k].by_subagent
        }
    &&& forall|k: int|
        before.len() <= k < after.len() ==> (#[trigger] after[k]).by_subagent == by_subagent
            && !lists(before, after[k].path)
}

proof fn lemma_noted(files: Seq<ReferencedView>, file: ReferencedView)
    ensures
        marked(files, noted(files, file), file.by_subagent),
        exists|k: int|
            {
                &&& 0 <= k < noted(files, file).len()
                &&& (#[trigger] noted(files, file)[k]).path == file.path
                &&& file.edited ==> noted(files, file)[k].edited
                &&& file.by_subagent ==> noted(files, file)[k].by_subagent
                &&& !lists(files, file.path) ==> noted(files, file)[k] == file
            },
{
    lemma_place_of(files, file.path, 0);
    let at = place_of(files, file.path, 0);
    let now = noted(files, file);
    assert(now[at].path == file.path);
    if at < files.len() {
        assert(lists(files, files[at].path));
    }
}

proof fn lemma_marked_on(
    a: Seq<ReferencedView>,
    b: Seq<ReferencedView>,
    c: Seq<ReferencedView>,
    by_subagent: bool,
)
    requires
        marked(a, b, by_subagent),
        marked(b, c, by_subagent),
    ensures
        marked(a, c, by_subagent),
{
    assert forall|k: int| 0 <= k < a.len() implies {
        &&& (#[trigger] c[k]).path == a[k].path
        &&& a[k].edited ==> c[k].edited
        &&& a[k].by_subagent ==> c[k].by_subagent
        &&& c[k].by_subagent ==> a[k].by_subagent || by_subagent
        &&& c[k].edited != a[k].edited && by_subagent ==> c[k].by_subagent
    } by {
        assert(b[k].path == a[k].path);
    }
    assert forall|k: int| a.len() <= k < c.len() implies (#[trigger] c[k]).by_subagent
        == by_subagent && !lists(a, c[k].path) by {
        if k < b.len() {
            assert(b[k].by_subagent == by_subagent);
        } else if lists(a, c[k].path) {
            let j = choose|j: int| 0 <= j < a.len() && (#[trigger] a[j]).path == c[k].path;
            assert(b[j].path == c[k].path);
            assert(lists(b, c[k].path));
        }
    }
}

/// A file that is listed stays listed, and its marks stay.
proof fn lemma_still(
    a: Seq<ReferencedView>,
    b: Seq<ReferencedView>,
    by_subagent: bool,
    path: Seq<char>,
    edited: bool,
)
    requires
        marked(a, b, by_subagent),
        reaches(a, path, edited, by_subagent),
    ensures
        reaches(b, path, edited, by_subagent),
{
    let k = choose|k: int|
        0 <= k < a.len() && (#[trigger] a[k]).path == path && (edited ==> a[k].edited) && (
        by_subagent ==> a[k].by_subagent);
    assert(b[k].path == path);
}

/// Whether a file is listed, marked as edited or as a subagent's where it is to be.
pub open spec fn reaches(
    files: Seq<ReferencedView>,
    path: Seq<char>,
    edited: bool,
    by_subagent: bool,
) -> bool {
    exists|k: int|
        0 <= k < files.len() && (#[trigger] files[k]).path == path && (edited ==> files[k].edited)
            && (by_subagent ==> files[k].by_subagent)
}

proof fn lemma_note_each(
    references: ReferencesView,
    files: Seq<(Seq<char>, bool)>,
    by_subagent: bool,
)
    ensures
        marked(references.files, references.note_each(files, by_subagent).files, by_subagent),
        forall|k: int|
            0 <= k < files.len() ==> reaches(
                references.note_each(files, by_subagent).files,
                (#[trigger] files[k]).0,
                files[k].1,
                by_subagent,
            ),
        only_adds(references.files, references.note_each(files, by_subagent).files, files),
        references.note_each(files, by_subagent).calls == references.calls,
        references.note_each(files, by_subagent).project_dir == references.project_dir,
    decreases files.len(),
{
    if files.len() > 0 {
        let rest = files.drop_last();
        lemma_note_each(references, rest, by_subagent);
        let before = references.note_each(rest, by_subagent).files;
        let file = ReferencedView { path: files.last().0, edited: files.last().1, by_subagent };
        lemma_noted(before, file);
        let now = noted(before, file);
        lemma_marked_on(references.files, before, now, by_subagent);
        assert forall|k: int| 0 <= k < files.len() implies reaches(
            now,
            (#[trigger] files[k]).0,
            files[k].1,
            by_subagent,
        ) by {
            if k < rest.len() {
                assert(rest[k] == files[k]);
                lemma_still(before, now, by_subagent, files[k].0, files[k].1);
            }
        }
        lemma_only_adds(references.files, before, rest, file);
        assert(rest.push(files.last()) =~= files);
    }
}

/// Whether a path is among those noted.
pub open spec fn names(files: Seq<(Seq<char>, bool)>, path: Seq<char>) -> bool {
    exists|k: int| 0 <= k < files.len() && (#[trigger] files[k]).0 == path
}

/// Whether files are marked as edited only where they are among those noted as
/// edited, and only those noted are added.
pub open spec fn only_adds(
    before: Seq<ReferencedView>,
    after: Seq<ReferencedView>,
    files: Seq<(Seq<char>, bool)>,
) -> bool {
    forall|k: int|
        0 <= k < after.len() ==> {
            &&& k >= before.len() ==> names(files, (#[trigger] after[k]).path)
            &&& k < before.len() && after[k] != before[k] ==> names(files, after[k].path)
            &&& after[k].edited && (k >= before.len() || !before[k].edited) ==> files.contains(
                (after[k].path, true),
            )
        }
}

proof fn lemma_only_adds(
    start: Seq<ReferencedView>,
    before: Seq<ReferencedView>,
    files: Seq<(Seq<char>, bool)>,
    file: ReferencedView,
)
    requires
        start.len() <= before.len(),
        only_adds(start, before, files),
    ensures
        only_adds(start, noted(before, file), files.push((file.path, file.edited))),
{
    lemma_place_of(before, file.path, 0);
    let at = place_of(before, file.path, 0);
    let now = noted(before, file);
    let more = files.push((file.path, file.edited));
    let n = files.len() as int;
    assert(more[n].0 == file.path);
    assert forall|k: int| 0 <= k < now.len() implies {
        &&& k >= start.len() ==> names(more, (#[trigger] now[k]).path)
        &&& k < start.len() && now[k] != start[k] ==> names(more, now[k].path)
        &&& now[k].edited && (k >= start.len() || !start[k].edited) ==> more.contains(
            (now[k].path, true),
        )
    } by {
        if k == at {
            assert(now[k].path == file.path);
            if now[k].edited && file.edited {
                assert(more[n] == (now[k].path, true));
            }
        }
        if k < before.len() {
            assert(now[k].path == before[k].path);
            if names(files, before[k].path) {
                let j = choose|j: int| 0 <= j < n && (#[trigger] files[j]).0 == before[k].path;
                assert(more[j].0 == before[k].path);
            }
            if files.contains((before[k].path, true)) {
                let j = choose|j: int| 0 <= j < n && files[j] == (before[k].path, true);
                assert(more[j] == (before[k].path, true));
            }
        }
    }
}

proof fn lemma_note_named(
    references: ReferencesView,
    lines: Seq<Seq<char>>,
    scopes: Seq<ScopeView>,
    by_subagent: bool,
    listing: ListingView,
)
    ensures
        marked(
            references.files,
            references.note_named(lines, scopes, by_subagent, listing).files,
            by_subagent,
        ),
        forall|k: int|
            0 <= k < references.files.len() ==> (#[trigger] references.note_named(
                lines,
                scopes,
                by_subagent,
                listing,
            ).files[k]).edited == references.files[k].edited,
        forall|k: int|
            references.files.len() <= k < references.note_named(
                lines,
                scopes,
                by_subagent,
                listing,
            ).files.len() ==> !(#[trigger] references.note_named(
                lines,
                scopes,
                by_subagent,
                listing,
            ).files[k]).edited,
        forall|k: int|
            0 <= k < lines.len() && (#[trigger] crate::referenced_spec::named_by(
                scopes,
                lines[k],
                listing,
                0,
            )) is Some ==> reaches(
                references.note_named(lines, scopes, by_subagent, listing).files,
                crate::referenced_spec::named_by(scopes, lines[k], listing, 0)->0,
                false,
                by_subagent,
            ),
    decreases lines.len(),
{
    if lines.len() > 0 {
        let rest = lines.drop_last();
        lemma_note_named(references, rest, scopes, by_subagent, listing);
        let before = references.note_named(rest, scopes, by_subagent, listing).files;
        let now = references.note_named(lines, scopes, by_subagent, listing).files;
        match crate::referenced_spec::named_by(scopes, lines.last(), listing, 0) {
            Some(path) => {
                let file = ReferencedView { path, edited: false, by_subagent };
                lemma_noted(before, file);
                lemma_place_of(before, path, 0);
                lemma_marked_on(references.files, before, now, by_subagent);
            },
            None => {},
        }
        assert forall|k: int|
            0 <= k < lines.len() && (#[trigger] crate::referenced_spec::named_by(
                scopes,
                lines[k],
                listing,
                0,
            )) is Some implies reaches(
            now,
            crate::referenced_spec::named_by(scopes, lines[k], listing, 0)->0,
            false,
            by_subagent,
        ) by {
            if k < rest.len() {
                assert(rest[k] == lines[k]);
                let path = crate::referenced_spec::named_by(scopes, rest[k], listing, 0)->0;
                assert(reaches(before, path, false, by_subagent));
                if before != now {
                    lemma_still(before, now, by_subagent, path, false);
                }
            }
        }
    }
}

/// Whatever event comes, of whichever tool, each file it adds is marked as a
/// subagent's exactly when a subagent reported the event. Files listed before
/// keep their places and their marks, and get the mark of a subagent only from
/// one.
pub proof fn files_are_marked_as_their_event_says(
    references: ReferencesView,
    event: HarnessEvent,
    listing: ListingView,
)
    ensures
        marked(
            references.files,
            applied(references, event, listing).files,
            from_subagent(event),
        ),
        applied(references, event, listing).project_dir == references.project_dir,
{
    match event {
        HarnessEvent::ToolCalled { id, name, input, subagent } => {
            let read = crate::referenced_spec::input_of(text_members(input));
            let file = if read.file_path is Some {
                read.file_path
            } else {
                read.notebook_path
            };
            if file is Some {
                lemma_noted(
                    references.files,
                    ReferencedView {
                        path: references.path(file->0),
                        edited: crate::referenced_spec::edits_files(name@),
                        by_subagent: subagent,
                    },
                );
            }
            if read.command is Some {
                let found = settled(found_in(read.command->0, references.project_dir), listing);
                lemma_note_each(references, found.files, subagent);
            }
        },
        HarnessEvent::ToolOutput { id, output, subagent } => {
            match crate::referenced_spec::scopes_of(references.calls, id@) {
                Some(scopes) => {
                    let less = ReferencesView {
                        calls: crate::referenced_spec::calls_without(references.calls, id@),
                        ..references
                    };
                    lemma_note_named(less, crate::text::lines(output@), scopes, subagent, listing);
                    lemma_named_dir(less, crate::text::lines(output@), scopes, subagent, listing);
                },
                None => {},
            }
        },
        _ => {},
    }
}

proof fn lemma_named_dir(
    references: ReferencesView,
    lines: Seq<Seq<char>>,
    scopes: Seq<ScopeView>,
    by_subagent: bool,
    listing: ListingView,
)
    ensures
        references.note_named(lines, scopes, by_subagent, listing).project_dir
            == references.project_dir,
    decreases lines.len(),
{
    if lines.len() > 0 {
        lemma_named_dir(references, lines.drop_last(), scopes, by_subagent, listing);
    }
}

// ---------------------------------------------------------------------------
// Files that lines of output name
// ---------------------------------------------------------------------------

/// The path a name is in a scope.
pub open spec fn path_named(scope: ScopeView, name: Seq<char>) -> Seq<char> {
    normalized(join_path(scope.base, name))
}

/// Whether a name is that of a file in a scope.
pub open spec fn names_file(scope: ScopeView, name: Seq<char>, listing: ListingView) -> bool {
    name.len() > 0 && within(path_named(scope, name), scope.dir) && listing.files.contains(
        path_named(scope, name),
    )
}

/// The file a line of output names in a scope.
pub open spec fn file_in_line(scope: ScopeView, line: Seq<char>, listing: ListingView) -> Option<
    Seq<char>,
> {
    first_file(paths_in(scope, names_in(line)), listing, 0)
}

proof fn lemma_first_pushed(
    paths: Seq<Seq<char>>,
    path: Seq<char>,
    listing: ListingView,
    i: int,
)
    requires
        0 <= i <= paths.len(),
    ensures
        first_file(paths.push(path), listing, i) == (match first_file(paths, listing, i) {
            Some(found) => Some(found),
            None => if listing.files.contains(path) {
                Some(path)
            } else {
                None
            },
        }),
    decreases paths.len() - i,
{
    reveal_with_fuel(first_file, 2);
    if i < paths.len() {
        assert(paths.push(path)[i] == paths[i]);
        lemma_first_pushed(paths, path, listing, i + 1);
    }
}

/// The first name that is a file's is found.
proof fn lemma_first_named(
    scope: ScopeView,
    names: Seq<Seq<char>>,
    listing: ListingView,
    k: int,
)
    requires
        0 <= k < names.len(),
        names_file(scope, names[k], listing),
        forall|j: int| 0 <= j < k ==> !names_file(scope, #[trigger] names[j], listing),
        forall|j: int| 0 <= j < names.len() ==> (#[trigger] names[j]).len() > 0,
    ensures
        first_file(paths_in(scope, names), listing, 0) == Some(path_named(scope, names[k])),
    decreases names.len(),
{
    let rest = names.drop_last();
    let before = paths_in(scope, rest);
    lemma_first_pushed(before, path_named(scope, names.last()), listing, 0);
    if k < names.len() - 1 {
        assert forall|j: int| 0 <= j < rest.len() implies (#[trigger] rest[j]).len() > 0 by {
            assert(rest[j] == names[j]);
        }
        assert(rest[k] == names[k]);
        assert forall|j: int| 0 <= j < k implies !names_file(scope, #[trigger] rest[j], listing) by {
            assert(rest[j] == names[j]);
        }
        lemma_first_named(scope, rest, listing, k);
    } else {
        assert forall|j: int| 0 <= j < rest.len() implies !names_file(
            scope,
            #[trigger] rest[j],
            listing,
        ) && rest[j].len() > 0 by {
            assert(rest[j] == names[j]);
            assert(names[j].len() > 0);
        }
        lemma_none_named(scope, rest, listing);
    }
}

proof fn lemma_none_named(scope: ScopeView, names: Seq<Seq<char>>, listing: ListingView)
    requires
        forall|j: int|
            0 <= j < names.len() ==> !names_file(scope, #[trigger] names[j], listing)
                && names[j].len() > 0,
    ensures
        first_file(paths_in(scope, names), listing, 0) is None,
    decreases names.len(),
{
    if names.len() > 0 {
        let rest = names.drop_last();
        assert forall|j: int| 0 <= j < rest.len() implies !names_file(
            scope,
            #[trigger] rest[j],
            listing,
        ) && rest[j].len() > 0 by {
            assert(rest[j] == names[j]);
        }
        lemma_none_named(scope, rest, listing);
        assert(!names_file(scope, names[names.len() - 1], listing));
        lemma_first_pushed(
            paths_in(scope, rest),
            path_named(scope, names.last()),
            listing,
            0,
        );
    }
}

proof fn lemma_headings()
    ensures
        "==> "@ == seq!['=', '=', '>', ' '],
        " <=="@ == seq![' ', '<', '=', '='],
        "+++ b/"@ == seq!['+', '+', '+', ' ', 'b', '/'],
        "--- a/"@ == seq!['-', '-', '-', ' ', 'a', '/'],
        "+++ "@ == seq!['+', '+', '+', ' '],
        "--- "@ == seq!['-', '-', '-', ' '],
        ""@ == Seq::<char>::empty(),
{
    reveal_strlit("==> ");
    reveal_strlit(" <==");
    reveal_strlit("+++ b/");
    reveal_strlit("--- a/");
    reveal_strlit("+++ ");
    reveal_strlit("--- ");
    reveal_strlit("");
    assert("==> "@ =~= seq!['=', '=', '>', ' ']);
    assert(" <=="@ =~= seq![' ', '<', '=', '=']);
    assert("+++ b/"@ =~= seq!['+', '+', '+', ' ', 'b', '/']);
    assert("--- a/"@ =~= seq!['-', '-', '-', ' ', 'a', '/']);
    assert("+++ "@ =~= seq!['+', '+', '+', ' ']);
    assert("--- "@ =~= seq!['-', '-', '-', ' ']);
    assert(""@ =~= Seq::<char>::empty());
}

/// Whether a line starts as a heading does.
pub open spec fn starts_heading(line: Seq<char>) -> bool {
    "==> "@.is_prefix_of(line) || "+++ "@.is_prefix_of(line) || "--- "@.is_prefix_of(line)
}

proof fn lemma_not_headed(line: Seq<char>)
    requires
        !starts_heading(line),
    ensures
        headed(line) is None,
{
    lemma_headings();
    if "+++ b/"@.is_prefix_of(line) {
        assert(line.subrange(0, 4) =~= line.subrange(0, 6).subrange(0, 4));
        assert("+++ "@ =~= "+++ b/"@.subrange(0, 4));
    }
    if "--- a/"@.is_prefix_of(line) {
        assert(line.subrange(0, 4) =~= line.subrange(0, 6).subrange(0, 4));
        assert("--- "@ =~= "--- a/"@.subrange(0, 4));
    }
}

/// A line that is the name of a file in the scope names that file.
pub proof fn a_line_that_is_a_path_names_its_file(
    scope: ScopeView,
    line: Seq<char>,
    listing: ListingView,
)
    requires
        names_file(scope, trim(line), listing),
        !starts_heading(trim(line)),
    ensures
        file_in_line(scope, line, listing) == Some(path_named(scope, trim(line))),
{
    lemma_not_headed(trim(line));
    let names = names_in(line);
    assert(names[0] == trim(line));
    lemma_first_named(scope, names, listing, 0);
}

/// A line that starts with the name of a file and a colon, as a search's matches
/// do, names that file, unless the whole line is a file's name.
pub proof fn a_match_names_its_file(
    scope: ScopeView,
    line: Seq<char>,
    name: Seq<char>,
    listing: ListingView,
)
    requires
        names_file(scope, name, listing),
        !name.contains(':'),
        name.push(':').is_prefix_of(trim(line)),
        !names_file(scope, trim(line), listing),
        !starts_heading(trim(line)),
    ensures
        file_in_line(scope, line, listing) == Some(path_named(scope, name)),
{
    broadcast use group_runs;

    let shown = trim(line);
    lemma_not_headed(shown);
    let n = name.len() as int;
    assert forall|k: int| 0 <= k <= n implies #[trigger] shown[k] == name.push(':')[k] by {
        assert(shown.subrange(0, n + 1)[k] == name.push(':')[k]);
    }
    assert(shown[n] == ':');
    assert forall|k: int| 0 <= k < n implies Class::Not(':').has(#[trigger] shown[k]) by {
        assert(shown[k] == name[k]);
        assert(name.contains(name[k]));
    }
    lemma_run_end_is(shown, Class::Not(':'), 0, n);
    assert(shown.take(n) =~= name);
    let names = names_in(line);
    assert(names =~= seq![shown, name]);
    lemma_first_named(scope, names, listing, 1);
}

proof fn lemma_before_tab(name: Seq<char>, rest: Seq<char>)
    requires
        !name.contains('\t'),
        rest.len() == 0 || rest[0] == '\t',
    ensures
        before(name + rest, '\t') == name,
{
    broadcast use group_runs;

    let s = name + rest;
    assert forall|k: int| 0 <= k < name.len() implies Class::Not('\t').has(#[trigger] s[k]) by {
        assert(s[k] == name[k]);
        assert(name.contains(name[k]));
    }
    lemma_run_end_is(s, Class::Not('\t'), 0, name.len() as int);
    assert(s.take(name.len() as int) =~= name);
}

/// What a heading starts with is taken off it.
proof fn lemma_headed_rest(line: Seq<char>, prefix: Seq<char>, rest: Seq<char>)
    requires
        line == prefix + rest,
    ensures
        stripped(line, prefix, ""@) == Some(rest),
        prefix.is_prefix_of(line),
        line.skip(prefix.len() as int) == rest,
{
    lemma_headings();
    let n = prefix.len() as int;
    assert(line.subrange(0, n) =~= prefix);
    assert(line.skip(n) =~= rest);
    assert(rest.subrange(rest.len() as int, rest.len() as int) =~= ""@);
    assert(line.subrange(n, line.len() as int) =~= rest);
}

/// The headings that `head`, `tail` and `diff` print name their files, whatever
/// comes after a tab in the latter.
pub proof fn a_heading_names_its_file(
    scope: ScopeView,
    line: Seq<char>,
    name: Seq<char>,
    rest: Seq<char>,
    listing: ListingView,
)
    requires
        names_file(scope, name, listing),
        !name.contains('\t'),
        rest.len() == 0 || rest[0] == '\t',
        trim(line) == "==> "@ + name + " <=="@ || trim(line) == "+++ b/"@ + name + rest || trim(line)
            == "--- a/"@ + name + rest || (trim(line) == "+++ "@ + name + rest && !"b/"@.is_prefix_of(
            name,
        )) || (trim(line) == "--- "@ + name + rest && !"a/"@.is_prefix_of(name)),
    ensures
        file_in_line(scope, line, listing) == Some(path_named(scope, name)),
{
    lemma_headings();
    let shown = trim(line);
    let n = name.len() as int;
    lemma_before_tab(name, rest);
    lemma_before_tab(name, seq![]);
    assert(name + Seq::<char>::empty() =~= name);
    if shown == "==> "@ + name + " <=="@ {
        assert(shown.subrange(0, 4) =~= "==> "@);
        let tail = shown.skip(4);
        assert(tail =~= name + " <=="@);
        assert(tail.subrange(n, n + 4) =~= " <=="@);
        assert(shown.subrange(4, shown.len() - 4) =~= name);
        assert(headed(shown) == Some(name));
    } else {
        assert(shown[0] == '+' || shown[0] == '-');
        assert(!"==> "@.is_prefix_of(shown)) by {
            if "==> "@.is_prefix_of(shown) {
                assert(shown.subrange(0, 4)[0] == '=');
            }
        }
        lemma_diff_heading(shown, name, rest);
    }
    let names = names_in(line);
    assert(names[0] == name);
    lemma_first_named(scope, names, listing, 0);
}

proof fn lemma_diff_heading(shown: Seq<char>, name: Seq<char>, rest: Seq<char>)
    requires
        !"==> "@.is_prefix_of(shown),
        name.len() > 0,
        rest.len() == 0 || rest[0] == '\t',
        shown == "+++ b/"@ + name + rest || shown == "--- a/"@ + name + rest || (shown == "+++ "@
            + name + rest && !"b/"@.is_prefix_of(name)) || (shown == "--- "@ + name + rest
            && !"a/"@.is_prefix_of(name)),
    ensures
        headed(shown) == Some(name + rest),
{
    lemma_headings();
    reveal_strlit("b/");
    reveal_strlit("a/");
    assert("b/"@ =~= seq!['b', '/']);
    assert("a/"@ =~= seq!['a', '/']);
    let more = name + rest;
    if shown == "+++ b/"@ + name + rest {
        assert(shown =~= "+++ b/"@ + more);
        lemma_headed_rest(shown, "+++ b/"@, more);
    } else if shown == "--- a/"@ + name + rest {
        assert(shown =~= "--- a/"@ + more);
        lemma_headed_rest(shown, "--- a/"@, more);
        assert(shown[0] == '-');
        lemma_starts_otherwise(shown, "+++ b/"@);
    } else if shown == "+++ "@ + name + rest {
        assert(shown =~= "+++ "@ + more);
        lemma_headed_rest(shown, "+++ "@, more);
        assert(shown[0] == '+');
        lemma_starts_otherwise(shown, "--- a/"@);
        if "+++ b/"@.is_prefix_of(shown) {
            assert(shown.subrange(0, 6)[4] == 'b' && shown.subrange(0, 6)[5] == '/');
            assert(more[0] == 'b' && more[1] == '/');
            lemma_short_name(name, rest, 'b');
        }
    } else {
        assert(shown =~= "--- "@ + more);
        lemma_headed_rest(shown, "--- "@, more);
        assert(shown[0] == '-');
        lemma_starts_otherwise(shown, "+++ b/"@);
        lemma_starts_otherwise(shown, "+++ "@);
        if "--- a/"@.is_prefix_of(shown) {
            assert(shown.subrange(0, 6)[4] == 'a' && shown.subrange(0, 6)[5] == '/');
            assert(more[0] == 'a' && more[1] == '/');
            lemma_short_name(name, rest, 'a');
        }
    }
}

proof fn lemma_starts_otherwise(line: Seq<char>, prefix: Seq<char>)
    requires
        line.len() > 0,
        prefix.len() > 0,
        line[0] != prefix[0],
    ensures
        !prefix.is_prefix_of(line),
        stripped(line, prefix, ""@) is None,
{
    if prefix.is_prefix_of(line) {
        assert(line.subrange(0, prefix.len() as int)[0] == prefix[0]);
    }
}

proof fn lemma_short_name(name: Seq<char>, rest: Seq<char>, c: char)
    requires
        name.len() > 0,
        rest.len() == 0 || rest[0] == '\t',
        (name + rest).len() >= 2,
        (name + rest)[0] == c,
        (name + rest)[1] == '/',
    ensures
        seq![c, '/'].is_prefix_of(name),
{
    if name.len() == 1 {
        assert((name + rest)[1] == rest[0]);
    }
    assert(name.subrange(0, 2) =~= seq![c, '/']);
}

// ---------------------------------------------------------------------------
// Calls
// ---------------------------------------------------------------------------

/// A call of a file tool lists the file it names, read from the project: read by
/// `Read` and `NotebookRead`, edited by the others, and by whom the call was. No
/// other file is listed or marked by it.
pub proof fn a_file_tool_lists_its_file(
    references: ReferencesView,
    event: HarnessEvent,
    listing: ListingView,
    edits: bool,
    file: Seq<char>,
)
    requires
        event is ToolCalled,
        ({
            let name = event->ToolCalled_name@;
            if edits {
                name == "Edit"@ || name == "MultiEdit"@ || name == "Write"@ || name
                    == "NotebookEdit"@
            } else {
                name == "Read"@ || name == "NotebookRead"@
            }
        }),
        ({
            let members = text_members(event->ToolCalled_input);
            if members.contains_key("file_path"@) {
                file == members["file_path"@]
            } else {
                members.contains_key("notebook_path"@) && file == members["notebook_path"@]
            }
        }),
    ensures
        ({
            let after = applied(references, event, listing).files;
            let path = normalized(join_path(references.project_dir, file));
            &&& reaches(after, path, edits, event->ToolCalled_subagent)
            &&& !lists(references.files, path) ==> after == references.files.push(
                ReferencedView { path, edited: edits, by_subagent: event->ToolCalled_subagent },
            )
            &&& after.len() <= references.files.len() + 1
            &&& forall|k: int|
                0 <= k < references.files.len() && references.files[k].path != path
                    ==> #[trigger] after[k] == references.files[k]
            &&& forall|k: int|
                0 <= k < references.files.len() ==> (#[trigger] after[k]).edited ==> edits
                    || references.files[k].edited
            &&& applied(references, event, listing).calls == references.calls
        }),
{
    lemma_tool_names();
    let path = normalized(join_path(references.project_dir, file));
    let by_subagent = event->ToolCalled_subagent;
    let members = text_members(event->ToolCalled_input);
    let read = crate::referenced_spec::input_of(members);
    assert(read.file_path == member_of(members, "file_path"@));
    assert(read.notebook_path == member_of(members, "notebook_path"@));
    let noted_file = ReferencedView { path, edited: edits, by_subagent };
    assert(applied(references, event, listing) == references.note(path, edits, by_subagent));
    lemma_noted(references.files, noted_file);
    lemma_place_of(references.files, path, 0);
    let at = place_of(references.files, path, 0);
    if at < references.files.len() {
        assert(lists(references.files, references.files[at].path));
    }
}

proof fn lemma_tool_names()
    ensures
        "Read"@ != "Edit"@ && "Read"@ != "MultiEdit"@ && "Read"@ != "Write"@ && "Read"@
            != "NotebookEdit"@,
        "NotebookRead"@ != "Edit"@ && "NotebookRead"@ != "MultiEdit"@ && "NotebookRead"@
            != "Write"@ && "NotebookRead"@ != "NotebookEdit"@,
        "Bash"@ != "Read"@ && "Bash"@ != "NotebookRead"@ && "Bash"@ != "Edit"@ && "Bash"@
            != "MultiEdit"@ && "Bash"@ != "Write"@ && "Bash"@ != "NotebookEdit"@ && "Bash"@
            != "Grep"@ && "Bash"@ != "Glob"@,
        "Grep"@ != "Read"@ && "Grep"@ != "NotebookRead"@ && "Grep"@ != "Edit"@ && "Grep"@
            != "MultiEdit"@ && "Grep"@ != "Write"@ && "Grep"@ != "NotebookEdit"@,
        "Glob"@ != "Read"@ && "Glob"@ != "NotebookRead"@ && "Glob"@ != "Edit"@ && "Glob"@
            != "MultiEdit"@ && "Glob"@ != "Write"@ && "Glob"@ != "NotebookEdit"@,
{
    reveal_strlit("Read");
    reveal_strlit("NotebookRead");
    reveal_strlit("Edit");
    reveal_strlit("MultiEdit");
    reveal_strlit("Write");
    reveal_strlit("NotebookEdit");
    reveal_strlit("Bash");
    reveal_strlit("Grep");
    reveal_strlit("Glob");
    assert("Read"@[0] == 'R');
    assert("Edit"@[0] == 'E');
    assert("MultiEdit"@[0] == 'M');
    assert("Write"@[0] == 'W');
    assert("NotebookEdit"@[0] == 'N');
    assert("NotebookRead"@[0] == 'N');
    assert("NotebookRead"@[8] == 'R');
    assert("NotebookEdit"@[8] == 'E');
    assert("Bash"@[0] == 'B');
    assert("Grep"@[0] == 'G');
    assert("Glob"@[0] == 'G');
}

/// A shell command lists each file it works on, edited where it edits it, by whom
/// the call was, and no other.
pub proof fn a_command_lists_what_it_works_on(
    references: ReferencesView,
    event: HarnessEvent,
    listing: ListingView,
)
    requires
        event is ToolCalled,
        event->ToolCalled_name@ == "Bash"@,
        text_members(event->ToolCalled_input).contains_key("command"@),
    ensures
        ({
            let after = applied(references, event, listing).files;
            let command = text_members(event->ToolCalled_input)["command"@];
            let worked = settled(found_in(command, references.project_dir), listing).files;
            &&& forall|k: int|
                0 <= k < worked.len() ==> reaches(
                    after,
                    (#[trigger] worked[k]).0,
                    worked[k].1,
                    event->ToolCalled_subagent,
                )
            &&& only_adds(references.files, after, worked)
        }),
{
    lemma_tool_names();
    let members = text_members(event->ToolCalled_input);
    let read = crate::referenced_spec::input_of(members);
    assert(read.command == member_of(members, "command"@));
    let found = settled(found_in(read.command->0, references.project_dir), listing);
    lemma_note_each(references, found.files, event->ToolCalled_subagent);
}

/// A search lists nothing by itself: what its output names counts, read, and by
/// whom the output is reported.
pub proof fn a_search_lists_what_its_output_names(
    references: ReferencesView,
    call: HarnessEvent,
    output: HarnessEvent,
    listing: ListingView,
    k: int,
)
    requires
        call is ToolCalled,
        call->ToolCalled_name@ == "Grep"@ || call->ToolCalled_name@ == "Glob"@,
        output is ToolOutput,
        output->ToolOutput_id@ == call->ToolCalled_id@,
        0 <= k < crate::text::lines(output->ToolOutput_output@).len(),
    ensures
        ({
            let members = text_members(call->ToolCalled_input);
            let searched = ScopeView {
                dir: if members.contains_key("path"@) {
                    normalized(join_path(references.project_dir, members["path"@]))
                } else {
                    references.project_dir
                },
                base: references.project_dir,
            };
            let line = crate::text::lines(output->ToolOutput_output@)[k];
            let called = applied(references, call, listing);
            let after = applied(called, output, listing);
            &&& called.files == references.files
            &&& file_in_line(searched, line, listing) is Some ==> reaches(
                after.files,
                file_in_line(searched, line, listing)->0,
                false,
                output->ToolOutput_subagent,
            )
            &&& marked(references.files, after.files, output->ToolOutput_subagent)
            &&& forall|j: int|
                0 <= j < references.files.len() ==> (#[trigger] after.files[j]).edited
                    == references.files[j].edited
            &&& forall|j: int|
                references.files.len() <= j < after.files.len() ==> !(
                #[trigger] after.files[j]).edited
        }),
{
    lemma_tool_names();
    let members = text_members(call->ToolCalled_input);
    let read = crate::referenced_spec::input_of(members);
    assert(read.path == member_of(members, "path"@));
    let called = applied(references, call, listing);
    let scopes = crate::referenced_spec::scopes_of(called.calls, output->ToolOutput_id@)->0;
    let lines = crate::text::lines(output->ToolOutput_output@);
    let less = ReferencesView {
        calls: crate::referenced_spec::calls_without(called.calls, output->ToolOutput_id@),
        ..called
    };
    lemma_note_named(less, lines, scopes, output->ToolOutput_subagent, listing);
    let line = lines[k];
    reveal_with_fuel(crate::referenced_spec::named_by, 2);
    assert(crate::referenced_spec::named_by(scopes, line, listing, 0) == file_in_line(
        scopes[0],
        line,
        listing,
    ));
}

proof fn lemma_named_first(
    scopes: Seq<ScopeView>,
    line: Seq<char>,
    listing: ListingView,
    i: int,
    m: int,
)
    requires
        0 <= i <= m < scopes.len(),
        file_in_line(scopes[m], line, listing) is Some,
        forall|k: int|
            i <= k < m ==> file_in_line(#[trigger] scopes[k], line, listing) is None,
    ensures
        crate::referenced_spec::named_by(scopes, line, listing, i) == file_in_line(
            scopes[m],
            line,
            listing,
        ),
    decreases m - i,
{
    if i < m {
        assert(file_in_line(scopes[i], line, listing) is None);
        lemma_named_first(scopes, line, listing, i + 1, m);
    }
}

/// A command that takes files in by folders has the files that its output names in them
/// listed too, each of the first folder that the line names one in, and by whom the
/// output is reported.
pub proof fn a_command_lists_what_its_output_names(
    references: ReferencesView,
    call: HarnessEvent,
    output: HarnessEvent,
    listing: ListingView,
    k: int,
    m: int,
)
    requires
        call is ToolCalled,
        call->ToolCalled_name@ == "Bash"@,
        text_members(call->ToolCalled_input).contains_key("command"@),
        output is ToolOutput,
        output->ToolOutput_id@ == call->ToolCalled_id@,
        0 <= k < crate::text::lines(output->ToolOutput_output@).len(),
        ({
            let command = text_members(call->ToolCalled_input)["command"@];
            let scopes = settled(found_in(command, references.project_dir), listing).scopes;
            let line = crate::text::lines(output->ToolOutput_output@)[k];
            &&& 0 <= m < scopes.len()
            &&& file_in_line(scopes[m], line, listing) is Some
            &&& forall|j: int|
                0 <= j < m ==> file_in_line(#[trigger] scopes[j], line, listing) is None
        }),
    ensures
        ({
            let command = text_members(call->ToolCalled_input)["command"@];
            let scopes = settled(found_in(command, references.project_dir), listing).scopes;
            let line = crate::text::lines(output->ToolOutput_output@)[k];
            let called = applied(references, call, listing);
            reaches(
                applied(called, output, listing).files,
                file_in_line(scopes[m], line, listing)->0,
                false,
                output->ToolOutput_subagent,
            )
        }),
{
    lemma_tool_names();
    let members = text_members(call->ToolCalled_input);
    let read = crate::referenced_spec::input_of(members);
    assert(read.command == member_of(members, "command"@));
    let found = settled(found_in(read.command->0, references.project_dir), listing);
    let called = applied(references, call, listing);
    let id = output->ToolOutput_id@;
    let scopes = found.scopes;
    assert(crate::referenced_spec::scopes_of(called.calls, id) == Some(scopes));
    let lines = crate::text::lines(output->ToolOutput_output@);
    let less = ReferencesView {
        calls: crate::referenced_spec::calls_without(called.calls, id),
        ..called
    };
    lemma_note_named(less, lines, scopes, output->ToolOutput_subagent, listing);
    lemma_named_first(scopes, lines[k], listing, 0, m);
}

proof fn lemma_forgotten(calls: Seq<crate::referenced_spec::CallView>, id: Seq<char>)
    ensures
        crate::referenced_spec::scopes_of(
            crate::referenced_spec::calls_without(calls, id),
            id,
        ) is None,
    decreases calls.len(),
{
    if calls.len() > 0 {
        lemma_forgotten(calls.drop_last(), id);
        let rest = crate::referenced_spec::calls_without(calls.drop_last(), id);
        if calls.last().id != id {
            assert(rest.push(calls.last()).drop_last() =~= rest);
        }
    }
}

/// A call's output counts once: more of it by the same id lists nothing, and neither
/// does output of a call that took nothing in.
pub proof fn an_output_counts_once(
    references: ReferencesView,
    output: HarnessEvent,
    again: HarnessEvent,
    listing: ListingView,
)
    requires
        output is ToolOutput,
        again is ToolOutput,
        again->ToolOutput_id@ == output->ToolOutput_id@,
    ensures
        ({
            let once = applied(references, output, listing);
            applied(once, again, listing) == once
        }),
{
    let id = output->ToolOutput_id@;
    lemma_forgotten(references.calls, id);
    match crate::referenced_spec::scopes_of(references.calls, id) {
        Some(scopes) => {
            let less = ReferencesView {
                calls: crate::referenced_spec::calls_without(references.calls, id),
                ..references
            };
            lemma_named_calls(
                less,
                crate::text::lines(output->ToolOutput_output@),
                scopes,
                output->ToolOutput_subagent,
                listing,
            );
        },
        None => {},
    }
}

proof fn lemma_named_calls(
    references: ReferencesView,
    lines: Seq<Seq<char>>,
    scopes: Seq<ScopeView>,
    by_subagent: bool,
    listing: ListingView,
)
    ensures
        references.note_named(lines, scopes, by_subagent, listing).calls == references.calls,
    decreases lines.len(),
{
    if lines.len() > 0 {
        lemma_named_calls(references, lines.drop_last(), scopes, by_subagent, listing);
    }
}

/// A tool of no known kind, and anything the harness reports but calls and their
/// output, lists nothing.
pub proof fn nothing_else_lists_files(
    references: ReferencesView,
    event: HarnessEvent,
    listing: ListingView,
)
    requires
        event is ToolCalled ==> {
            let name = event->ToolCalled_name@;
            &&& name != "Read"@ && name != "NotebookRead"@ && name != "Edit"@ && name
                != "MultiEdit"@ && name != "Write"@ && name != "NotebookEdit"@
            &&& name != "Grep"@ && name != "Glob"@ && name != "Bash"@
        },
        !(event is ToolOutput),
    ensures
        applied(references, event, listing) == references,
{
}

// ---------------------------------------------------------------------------
// The spec files collected
// ---------------------------------------------------------------------------

proof fn lemma_collect_keeps(
    files: Seq<ReferencedView>,
    references: Seq<ReferencedView>,
    reference_dir: Seq<char>,
    spec_dir: Option<Seq<char>>,
    path: Seq<char>,
    edited: bool,
    by_subagent: bool,
)
    requires
        reaches(files, path, edited, by_subagent),
    ensures
        reaches(
            with_spec_files(files, references, reference_dir, spec_dir),
            path,
            edited,
            by_subagent,
        ),
    decreases references.len(),
{
    if references.len() > 0 {
        let rest = references.drop_last();
        lemma_collect_keeps(files, rest, reference_dir, spec_dir, path, edited, by_subagent);
        let before = with_spec_files(files, rest, reference_dir, spec_dir);
        let k = choose|k: int|
            0 <= k < before.len() && (#[trigger] before[k]).path == path && (edited
                ==> before[k].edited) && (by_subagent ==> before[k].by_subagent);
        let now = with_spec_files(files, references, reference_dir, spec_dir);
        lemma_place_of(before, references.last().path, 0);
        assert(now[k].path == path);
    }
}

/// Every file a run references in the spec location, or among the reference files,
/// is collected, marked as edited and as a subagent's where it is.
pub proof fn every_spec_file_referenced_is_collected(
    imported: Seq<Seq<char>>,
    references: Seq<ReferencedView>,
    reference_dir: Seq<char>,
    spec_dir: Option<Seq<char>>,
    k: int,
)
    requires
        0 <= k < references.len(),
        within(references[k].path, reference_dir) || (spec_dir is Some
            && within(references[k].path, spec_dir->0)),
    ensures
        reaches(
            with_spec_files(imports(imported), references, reference_dir, spec_dir),
            references[k].path,
            references[k].edited,
            references[k].by_subagent,
        ),
    decreases references.len(),
{
    let rest = references.drop_last();
    let before = with_spec_files(imports(imported), rest, reference_dir, spec_dir);
    let now = with_spec_files(imports(imported), references, reference_dir, spec_dir);
    let file = references[k];
    assert(is_spec(file.path, reference_dir, spec_dir));
    if k == references.len() - 1 {
        lemma_noted(before, file);
    } else {
        assert(rest[k] == file);
        every_spec_file_referenced_is_collected(imported, rest, reference_dir, spec_dir, k);
        lemma_collect_keeps(
            before,
            seq![references.last()],
            reference_dir,
            spec_dir,
            file.path,
            file.edited,
            file.by_subagent,
        );
        reveal_with_fuel(with_spec_files, 2);
        assert(seq![references.last()].drop_last() =~= Seq::<ReferencedView>::empty());
    }
}

/// Whether a file among some has a mark.
pub open spec fn has_edited(files: Seq<ReferencedView>, path: Seq<char>) -> bool {
    exists|k: int| 0 <= k < files.len() && (#[trigger] files[k]).path == path && files[k].edited
}

pub open spec fn has_subagents(files: Seq<ReferencedView>, path: Seq<char>) -> bool {
    exists|k: int|
        0 <= k < files.len() && (#[trigger] files[k]).path == path && files[k].by_subagent
}

/// A file collected is marked only where a reference to it is: an import by itself
/// is neither edited nor a subagent's.
pub proof fn marks_come_from_references(
    imported: Seq<Seq<char>>,
    references: Seq<ReferencedView>,
    reference_dir: Seq<char>,
    spec_dir: Option<Seq<char>>,
    k: int,
)
    requires
        0 <= k < with_spec_files(imports(imported), references, reference_dir, spec_dir).len(),
    ensures
        ({
            let file = with_spec_files(imports(imported), references, reference_dir, spec_dir)[k];
            &&& file.edited ==> has_edited(references, file.path)
            &&& file.by_subagent ==> has_subagents(references, file.path)
        }),
    decreases references.len(),
{
    if references.len() == 0 {
        lemma_imports_unmarked(imported);
    } else {
        let rest = references.drop_last();
        let last = references.last();
        let before = with_spec_files(imports(imported), rest, reference_dir, spec_dir);
        let now = with_spec_files(imports(imported), references, reference_dir, spec_dir);
        lemma_place_of(before, last.path, 0);
        let file = now[k];
        if k < before.len() {
            marks_come_from_references(imported, rest, reference_dir, spec_dir, k);
            if has_edited(rest, file.path) {
                let j = choose|j: int|
                    0 <= j < rest.len() && (#[trigger] rest[j]).path == file.path && rest[j].edited;
                assert(references[j] == rest[j]);
            }
            if has_subagents(rest, file.path) {
                let j = choose|j: int|
                    0 <= j < rest.len() && (#[trigger] rest[j]).path == file.path
                        && rest[j].by_subagent;
                assert(references[j] == rest[j]);
            }
        }
        assert(references[references.len() - 1] == last);
    }
}

proof fn lemma_imports_unmarked(imported: Seq<Seq<char>>)
    ensures
        forall|k: int|
            0 <= k < imports(imported).len() ==> !(#[trigger] imports(imported)[k]).edited
                && !imports(imported)[k].by_subagent,
    decreases imported.len(),
{
    if imported.len() > 0 {
        lemma_imports_unmarked(imported.drop_last());
        let before = imports(imported.drop_last());
        lemma_place_of(before, crate::referenced_spec::import(imported.last()).path, 0);
    }
}

} // verus!
