//! What holds of paths shown relative to a project, told of the text around them.
use vstd::prelude::*;
use crate::paths::{components, join_path, names, names_something, normalized, origin, within,
    work_out};
use crate::text::{find_from, group_runs, lemma_split_first, lemma_split_whole, run_end, split,
    stands_at, trim_end_of, Class};
use crate::tools::{ends_path, relative, relative_from, starts_path};

verus! {

/// Whether a text stands nowhere in another.
pub open spec fn nowhere(part: Seq<char>, s: Seq<char>) -> bool {
    forall|k: int| !stands_at(s, part, k)
}

/// Whether a directory first stands in a text after `before`, and where a path can
/// start.
pub open spec fn first_after(before: Seq<char>, dir: Seq<char>, text: Seq<char>) -> bool {
    &&& dir.len() > 0
    &&& dir.last() != '/'
    &&& starts_path(before)
    &&& forall|k: int| 0 <= k < before.len() ==> !stands_at(text, dir, k)
}

proof fn lemma_found_at(s: Seq<char>, part: Seq<char>, i: int, at: int)
    requires
        0 <= i <= at < s.len(),
        stands_at(s, part, at),
        forall|k: int| i <= k < at ==> !stands_at(s, part, k),
    ensures
        find_from(s, part, i) == at,
    decreases at - i,
{
    if i < at {
        lemma_found_at(s, part, i + 1, at);
    }
}

proof fn lemma_nowhere_found(s: Seq<char>, part: Seq<char>)
    requires
        nowhere(part, s),
        part.len() > 0,
    ensures
        find_from(s, part, 0) == s.len(),
{
    crate::text::lemma_find_none(s, part, 0);
}

proof fn lemma_untrimmed(dir: Seq<char>)
    requires
        dir.len() > 0,
        dir.last() != '/',
    ensures
        trim_end_of(dir, Class::Is('/')) == dir,
{
    broadcast use group_runs;

    assert(trim_end_of(dir, Class::Is('/')) =~= dir);
}

proof fn lemma_first_found(before: Seq<char>, dir: Seq<char>, rest: Seq<char>)
    requires
        first_after(before, dir, before + dir + rest),
    ensures
        ({
            let text = before + dir + rest;
            let n = before.len() as int;
            &&& find_from(text, dir, 0) == n
            &&& text.take(n) == before
            &&& text.skip(n + dir.len()) == rest
            &&& n + dir.len() <= text.len()
        }),
{
    let text = before + dir + rest;
    let n = before.len() as int;
    assert(text.subrange(n, n + dir.len()) =~= dir);
    lemma_found_at(text, dir, 0, n);
    assert(text.take(n) =~= before);
    assert(text.skip(n + dir.len()) =~= rest);
}

/// The project's directory itself reads `.`, where nothing goes on the name.
pub proof fn the_directory_itself_reads_as_a_dot(
    before: Seq<char>,
    dir: Seq<char>,
    rest: Seq<char>,
)
    requires
        first_after(before, dir, before + dir + rest),
        ends_path(rest),
        nowhere(dir, rest),
    ensures
        relative(before + dir + rest, Some(dir)) == before + seq!['.'] + rest,
{
    let text = before + dir + rest;
    let none = Seq::<char>::empty();
    lemma_untrimmed(dir);
    lemma_first_found(before, dir, rest);
    lemma_nowhere_found(rest, dir);
    assert(none + before =~= before);
    assert(relative_from(text, dir, none) == relative_from(rest, dir, before.push('.')));
    assert(before.push('.') + rest =~= before + seq!['.'] + rest);
}

/// A path in the project's directory loses the directory's, and nothing else.
pub proof fn a_path_inside_loses_the_directory(
    before: Seq<char>,
    dir: Seq<char>,
    inside: Seq<char>,
)
    requires
        first_after(before, dir, before + dir + (seq!['/'] + inside)),
        inside.len() > 0,
        inside[0] != '/',
        !ends_path(inside),
        nowhere(dir, inside),
    ensures
        relative(before + dir + (seq!['/'] + inside), Some(dir)) == before + inside,
{
    let rest = seq!['/'] + inside;
    let text = before + dir + rest;
    let none = Seq::<char>::empty();
    lemma_untrimmed(dir);
    lemma_first_found(before, dir, rest);
    lemma_nowhere_found(inside, dir);
    assert(none + before =~= before);
    assert(rest[0] == '/' && rest[1] == inside[0]);
    crate::text::lemma_run_end_is(rest, Class::Is('/'), 0, 1);
    assert(rest.skip(1) =~= inside);
    assert(!ends_path(rest));
    assert(relative_from(text, dir, none) == relative_from(inside, dir, before));
}

/// A relative path joined to a folder is under it, and one that starts at the root is
/// that path.
pub proof fn a_path_joined_is_under_its_folder(dir: Seq<char>, path: Seq<char>)
    requires
        dir.len() > 0,
        dir.last() != '/',
        path.len() > 0,
    ensures
        path[0] == '/' ==> join_path(dir, path) == path,
        path[0] != '/' ==> join_path(dir, path) == dir + seq!['/'] + path,
{
}

// ---------------------------------------------------------------------------
// Paths worked out
// ---------------------------------------------------------------------------

/// Splitting goes on after what is split.
proof fn lemma_split_add(a: Seq<char>, b: Seq<char>, c: char)
    ensures
        split(a.push(c) + b, c) == split(a, c) + split(b, c),
    decreases a.len(),
{
    broadcast use group_runs;

    if !a.contains(c) {
        lemma_split_first(a, c, b);
        lemma_split_whole(a, c);
    } else {
        let n = run_end(a, Class::Not(c), 0);
        if n >= a.len() {
            let k = choose|k: int| 0 <= k < a.len() && a[k] == c;
            assert(Class::Not(c).has(a[k]));
        }
        let first = a.take(n);
        let rest = a.skip(n + 1);
        assert(!first.contains(c)) by {
            if first.contains(c) {
                let k = choose|k: int| 0 <= k < first.len() && first[k] == c;
                assert(Class::Not(c).has(a[k]));
            }
        }
        assert(a[n] == c);
        assert(a =~= first.push(c) + rest);
        lemma_split_first(first, c, rest);
        lemma_split_add(rest, b, c);
        let more = rest.push(c) + b;
        assert(a.push(c) + b =~= first.push(c) + more);
        lemma_split_first(first, c, more);
        assert(seq![first] + (split(rest, c) + split(b, c)) =~= (seq![first] + split(rest, c))
            + split(b, c));
    }
}

proof fn lemma_names_pushed(pieces: Seq<Seq<char>>, piece: Seq<char>)
    ensures
        names(pieces.push(piece)) == if names_something(piece) {
            names(pieces).push(piece)
        } else {
            names(pieces)
        },
{
    assert(pieces.push(piece).drop_last() =~= pieces);
}

/// What comes after a slash is the last component, if it names anything.
proof fn lemma_last_component(path: Seq<char>, piece: Seq<char>)
    requires
        path.len() > 0,
        !piece.contains('/'),
    ensures
        components(path + seq!['/'] + piece) == if names_something(piece) {
            components(path).push(piece)
        } else {
            components(path)
        },
{
    let all = path + seq!['/'] + piece;
    assert(all =~= path.push('/') + piece);
    lemma_split_add(path, piece, '/');
    lemma_split_whole(piece, '/');
    let pieces = split(path, '/');
    assert(pieces + seq![piece] =~= pieces.push(piece));
    lemma_names_pushed(pieces, piece);
    crate::paths::lemma_split_nonempty(path, '/');
    assert(pieces.push(piece)[0] == pieces[0]);
    assert(all[0] == path[0]);
    assert(origin(all) == origin(path));
    if names_something(piece) {
        assert(origin(path) + names(pieces).push(piece) =~= components(path).push(piece));
    }
}

/// Going into a folder and out of it again, or staying where one is, leads nowhere
/// else, and a slash more makes no difference.
pub proof fn going_in_and_out_leads_nowhere(path: Seq<char>, name: Seq<char>)
    requires
        path.len() > 0,
        name.len() > 0,
        !name.contains('/'),
        name != "."@ && name != ".."@,
    ensures
        normalized(path + seq!['/'] + name + seq!['/'] + ".."@) == normalized(path),
        normalized(path + seq!['/'] + "."@) == normalized(path),
        normalized(path + seq!['/']) == normalized(path),
        normalized(path + seq!['/'] + seq!['/'] + name) == normalized(path + seq!['/'] + name),
{
    reveal_strlit(".");
    reveal_strlit("..");
    reveal_strlit("/");
    assert("."@ =~= seq!['.']);
    assert(".."@ =~= seq!['.', '.']);
    assert("/"@ =~= seq!['/']);
    let none = Seq::<char>::empty();
    let inside = path + seq!['/'] + name;
    lemma_last_component(path, name);
    lemma_last_component(inside, ".."@);
    lemma_last_component(path, "."@);
    lemma_last_component(path, none);
    assert(path + seq!['/'] + none =~= path + seq!['/']);
    lemma_last_component(path + seq!['/'], name);
    let parts = components(path);
    let there = parts.push(name);
    let back = there.push(".."@);
    assert(there.drop_last() =~= parts);
    assert(back.drop_last() =~= there);
    assert(name != "/"@) by {
        assert("/"@.contains("/"@[0]));
    }
    let kept = work_out(parts);
    assert(work_out(there) == kept.push(name));
    assert(kept.push(name).drop_last() =~= kept);
}

/// What is in a folder is within it, and so is the folder itself; a sibling whose name
/// only starts the same is not.
pub proof fn what_is_in_a_folder_is_within_it(
    path: Seq<char>,
    name: Seq<char>,
    more: Seq<char>,
)
    requires
        path.len() > 0,
        name.len() > 0,
        !name.contains('/'),
        name != "."@,
        more.len() > 0,
        !more.contains('/'),
    ensures
        within(path, path),
        within(path + seq!['/'] + name, path),
        !within(path, path + seq!['/'] + name),
        name + more != "."@ ==> !within(
            path + seq!['/'] + (name + more),
            path + seq!['/'] + name,
        ),
{
    lemma_last_component(path, name);
    assert(!(name + more).contains('/')) by {
        if (name + more).contains('/') {
            let k = choose|k: int| 0 <= k < (name + more).len() && (name + more)[k] == '/';
            if k < name.len() {
                assert(name.contains(name[k]));
            } else {
                assert(more.contains(more[k - name.len()]));
            }
        }
    }
    lemma_last_component(path, name + more);
    let parts = components(path);
    let n = parts.len() as int;
    assert(parts.subrange(0, n) =~= parts);
    assert(parts.push(name).subrange(0, n) =~= parts);
    if name + more != "."@ {
        let one = parts.push(name + more);
        let other = parts.push(name);
        if other.is_prefix_of(one) {
            assert(one.subrange(0, n + 1)[n] == other[n]);
            assert((name + more).len() == name.len());
        }
    }
}

} // verus!
