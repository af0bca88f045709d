//! Paths as text, read the way Unix reads them, without touching the file
//! system.
use vstd::prelude::*;
use crate::text::{lemma_join_first, lemma_split_first, lemma_split_join, lemma_split_pieces,
    lemma_split_whole};
use crate::text::{chars_of, comes_before, is_at, is_before, join, joined, piece, push_all, push_str, run_start, spells,
    split, split_at_char, start_of_run, string_of, views, group_runs, Class};

verus! {

// ---------------------------------------------------------------------------
// Components
// ---------------------------------------------------------------------------

pub open spec fn absolute(path: Seq<char>) -> bool {
    path.len() > 0 && path[0] == '/'
}

/// Whether a piece between slashes names something: neither empty nor `.`.
pub open spec fn names_something(piece: Seq<char>) -> bool {
    piece.len() > 0 && piece != "."@
}

/// The pieces of a path that name something, `..` among them.
pub open spec fn names(pieces: Seq<Seq<char>>) -> Seq<Seq<char>>
    decreases pieces.len(),
{
    if pieces.len() == 0 {
        seq![]
    } else if names_something(pieces.last()) {
        names(pieces.drop_last()).push(pieces.last())
    } else {
        names(pieces.drop_last())
    }
}

/// What a path starts from: `/` at the root, `.` where it says so, or nothing.
pub open spec fn origin(path: Seq<char>) -> Seq<Seq<char>> {
    if absolute(path) {
        seq!["/"@]
    } else if split(path, '/')[0] == "."@ {
        seq!["."@]
    } else {
        seq![]
    }
}

/// A path's components: what it starts from, then its names.
pub open spec fn components(path: Seq<char>) -> Seq<Seq<char>> {
    origin(path) + names(split(path, '/'))
}

/// Whether a component is an ordinary name.
pub open spec fn normal(component: Seq<char>) -> bool {
    component != "/"@ && component != "."@ && component != ".."@
}

pub proof fn lemma_split_nonempty(s: Seq<char>, c: char)
    ensures
        split(s, c).len() > 0,
{
}

/// The components of a path.
pub fn components_of(path: &[char]) -> (r: Vec<Vec<char>>)
    ensures
        views(r@) == components(path@),
{
    let pieces = split_at_char(path, '/');
    let ghost all = views(pieces@);
    let mut r: Vec<Vec<char>> = Vec::new();
    proof {
        lemma_split_nonempty(path@, '/');
        assert(pieces@[0]@ == all[0]);
    }
    if path.len() > 0 && path[0] == '/' {
        r.push(chars_of("/"));
    } else if spells(&pieces[0], ".") {
        r.push(chars_of("."));
    }
    proof {
        assert(views(r@) =~= origin(path@));
        assert(views(r@) =~= origin(path@) + names(all.take(0)));
    }
    let mut i: usize = 0;
    while i < pieces.len()
        invariant
            i <= pieces@.len(),
            all == views(pieces@),
            views(r@) == origin(path@) + names(all.take(i as int)),
        decreases pieces@.len() - i,
    {
        let ghost before = views(r@);
        let next = piece(&pieces[i], 0, pieces[i].len());
        proof {
            assert(next@ =~= pieces@[i as int]@);
            assert(all.take(i + 1).drop_last() =~= all.take(i as int));
            assert(all.take(i + 1).last() == next@);
        }
        if next.len() > 0 && !spells(&next, ".") {
            r.push(next);
            proof {
                assert(views(r@) =~= before.push(next@));
                assert(before.push(next@) =~= origin(path@) + names(all.take(i as int)).push(
                    next@,
                ));
            }
        }
        i += 1;
    }
    proof {
        assert(all.take(all.len() as int) =~= all);
    }
    r
}

/// Whether a path is at or within another, component by component.
pub open spec fn within(path: Seq<char>, dir: Seq<char>) -> bool {
    components(dir).is_prefix_of(components(path))
}

pub fn is_within(path: &str, dir: &str) -> (b: bool)
    ensures
        b == within(path@, dir@),
{
    let p = components_of(&chars_of(path));
    let d = components_of(&chars_of(dir));
    is_prefix(&d, &p)
}

pub fn is_prefix(d: &Vec<Vec<char>>, p: &Vec<Vec<char>>) -> (b: bool)
    ensures
        b == views(d@).is_prefix_of(views(p@)),
{
    if d.len() > p.len() {
        return false;
    }
    let mut i: usize = 0;
    while i < d.len()
        invariant
            i <= d@.len() <= p@.len(),
            forall|k: int| 0 <= k < i ==> d@[k]@ == p@[k]@,
        decreases d@.len() - i,
    {
        if d[i].len() != p[i].len() || !is_at(&d[i], &p[i], 0) {
            proof {
                if d@[i as int]@ == p@[i as int]@ {
                    let s = d@[i as int]@;
                    assert(s.subrange(0, s.len() as int) =~= s);
                }
                assert(views(d@)[i as int] != views(p@).subrange(0, d@.len() as int)[i as int]);
            }
            return false;
        }
        proof {
            let s = d@[i as int]@;
            assert(s.subrange(0, s.len() as int) =~= s);
        }
        i += 1;
    }
    proof {
        assert(views(d@) =~= views(p@).subrange(0, d@.len() as int));
    }
    true
}

/// Whether two paths are the same, component by component.
pub open spec fn same_path(a: Seq<char>, b: Seq<char>) -> bool {
    components(a) == components(b)
}

pub fn is_same_path(a: &str, b: &str) -> (r: bool)
    ensures
        r == same_path(a@, b@),
{
    let p = components_of(&chars_of(a));
    let q = components_of(&chars_of(b));
    proof {
        assert(views(p@).len() == p@.len() && views(q@).len() == q@.len());
        assert(components(b@).subrange(0, components(b@).len() as int) =~= components(b@));
    }
    p.len() == q.len() && is_prefix(&p, &q)
}

/// What kind of component one is, in the order kinds come in: the root, `.`,
/// `..`, and then names.
pub open spec fn rank(component: Seq<char>) -> int {
    if component == "/"@ {
        0
    } else if component == "."@ {
        1
    } else if component == ".."@ {
        2
    } else {
        3
    }
}

/// Whether components come before others.
pub open spec fn parts_before(a: Seq<Seq<char>>, b: Seq<Seq<char>>) -> bool
    decreases b.len(),
{
    if b.len() == 0 {
        false
    } else if a.len() == 0 {
        true
    } else if a[0] == b[0] {
        parts_before(a.skip(1), b.skip(1))
    } else if rank(a[0]) != rank(b[0]) {
        rank(a[0]) < rank(b[0])
    } else {
        comes_before(a[0], b[0])
    }
}

/// Whether a path comes before another, component by component.
pub open spec fn path_before(a: Seq<char>, b: Seq<char>) -> bool {
    parts_before(components(a), components(b))
}

fn rank_of(component: &[char]) -> (r: u8)
    ensures
        r == rank(component@),
{
    if spells(component, "/") {
        0
    } else if spells(component, ".") {
        1
    } else if spells(component, "..") {
        2
    } else {
        3
    }
}

pub fn is_path_before(a: &str, b: &str) -> (r: bool)
    ensures
        r == path_before(a@, b@),
{
    let p = components_of(&chars_of(a));
    let q = components_of(&chars_of(b));
    let ghost all = views(p@);
    let ghost others = views(q@);
    let mut i: usize = 0;
    proof {
        assert(all.skip(0) =~= all);
        assert(others.skip(0) =~= others);
    }
    while i < q.len()
        invariant
            i <= q@.len(),
            i <= p@.len(),
            all == views(p@),
            others == views(q@),
            all == components(a@),
            others == components(b@),
            parts_before(all, others) == parts_before(all.skip(i as int), others.skip(i as int)),
        decreases q@.len() - i,
    {
        if i == p.len() {
            return true;
        }
        proof {
            assert(all.skip(i as int)[0] == p@[i as int]@);
            assert(others.skip(i as int)[0] == q@[i as int]@);
            assert(all.skip(i as int).skip(1) =~= all.skip(i + 1));
            assert(others.skip(i as int).skip(1) =~= others.skip(i + 1));
        }
        if !spells(&p[i], &string_of(&q[i])) {
            if rank_of(&p[i]) != rank_of(&q[i]) {
                return rank_of(&p[i]) < rank_of(&q[i]);
            }
            return is_before(&p[i], &q[i]);
        }
        i += 1;
    }
    false
}

// ---------------------------------------------------------------------------
// Joining
// ---------------------------------------------------------------------------

/// `path` read from `base`: itself when it is absolute, else beneath `base`.
pub open spec fn join_path(base: Seq<char>, path: Seq<char>) -> Seq<char> {
    if absolute(path) || base.len() == 0 {
        path
    } else if base.last() == '/' {
        base + path
    } else {
        base.push('/') + path
    }
}

pub fn joined_path(base: &str, path: &str) -> (r: String)
    ensures
        r@ == join_path(base@, path@),
{
    let b = chars_of(base);
    let p = chars_of(path);
    if (p.len() > 0 && p[0] == '/') || b.len() == 0 {
        return path.to_owned();
    }
    let mut r: Vec<char> = Vec::new();
    push_all(&mut r, &b);
    proof {
        assert(r@ =~= b@);
    }
    if b[b.len() - 1] != '/' {
        r.push('/');
    }
    push_all(&mut r, &p);
    string_of(&r)
}

// ---------------------------------------------------------------------------
// Normalizing
// ---------------------------------------------------------------------------

/// `kept` with one more component worked in: `.` changes nothing, `..` takes
/// away the name before it, and stays only where there is none to take away
/// and no root.
pub open spec fn work_in(kept: Seq<Seq<char>>, component: Seq<char>) -> Seq<Seq<char>> {
    if component == "."@ {
        kept
    } else if component == ".."@ {
        if kept.len() > 0 && kept.last() == "/"@ {
            kept
        } else if kept.len() > 0 && kept.last() != ".."@ {
            kept.drop_last()
        } else {
            kept.push(component)
        }
    } else {
        kept.push(component)
    }
}

/// Components with every `.` and `..` worked out.
pub open spec fn work_out(components: Seq<Seq<char>>) -> Seq<Seq<char>>
    decreases components.len(),
{
    if components.len() == 0 {
        seq![]
    } else {
        work_in(work_out(components.drop_last()), components.last())
    }
}

/// Components written as a path.
pub open spec fn render(components: Seq<Seq<char>>) -> Seq<char> {
    if components.len() > 0 && components[0] == "/"@ {
        "/"@ + join(components.skip(1), "/"@)
    } else {
        join(components, "/"@)
    }
}

/// A path with its `.` and `..` parts worked out.
pub open spec fn normalized(path: Seq<char>) -> Seq<char> {
    render(work_out(components(path)))
}

/// Components as the path they write.
pub fn rendered(components: Vec<Vec<char>>) -> (r: Vec<char>)
    ensures
        r@ == render(views(components@)),
{
    let mut components = components;
    let mut r: Vec<char> = Vec::new();
    let ghost all = views(components@);
    if components.len() > 0 && spells(&components[0], "/") {
        proof {
            assert(all[0] == components@[0]@);
        }
        let _ = components.remove(0);
        push_str(&mut r, "/");
        proof {
            assert(views(components@) =~= all.skip(1));
            assert(r@ =~= "/"@);
        }
        push_all(&mut r, &joined(&components, "/"));
    } else {
        proof {
            if all.len() > 0 {
                assert(all[0] == components@[0]@);
            }
        }
        push_all(&mut r, &joined(&components, "/"));
        proof {
            assert(r@ =~= render(all));
        }
    }
    r
}

/// A path with its `.` and `..` parts worked out, without touching the file
/// system.
pub fn normalize(path: &str) -> (r: String)
    ensures
        r@ == normalized(path@),
{
    let parts = components_of(&chars_of(path));
    let ghost all = views(parts@);
    let mut kept: Vec<Vec<char>> = Vec::new();
    let mut i: usize = 0;
    proof {
        assert(views(kept@) =~= work_out(all.take(0)));
    }
    while i < parts.len()
        invariant
            i <= parts@.len(),
            all == views(parts@),
            views(kept@) == work_out(all.take(i as int)),
        decreases parts@.len() - i,
    {
        let ghost before = views(kept@);
        let part = piece(&parts[i], 0, parts[i].len());
        proof {
            assert(part@ =~= parts@[i as int]@);
            assert(all.take(i + 1).drop_last() =~= all.take(i as int));
            assert(all.take(i + 1).last() == part@);
            if kept@.len() > 0 {
                assert(before.last() == kept@.last()@);
            }
        }
        if spells(&part, ".") {
        } else if spells(&part, "..") {
            if kept.len() > 0 && spells(&kept[kept.len() - 1], "/") {
            } else if kept.len() > 0 && !spells(&kept[kept.len() - 1], "..") {
                kept.pop();
                proof {
                    assert(views(kept@) =~= before.drop_last());
                }
            } else {
                kept.push(part);
                proof {
                    assert(views(kept@) =~= before.push(part@));
                }
            }
        } else {
            kept.push(part);
            proof {
                assert(views(kept@) =~= before.push(part@));
            }
        }
        i += 1;
    }
    proof {
        assert(all.take(all.len() as int) =~= all);
    }
    string_of(&rendered(kept))
}

// ---------------------------------------------------------------------------
// Names
// ---------------------------------------------------------------------------

/// A path's last component, when it is an ordinary name.
pub open spec fn file_name(path: Seq<char>) -> Option<Seq<char>> {
    let parts = components(path);
    if parts.len() > 0 && normal(parts.last()) {
        Some(parts.last())
    } else {
        None
    }
}

/// The name of the folder a path is in, when it has one.
pub open spec fn folder_name(path: Seq<char>) -> Option<Seq<char>> {
    let parts = components(path);
    if parts.len() > 1 && normal(parts[parts.len() - 2]) {
        Some(parts[parts.len() - 2])
    } else {
        None
    }
}

fn is_normal(component: &[char]) -> (b: bool)
    ensures
        b == normal(component@),
{
    !spells(component, "/") && !spells(component, ".") && !spells(component, "..")
}

pub open spec fn text_of(s: Option<String>) -> Option<Seq<char>> {
    match s {
        Some(s) => Some(s@),
        None => None,
    }
}

pub fn file_name_of(path: &str) -> (r: Option<String>)
    ensures
        text_of(r) == file_name(path@),
{
    let parts = components_of(&chars_of(path));
    let n = parts.len();
    proof {
        if n > 0 {
            assert(views(parts@).last() == parts@.last()@);
        }
    }
    if n > 0 && is_normal(&parts[n - 1]) {
        Some(string_of(&parts[n - 1]))
    } else {
        None
    }
}

pub fn folder_name_of(path: &str) -> (r: Option<String>)
    ensures
        text_of(r) == folder_name(path@),
{
    let parts = components_of(&chars_of(path));
    let n = parts.len();
    proof {
        if n > 1 {
            assert(views(parts@)[n - 2] == parts@[n - 2]@);
        }
    }
    if n > 1 && is_normal(&parts[n - 2]) {
        Some(string_of(&parts[n - 2]))
    } else {
        None
    }
}

/// Where the last dot of a name is, if it has one that doesn't start it.
pub open spec fn last_dot(name: Seq<char>) -> Option<int> {
    let after = run_start(name, Class::Not('.'), name.len() as int);
    if after > 1 {
        Some(after - 1)
    } else {
        None
    }
}

/// A file's name up to its extension.
pub open spec fn stem(name: Seq<char>) -> Seq<char> {
    match last_dot(name) {
        Some(dot) => name.take(dot),
        None => name,
    }
}

/// What follows the last dot of a file's name, unless the dot starts it.
pub open spec fn extension(name: Seq<char>) -> Option<Seq<char>> {
    match last_dot(name) {
        Some(dot) => Some(name.skip(dot + 1)),
        None => None,
    }
}

pub fn stem_of(name: &str) -> (r: String)
    ensures
        r@ == stem(name@),
{
    broadcast use group_runs;

    let v = chars_of(name);
    let after = start_of_run(&v, Class::Not('.'), v.len());
    if after > 1 {
        let s = piece(&v, 0, after - 1);
        proof {
            assert(s@ =~= v@.take(after - 1));
        }
        string_of(&s)
    } else {
        name.to_owned()
    }
}

pub fn extension_of(name: &str) -> (r: Option<String>)
    ensures
        text_of(r) == extension(name@),
{
    broadcast use group_runs;

    let v = chars_of(name);
    let after = start_of_run(&v, Class::Not('.'), v.len());
    if after > 1 {
        let s = piece(&v, after, v.len());
        proof {
            assert(s@ =~= v@.skip(after as int));
        }
        Some(string_of(&s))
    } else {
        None
    }
}

// ---------------------------------------------------------------------------
// What normalizing comes to
// ---------------------------------------------------------------------------

/// Whether a component is a name, `..` among them.
pub open spec fn is_name(component: Seq<char>) -> bool {
    names_something(component) && !component.contains('/')
}

/// Whether components are those of a path with nothing left to work out: names,
/// the root perhaps before them, and `..` only where nothing but `..` comes
/// before it.
pub open spec fn settled(components: Seq<Seq<char>>) -> bool {
    &&& forall|k: int|
        0 <= k < components.len() ==> (is_name(#[trigger] components[k]) || (k == 0
            && components[k] == "/"@))
    &&& forall|j: int, k: int|
        0 <= j < k < components.len() && #[trigger] components[k] == ".."@
            ==> #[trigger] components[j] == ".."@
}

proof fn lemma_marks()
    ensures
        "/"@ == seq!['/'],
        "."@ == seq!['.'],
        ".."@ == seq!['.', '.'],
        is_name(".."@),
        !is_name("/"@),
        "/"@ != ".."@,
        "/"@ != "."@,
        "."@ != ".."@,
{
    reveal_strlit("/");
    reveal_strlit(".");
    reveal_strlit("..");
    assert("/"@ =~= seq!['/']);
    assert("."@ =~= seq!['.']);
    assert(".."@ =~= seq!['.', '.']);
    assert("/"@[0] == '/');
    assert("."@[0] == '.');
    assert(".."@[0] == '.' && ".."@[1] == '.');
}

proof fn lemma_names_are_names(pieces: Seq<Seq<char>>)
    requires
        forall|k: int| 0 <= k < pieces.len() ==> !(#[trigger] pieces[k]).contains('/'),
    ensures
        forall|k: int| 0 <= k < names(pieces).len() ==> is_name(#[trigger] names(pieces)[k]),
    decreases pieces.len(),
{
    if pieces.len() > 0 {
        let rest = pieces.drop_last();
        assert forall|k: int| 0 <= k < rest.len() implies !(#[trigger] rest[k]).contains('/') by {
            assert(rest[k] == pieces[k]);
        }
        lemma_names_are_names(rest);
        assert(!pieces[pieces.len() - 1].contains('/'));
        assert forall|k: int| 0 <= k < names(pieces).len() implies is_name(
            #[trigger] names(pieces)[k],
        ) by {
            if k < names(rest).len() {
                assert(names(pieces)[k] == names(rest)[k]);
            }
        }
    }
}

/// Names are all that is kept of names.
proof fn lemma_names_kept(parts: Seq<Seq<char>>)
    requires
        forall|k: int| 0 <= k < parts.len() ==> names_something(#[trigger] parts[k]),
    ensures
        names(parts) == parts,
    decreases parts.len(),
{
    if parts.len() > 0 {
        let rest = parts.drop_last();
        assert forall|k: int| 0 <= k < rest.len() implies names_something(#[trigger] rest[k]) by {
            assert(rest[k] == parts[k]);
        }
        lemma_names_kept(rest);
        assert(names_something(parts[parts.len() - 1]));
        assert(rest.push(parts.last()) =~= parts);
    } else {
        assert(names(parts) =~= parts);
    }
}

proof fn lemma_names_skip_empty(pieces: Seq<Seq<char>>)
    ensures
        names(seq![Seq::<char>::empty()] + pieces) == names(pieces),
    decreases pieces.len(),
{
    let all = seq![Seq::<char>::empty()] + pieces;
    if pieces.len() == 0 {
        assert(all.drop_last() =~= Seq::<Seq<char>>::empty());
        assert(names(all.drop_last()) =~= names(pieces));
    } else {
        assert(all.drop_last() =~= seq![Seq::<char>::empty()] + pieces.drop_last());
        lemma_names_skip_empty(pieces.drop_last());
    }
}

/// What a path's components are worked out to is settled.
proof fn lemma_work_out_settles(components: Seq<Seq<char>>)
    requires
        forall|k: int|
            0 <= k < components.len() ==> (is_name(#[trigger] components[k]) || components[k]
                == "."@ || (k == 0 && components[k] == "/"@)),
    ensures
        settled(work_out(components)),
        components.len() == 0 ==> work_out(components).len() == 0,
    decreases components.len(),
{
    lemma_marks();
    if components.len() > 0 {
        let rest = components.drop_last();
        assert forall|k: int| 0 <= k < rest.len() implies (is_name(#[trigger] rest[k]) || rest[k]
            == "."@ || (k == 0 && rest[k] == "/"@)) by {
            assert(rest[k] == components[k]);
        }
        lemma_work_out_settles(rest);
        let kept = work_out(rest);
        let last = components[components.len() - 1];
        let now = work_out(components);
        if last == "/"@ {
            assert(components.len() == 1);
            assert(rest.len() == 0);
        }
        if last == ".."@ {
            if kept.len() > 0 && kept.last() == "/"@ {
            } else if kept.len() > 0 && kept.last() != ".."@ {
                assert forall|k: int| 0 <= k < now.len() implies (is_name(#[trigger] now[k]) || (k
                    == 0 && now[k] == "/"@)) by {
                    assert(now[k] == kept[k]);
                }
                assert forall|j: int, k: int|
                    0 <= j < k < now.len() && #[trigger] now[k] == ".."@ implies #[trigger] now[j]
                    == ".."@ by {
                    assert(now[j] == kept[j] && now[k] == kept[k]);
                }
            } else {
                assert forall|j: int, k: int|
                    0 <= j < k < now.len() && #[trigger] now[k] == ".."@ implies #[trigger] now[j]
                    == ".."@ by {
                    if k == kept.len() {
                        assert(kept[kept.len() - 1] == ".."@);
                        if j < kept.len() - 1 {
                            assert(kept[j] == ".."@);
                        }
                    } else {
                        assert(now[j] == kept[j] && now[k] == kept[k]);
                    }
                }
                assert forall|k: int| 0 <= k < now.len() implies (is_name(#[trigger] now[k]) || (k
                    == 0 && now[k] == "/"@)) by {
                    if k < kept.len() {
                        assert(now[k] == kept[k]);
                    }
                }
            }
        } else if last != "."@ {
            assert forall|k: int| 0 <= k < now.len() implies (is_name(#[trigger] now[k]) || (k == 0
                && now[k] == "/"@)) by {
                if k < kept.len() {
                    assert(now[k] == kept[k]);
                }
            }
            assert forall|j: int, k: int|
                0 <= j < k < now.len() && #[trigger] now[k] == ".."@ implies #[trigger] now[j]
                == ".."@ by {
                assert(now[j] == kept[j] && now[k] == kept[k]);
            }
        }
    }
}

/// Nothing is left to work out of what is settled.
proof fn lemma_settled_stays(components: Seq<Seq<char>>)
    requires
        settled(components),
    ensures
        work_out(components) == components,
    decreases components.len(),
{
    lemma_marks();
    if components.len() > 0 {
        let rest = components.drop_last();
        assert forall|k: int| 0 <= k < rest.len() implies (is_name(#[trigger] rest[k]) || (k == 0
            && rest[k] == "/"@)) by {
            assert(rest[k] == components[k]);
        }
        assert forall|j: int, k: int|
            0 <= j < k < rest.len() && #[trigger] rest[k] == ".."@ implies #[trigger] rest[j]
            == ".."@ by {
            assert(rest[j] == components[j] && rest[k] == components[k]);
        }
        lemma_settled_stays(rest);
        let last = components[components.len() - 1];
        assert(rest.push(last) =~= components);
        if last == ".."@ && rest.len() > 0 {
            assert(components[rest.len() - 1] == ".."@);
        }
    } else {
        assert(work_out(components) =~= components);
    }
}

/// What settled components write reads back as them.
proof fn lemma_render_reads_back(parts: Seq<Seq<char>>)
    requires
        settled(parts),
    ensures
        components(render(parts)) == parts,
{
    lemma_marks();
    let rooted = parts.len() > 0 && parts[0] == "/"@;
    let rest = if rooted {
        parts.skip(1)
    } else {
        parts
    };
    assert forall|k: int| 0 <= k < rest.len() implies is_name(#[trigger] rest[k]) by {
        if rooted {
            assert(rest[k] == parts[k + 1]);
        } else {
            assert(rest[k] == parts[k]);
        }
    }
    let text = join(rest, "/"@);
    lemma_names_kept(rest);
    if rest.len() > 0 {
        lemma_split_join(rest, '/');
    } else {
        lemma_split_whole(text, '/');
        assert(split(text, '/').drop_last() =~= Seq::<Seq<char>>::empty());
        assert(names(split(text, '/')) =~= rest);
    }
    if rooted {
        let path = render(parts);
        assert(path =~= Seq::<char>::empty().push('/') + text);
        lemma_split_first(Seq::empty(), '/', text);
        lemma_names_skip_empty(split(text, '/'));
        assert(seq!["/"@] + rest =~= parts);
    } else if rest.len() > 0 {
        assert(!absolute(text)) by {
            assert(is_name(rest[0]));
            if rest.len() > 1 {
                lemma_join_first(rest, "/"@);
            }
            assert(text[0] == rest[0][0]);
        }
        assert(is_name(rest[0]));
        assert(Seq::<Seq<char>>::empty() + rest =~= parts);
    } else {
        assert(components(render(parts)) =~= parts);
    }
}

/// A normalized path has nothing left to work out: no `.`, and no `..` but
/// where nothing but `..` comes before it.
pub proof fn normalized_is_settled(path: Seq<char>)
    ensures
        settled(components(normalized(path))),
{
    lemma_components(path);
    let parts = components(path);
    lemma_work_out_settles(parts);
    lemma_render_reads_back(work_out(parts));
}

/// Normalizing a path again changes nothing.
pub proof fn normalizing_twice_is_once(path: Seq<char>)
    ensures
        normalized(normalized(path)) == normalized(path),
{
    lemma_components(path);
    let parts = components(path);
    lemma_work_out_settles(parts);
    lemma_render_reads_back(work_out(parts));
    lemma_settled_stays(work_out(parts));
}

/// A path starts at the root exactly when that is its first component.
proof fn lemma_rooted(path: Seq<char>)
    ensures
        absolute(path) == (components(path).len() > 0 && components(path)[0] == "/"@),
{
    lemma_marks();
    let pieces = split(path, '/');
    lemma_split_pieces(path, '/', 0);
    lemma_names_are_names(pieces);
    let parts = components(path);
    if !absolute(path) && parts.len() > 0 && origin(path).len() == 0 {
        assert(parts[0] == names(pieces)[0]);
        assert(is_name(parts[0]));
    }
}

/// Working out `.` and `..` leaves what a path starts from.
proof fn lemma_work_out_keeps_root(components: Seq<Seq<char>>)
    requires
        forall|k: int| 0 < k < components.len() ==> #[trigger] components[k] != "/"@,
    ensures
        (work_out(components).len() > 0 && work_out(components)[0] == "/"@) == (components.len()
            > 0 && components[0] == "/"@),
    decreases components.len(),
{
    lemma_marks();
    if components.len() > 0 {
        let rest = components.drop_last();
        assert forall|k: int| 0 < k < rest.len() implies #[trigger] rest[k] != "/"@ by {
            assert(rest[k] == components[k]);
        }
        lemma_work_out_keeps_root(rest);
        let last = components[components.len() - 1];
        let kept = work_out(rest);
        assert(last == components.last());
        if components.len() == 1 {
            assert(kept.len() == 0);
        } else {
            assert(last != "/"@);
            if kept.len() == 1 {
                assert(kept.last() == kept[0]);
            }
        }
    }
}

/// Normalizing a path keeps it absolute, or relative.
pub proof fn normalizing_keeps_where_a_path_starts(path: Seq<char>)
    ensures
        absolute(normalized(path)) == absolute(path),
{
    lemma_marks();
    lemma_components(path);
    lemma_rooted(path);
    let parts = components(path);
    assert forall|k: int| 0 < k < parts.len() implies #[trigger] parts[k] != "/"@ by {}
    lemma_work_out_keeps_root(parts);
    lemma_work_out_settles(parts);
    lemma_render_reads_back(work_out(parts));
    lemma_rooted(normalized(path));
}

proof fn lemma_components(path: Seq<char>)
    ensures
        forall|k: int|
            0 <= k < components(path).len() ==> (is_name(#[trigger] components(path)[k])
                || components(path)[k] == "."@ || (k == 0 && components(path)[k] == "/"@)),
{
    lemma_marks();
    let pieces = split(path, '/');
    lemma_split_pieces(path, '/', 0);
    lemma_names_are_names(pieces);
    let parts = components(path);
    assert forall|k: int| 0 <= k < parts.len() implies (is_name(#[trigger] parts[k]) || parts[k]
        == "."@ || (k == 0 && parts[k] == "/"@)) by {
        if k >= origin(path).len() {
            assert(parts[k] == names(pieces)[k - origin(path).len()]);
        }
    }
}

proof fn lemma_join_last(parts: Seq<Seq<char>>)
    requires
        parts.len() > 0,
        is_name(parts.last()),
    ensures
        join(parts, "/"@).len() > 0,
        join(parts, "/"@).last() != '/',
{
    let all = join(parts, "/"@);
    let last = parts.last();
    assert(all.last() == last.last());
    assert(last.contains(last[last.len() - 1]));
}

/// A name joined to a normalized path needs no normalizing.
pub proof fn a_name_joined_stays_normalized(dir: Seq<char>, name: Seq<char>)
    requires
        normalized(dir) == dir,
        is_name(name),
        name != ".."@,
    ensures
        normalized(join_path(dir, name)) == join_path(dir, name),
{
    lemma_marks();
    lemma_components(dir);
    let parts = work_out(components(dir));
    lemma_work_out_settles(components(dir));
    lemma_render_reads_back(parts);
    let more = parts.push(name);
    assert(settled(more)) by {
        assert forall|k: int| 0 <= k < more.len() implies (is_name(#[trigger] more[k]) || (k == 0
            && more[k] == "/"@)) by {
            if k < parts.len() {
                assert(more[k] == parts[k]);
            }
        }
        assert forall|j: int, k: int|
            0 <= j < k < more.len() && #[trigger] more[k]
                == ".."@ implies #[trigger] more[j] == ".."@ by {
            assert(more[k] == parts[k] && more[j] == parts[j]);
        }
    }
    assert(name[0] != '/') by {
        assert(name.contains(name[0]));
    }
    let rooted = parts.len() > 0 && parts[0] == "/"@;
    let rest = if rooted {
        parts.skip(1)
    } else {
        parts
    };
    let with = rest.push(name);
    assert(with.drop_last() =~= rest);
    if rest.len() > 0 {
        assert(is_name(rest.last())) by {
            assert(rest.last() == parts.last());
            assert(is_name(parts[parts.len() - 1]) || parts.len() == 1);
        }
        lemma_join_last(rest);
    }
    if rooted {
        assert(more.skip(1) =~= with);
    }
    assert(join_path(dir, name) =~= render(more));
    lemma_render_reads_back(more);
    lemma_settled_stays(more);
}

/// A path's last name can be joined to a normalized path.
pub proof fn a_file_name_is_a_name(path: Seq<char>)
    ensures
        file_name(path) is Some ==> is_name(file_name(path)->0) && file_name(path)->0 != ".."@,
{
    lemma_components(path);
    let parts = components(path);
    if parts.len() > 0 {
        assert(is_name(parts[parts.len() - 1]) || !normal(parts.last()));
    }
}

} // verus!
