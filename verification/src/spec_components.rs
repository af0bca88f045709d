//! Creating the parts a spec is written with: a scope, with a concept and a
//! shape of its own, in a folder of its own; or a concept or a shape added to a
//! spec file. Either written straight into the spec, or handed with a
//! description to a skill to write.
use vstd::prelude::*;
use crate::listing::Listing;
use crate::paths::{components, components_of, join_path, joined_path, normal, text_of};
use crate::text::{chomp, lemma_find_none, lemma_run_end_is, lemma_trim_ends, lemma_trim_fixed,
    lines_from, stands_at, words_from};
use crate::text::{all_white, ascii_alphanumeric, ascii_upper, chars_of, concat,
    concat_of, end_of_run, ends_with,
    find_from, group_runs, index_of, is_all_white, is_ascii_alphanumeric, is_ascii_upper, is_at,
    is_white, join, joined, lines, lines_of, piece, push_all, push_str, repeat, repeated, run_end,
    run_start, same, spells, starts_with, string_of, trim, trim_end, trim_end_of, trimmed,
    trimmed_end_of, views, white, words, words_of, Class};

verus! {

// ---------------------------------------------------------------------------
// Kinds of component
// ---------------------------------------------------------------------------

/// Which component a form creates.
#[derive(Clone, Copy, Debug, PartialEq, Eq, Structural)]
pub enum ComponentKind {
    Scope,
    Concept,
    Shape,
}

impl ComponentKind {
    pub open spec fn suffix_text(self) -> Seq<char> {
        match self {
            ComponentKind::Scope => "Scope"@,
            ComponentKind::Concept => "Concept"@,
            ComponentKind::Shape => "Shape"@,
        }
    }

    pub open spec fn noun_text(self) -> Seq<char> {
        match self {
            ComponentKind::Scope => "scope"@,
            ComponentKind::Concept => "concept"@,
            ComponentKind::Shape => "shape"@,
        }
    }

    /// The word its name ends with.
    pub fn suffix(self) -> (r: &'static str)
        ensures
            r@ == self.suffix_text(),
    {
        match self {
            ComponentKind::Scope => "Scope",
            ComponentKind::Concept => "Concept",
            ComponentKind::Shape => "Shape",
        }
    }

    /// What its form is headed with.
    pub fn title(self) -> (r: &'static str)
        ensures
            r@ == (match self {
                ComponentKind::Scope => "New Scope"@,
                ComponentKind::Concept => "New Concept"@,
                ComponentKind::Shape => "New Shape"@,
            }),
    {
        match self {
            ComponentKind::Scope => "New Scope",
            ComponentKind::Concept => "New Concept",
            ComponentKind::Shape => "New Shape",
        }
    }

    /// What the prompt to a skill calls it.
    pub fn noun(self) -> (r: &'static str)
        ensures
            r@ == self.noun_text(),
    {
        match self {
            ComponentKind::Scope => "scope",
            ComponentKind::Concept => "concept",
            ComponentKind::Shape => "shape",
        }
    }
}

/// The keywords a scope is declared with, the first to start with.
pub const SCOPE_KEYWORDS: [&'static str; 2] = ["scope", "ui-component"];

// ---------------------------------------------------------------------------
// Names
// ---------------------------------------------------------------------------

pub open spec fn named(typed: Seq<char>, kind: ComponentKind) -> Seq<char> {
    let typed = trim(typed);
    if typed.len() == 0 || kind.suffix_text().is_suffix_of(typed) {
        typed
    } else {
        typed + kind.suffix_text()
    }
}

/// The name as typed, with the kind's word added when it doesn't already end
/// with it.
pub fn full_name(typed: &str, kind: ComponentKind) -> (r: String)
    ensures
        r@ == named(typed@, kind),
{
    let mut typed = trimmed(&chars_of(typed));
    if typed.len() > 0 && !ends_with(&typed, kind.suffix()) {
        push_str(&mut typed, kind.suffix());
    }
    string_of(&typed)
}

pub open spec fn str_of(s: Option<&'static str>) -> Option<Seq<char>> {
    match s {
        Some(s) => Some(s@),
        None => None,
    }
}

/// Whether text is made of ASCII letters and digits.
pub open spec fn all_alphanumeric(s: Seq<char>) -> bool {
    forall|k: int| 0 <= k < s.len() ==> ascii_alphanumeric(#[trigger] s[k])
}

pub open spec fn problem_with_name(name: Seq<char>) -> Option<Seq<char>> {
    let name = trim(name);
    if name.len() == 0 {
        None
    } else if !ascii_upper(name[0]) {
        Some("Start the name with a capital letter"@)
    } else if !all_alphanumeric(name) {
        Some("Use only letters and digits in the name"@)
    } else {
        None
    }
}

/// Why a name can't be used, if it can't.
pub fn name_problem(name: &str) -> (r: Option<&'static str>)
    ensures
        str_of(r) == problem_with_name(name@),
{
    let chars = trimmed(&chars_of(name));
    if chars.len() == 0 {
        return None;
    }
    if !is_ascii_upper(chars[0]) {
        return Some("Start the name with a capital letter");
    }
    let mut i: usize = 0;
    while i < chars.len()
        invariant
            i <= chars@.len(),
            chars@ == trim(name@),
            chars@.len() > 0,
            ascii_upper(chars@[0]),
            forall|k: int| 0 <= k < i ==> ascii_alphanumeric(#[trigger] chars@[k]),
        decreases chars@.len() - i,
    {
        if !is_ascii_alphanumeric(chars[i]) {
            return Some("Use only letters and digits in the name");
        }
        i += 1;
    }
    None
}

// ---------------------------------------------------------------------------
// Declarations
// ---------------------------------------------------------------------------

/// Whether a word only says how what follows is declared.
pub open spec fn qualifies(word: Seq<char>) -> bool {
    word == "export"@ || word == "abstract"@
}

/// Where the words that only qualify end.
pub open spec fn qualifiers_end(words: Seq<Seq<char>>, i: int) -> int
    decreases words.len() - i,
{
    if 0 <= i < words.len() && qualifies(words[i]) {
        qualifiers_end(words, i + 1)
    } else {
        i
    }
}

/// Whether text is made of what names are written with.
pub open spec fn name_like(s: Seq<char>) -> bool {
    forall|k: int| 0 <= k < s.len() ==> Class::Name.has(#[trigger] s[k])
}

/// The keyword and name that the words before a declaration's colon give.
pub open spec fn declared_by(words: Seq<Seq<char>>) -> Option<(Seq<char>, Seq<char>)> {
    let at = qualifiers_end(words, 0);
    if at + 1 < words.len() && words[at] != "use"@ && words[at] != "from"@ && name_like(
        words[at + 1],
    ) {
        Some((words[at], words[at + 1]))
    } else {
        None
    }
}

/// A line without the comment it ends in, and white space before that.
pub open spec fn uncommented(line: Seq<char>) -> Seq<char> {
    trim_end(line.take(find_from(line, "//"@, 0)))
}

/// The keyword and name a line declares at the top level of a spec file.
pub open spec fn declared_in(line: Seq<char>) -> Option<(Seq<char>, Seq<char>)> {
    let code = uncommented(line);
    if line.len() > 0 && white(line[0]) {
        None
    } else if code.len() == 0 || code.last() != ':' {
        None
    } else {
        declared_by(words(code.drop_last()))
    }
}

/// What some lines declare, in order.
pub open spec fn declared(lines: Seq<Seq<char>>) -> Seq<(Seq<char>, Seq<char>)>
    decreases lines.len(),
{
    if lines.len() == 0 {
        seq![]
    } else {
        match declared_in(lines.last()) {
            Some(declaration) => declared(lines.drop_last()).push(declaration),
            None => declared(lines.drop_last()),
        }
    }
}

pub open spec fn pair_views(v: Seq<(String, String)>) -> Seq<(Seq<char>, Seq<char>)> {
    v.map_values(|p: (String, String)| (p.0@, p.1@))
}

fn declaration(line: &[char]) -> (r: Option<(String, String)>)
    ensures
        match r {
            Some(r) => declared_in(line@) == Some((r.0@, r.1@)),
            None => declared_in(line@) is None,
        },
{
    if line.len() > 0 && is_white(line[0]) {
        return None;
    }
    let comment = index_of(line, &chars_of("//"), 0);
    let mut code = trimmed_end_of(&piece(line, 0, comment), Class::White);
    proof {
        assert(line@.subrange(0, comment as int) =~= line@.take(comment as int));
    }
    if code.len() == 0 || code[code.len() - 1] != ':' {
        return None;
    }
    let ghost whole = code@;
    code.pop();
    proof {
        assert(code@ =~= whole.drop_last());
    }
    let words = words_of(&code);
    let ghost all = views(words@);
    let mut at: usize = 0;
    while at < words.len() && (spells(&words[at], "export") || spells(&words[at], "abstract"))
        invariant
            at <= words@.len(),
            all == views(words@),
            qualifiers_end(all, at as int) == qualifiers_end(all, 0),
        decreases words@.len() - at,
    {
        proof {
            assert(all[at as int] == words@[at as int]@);
        }
        at += 1;
    }
    proof {
        if at < words@.len() {
            assert(all[at as int] == words@[at as int]@);
        }
        if at + 1 < words@.len() {
            assert(all[at + 1] == words@[at + 1]@);
        }
    }
    if at >= words.len() || at + 1 >= words.len() {
        return None;
    }
    if spells(&words[at], "use") || spells(&words[at], "from") {
        return None;
    }
    let end = end_of_run(&words[at + 1], Class::Name, 0);
    proof {
        broadcast use group_runs;

        let name = words@[at + 1]@;
        if end < name.len() {
            assert(!Class::Name.has(name[end as int]));
        }
    }
    if end < words[at + 1].len() {
        return None;
    }
    Some((string_of(&words[at]), string_of(&words[at + 1])))
}

/// The names declared at the top level of a spec file, each with the keyword
/// it is declared with: `export abstract anchor Name extends Base as kw:`
/// gives `("anchor", "Name")`.
pub fn declared_names(text: &str) -> (r: Vec<(String, String)>)
    ensures
        pair_views(r@) == declared(lines(text@)),
{
    let lines = lines_of(&chars_of(text));
    let ghost all = views(lines@);
    let mut r: Vec<(String, String)> = Vec::new();
    let mut i: usize = 0;
    proof {
        assert(pair_views(r@) =~= declared(all.take(0)));
    }
    while i < lines.len()
        invariant
            i <= lines@.len(),
            all == views(lines@),
            pair_views(r@) == declared(all.take(i as int)),
        decreases lines@.len() - i,
    {
        let ghost before = pair_views(r@);
        proof {
            assert(all.take(i + 1).drop_last() =~= all.take(i as int));
            assert(all.take(i + 1).last() == lines@[i as int]@);
        }
        if let Some(pair) = declaration(&lines[i]) {
            r.push(pair);
            proof {
                assert(pair_views(r@) =~= before.push((pair.0@, pair.1@)));
            }
        }
        i += 1;
    }
    proof {
        assert(all.take(all.len() as int) =~= all);
    }
    r
}

// ---------------------------------------------------------------------------
// Folders
// ---------------------------------------------------------------------------

pub open spec fn lower(c: char) -> char {
    if ascii_upper(c) {
        (c as u8 + 32) as char
    } else {
        c
    }
}

/// A name in lower case, with a `-` before each capital but a first one.
pub open spec fn dashed(name: Seq<char>) -> Seq<char>
    decreases name.len(),
{
    if name.len() == 0 {
        seq![]
    } else {
        let before = dashed(name.drop_last());
        if ascii_upper(name.last()) && name.len() > 1 {
            before.push('-').push(lower(name.last()))
        } else {
            before.push(lower(name.last()))
        }
    }
}

/// A name without the word for its kind.
pub open spec fn name_stem(name: Seq<char>, kind: ComponentKind) -> Seq<char> {
    if kind.suffix_text().is_suffix_of(name) {
        name.take(name.len() - kind.suffix_text().len())
    } else {
        name
    }
}

fn stem_of(name: &str, kind: ComponentKind) -> (r: Vec<char>)
    ensures
        r@ == name_stem(name@, kind),
{
    let name = chars_of(name);
    let suffix = chars_of(kind.suffix());
    if ends_with(&name, kind.suffix()) {
        let stem = piece(&name, 0, name.len() - suffix.len());
        proof {
            assert(stem@ =~= name@.take(name@.len() - suffix@.len()));
        }
        stem
    } else {
        name
    }
}

fn to_lower(c: char) -> (r: char)
    ensures
        r == lower(c),
{
    if is_ascii_upper(c) {
        ((c as u8) + 32) as char
    } else {
        c
    }
}

/// `ParserScope` as `parser`, `FileTreeScope` as `file-tree`.
pub fn kebab(name: &str, kind: ComponentKind) -> (r: String)
    ensures
        r@ == dashed(name_stem(name@, kind)),
{
    let stem = stem_of(name, kind);
    let mut out: Vec<char> = Vec::new();
    let mut i: usize = 0;
    proof {
        assert(out@ =~= dashed(stem@.take(0)));
    }
    while i < stem.len()
        invariant
            i <= stem@.len(),
            out@ == dashed(stem@.take(i as int)),
        decreases stem@.len() - i,
    {
        let c = stem[i];
        if is_ascii_upper(c) && i > 0 {
            out.push('-');
        }
        out.push(to_lower(c));
        i += 1;
        proof {
            assert(stem@.take(i as int).drop_last() =~= stem@.take(i - 1));
            assert(stem@.take(i as int).last() == c);
        }
    }
    proof {
        assert(stem@.take(stem@.len() as int) =~= stem@);
    }
    string_of(&out)
}

pub open spec fn folder_for(name: Seq<char>, keyword: Seq<char>) -> Seq<char> {
    let stem = dashed(name_stem(name, ComponentKind::Scope));
    if stem.len() == 0 {
        stem
    } else if keyword == "ui-component"@ {
        "ui/components/"@ + stem
    } else {
        "scope/"@ + stem
    }
}

/// The folder a scope goes in until one is typed: `scope/parser` for
/// ParserScope, or `ui/components/parser` as a ui-component.
pub fn default_folder(name: &str, keyword: &str) -> (r: String)
    ensures
        r@ == folder_for(name@, keyword@),
{
    let stem = kebab(name, ComponentKind::Scope);
    if stem.as_str().is_empty() {
        return stem;
    }
    let mut out = if same(keyword, "ui-component") {
        chars_of("ui/components/")
    } else {
        chars_of("scope/")
    };
    push_str(&mut out, &stem);
    string_of(&out)
}

/// A folder as it was meant: without the white space around it and the slashes
/// after it.
pub open spec fn folder_meant(folder: Seq<char>) -> Seq<char> {
    trim_end_of(trim(folder), Class::Is('/'))
}

/// The index.pi of a folder of the spec.
pub open spec fn index_in(spec_dir: Seq<char>, folder: Seq<char>) -> Seq<char> {
    join_path(join_path(spec_dir, folder_meant(folder)), "index.pi"@)
}

pub open spec fn problem_with_folder(folder: Seq<char>, holds_index: bool) -> Option<Seq<char>> {
    let parts = components(folder_meant(folder));
    if folder_meant(folder).len() == 0 {
        Some("Give the scope a folder"@)
    } else if exists|k: int| 0 <= k < parts.len() && !normal(#[trigger] parts[k]) {
        Some("The folder must be within the spec"@)
    } else if holds_index {
        Some("That folder already holds an index.pi"@)
    } else {
        None
    }
}

fn meant(folder: &str) -> (r: Vec<char>)
    ensures
        r@ == folder_meant(folder@),
{
    trimmed_end_of(&trimmed(&chars_of(folder)), Class::Is('/'))
}

/// Where the index.pi of a folder of the spec is.
pub fn index_file(spec_dir: &str, folder: &str) -> (r: String)
    ensures
        r@ == index_in(spec_dir@, folder@),
{
    joined_path(&joined_path(spec_dir, &string_of(&meant(folder))), "index.pi")
}

/// Why a folder, relative to the spec location, can't hold a new scope,
/// `listing` being what there is of its index.pi.
pub fn folder_problem(spec_dir: &str, folder: &str, listing: &Listing) -> (r: Option<&'static str>)
    ensures
        str_of(r) == problem_with_folder(
            folder@,
            listing@.files.contains(index_in(spec_dir@, folder@)) || listing@.folders.contains(
                index_in(spec_dir@, folder@),
            ),
        ),
{
    let meant = meant(folder);
    if meant.len() == 0 {
        return Some("Give the scope a folder");
    }
    let parts = components_of(&meant);
    let ghost all = views(parts@);
    let mut i: usize = 0;
    while i < parts.len()
        invariant
            i <= parts@.len(),
            all == views(parts@),
            all == components(folder_meant(folder@)),
            folder_meant(folder@).len() > 0,
            forall|k: int| 0 <= k < i ==> normal(#[trigger] all[k]),
        decreases parts@.len() - i,
    {
        proof {
            assert(all[i as int] == parts@[i as int]@);
        }
        if spells(&parts[i], "/") || spells(&parts[i], ".") || spells(&parts[i], "..") {
            return Some("The folder must be within the spec");
        }
        i += 1;
    }
    let index = index_file(spec_dir, folder);
    if listing.is_file(&index) || listing.is_folder(&index) {
        return Some("That folder already holds an index.pi");
    }
    None
}

/// A file without the spec location before it.
pub open spec fn within_spec(spec_root: Seq<char>, file: Seq<char>) -> Seq<char> {
    let prefix = spec_root.push('/');
    if prefix.is_prefix_of(file) {
        file.skip(prefix.len() as int)
    } else {
        file
    }
}

/// The spec location's folder, and the spec files `files`, listed from the
/// project, relative to it.
pub fn spec_files(project_dir: &str, spec_root: &str, files: &Vec<String>) -> (r: (
    String,
    Vec<String>,
))
    ensures
        r.0@ == join_path(project_dir@, spec_root@),
        r.1@.len() == files@.len(),
        forall|k: int|
            0 <= k < files@.len() ==> (#[trigger] r.1@[k])@ == within_spec(
                spec_root@,
                files@[k]@,
            ),
{
    let mut prefix = chars_of(spec_root);
    prefix.push('/');
    let mut r: Vec<String> = Vec::new();
    let mut i: usize = 0;
    while i < files.len()
        invariant
            i <= files@.len(),
            prefix@ == spec_root@.push('/'),
            r@.len() == i,
            forall|k: int|
                0 <= k < i ==> (#[trigger] r@[k])@ == within_spec(spec_root@, files@[k]@),
        decreases files@.len() - i,
    {
        let file = chars_of(&files[i]);
        if is_at(&file, &prefix, 0) {
            let rest = piece(&file, prefix.len(), file.len());
            proof {
                assert(rest@ =~= file@.skip(prefix@.len() as int));
            }
            r.push(string_of(&rest));
        } else {
            r.push(files[i].clone());
        }
        i += 1;
    }
    (joined_path(project_dir, spec_root), r)
}

// ---------------------------------------------------------------------------
// Prose
// ---------------------------------------------------------------------------

/// Whether a character would read as an interpolation or end a key.
pub open spec fn reads_as_syntax(c: char) -> bool {
    c == '{' || c == '}' || c == ':'
}

/// Whether a line would read as a list item, a comment or a fence.
pub open spec fn opens_syntax(line: Seq<char>) -> bool {
    "-"@.is_prefix_of(line) || "//"@.is_prefix_of(line) || "```"@.is_prefix_of(line)
        || "~~~"@.is_prefix_of(line)
}

pub open spec fn chars_escaped(s: Seq<char>) -> Seq<char>
    decreases s.len(),
{
    if s.len() == 0 {
        seq![]
    } else if reads_as_syntax(s.last()) {
        chars_escaped(s.drop_last()).push('\\').push(s.last())
    } else {
        chars_escaped(s.drop_last()).push(s.last())
    }
}

/// A line with a backslash before whatever of it would read as syntax.
pub open spec fn line_escaped(line: Seq<char>) -> Seq<char> {
    (if opens_syntax(line) {
        seq!['\\']
    } else {
        seq![]
    }) + chars_escaped(line)
}

/// `written` with one more line of prose: blank lines are kept one at a time,
/// and not first.
pub open spec fn with_line(
    written: Seq<Seq<char>>,
    line: Seq<char>,
    indent: nat,
) -> Seq<Seq<char>> {
    let line = trim(line);
    if line.len() > 0 {
        written.push(repeat(' ', indent) + line_escaped(line))
    } else if written.len() > 0 && written.last().len() > 0 {
        written.push(seq![])
    } else {
        written
    }
}

pub open spec fn prose_lines(lines: Seq<Seq<char>>, indent: nat) -> Seq<Seq<char>>
    decreases lines.len(),
{
    if lines.len() == 0 {
        seq![]
    } else {
        with_line(prose_lines(lines.drop_last(), indent), lines.last(), indent)
    }
}

pub open spec fn prose_of(text: Seq<char>, indent: nat) -> Seq<char> {
    join(prose_lines(lines(trim(text)), indent), "\n"@)
}

fn escape_line(line: &[char]) -> (r: Vec<char>)
    ensures
        r@ == line_escaped(line@),
{
    let mut r: Vec<char> = Vec::new();
    if starts_with(line, "-") || starts_with(line, "//") || starts_with(line, "```")
        || starts_with(line, "~~~") {
        r.push('\\');
    }
    let ghost opening = r@;
    let mut i: usize = 0;
    proof {
        assert(opening =~= if opens_syntax(line@) {
            seq!['\\']
        } else {
            seq![]
        });
        assert(r@ =~= opening + chars_escaped(line@.take(0)));
    }
    while i < line.len()
        invariant
            i <= line@.len(),
            r@ == opening + chars_escaped(line@.take(i as int)),
        decreases line@.len() - i,
    {
        let ghost before = chars_escaped(line@.take(i as int));
        let c = line[i];
        if c == '{' || c == '}' || c == ':' {
            r.push('\\');
        }
        r.push(c);
        i += 1;
        proof {
            assert(line@.take(i as int).drop_last() =~= line@.take(i - 1));
            assert(line@.take(i as int).last() == c);
            if reads_as_syntax(c) {
                assert((opening + before).push('\\').push(c) =~= opening + before.push('\\').push(
                    c,
                ));
            } else {
                assert((opening + before).push(c) =~= opening + before.push(c));
            }
        }
    }
    proof {
        assert(line@.take(line@.len() as int) =~= line@);
    }
    r
}

/// `text` as prose indented `indent` spaces beneath its key, escaped so that
/// nothing in it reads as an interpolation, a key, a list item, a comment, or
/// a fence.
pub fn prose(text: &str, indent: usize) -> (r: String)
    ensures
        r@ == prose_of(text@, indent as nat),
{
    let source = lines_of(&trimmed(&chars_of(text)));
    let ghost all = views(source@);
    let mut written: Vec<Vec<char>> = Vec::new();
    let mut i: usize = 0;
    proof {
        assert(views(written@) =~= prose_lines(all.take(0), indent as nat));
    }
    while i < source.len()
        invariant
            i <= source@.len(),
            all == views(source@),
            views(written@) == prose_lines(all.take(i as int), indent as nat),
        decreases source@.len() - i,
    {
        let ghost before = views(written@);
        proof {
            assert(all.take(i + 1).drop_last() =~= all.take(i as int));
            assert(all.take(i + 1).last() == source@[i as int]@);
            if written@.len() > 0 {
                assert(before.last() == written@.last()@);
            }
        }
        let line = trimmed(&source[i]);
        if line.len() > 0 {
            let mut shown = repeated(' ', indent);
            push_all(&mut shown, &escape_line(&line));
            written.push(shown);
            proof {
                assert(views(written@) =~= before.push(shown@));
            }
        } else if written.len() > 0 && written[written.len() - 1].len() > 0 {
            let blank: Vec<char> = Vec::new();
            written.push(blank);
            proof {
                assert(blank@ =~= seq![]);
                assert(views(written@) =~= before.push(blank@));
            }
        }
        i += 1;
    }
    proof {
        assert(all.take(all.len() as int) =~= all);
    }
    string_of(&joined(&written, "\n"))
}

pub open spec fn sentence(text: Seq<char>) -> Seq<char> {
    let all = lines(trim(text));
    if all.len() == 0 {
        seq![]
    } else {
        let end = find_from(all[0], ". "@, 0);
        if end < all[0].len() {
            all[0].take(end + 1)
        } else {
            all[0]
        }
    }
}

/// The description's first sentence.
pub fn first_sentence(text: &str) -> (r: String)
    ensures
        r@ == sentence(text@),
{
    let all = lines_of(&trimmed(&chars_of(text)));
    proof {
        assert(views(all@).len() == all@.len());
    }
    if all.len() == 0 {
        let none = String::new();
        proof {
            assert(none@ =~= seq![]);
        }
        return none;
    }
    proof {
        assert(views(all@)[0] == all@[0]@);
    }
    let end = index_of(&all[0], &chars_of(". "), 0);
    if end < all[0].len() {
        let first = piece(&all[0], 0, end + 1);
        proof {
            assert(first@ =~= all@[0]@.take(end + 1));
        }
        string_of(&first)
    } else {
        string_of(&all[0])
    }
}

// ---------------------------------------------------------------------------
// Requests
// ---------------------------------------------------------------------------

/// A component as its form was filled in.
pub struct Request {
    pub kind: ComponentKind,
    /// The full name.
    pub name: String,
    /// For a scope: its keyword and folder, relative to the spec location.
    pub keyword: String,
    pub folder: String,
    /// For a concept or a shape: the file it goes in, relative to the spec
    /// location.
    pub file: String,
    /// For a concept: the shape it has, if any.
    pub shape: Option<String>,
    pub description: String,
}

#[verifier::ext_equal]
pub struct RequestView {
    pub kind: ComponentKind,
    pub name: Seq<char>,
    pub keyword: Seq<char>,
    pub folder: Seq<char>,
    pub file: Seq<char>,
    pub shape: Option<Seq<char>>,
    pub description: Seq<char>,
}

impl View for Request {
    type V = RequestView;

    open spec fn view(&self) -> RequestView {
        RequestView {
            kind: self.kind,
            name: self.name@,
            keyword: self.keyword@,
            folder: self.folder@,
            file: self.file@,
            shape: text_of(self.shape),
            description: self.description@,
        }
    }
}

/// What writing a component comes to: the file to write, and all it is to
/// hold.
pub struct Written {
    pub file: String,
    pub text: String,
}

impl RequestView {
    pub open spec fn stem(self) -> Seq<char> {
        name_stem(self.name, self.kind)
    }

    /// The index.pi of a new scope.
    pub open spec fn scope(self) -> Seq<char> {
        concat(
            seq![
                if self.keyword == "ui-component"@ {
                    "use /lib\nuse /ui\n"@
                } else {
                    "use /lib\n"@
                },
                "\nexport "@,
                self.keyword,
                " "@,
                self.name,
                ":\n    concept: {"@,
                self.stem(),
                "Concept}\n\nconcept "@,
                self.stem(),
                "Concept:\n    pitch:\n"@,
                prose_of(self.description, 8),
                "\n\n    shape: {"@,
                self.stem(),
                "Shape}\n\nshape "@,
                self.stem(),
                "Shape:\n    description:\n"@,
                prose_of(sentence(self.description), 8),
                "\n"@,
            ],
        )
    }

    /// The keyword a concept or a shape is declared with.
    pub open spec fn anchor_keyword(self) -> Seq<char> {
        if self.kind == ComponentKind::Concept {
            "concept"@
        } else {
            "shape"@
        }
    }

    /// What says which shape a concept has, if any.
    pub open spec fn shape_line(self) -> Seq<char> {
        match self.shape {
            Some(shape) => concat(seq!["\n\n    shape: {"@, shape, "}"@]),
            None => ""@,
        }
    }

    /// The concept or shape, as added to the end of a file.
    pub open spec fn anchor(self) -> Seq<char> {
        if self.kind == ComponentKind::Concept {
            concat(
                seq![
                    self.anchor_keyword(),
                    " "@,
                    self.name,
                    ":\n"@,
                    "    pitch:\n"@,
                    prose_of(self.description, 8),
                    self.shape_line(),
                    "\n"@,
                ],
            )
        } else {
            concat(
                seq![
                    self.anchor_keyword(),
                    " "@,
                    self.name,
                    ":\n"@,
                    "    description:\n"@,
                    prose_of(self.description, 8),
                    "\n"@,
                ],
            )
        }
    }

    /// `existing` with the concept or shape added to its end, after a blank
    /// line.
    pub open spec fn appended(self, existing: Seq<char>) -> Seq<char> {
        let kept = trim_end_of(existing, Class::Is('\n'));
        (if kept.len() > 0 {
            kept + "\n\n"@
        } else {
            kept
        }) + self.anchor()
    }

    /// Whether some text already declares the name.
    pub open spec fn declared_already(self, existing: Seq<char>) -> bool {
        let all = declared(lines(existing));
        exists|k: int| 0 <= k < all.len() && (#[trigger] all[k]).1 == self.name
    }

    /// The fields the prompt to a skill lists.
    pub open spec fn fields(self) -> Seq<Seq<char>> {
        let name = "Name: "@ + self.name;
        match self.kind {
            ComponentKind::Scope => seq![
                name,
                "Kind: "@ + self.keyword,
                "Folder: "@ + trim(self.folder),
            ],
            ComponentKind::Concept => seq![
                name,
                "File: "@ + self.file,
                "Shape: "@ + (match self.shape {
                    Some(shape) => shape,
                    None => "None"@,
                }),
            ],
            ComponentKind::Shape => seq![name, "File: "@ + self.file],
        }
    }

    /// The prompt handing the component to `skill` to create.
    pub open spec fn prompt(self, skill: Seq<char>) -> Seq<char> {
        concat(
            seq![
                "/"@,
                skill,
                " Create a new "@,
                self.kind.noun_text(),
                " named "@,
                self.name,
                ".\n\n"@,
                join(self.fields(), "\n"@),
                if all_white(self.description) {
                    ""@
                } else {
                    "\n\n"@ + trim(self.description)
                },
            ],
        )
    }
}

fn after(label: &str, text: &str) -> (r: Vec<char>)
    ensures
        r@ == label@ + text@,
{
    let mut r = chars_of(label);
    push_str(&mut r, text);
    r
}

impl Request {
    /// The name without the word for its kind.
    pub fn stem(&self) -> (r: String)
        ensures
            r@ == self@.stem(),
    {
        string_of(&stem_of(&self.name, self.kind))
    }

    /// The index.pi of a new scope.
    pub fn scope_text(&self) -> (r: String)
        ensures
            r@ == self@.scope(),
    {
        let stem = self.stem();
        let pitch = prose(&self.description, 8);
        let description = prose(&first_sentence(&self.description), 8);
        let uses = if same(&self.keyword, "ui-component") {
            "use /lib\nuse /ui\n"
        } else {
            "use /lib\n"
        };
        let parts: Vec<&str> = vec![
            uses,
            "\nexport ",
            &self.keyword,
            " ",
            &self.name,
            ":\n    concept: {",
            &stem,
            "Concept}\n\nconcept ",
            &stem,
            "Concept:\n    pitch:\n",
            &pitch,
            "\n\n    shape: {",
            &stem,
            "Shape}\n\nshape ",
            &stem,
            "Shape:\n    description:\n",
            &description,
            "\n",
        ];
        proof {
            assert(views(parts@) =~= seq![
                uses@,
                "\nexport "@,
                self.keyword@,
                " "@,
                self.name@,
                ":\n    concept: {"@,
                stem@,
                "Concept}\n\nconcept "@,
                stem@,
                "Concept:\n    pitch:\n"@,
                pitch@,
                "\n\n    shape: {"@,
                stem@,
                "Shape}\n\nshape "@,
                stem@,
                "Shape:\n    description:\n"@,
                description@,
                "\n"@,
            ]);
        }
        concat_of(parts)
    }

    /// The concept or shape, as added to the end of a file.
    pub fn anchor_text(&self) -> (r: String)
        ensures
            r@ == self@.anchor(),
    {
        let text = prose(&self.description, 8);
        if self.kind == ComponentKind::Concept {
            let shape = match &self.shape {
                Some(shape) => {
                    let parts: Vec<&str> = vec!["\n\n    shape: {", shape, "}"];
                    proof {
                        assert(views(parts@) =~= seq!["\n\n    shape: {"@, shape@, "}"@]);
                    }
                    concat_of(parts)
                },
                None => "".to_owned(),
            };
            let parts: Vec<&str> = vec![
                "concept",
                " ",
                &self.name,
                ":\n",
                "    pitch:\n",
                &text,
                &shape,
                "\n",
            ];
            proof {
                assert(views(parts@) =~= seq![
                    "concept"@,
                    " "@,
                    self.name@,
                    ":\n"@,
                    "    pitch:\n"@,
                    text@,
                    shape@,
                    "\n"@,
                ]);
                assert(shape@ == self@.shape_line());
            }
            concat_of(parts)
        } else {
            let parts: Vec<&str> = vec![
                "shape",
                " ",
                &self.name,
                ":\n",
                "    description:\n",
                &text,
                "\n",
            ];
            proof {
                assert(views(parts@) =~= seq![
                    "shape"@,
                    " "@,
                    self.name@,
                    ":\n"@,
                    "    description:\n"@,
                    text@,
                    "\n"@,
                ]);
            }
            concat_of(parts)
        }
    }

    /// `existing` with the concept or shape added to its end, after a blank
    /// line.
    pub fn appended_to(&self, existing: &str) -> (r: String)
        ensures
            r@ == self@.appended(existing@),
    {
        let mut text = trimmed_end_of(&chars_of(existing), Class::Is('\n'));
        if text.len() > 0 {
            push_str(&mut text, "\n\n");
        }
        push_str(&mut text, &self.anchor_text());
        string_of(&text)
    }

    /// Where the component is written.
    pub fn target(&self, spec_dir: &str) -> (r: String)
        ensures
            r@ == (if self.kind == ComponentKind::Scope {
                index_in(spec_dir@, self.folder@)
            } else {
                join_path(spec_dir@, self.file@)
            }),
    {
        if self.kind == ComponentKind::Scope {
            index_file(spec_dir, &self.folder)
        } else {
            joined_path(spec_dir, &self.file)
        }
    }

    /// What writing the component into the spec under `spec_dir` comes to, or
    /// why it can't be written: `listing` is what there is of the file it is
    /// written to, and `existing` what that holds for a concept or a shape.
    pub fn write(&self, spec_dir: &str, listing: &Listing, existing: &str) -> (r: Result<
        Written,
        String,
    >)
        ensures
            self.kind == ComponentKind::Scope ==> (match problem_with_folder(
                self.folder@,
                listing@.files.contains(index_in(spec_dir@, self.folder@))
                    || listing@.folders.contains(index_in(spec_dir@, self.folder@)),
            ) {
                Some(problem) => r matches Err(e) && e@ == problem,
                None => r matches Ok(w) && w.file@ == index_in(spec_dir@, self.folder@)
                    && w.text@ == self@.scope(),
            }),
            self.kind != ComponentKind::Scope ==> (if self@.declared_already(existing@) {
                r matches Err(e) && e@ == self.name@ + " is already declared in "@ + self.file@
            } else {
                r matches Ok(w) && w.file@ == join_path(spec_dir@, self.file@) && w.text@
                    == self@.appended(existing@)
            }),
    {
        if self.kind == ComponentKind::Scope {
            if let Some(problem) = folder_problem(spec_dir, &self.folder, listing) {
                return Err(problem.to_owned());
            }
            return Ok(Written { file: self.target(spec_dir), text: self.scope_text() });
        }
        let names = declared_names(existing);
        let ghost all = pair_views(names@);
        let mut i: usize = 0;
        while i < names.len()
            invariant
                i <= names@.len(),
                all == pair_views(names@),
                all == declared(lines(existing@)),
                self.kind != ComponentKind::Scope,
                forall|k: int| 0 <= k < i ==> (#[trigger] all[k]).1 != self.name@,
            decreases names@.len() - i,
        {
            proof {
                assert(all[i as int] == (names@[i as int].0@, names@[i as int].1@));
            }
            if same(&names[i].1, &self.name) {
                let mut error = after(&self.name, " is already declared in ");
                push_str(&mut error, &self.file);
                return Err(string_of(&error));
            }
            i += 1;
        }
        Ok(Written { file: self.target(spec_dir), text: self.appended_to(existing) })
    }

    /// The prompt handing the component to `skill` to create.
    pub fn skill_prompt(&self, skill: &str) -> (r: String)
        ensures
            r@ == self@.prompt(skill@),
    {
        let mut fields: Vec<Vec<char>> = Vec::new();
        fields.push(after("Name: ", &self.name));
        match self.kind {
            ComponentKind::Scope => {
                fields.push(after("Kind: ", &self.keyword));
                fields.push(
                    after("Folder: ", &string_of(&trimmed(&chars_of(&self.folder)))),
                );
            },
            ComponentKind::Concept => {
                fields.push(after("File: ", &self.file));
                let shape: &str = match &self.shape {
                    Some(shape) => shape,
                    None => "None",
                };
                fields.push(after("Shape: ", shape));
            },
            ComponentKind::Shape => {
                fields.push(after("File: ", &self.file));
            },
        }
        proof {
            assert(views(fields@) =~= self@.fields());
        }
        let listed = string_of(&joined(&fields, "\n"));
        let description = chars_of(&self.description);
        let told = if is_all_white(&description) {
            "".to_owned()
        } else {
            string_of(&after("\n\n", &string_of(&trimmed(&description))))
        };
        let parts: Vec<&str> = vec![
            "/",
            skill,
            " Create a new ",
            self.kind.noun(),
            " named ",
            &self.name,
            ".\n\n",
            &listed,
            &told,
        ];
        proof {
            assert(views(parts@) =~= seq![
                "/"@,
                skill@,
                " Create a new "@,
                self.kind.noun_text(),
                " named "@,
                self.name@,
                ".\n\n"@,
                listed@,
                told@,
            ]);
        }
        concat_of(parts)
    }
}

// ---------------------------------------------------------------------------
// What holds of names
// ---------------------------------------------------------------------------

proof fn lemma_suffixes(kind: ComponentKind)
    ensures
        kind.suffix_text().len() > 0,
        !white(kind.suffix_text().last()),
{
    reveal_strlit("Scope");
    reveal_strlit("Concept");
    reveal_strlit("Shape");
}

/// A full name ends with the word for its kind, and is its own full name.
pub proof fn a_full_name_stays_as_it_is(typed: Seq<char>, kind: ComponentKind)
    ensures
        named(typed, kind).len() > 0 ==> kind.suffix_text().is_suffix_of(named(typed, kind)),
        named(named(typed, kind), kind) == named(typed, kind),
{
    lemma_suffixes(kind);
    lemma_trim_ends(typed);
    let suffix = kind.suffix_text();
    let start = trim(typed);
    let name = named(typed, kind);
    if start.len() > 0 && !suffix.is_suffix_of(start) {
        assert(name.subrange(name.len() - suffix.len(), name.len() as int) =~= suffix);
        assert(name[0] == start[0]);
        assert(name.last() == suffix.last());
    }
    lemma_trim_fixed(name);
}

// ---------------------------------------------------------------------------
// What holds of prose
// ---------------------------------------------------------------------------

/// Whether everything in some text that could read as syntax is escaped.
pub open spec fn escaped(s: Seq<char>) -> bool {
    forall|k: int|
        0 <= k < s.len() && reads_as_syntax(#[trigger] s[k]) ==> k > 0 && s[k - 1] == '\\'
}

pub proof fn lemma_chars_escaped(s: Seq<char>)
    ensures
        escaped(chars_escaped(s)),
        chars_escaped(s).len() >= s.len(),
    decreases s.len(),
{
    if s.len() > 0 {
        lemma_chars_escaped(s.drop_last());
        let before = chars_escaped(s.drop_last());
        let now = chars_escaped(s);
        assert forall|k: int| 0 <= k < now.len() && reads_as_syntax(#[trigger] now[k]) implies k
            > 0 && now[k - 1] == '\\' by {
            if k < before.len() {
                assert(now[k] == before[k]);
                assert(now[k - 1] == before[k - 1]);
            }
        }
    }
}

proof fn lemma_escaped_add(a: Seq<char>, b: Seq<char>)
    requires
        escaped(a),
        escaped(b),
    ensures
        escaped(a + b),
{
    let s = a + b;
    assert forall|k: int| 0 <= k < s.len() && reads_as_syntax(#[trigger] s[k]) implies k > 0 && s[k
        - 1] == '\\' by {
        if k < a.len() {
            assert(s[k] == a[k]);
        } else {
            assert(s[k] == b[k - a.len()]);
            assert(s[k - 1] == b[k - a.len() - 1]);
        }
    }
}

/// Escaping changes nothing before the first backslash it adds.
proof fn lemma_escaped_start(s: Seq<char>, n: int)
    requires
        0 <= n <= chars_escaped(s).len(),
        forall|k: int| 0 <= k < n ==> #[trigger] chars_escaped(s)[k] != '\\',
    ensures
        n <= s.len(),
        chars_escaped(s).take(n) == s.take(n),
    decreases s.len(),
{
    if s.len() > 0 {
        let rest = s.drop_last();
        let before = chars_escaped(rest);
        let now = chars_escaped(s);
        lemma_chars_escaped(rest);
        let m = if n < before.len() {
            n
        } else {
            before.len() as int
        };
        assert forall|k: int| 0 <= k < m implies #[trigger] before[k] != '\\' by {
            assert(now[k] == before[k]);
        }
        lemma_escaped_start(rest, m);
        assert(now.take(m) =~= before.take(m));
        assert(rest.take(m) =~= s.take(m));
        if n > before.len() {
            assert(now[before.len() as int] != '\\');
            if reads_as_syntax(s.last()) {
                assert(now[before.len() as int] == '\\');
            }
            assert(before.take(m) =~= before);
            assert(now.take(n) =~= s.take(n));
        }
    } else {
        assert(chars_escaped(s).take(n) =~= s.take(n));
    }
}

pub proof fn lemma_openings()
    ensures
        "-"@ == seq!['-'],
        "//"@ == seq!['/', '/'],
        "```"@ == seq!['`', '`', '`'],
        "~~~"@ == seq!['~', '~', '~'],
        "\n"@ == seq!['\n'],
{
    reveal_strlit("-");
    reveal_strlit("//");
    reveal_strlit("```");
    reveal_strlit("~~~");
    reveal_strlit("\n");
    assert("-"@ =~= seq!['-']);
    assert("//"@ =~= seq!['/', '/']);
    assert("```"@ =~= seq!['`', '`', '`']);
    assert("~~~"@ =~= seq!['~', '~', '~']);
    assert("\n"@ =~= seq!['\n']);
}

/// What starts an escaped line starts the line.
pub proof fn lemma_opening_stays(line: Seq<char>, opening: Seq<char>)
    requires
        opening.is_prefix_of(chars_escaped(line)),
        forall|k: int| 0 <= k < opening.len() ==> #[trigger] opening[k] != '\\',
    ensures
        opening.is_prefix_of(line),
{
    let n = opening.len() as int;
    assert forall|k: int| 0 <= k < n implies #[trigger] chars_escaped(line)[k] != '\\' by {
        assert(chars_escaped(line).subrange(0, n)[k] == opening[k]);
    }
    lemma_escaped_start(line, n);
    assert(chars_escaped(line).subrange(0, n) =~= chars_escaped(line).take(n));
    assert(line.subrange(0, n) =~= line.take(n));
}

proof fn lemma_line_escaped(line: Seq<char>)
    ensures
        escaped(line_escaped(line)),
        !opens_syntax(line_escaped(line)),
{
    lemma_openings();
    lemma_chars_escaped(line);
    let s = line_escaped(line);
    if opens_syntax(line) {
        lemma_escaped_add(seq!['\\'], chars_escaped(line));
        assert(s[0] == '\\');
        assert("-"@.is_prefix_of(s) ==> s.subrange(0, 1)[0] == '-');
        assert("//"@.is_prefix_of(s) ==> s.subrange(0, 2)[0] == '/');
        assert("```"@.is_prefix_of(s) ==> s.subrange(0, 3)[0] == '`');
        assert("~~~"@.is_prefix_of(s) ==> s.subrange(0, 3)[0] == '~');
    } else {
        assert(s =~= chars_escaped(line));
        if "-"@.is_prefix_of(s) {
            lemma_opening_stays(line, "-"@);
        }
        if "//"@.is_prefix_of(s) {
            lemma_opening_stays(line, "//"@);
        }
        if "```"@.is_prefix_of(s) {
            lemma_opening_stays(line, "```"@);
        }
        if "~~~"@.is_prefix_of(s) {
            lemma_opening_stays(line, "~~~"@);
        }
    }
}

/// Whether a line of prose is blank, or indented text that opens no syntax and
/// has all of its own escaped.
pub open spec fn safe_line(line: Seq<char>, indent: nat) -> bool {
    line.len() == 0 || (escaped(line) && repeat(' ', indent).is_prefix_of(line) && !opens_syntax(
        line.skip(indent as int),
    ))
}

proof fn lemma_prose_lines_safe(lines: Seq<Seq<char>>, indent: nat)
    ensures
        forall|k: int|
            0 <= k < prose_lines(lines, indent).len() ==> safe_line(
                #[trigger] prose_lines(lines, indent)[k],
                indent,
            ),
    decreases lines.len(),
{
    if lines.len() > 0 {
        lemma_prose_lines_safe(lines.drop_last(), indent);
        let before = prose_lines(lines.drop_last(), indent);
        let now = prose_lines(lines, indent);
        let line = trim(lines.last());
        let pad = repeat(' ', indent);
        if line.len() > 0 {
            lemma_line_escaped(line);
            lemma_escaped_add(pad, line_escaped(line));
            let shown = pad + line_escaped(line);
            assert(shown.subrange(0, indent as int) =~= pad);
            assert(shown.skip(indent as int) =~= line_escaped(line));
            assert(safe_line(shown, indent));
        }
        assert forall|k: int| 0 <= k < now.len() implies safe_line(#[trigger] now[k], indent) by {
            if k < before.len() {
                assert(now[k] == before[k]);
            }
        }
    }
}

proof fn lemma_escaped_join(parts: Seq<Seq<char>>)
    requires
        forall|k: int| 0 <= k < parts.len() ==> escaped(#[trigger] parts[k]),
    ensures
        escaped(join(parts, "\n"@)),
    decreases parts.len(),
{
    lemma_openings();
    if parts.len() > 1 {
        let rest = parts.drop_last();
        assert forall|k: int| 0 <= k < rest.len() implies escaped(#[trigger] rest[k]) by {
            assert(rest[k] == parts[k]);
        }
        lemma_escaped_join(rest);
        lemma_escaped_add(join(rest, "\n"@), "\n"@);
        assert(escaped(parts[parts.len() - 1]));
        lemma_escaped_add(join(rest, "\n"@) + "\n"@, parts.last());
    } else if parts.len() == 1 {
        assert(escaped(parts[0]));
    }
}

/// Nothing in prose reads as syntax: whatever of it could read as an
/// interpolation or a key has a backslash before it, and no line of it, past
/// its indent, opens a list item, a comment or a fence.
pub proof fn prose_reads_as_prose(text: Seq<char>, indent: nat)
    ensures
        escaped(prose_of(text, indent)),
        forall|k: int|
            0 <= k < prose_lines(lines(trim(text)), indent).len() ==> safe_line(
                #[trigger] prose_lines(lines(trim(text)), indent)[k],
                indent,
            ),
{
    let all = prose_lines(lines(trim(text)), indent);
    lemma_prose_lines_safe(lines(trim(text)), indent);
    assert forall|k: int| 0 <= k < all.len() implies escaped(#[trigger] all[k]) by {
        assert(safe_line(all[k], indent));
    }
    lemma_escaped_join(all);
}

// ---------------------------------------------------------------------------
// What holds of what is written
// ---------------------------------------------------------------------------

/// A line of some text is among its lines.
proof fn lemma_line_among(s: Seq<char>, i: int, start: int, end: int)
    requires
        0 <= i <= start <= end < s.len(),
        s[end] == '\n',
        start > i ==> s[start - 1] == '\n',
        forall|k: int| start <= k < end ==> #[trigger] s[k] != '\n',
    ensures
        lines_from(s, i).contains(chomp(s.subrange(start, end))),
    decreases start - i,
{
    broadcast use group_runs;

    let n = run_end(s, Class::Not('\n'), i);
    let first = chomp(s.subrange(i, n));
    if i == start {
        lemma_run_end_is(s, Class::Not('\n'), i, end);
        assert(lines_from(s, i)[0] == first);
    } else {
        if n >= start {
            assert(Class::Not('\n').has(s[start - 1]));
        }
        lemma_line_among(s, n + 1, start, end);
        let rest = lines_from(s, n + 1);
        let line = chomp(s.subrange(start, end));
        let k = choose|k: int| 0 <= k < rest.len() && rest[k] == line;
        assert(lines_from(s, i)[k + 1] == line);
    }
}

/// What a line declares is declared.
proof fn lemma_declared_among(lines: Seq<Seq<char>>, line: Seq<char>)
    requires
        lines.contains(line),
        declared_in(line) is Some,
    ensures
        declared(lines).contains(declared_in(line)->0),
    decreases lines.len(),
{
    let k = choose|k: int| 0 <= k < lines.len() && lines[k] == line;
    let all = declared(lines);
    if k == lines.len() - 1 {
        assert(all[all.len() - 1] == declared_in(line)->0);
    } else {
        let rest = lines.drop_last();
        assert(rest[k] == line);
        lemma_declared_among(rest, line);
        let at = choose|j: int|
            0 <= j < declared(rest).len() && declared(rest)[j] == declared_in(line)->0;
        assert(all[at] == declared_in(line)->0);
    }
}

proof fn lemma_keywords()
    ensures
        "concept"@.len() == 7,
        "shape"@.len() == 5,
        all_alphanumeric("concept"@),
        all_alphanumeric("shape"@),
        !qualifies("concept"@),
        !qualifies("shape"@),
        "concept"@ != "use"@,
        "concept"@ != "from"@,
        "shape"@ != "use"@,
        "shape"@ != "from"@,
        " "@ == seq![' '],
        ":\n"@ == seq![':', '\n'],
        "//"@ == seq!['/', '/'],
        "\n\n"@ == seq!['\n', '\n'],
{
    reveal_strlit("concept");
    reveal_strlit("shape");
    reveal_strlit("export");
    reveal_strlit("abstract");
    reveal_strlit("use");
    reveal_strlit("from");
    reveal_strlit(" ");
    reveal_strlit(":\n");
    reveal_strlit("//");
    reveal_strlit("\n\n");
    assert("concept"@.len() != "export"@.len());
    assert("concept"@.len() != "abstract"@.len());
    assert("shape"@.len() != "export"@.len());
    assert("shape"@.len() != "abstract"@.len());
    assert("concept"@.len() != "use"@.len() && "concept"@.len() != "from"@.len());
    assert("shape"@.len() != "use"@.len() && "shape"@.len() != "from"@.len());
    assert(" "@ =~= seq![' ']);
    assert(":\n"@ =~= seq![':', '\n']);
    assert("//"@ =~= seq!['/', '/']);
    assert("\n\n"@ =~= seq!['\n', '\n']);
}

/// Whether text has no white space in it, and no `/`.
spec fn plain(s: Seq<char>) -> bool {
    forall|k: int| 0 <= k < s.len() ==> !white(#[trigger] s[k]) && s[k] != '/'
}

proof fn lemma_alphanumeric_is_plain(s: Seq<char>)
    requires
        all_alphanumeric(s),
    ensures
        plain(s),
        name_like(s),
{
    assert forall|k: int| 0 <= k < s.len() implies !white(#[trigger] s[k]) && s[k] != '/'
        && Class::Name.has(s[k]) by {
        assert(ascii_alphanumeric(s[k]));
    }
}

/// Two words, and what they are the words of.
proof fn lemma_two_words(first: Seq<char>, second: Seq<char>)
    requires
        first.len() > 0,
        second.len() > 0,
        plain(first),
        plain(second),
    ensures
        words(first + seq![' '] + second) == seq![first, second],
{
    let code = first + seq![' '] + second;
    let n = first.len() as int;
    assert forall|k: int| 0 <= k < n implies Class::Visible.has(#[trigger] code[k]) by {
        assert(code[k] == first[k]);
    }
    assert forall|k: int| n + 1 <= k < code.len() implies Class::Visible.has(
        #[trigger] code[k],
    ) by {
        assert(code[k] == second[k - n - 1]);
    }
    assert(code[n] == ' ');
    assert(code[0] == first[0]);
    lemma_run_end_is(code, Class::White, 0, 0);
    lemma_run_end_is(code, Class::Visible, 0, n);
    lemma_run_end_is(code, Class::White, n, n + 1);
    lemma_run_end_is(code, Class::Visible, n + 1, code.len() as int);
    assert(code.subrange(0, n) =~= first);
    assert(code.subrange(n + 1, code.len() as int) =~= second);
    lemma_run_end_is(code, Class::White, code.len() as int, code.len() as int);
    assert(words_from(code, code.len() as int) =~= seq![]);
    assert(words_from(code, n) =~= seq![second]);
    assert(words(code) =~= seq![first, second]);
}

/// Three words, and what they are the words of.
proof fn lemma_three_words(first: Seq<char>, second: Seq<char>, third: Seq<char>)
    requires
        first.len() > 0,
        second.len() > 0,
        third.len() > 0,
        plain(first),
        plain(second),
        plain(third),
    ensures
        words(first + seq![' '] + second + seq![' '] + third) == seq![first, second, third],
{
    let code = first + seq![' '] + second + seq![' '] + third;
    let n = first.len() as int;
    let m = n + 1 + second.len();
    assert forall|k: int| 0 <= k < n implies Class::Visible.has(#[trigger] code[k]) by {
        assert(code[k] == first[k]);
    }
    assert forall|k: int| n + 1 <= k < m implies Class::Visible.has(#[trigger] code[k]) by {
        assert(code[k] == second[k - n - 1]);
    }
    assert forall|k: int| m + 1 <= k < code.len() implies Class::Visible.has(
        #[trigger] code[k],
    ) by {
        assert(code[k] == third[k - m - 1]);
    }
    assert(code[n] == ' ' && code[m] == ' ');
    assert(code[0] == first[0]);
    assert(code[n + 1] == second[0]);
    lemma_run_end_is(code, Class::White, 0, 0);
    lemma_run_end_is(code, Class::Visible, 0, n);
    lemma_run_end_is(code, Class::White, n, n + 1);
    lemma_run_end_is(code, Class::Visible, n + 1, m);
    lemma_run_end_is(code, Class::White, m, m + 1);
    lemma_run_end_is(code, Class::Visible, m + 1, code.len() as int);
    assert(code.subrange(0, n) =~= first);
    assert(code.subrange(n + 1, m) =~= second);
    assert(code.subrange(m + 1, code.len() as int) =~= third);
    lemma_run_end_is(code, Class::White, code.len() as int, code.len() as int);
    assert(words_from(code, code.len() as int) =~= seq![]);
    assert(words_from(code, m) =~= seq![third]);
    assert(words_from(code, n) =~= seq![second, third]);
    assert(words(code) =~= seq![first, second, third]);
}

/// A line of code and a colon, with no `/` in it, is read as the words of the
/// code.
proof fn lemma_code_line(code: Seq<char>)
    requires
        code.len() > 0,
        !white(code[0]),
        forall|k: int| 0 <= k < code.len() ==> #[trigger] code[k] != '/',
    ensures
        declared_in(code.push(':')) == declared_by(words(code)),
{
    lemma_keywords();
    let line = code.push(':');
    assert forall|k: int| 0 <= k <= line.len() implies !stands_at(line, "//"@, k) by {
        if stands_at(line, "//"@, k) {
            assert(line.subrange(k, k + 2)[0] == '/');
            assert(line[k] == '/');
            if k < code.len() {
                assert(line[k] == code[k]);
            }
        }
    }
    lemma_find_none(line, "//"@, 0);
    assert(line.take(line.len() as int) =~= line);
    assert(trim_end(line) =~= line) by {
        assert(run_start(line, Class::White, line.len() as int) == line.len());
    }
    assert(line.drop_last() =~= code);
    assert(line[0] == code[0]);
}

/// A keyword and a name before a colon declare the name.
proof fn lemma_declares(keyword: Seq<char>, name: Seq<char>)
    requires
        keyword.len() > 0,
        name.len() > 0,
        plain(keyword),
        all_alphanumeric(name),
        !qualifies(keyword),
        keyword != "use"@,
        keyword != "from"@,
    ensures
        declared_in((keyword + seq![' '] + name).push(':')) == Some((keyword, name)),
{
    lemma_alphanumeric_is_plain(name);
    let code = keyword + seq![' '] + name;
    let n = keyword.len() as int;
    assert(code[0] == keyword[0]);
    assert forall|k: int| 0 <= k < code.len() implies #[trigger] code[k] != '/' by {
        assert(code[k] == if k < n {
            keyword[k]
        } else if k == n {
            ' '
        } else {
            name[k - n - 1]
        });
    }
    lemma_code_line(code);
    lemma_two_words(keyword, name);
    assert(qualifiers_end(words(code), 0) == 0);
}

/// One that is exported declares it too.
proof fn lemma_declares_exported(keyword: Seq<char>, name: Seq<char>)
    requires
        keyword.len() > 0,
        name.len() > 0,
        plain(keyword),
        all_alphanumeric(name),
        !qualifies(keyword),
        keyword != "use"@,
        keyword != "from"@,
    ensures
        declared_in(("export"@ + seq![' '] + keyword + seq![' '] + name).push(':')) == Some(
            (keyword, name),
        ),
{
    reveal_strlit("export");
    let export = "export"@;
    assert(plain(export));
    lemma_alphanumeric_is_plain(name);
    let code = export + seq![' '] + keyword + seq![' '] + name;
    let n = export.len() as int;
    let m = n + 1 + keyword.len();
    assert(code[0] == export[0]);
    assert forall|k: int| 0 <= k < code.len() implies #[trigger] code[k] != '/' by {
        assert(code[k] == if k < n {
            export[k]
        } else if k == n || k == m {
            ' '
        } else if k < m {
            keyword[k - n - 1]
        } else {
            name[k - m - 1]
        });
    }
    lemma_code_line(code);
    lemma_three_words(export, keyword, name);
    let all = words(code);
    assert(all[1] == keyword && all[2] == name);
    assert(qualifiers_end(all, 1) == 1);
    assert(qualifiers_end(all, 0) == 1);
}

/// The concept or shape starts with the line declaring it.
proof fn lemma_anchor_start(request: RequestView)
    ensures
        exists|rest: Seq<char>|
            request.anchor() == #[trigger] ((request.anchor_keyword() + seq![' ']
                + request.name).push(':').push('\n') + rest),
{
    lemma_keywords();
    let line = (request.anchor_keyword() + seq![' '] + request.name).push(':').push('\n');
    if request.kind == ComponentKind::Concept {
        let parts = seq![
            request.anchor_keyword(),
            " "@,
            request.name,
            ":\n"@,
            "    pitch:\n"@,
            prose_of(request.description, 8),
            request.shape_line(),
            "\n"@,
        ];
        lemma_concat_split(parts, 4);
        assert(parts.take(4) =~= seq![request.anchor_keyword(), " "@, request.name, ":\n"@]);
        lemma_concat_four(request.anchor_keyword(), " "@, request.name, ":\n"@);
        assert(concat(parts.take(4)) =~= line);
        assert(request.anchor() =~= line + concat(parts.skip(4)));
    } else {
        let parts = seq![
            request.anchor_keyword(),
            " "@,
            request.name,
            ":\n"@,
            "    description:\n"@,
            prose_of(request.description, 8),
            "\n"@,
        ];
        lemma_concat_split(parts, 4);
        assert(parts.take(4) =~= seq![request.anchor_keyword(), " "@, request.name, ":\n"@]);
        lemma_concat_four(request.anchor_keyword(), " "@, request.name, ":\n"@);
        assert(concat(parts.take(4)) =~= line);
        assert(request.anchor() =~= line + concat(parts.skip(4)));
    }
}

proof fn lemma_concat_split(parts: Seq<Seq<char>>, n: int)
    requires
        0 <= n <= parts.len(),
    ensures
        concat(parts) == concat(parts.take(n)) + concat(parts.skip(n)),
    decreases parts.len() - n,
{
    if n == parts.len() {
        assert(parts.take(n) =~= parts);
        assert(concat(parts.skip(n)) =~= seq![]);
        assert(concat(parts) =~= concat(parts) + concat(parts.skip(n)));
    } else {
        let rest = parts.drop_last();
        lemma_concat_split(rest, n);
        assert(rest.take(n) =~= parts.take(n));
        assert(parts.skip(n).drop_last() =~= rest.skip(n));
        assert(concat(parts) =~= concat(parts.take(n)) + concat(parts.skip(n)));
    }
}

proof fn lemma_concat_four(a: Seq<char>, b: Seq<char>, c: Seq<char>, d: Seq<char>)
    ensures
        concat(seq![a, b, c, d]) == a + b + c + d,
{
    reveal_with_fuel(concat, 5);
    assert(seq![a, b, c, d].drop_last() =~= seq![a, b, c]);
    assert(seq![a, b, c].drop_last() =~= seq![a, b]);
    assert(seq![a, b].drop_last() =~= seq![a]);
    assert(seq![a].drop_last() =~= seq![]);
    assert(concat(seq![a, b, c, d]) =~= a + b + c + d);
}

/// A concept or shape added to a file is declared in it from then on, so
/// adding it again is refused.
pub proof fn what_is_written_is_declared(request: RequestView, existing: Seq<char>)
    requires
        request.kind != ComponentKind::Scope,
        request.name.len() > 0,
        all_alphanumeric(request.name),
    ensures
        request.declared_already(request.appended(existing)),
{
    lemma_keywords();
    lemma_anchor_start(request);
    let keyword = request.anchor_keyword();
    let line = (keyword + seq![' '] + request.name).push(':');
    let rest = choose|rest: Seq<char>| request.anchor() == #[trigger] (line.push('\n') + rest);
    let kept = trim_end_of(existing, Class::Is('\n'));
    let before = if kept.len() > 0 {
        kept + "\n\n"@
    } else {
        kept
    };
    let text = request.appended(existing);
    let start = before.len() as int;
    let end = start + line.len();
    assert(text =~= before + line.push('\n') + rest);
    assert(text.subrange(start, end) =~= line);
    assert forall|k: int| start <= k < end implies #[trigger] text[k] != '\n' by {
        let j = k - start;
        assert(text[k] == line[j]);
        if j < keyword.len() {
            assert(line[j] == keyword[j]);
            assert(ascii_alphanumeric(keyword[j]));
        } else if keyword.len() < j < line.len() - 1 {
            assert(line[j] == request.name[j - keyword.len() - 1]);
            assert(ascii_alphanumeric(request.name[j - keyword.len() - 1]));
        }
    }
    assert(text[end] == '\n');
    lemma_line_among(text, 0, start, end);
    assert(chomp(line) == line);
    lemma_alphanumeric_is_plain(keyword);
    lemma_declares(keyword, request.name);
    lemma_declared_among(lines(text), line);
    let all = declared(lines(text));
    let k = choose|k: int| 0 <= k < all.len() && all[k] == (keyword, request.name);
    assert(all[k].1 == request.name);
}

// ---------------------------------------------------------------------------
// What texts declare, piece by piece
// ---------------------------------------------------------------------------

/// What a text declares.
pub open spec fn declared_by_text(s: Seq<char>) -> Seq<(Seq<char>, Seq<char>)> {
    declared(lines(s))
}

proof fn lemma_declared_add(a: Seq<Seq<char>>, b: Seq<Seq<char>>)
    ensures
        declared(a + b) == declared(a) + declared(b),
    decreases b.len(),
{
    if b.len() == 0 {
        assert(a + b =~= a);
        assert(declared(a) + declared(b) =~= declared(a));
    } else {
        assert((a + b).drop_last() =~= a + b.drop_last());
        lemma_declared_add(a, b.drop_last());
        assert(declared(a + b) =~= declared(a) + declared(b));
    }
}

/// A run in the rest of a text is a run in it.
proof fn lemma_run_after(a: Seq<char>, b: Seq<char>, i: int)
    requires
        0 <= i <= b.len(),
    ensures
        run_end(a + b, Class::Not('\n'), a.len() + i) == a.len() + run_end(
            b,
            Class::Not('\n'),
            i,
        ),
    decreases b.len() - i,
{
    if i < b.len() && b[i] != '\n' {
        assert((a + b)[a.len() + i] == b[i]);
        lemma_run_after(a, b, i + 1);
    } else if i < b.len() {
        assert((a + b)[a.len() + i] == b[i]);
    }
}

proof fn lemma_lines_after(a: Seq<char>, b: Seq<char>, i: int)
    requires
        0 <= i <= b.len(),
    ensures
        lines_from(a + b, a.len() + i) == lines_from(b, i),
    decreases b.len() - i,
{
    broadcast use group_runs;

    lemma_run_after(a, b, i);
    let n = run_end(b, Class::Not('\n'), i);
    if i < b.len() {
        if n >= b.len() {
            assert((a + b).skip(a.len() + i) =~= b.skip(i));
        } else {
            assert((a + b).subrange(a.len() + i, a.len() + n) =~= b.subrange(i, n));
            lemma_lines_after(a, b, n + 1);
        }
    }
}

proof fn lemma_lines_before(a: Seq<char>, b: Seq<char>, i: int)
    requires
        0 <= i <= a.len(),
        a.len() > 0 ==> a.last() == '\n',
    ensures
        lines_from(a + b, i) == lines_from(a, i) + lines(b),
    decreases a.len() - i,
{
    broadcast use group_runs;

    let s = a + b;
    if i == a.len() {
        lemma_lines_after(a, b, 0);
        assert(lines_from(a, i) + lines(b) =~= lines(b));
    } else {
        let n = run_end(a, Class::Not('\n'), i);
        if n >= a.len() {
            assert(Class::Not('\n').has(a[a.len() - 1]));
            assert(false);
        }
        assert forall|k: int| i <= k < n implies Class::Not('\n').has(#[trigger] s[k]) by {
            assert(s[k] == a[k]);
        }
        assert(s[n] == a[n]);
        lemma_run_end_is(s, Class::Not('\n'), i, n);
        assert(s.subrange(i, n) =~= a.subrange(i, n));
        lemma_lines_before(a, b, n + 1);
        assert(lines_from(s, i) =~= lines_from(a, i) + lines(b));
    }
}

/// A text whose lines are over declares what it does, whatever comes after it.
proof fn lemma_declared_text_add(a: Seq<char>, b: Seq<char>)
    requires
        a.len() > 0 ==> a.last() == '\n',
    ensures
        declared_by_text(a + b) == declared_by_text(a) + declared_by_text(b),
{
    lemma_lines_before(a, b, 0);
    lemma_declared_add(lines(a), lines(b));
}

/// Whether every line of a text is blank or starts with white space.
spec fn quiet(s: Seq<char>) -> bool {
    forall|k: int|
        0 <= k < s.len() && (k == 0 || s[k - 1] == '\n') ==> white(#[trigger] s[k])
}

proof fn lemma_quiet_lines(s: Seq<char>, i: int)
    requires
        quiet(s),
        0 <= i <= s.len(),
        i > 0 ==> s[i - 1] == '\n',
    ensures
        declared(lines_from(s, i)) == Seq::<(Seq<char>, Seq<char>)>::empty(),
    decreases s.len() - i,
{
    broadcast use group_runs;

    let n = run_end(s, Class::Not('\n'), i);
    if i < s.len() {
        assert(white(s[i]));
        let line = if n >= s.len() {
            s.skip(i)
        } else {
            chomp(s.subrange(i, n))
        };
        if line.len() > 0 {
            assert(line[0] == s[i]);
        } else {
            lemma_nothing_declared();
            assert(line =~= seq![]);
        }
        assert(declared_in(line) is None);
        reveal_with_fuel(declared, 2);
        assert(seq![line].drop_last() =~= seq![]);
        assert(declared(seq![line]) =~= seq![]);
        if n < s.len() {
            lemma_quiet_lines(s, n + 1);
            lemma_declared_add(seq![line], lines_from(s, n + 1));
            assert(declared(lines_from(s, i)) =~= seq![]);
        }
    }
}

proof fn lemma_nothing_declared()
    ensures
        declared_in(Seq::<char>::empty()) is None,
{
    broadcast use group_runs;

    let line = Seq::<char>::empty();
    assert(find_from(line, "//"@, 0) == 0);
    assert(uncommented(line).len() == 0);
}

/// Lines that are blank or start with white space declare nothing.
proof fn lemma_quiet(s: Seq<char>)
    requires
        quiet(s),
    ensures
        declared_by_text(s) == Seq::<(Seq<char>, Seq<char>)>::empty(),
{
    lemma_quiet_lines(s, 0);
}

proof fn lemma_quiet_add(a: Seq<char>, b: Seq<char>)
    requires
        quiet(a),
        quiet(b),
    ensures
        quiet(a + b),
{
    let s = a + b;
    assert forall|k: int| 0 <= k < s.len() && (k == 0 || s[k - 1] == '\n') implies white(
        #[trigger] s[k],
    ) by {
        if k < a.len() {
            assert(s[k] == a[k]);
            if k > 0 {
                assert(s[k - 1] == a[k - 1]);
            }
        } else {
            assert(s[k] == b[k - a.len()]);
            if k > a.len() {
                assert(s[k - 1] == b[k - a.len() - 1]);
            }
        }
    }
}

/// Text without a line break may go on a line.
proof fn lemma_quiet_goes_on(a: Seq<char>, b: Seq<char>)
    requires
        quiet(a),
        a.len() > 0,
        a.last() != '\n',
        forall|k: int| 0 <= k < b.len() ==> #[trigger] b[k] != '\n',
    ensures
        quiet(a + b),
{
    let s = a + b;
    assert forall|k: int| 0 <= k < s.len() && (k == 0 || s[k - 1] == '\n') implies white(
        #[trigger] s[k],
    ) by {
        if k < a.len() {
            assert(s[k] == a[k]);
            if k > 0 {
                assert(s[k - 1] == a[k - 1]);
            }
        } else if k > a.len() {
            assert(s[k - 1] == b[k - a.len() - 1]);
        } else {
            assert(s[k - 1] == a.last());
        }
    }
}

/// Whether text has no line break in it.
pub open spec fn unbroken(s: Seq<char>) -> bool {
    forall|k: int| 0 <= k < s.len() ==> #[trigger] s[k] != '\n'
}

pub proof fn lemma_lines_unbroken(s: Seq<char>, i: int)
    requires
        0 <= i <= s.len(),
    ensures
        forall|k: int| 0 <= k < lines_from(s, i).len() ==> unbroken(#[trigger] lines_from(s, i)[k]),
    decreases s.len() - i,
{
    broadcast use group_runs;

    let n = run_end(s, Class::Not('\n'), i);
    if i < s.len() {
        let all = lines_from(s, i);
        let first = all[0];
        assert(unbroken(first)) by {
            assert forall|k: int| 0 <= k < first.len() implies #[trigger] first[k] != '\n' by {
                assert(first[k] == s[i + k]);
                assert(Class::Not('\n').has(s[i + k]));
            }
        }
        if n < s.len() {
            lemma_lines_unbroken(s, n + 1);
            let rest = lines_from(s, n + 1);
            assert forall|k: int| 0 <= k < all.len() implies unbroken(#[trigger] all[k]) by {
                if k > 0 {
                    assert(all[k] == rest[k - 1]);
                }
            }
        }
    }
}

proof fn lemma_chars_escaped_unbroken(s: Seq<char>)
    requires
        unbroken(s),
    ensures
        unbroken(chars_escaped(s)),
    decreases s.len(),
{
    if s.len() > 0 {
        let rest = s.drop_last();
        assert forall|k: int| 0 <= k < rest.len() implies #[trigger] rest[k] != '\n' by {
            assert(rest[k] == s[k]);
        }
        lemma_chars_escaped_unbroken(rest);
        assert(s[s.len() - 1] != '\n');
        let before = chars_escaped(rest);
        let now = chars_escaped(s);
        assert forall|k: int| 0 <= k < now.len() implies #[trigger] now[k] != '\n' by {
            if k < before.len() {
                assert(now[k] == before[k]);
            }
        }
    }
}

proof fn lemma_trim_unbroken(s: Seq<char>)
    requires
        unbroken(s),
    ensures
        unbroken(trim(s)),
{
    broadcast use group_runs;

    let n = run_end(s, Class::White, 0);
    let t = trim(s);
    assert forall|k: int| 0 <= k < t.len() implies #[trigger] t[k] != '\n' by {
        assert(t[k] == s[n + k]);
    }
}

/// A line of prose is quiet and unbroken.
pub open spec fn prose_line(line: Seq<char>) -> bool {
    unbroken(line) && (line.len() > 0 ==> line[0] == ' ')
}

pub proof fn lemma_prose_lines(lines: Seq<Seq<char>>, indent: nat)
    requires
        indent > 0,
        forall|k: int| 0 <= k < lines.len() ==> unbroken(#[trigger] lines[k]),
    ensures
        forall|k: int|
            0 <= k < prose_lines(lines, indent).len() ==> prose_line(
                #[trigger] prose_lines(lines, indent)[k],
            ),
    decreases lines.len(),
{
    if lines.len() > 0 {
        let rest = lines.drop_last();
        assert forall|k: int| 0 <= k < rest.len() implies unbroken(#[trigger] rest[k]) by {
            assert(rest[k] == lines[k]);
        }
        lemma_prose_lines(rest, indent);
        assert(unbroken(lines[lines.len() - 1]));
        lemma_trim_unbroken(lines.last());
        let line = trim(lines.last());
        lemma_chars_escaped_unbroken(line);
        let shown = repeat(' ', indent) + line_escaped(line);
        assert(prose_line(shown)) by {
            assert(shown[0] == ' ');
            assert forall|k: int| 0 <= k < shown.len() implies #[trigger] shown[k] != '\n' by {
                let j = k - indent;
                if j >= 0 {
                    assert(shown[k] == line_escaped(line)[j]);
                    if opens_syntax(line) && j > 0 {
                        assert(line_escaped(line)[j] == chars_escaped(line)[j - 1]);
                    } else if !opens_syntax(line) {
                        assert(line_escaped(line)[j] == chars_escaped(line)[j]);
                    }
                }
            }
        }
        let before = prose_lines(rest, indent);
        let now = prose_lines(lines, indent);
        assert forall|k: int| 0 <= k < now.len() implies prose_line(#[trigger] now[k]) by {
            if k < before.len() {
                assert(now[k] == before[k]);
            }
        }
    }
}

proof fn lemma_prose_joined(parts: Seq<Seq<char>>)
    requires
        forall|k: int| 0 <= k < parts.len() ==> prose_line(#[trigger] parts[k]),
    ensures
        quiet(join(parts, "\n"@)),
    decreases parts.len(),
{
    lemma_openings();
    if parts.len() == 1 {
        assert(prose_line(parts[0]));
    } else if parts.len() > 1 {
        let rest = parts.drop_last();
        assert forall|k: int| 0 <= k < rest.len() implies prose_line(#[trigger] rest[k]) by {
            assert(rest[k] == parts[k]);
        }
        lemma_prose_joined(rest);
        assert(prose_line(parts[parts.len() - 1]));
        lemma_quiet_add(join(rest, "\n"@), "\n"@);
        assert(quiet(parts.last()));
        lemma_quiet_add(join(rest, "\n"@) + "\n"@, parts.last());
    }
}

/// Prose declares nothing, whatever it says.
proof fn lemma_prose_quiet(text: Seq<char>)
    ensures
        quiet(prose_of(text, 8)),
{
    lemma_lines_unbroken(trim(text), 0);
    lemma_prose_lines(lines(trim(text)), 8);
    lemma_prose_joined(prose_lines(lines(trim(text)), 8));
}

/// A line that declares a name declares it and nothing else.
proof fn lemma_declaring_line(line: Seq<char>)
    requires
        line.len() > 0,
        unbroken(line),
        line.last() == ':',
        declared_in(line) is Some,
    ensures
        declared_by_text(line.push('\n')) == seq![declared_in(line)->0],
{
    let s = line.push('\n');
    let n = line.len() as int;
    assert forall|k: int| 0 <= k < n implies Class::Not('\n').has(#[trigger] s[k]) by {
        assert(s[k] == line[k]);
    }
    assert(s[n] == '\n');
    lemma_run_end_is(s, Class::Not('\n'), 0, n);
    assert(s.subrange(0, n) =~= line);
    assert(lines_from(s, n + 1) =~= seq![]);
    assert(lines(s) =~= seq![line]);
    reveal_with_fuel(declared, 2);
    assert(seq![line].drop_last() =~= seq![]);
    assert(declared(seq![line]) =~= seq![declared_in(line)->0]);
}

proof fn lemma_plain_unbroken(s: Seq<char>)
    requires
        plain(s),
    ensures
        unbroken(s),
{
    assert forall|k: int| 0 <= k < s.len() implies #[trigger] s[k] != '\n' by {
        assert(!white(s[k]));
    }
}

/// What the line declaring a name declares.
proof fn lemma_header(keyword: Seq<char>, name: Seq<char>)
    requires
        keyword.len() > 0,
        name.len() > 0,
        plain(keyword),
        all_alphanumeric(name),
        !qualifies(keyword),
        keyword != "use"@,
        keyword != "from"@,
    ensures
        declared_by_text((keyword + seq![' '] + name).push(':').push('\n')) == seq![(keyword, name)],
        declared_by_text(
            ("export"@ + seq![' '] + keyword + seq![' '] + name).push(':').push('\n'),
        ) == seq![(keyword, name)],
{
    lemma_alphanumeric_is_plain(name);
    lemma_plain_unbroken(keyword);
    lemma_plain_unbroken(name);
    lemma_declares(keyword, name);
    let line = (keyword + seq![' '] + name).push(':');
    assert(unbroken(line)) by {
        assert forall|k: int| 0 <= k < line.len() implies #[trigger] line[k] != '\n' by {
            let n = keyword.len() as int;
            if k < n {
                assert(line[k] == keyword[k]);
            } else if n < k < line.len() - 1 {
                assert(line[k] == name[k - n - 1]);
            }
        }
    }
    lemma_declaring_line(line);
    lemma_declares_exported(keyword, name);
    reveal_strlit("export");
    let exported = ("export"@ + seq![' '] + keyword + seq![' '] + name).push(':');
    assert(unbroken(exported)) by {
        assert forall|k: int| 0 <= k < exported.len() implies #[trigger] exported[k] != '\n' by {
            let m = 7 + keyword.len();
            if k < 6 {
                assert(exported[k] == "export"@[k]);
            } else if 6 < k < m {
                assert(exported[k] == keyword[k - 7]);
            } else if m < k < exported.len() - 1 {
                assert(exported[k] == name[k - m - 1]);
            }
        }
    }
    lemma_declaring_line(exported);
}

pub proof fn lemma_concat_push(parts: Seq<Seq<char>>, part: Seq<char>)
    ensures
        concat(parts.push(part)) == concat(parts) + part,
{
    assert(parts.push(part).drop_last() =~= parts);
}

/// `existing` declares what it does without the line breaks that end it, and one
/// after them.
proof fn lemma_kept_declares(existing: Seq<char>)
    ensures
        ({
            let kept = trim_end_of(existing, Class::Is('\n'));
            &&& kept.len() > 0 ==> declared_by_text(kept + "\n\n"@) == declared_by_text(existing)
            &&& kept.len() == 0 ==> declared_by_text(existing) == Seq::<
                (Seq<char>, Seq<char>),
            >::empty()
        }),
{
    broadcast use group_runs;

    lemma_keywords();
    let kept = trim_end_of(existing, Class::Is('\n'));
    let n = kept.len() as int;
    let rest = existing.skip(n);
    assert(kept + rest =~= existing);
    assert forall|k: int| 0 <= k < rest.len() implies #[trigger] rest[k] == '\n' by {
        assert(rest[k] == existing[n + k]);
        assert(Class::Is('\n').has(existing[n + k]));
    }
    if n == 0 {
        assert(kept + rest =~= rest);
        assert(quiet(rest));
        lemma_quiet(rest);
    } else {
        let once = kept.push('\n');
        lemma_last_line(kept);
        let more = seq!['\n'];
        assert(kept + "\n\n"@ =~= once + more);
        assert(quiet(more));
        lemma_quiet(more);
        lemma_declared_text_add(once, more);
        assert(declared_by_text(kept + "\n\n"@) =~= declared_by_text(once));
        if rest.len() > 0 {
            let after = rest.skip(1);
            assert forall|k: int| 0 <= k < after.len() implies #[trigger] after[k] == '\n' by {
                assert(after[k] == rest[k + 1]);
            }
            assert(quiet(after));
            lemma_quiet(after);
            assert(rest[0] == '\n');
            assert(once + after =~= existing);
            lemma_declared_text_add(once, after);
            assert(declared_by_text(existing) =~= declared_by_text(once));
        } else {
            assert(existing =~= kept);
        }
    }
}

/// A line break after a text that ends without one changes nothing of what it
/// declares.
proof fn lemma_last_line(s: Seq<char>)
    requires
        s.len() > 0,
        s.last() != '\n',
    ensures
        declared_by_text(s.push('\n')) == declared_by_text(s),
{
    broadcast use group_runs;

    let start = run_start(s, Class::Not('\n'), s.len() as int);
    let head = s.take(start);
    let line = s.skip(start);
    assert(head + line =~= s);
    if start > 0 {
        assert(head.last() == s[start - 1]);
    }
    assert(Class::Not('\n').has(s[s.len() - 1]));
    if start == s.len() {
        assert(!Class::Not('\n').has(s[start - 1]));
    }
    lemma_declared_text_add(head, line);
    lemma_declared_text_add(head, line.push('\n'));
    assert(head + line.push('\n') =~= s.push('\n'));
    let n = line.len() as int;
    let over = line.push('\n');
    assert forall|k: int| 0 <= k < n implies Class::Not('\n').has(#[trigger] line[k]) by {
        assert(line[k] == s[start + k]);
    }
    assert forall|k: int| 0 <= k < n implies Class::Not('\n').has(#[trigger] over[k]) by {
        assert(over[k] == line[k]);
    }
    lemma_run_end_is(line, Class::Not('\n'), 0, n);
    lemma_run_end_is(over, Class::Not('\n'), 0, n);
    assert(line.skip(0) =~= line);
    assert(lines(line) =~= seq![line]);
    assert(over.subrange(0, n) =~= line);
    assert(lines_from(over, n + 1) =~= seq![]);
    assert(lines(over) =~= seq![chomp(line)]);
    if line.last() == '\r' {
        lemma_chomped(line.drop_last());
        assert(line.drop_last().push('\r') =~= line);
    }
    reveal_with_fuel(declared, 2);
    assert(seq![line].drop_last() =~= seq![]);
    assert(seq![chomp(line)].drop_last() =~= seq![]);
    assert(declared(seq![line]) =~= declared(seq![chomp(line)]));
}

/// A carriage return at the end of a line changes nothing of what it declares.
proof fn lemma_chomped(line: Seq<char>)
    ensures
        declared_in(line.push('\r')) == declared_in(line),
{
    broadcast use group_runs;

    lemma_keywords();
    let more = line.push('\r');
    lemma_find_pushed(line, 0);
    let at = find_from(line, "//"@, 0);
    if at < line.len() {
        assert(more.take(at) =~= line.take(at));
    } else {
        assert(more.take(more.len() as int) =~= more);
        assert(line.take(line.len() as int) =~= line);
        lemma_trim_end_pushed(line, line.len() as int);
    }
    if line.len() == 0 {
        lemma_nothing_declared();
        assert(line =~= seq![]);
        assert(white(more[0]));
    } else {
        assert(more[0] == line[0]);
    }
}

proof fn lemma_find_pushed(line: Seq<char>, i: int)
    requires
        0 <= i <= line.len(),
    ensures
        ({
            let at = find_from(line, "//"@, i);
            let more = find_from(line.push('\r'), "//"@, i);
            &&& i <= at <= line.len()
            &&& at < line.len() ==> more == at
            &&& at == line.len() ==> more == line.len() + 1
        }),
    decreases line.len() - i,
{
    lemma_keywords();
    let more = line.push('\r');
    let mark = "//"@;
    if i < line.len() {
        if stands_at(line, mark, i) {
            assert(more.subrange(i, i + 2) =~= line.subrange(i, i + 2));
        } else {
            if stands_at(more, mark, i) {
                assert(more.subrange(i, i + 2)[1] == '/');
                assert(more[i + 1] == '/');
                assert(i + 1 < line.len());
                assert(more.subrange(i, i + 2) =~= line.subrange(i, i + 2));
            }
            lemma_find_pushed(line, i + 1);
        }
    } else {
        if stands_at(more, mark, i) {
            assert(more.subrange(i, i + 2)[0] == '/');
        }
        assert(find_from(more, mark, i) == find_from(more, mark, i + 1));
    }
}

proof fn lemma_trim_end_pushed(line: Seq<char>, i: int)
    requires
        i == line.len(),
    ensures
        trim_end(line.push('\r')) == trim_end(line),
{
    broadcast use group_runs;

    let more = line.push('\r');
    let n = line.len() as int;
    assert(Class::White.has(more[n]));
    assert(run_start(more, Class::White, n + 1) == run_start(more, Class::White, n));
    lemma_run_start_pushed(line, n);
    assert(trim_end(more) =~= trim_end(line));
}

proof fn lemma_run_start_pushed(line: Seq<char>, i: int)
    requires
        0 <= i <= line.len(),
    ensures
        run_start(line.push('\r'), Class::White, i) == run_start(line, Class::White, i),
    decreases i,
{
    if i > 0 {
        assert(line.push('\r')[i - 1] == line[i - 1]);
        lemma_run_start_pushed(line, i - 1);
    }
}

/// Three pieces, put together.
pub proof fn lemma_three_parts(a: Seq<char>, b: Seq<char>, c: Seq<char>)
    ensures
        concat(seq![a, b, c]) == a + (b + c),
{
    let none = Seq::<Seq<char>>::empty();
    lemma_concat_push(none, a);
    lemma_concat_push(none.push(a), b);
    lemma_concat_push(none.push(a).push(b), c);
    assert(seq![a, b, c] =~= none.push(a).push(b).push(c));
    assert(concat(none) + a + b + c =~= a + (b + c));
}

/// What starts the line that says which shape a concept has, and what ends it.
proof fn lemma_shape_pieces()
    ensures
        quiet("\n\n    shape: {"@),
        "\n\n    shape: {"@.len() > 0,
        "\n\n    shape: {"@.last() != '\n',
        "}"@ == seq!['}'],
        ""@ == Seq::<char>::empty(),
        quiet("\n"@),
{
    reveal_strlit("\n\n    shape: {");
    reveal_strlit("}");
    reveal_strlit("");
    reveal_strlit("\n");
    assert("}"@ =~= seq!['}']);
    assert(""@ =~= Seq::<char>::empty());
}

/// What says which shape a concept has goes on the line it is on.
proof fn lemma_shape_quiet(request: RequestView, before: Seq<char>)
    requires
        quiet(before),
        request.shape is Some ==> unbroken(request.shape->0),
    ensures
        quiet(before + request.shape_line() + "\n"@),
{
    lemma_shape_pieces();
    let line = request.shape_line();
    if request.shape is Some {
        let shape = request.shape->0;
        let start = "\n\n    shape: {"@;
        lemma_three_parts(start, shape, "}"@);
        lemma_quiet_goes_on(start, shape + "}"@);
    }
    lemma_quiet_add(before, line);
    lemma_quiet_add(before + line, "\n"@);
}

/// The pieces of a concept or shape, head and body.
proof fn lemma_two_parts(
    head: Seq<char>,
    opening: Seq<char>,
    prose: Seq<char>,
    more: Seq<char>,
    end: Seq<char>,
)
    ensures
        head + opening + prose + more + end == head + (opening + prose + more + end),
        head + opening + prose + end == head + (opening + prose + end),
{
    assert(head + opening + prose + more + end =~= head + (opening + prose + more + end));
    assert(head + opening + prose + end =~= head + (opening + prose + end));
}

/// The line that declares a concept or shape, as it is put together.
proof fn lemma_head_parts(keyword: Seq<char>, name: Seq<char>)
    ensures
        concat(
            Seq::<Seq<char>>::empty().push(keyword).push(" "@).push(name).push(":\n"@),
        ) == (keyword + seq![' '] + name).push(':').push('\n'),
{
    lemma_keywords();
    let none = Seq::<Seq<char>>::empty();
    lemma_concat_push(none, keyword);
    lemma_concat_push(none.push(keyword), " "@);
    lemma_concat_push(none.push(keyword).push(" "@), name);
    lemma_concat_push(none.push(keyword).push(" "@).push(name), ":\n"@);
    assert(concat(none) + keyword + seq![' '] + name + seq![':', '\n'] =~= (keyword + seq![' ']
        + name).push(':').push('\n'));
}

/// A concept, as added to a file, is the line that declares it and lines that
/// declare nothing.
proof fn lemma_concept_body(request: RequestView) -> (body: Seq<char>)
    requires
        request.kind == ComponentKind::Concept,
        request.shape is Some ==> unbroken(request.shape->0),
    ensures
        quiet(body),
        request.anchor() == (request.anchor_keyword() + seq![' '] + request.name).push(':').push(
            '\n',
        ) + body,
{
    let keyword = request.anchor_keyword();
    let prose = prose_of(request.description, 8);
    let opening = "    pitch:\n"@;
    let end = "\n"@;
    let line = request.shape_line();
    let head = (keyword + seq![' '] + request.name).push(':').push('\n');
    let four = Seq::<Seq<char>>::empty().push(keyword).push(" "@).push(request.name).push(":\n"@);
    lemma_head_parts(keyword, request.name);
    lemma_concat_push(four, opening);
    lemma_concat_push(four.push(opening), prose);
    lemma_concat_push(four.push(opening).push(prose), line);
    lemma_concat_push(four.push(opening).push(prose).push(line), end);
    assert(seq![keyword, " "@, request.name, ":\n"@, opening, prose, line, end] =~= four.push(
        opening,
    ).push(prose).push(line).push(end));
    lemma_two_parts(head, opening, prose, line, end);
    lemma_prose_quiet(request.description);
    lemma_opening_quiet();
    lemma_quiet_add(opening, prose);
    lemma_shape_quiet(request, opening + prose);
    opening + prose + line + end
}

/// So is a shape.
proof fn lemma_shape_body(request: RequestView) -> (body: Seq<char>)
    requires
        request.kind == ComponentKind::Shape,
    ensures
        quiet(body),
        request.anchor() == (request.anchor_keyword() + seq![' '] + request.name).push(':').push(
            '\n',
        ) + body,
{
    let keyword = request.anchor_keyword();
    let prose = prose_of(request.description, 8);
    let opening = "    description:\n"@;
    let end = "\n"@;
    let head = (keyword + seq![' '] + request.name).push(':').push('\n');
    let four = Seq::<Seq<char>>::empty().push(keyword).push(" "@).push(request.name).push(":\n"@);
    lemma_head_parts(keyword, request.name);
    lemma_concat_push(four, opening);
    lemma_concat_push(four.push(opening), prose);
    lemma_concat_push(four.push(opening).push(prose), end);
    assert(seq![keyword, " "@, request.name, ":\n"@, opening, prose, end] =~= four.push(
        opening,
    ).push(prose).push(end));
    lemma_two_parts(head, opening, prose, prose, end);
    lemma_prose_quiet(request.description);
    lemma_opening_quiet();
    lemma_quiet_add(opening, prose);
    lemma_quiet_add(opening + prose, end);
    opening + prose + end
}

proof fn lemma_opening_quiet()
    ensures
        quiet("    pitch:\n"@),
        quiet("    description:\n"@),
        quiet("\n"@),
{
    reveal_strlit("    pitch:\n");
    reveal_strlit("    description:\n");
    reveal_strlit("\n");
}

/// The concept or shape, as added to a file, declares its name and nothing else,
/// whatever its description.
proof fn lemma_anchor_declares(request: RequestView)
    requires
        request.kind != ComponentKind::Scope,
        request.name.len() > 0,
        all_alphanumeric(request.name),
        request.shape is Some ==> unbroken(request.shape->0),
    ensures
        declared_by_text(request.anchor()) == seq![(request.anchor_keyword(), request.name)],
{
    lemma_keywords();
    let keyword = request.anchor_keyword();
    let head = (keyword + seq![' '] + request.name).push(':').push('\n');
    lemma_alphanumeric_is_plain(keyword);
    lemma_header(keyword, request.name);
    let body = if request.kind == ComponentKind::Concept {
        lemma_concept_body(request)
    } else {
        lemma_shape_body(request)
    };
    lemma_quiet(body);
    lemma_declared_text_add(head, body);
    assert(declared_by_text(request.anchor()) =~= seq![(keyword, request.name)]);
}

/// Adding a concept or a shape to a file leaves every declaration in it as it
/// was, and adds exactly its own after them.
pub proof fn adding_adds_one_declaration(request: RequestView, existing: Seq<char>)
    requires
        request.kind != ComponentKind::Scope,
        request.name.len() > 0,
        all_alphanumeric(request.name),
        request.shape is Some ==> !request.shape->0.contains('\n'),
    ensures
        declared_by_text(request.appended(existing)) == declared_by_text(existing).push(
            (request.anchor_keyword(), request.name),
        ),
{
    lemma_keywords();
    if request.shape is Some {
        let shape = request.shape->0;
        assert forall|k: int| 0 <= k < shape.len() implies #[trigger] shape[k] != '\n' by {
            assert(shape.contains(shape[k]));
        }
    }
    lemma_anchor_declares(request);
    lemma_kept_declares(existing);
    let kept = trim_end_of(existing, Class::Is('\n'));
    let all = declared_by_text(existing);
    let own = (request.anchor_keyword(), request.name);
    if kept.len() > 0 {
        lemma_declared_text_add(kept + "\n\n"@, request.anchor());
    } else {
        assert(kept + request.anchor() =~= request.anchor());
    }
    assert(declared_by_text(request.appended(existing)) =~= all.push(own));
}

proof fn lemma_scope_keywords(keyword: Seq<char>)
    requires
        keyword == "scope"@ || keyword == "ui-component"@,
    ensures
        keyword.len() > 0,
        plain(keyword),
        !qualifies(keyword),
        keyword != "use"@,
        keyword != "from"@,
{
    reveal_strlit("scope");
    reveal_strlit("ui-component");
    reveal_strlit("export");
    reveal_strlit("abstract");
    reveal_strlit("use");
    reveal_strlit("from");
    assert(keyword.len() == 5 || keyword.len() == 12);
    assert("export"@.len() == 6 && "abstract"@.len() == 8 && "use"@.len() == 3 && "from"@.len()
        == 4);
}

/// What a scope takes in declares nothing.
proof fn lemma_uses_declare_nothing(uses: Seq<char>)
    requires
        uses == "use /lib\nuse /ui\n"@ || uses == "use /lib\n"@,
    ensures
        declared_by_text(uses) == Seq::<(Seq<char>, Seq<char>)>::empty(),
        uses.len() > 0,
        uses.last() == '\n',
{
    lemma_keywords();
    reveal_strlit("use /lib\nuse /ui\n");
    reveal_strlit("use /lib\n");
    reveal_strlit("use /lib");
    reveal_strlit("use /ui");
    let lib = "use /lib"@;
    let ui = "use /ui"@;
    lemma_use_line(lib, 'b');
    lemma_use_line(ui, 'i');
    if uses == "use /lib\n"@ {
        assert(uses =~= lib.push('\n'));
    } else {
        assert(uses =~= lib.push('\n') + ui.push('\n'));
        lemma_declared_text_add(lib.push('\n'), ui.push('\n'));
        assert(declared_by_text(uses) =~= seq![]);
    }
}

/// A line of code that doesn't end with a colon declares nothing.
proof fn lemma_use_line(line: Seq<char>, last: char)
    requires
        line.len() > 1,
        line.last() == last,
        last == 'b' || last == 'i',
        unbroken(line),
        forall|k: int| 0 <= k < line.len() - 1 && #[trigger] line[k] == '/' ==> line[k + 1] != '/',
    ensures
        declared_by_text(line.push('\n')) == Seq::<(Seq<char>, Seq<char>)>::empty(),
{
    broadcast use group_runs;

    lemma_keywords();
    assert forall|k: int| 0 <= k <= line.len() implies !stands_at(line, "//"@, k) by {
        if stands_at(line, "//"@, k) {
            assert(line.subrange(k, k + 2)[0] == '/');
            assert(line.subrange(k, k + 2)[1] == '/');
            assert(line[k] == '/' && line[k + 1] == '/');
        }
    }
    lemma_find_none(line, "//"@, 0);
    assert(line.take(line.len() as int) =~= line);
    assert(trim_end(line) =~= line) by {
        assert(run_start(line, Class::White, line.len() as int) == line.len());
    }
    assert(declared_in(line) is None);
    let s = line.push('\n');
    let n = line.len() as int;
    assert forall|k: int| 0 <= k < n implies Class::Not('\n').has(#[trigger] s[k]) by {
        assert(s[k] == line[k]);
    }
    lemma_run_end_is(s, Class::Not('\n'), 0, n);
    assert(s.subrange(0, n) =~= line);
    assert(lines_from(s, n + 1) =~= seq![]);
    assert(lines(s) =~= seq![line]);
    reveal_with_fuel(declared, 2);
    assert(seq![line].drop_last() =~= seq![]);
    assert(declared(seq![line]) =~= seq![]);
}

proof fn lemma_regroup_head(
    uses: Seq<char>,
    one: Seq<char>,
    export: Seq<char>,
    space: Seq<char>,
    keyword: Seq<char>,
    name: Seq<char>,
    colon: Seq<char>,
    next: Seq<char>,
)
    ensures
        uses + (one + export + space) + keyword + space + name + (colon + next) == uses + one + (
        export + space + keyword + space + name + colon) + next,
{
    assert(uses + (one + export + space) + keyword + space + name + (colon + next) =~= uses + one
        + (export + space + keyword + space + name + colon) + next);
}

proof fn lemma_regroup_concept(
    before: Seq<char>,
    opening: Seq<char>,
    stem: Seq<char>,
    closing: Seq<char>,
    keyword: Seq<char>,
    space: Seq<char>,
    suffix: Seq<char>,
    colon: Seq<char>,
    next: Seq<char>,
)
    ensures
        before + opening + stem + (closing + keyword + space) + stem + (suffix + colon + next)
            == before + (opening + stem + closing) + (keyword + space + (stem + suffix) + colon)
            + next,
{
    assert(before + opening + stem + (closing + keyword + space) + stem + (suffix + colon + next)
        =~= before + (opening + stem + closing) + (keyword + space + (stem + suffix) + colon)
        + next);
}

proof fn lemma_regroup_shape(
    before: Seq<char>,
    opening: Seq<char>,
    prose: Seq<char>,
    middle: Seq<char>,
    stem: Seq<char>,
    closing: Seq<char>,
    keyword: Seq<char>,
    space: Seq<char>,
)
    ensures
        before + opening + prose + middle + stem + (closing + keyword + space) == before + (opening
            + prose + middle + stem + closing) + (keyword + space),
{
    assert(before + opening + prose + middle + stem + (closing + keyword + space) =~= before + (
    opening + prose + middle + stem + closing) + (keyword + space));
}

proof fn lemma_regroup_end(
    before: Seq<char>,
    keyword: Seq<char>,
    space: Seq<char>,
    stem: Seq<char>,
    suffix: Seq<char>,
    colon: Seq<char>,
    opening: Seq<char>,
    brief: Seq<char>,
    end: Seq<char>,
)
    ensures
        before + (keyword + space) + stem + (suffix + colon + opening) + brief + end == before + (
        keyword + space + (stem + suffix) + colon) + (opening + brief + end),
{
    assert(before + (keyword + space) + stem + (suffix + colon + opening) + brief + end =~= before
        + (keyword + space + (stem + suffix) + colon) + (opening + brief + end));
}

/// What a new scope takes in.
pub open spec fn uses_of(request: RequestView) -> Seq<char> {
    if request.keyword == "ui-component"@ {
        "use /lib\nuse /ui\n"@
    } else {
        "use /lib\n"@
    }
}

/// The line that declares a new scope.
spec fn scope_head(request: RequestView) -> Seq<char> {
    "export"@ + seq![' '] + request.keyword + seq![' '] + request.name + seq![':', '\n']
}

/// A line that declares what goes with a new scope.
spec fn part_head(keyword: Seq<char>, name: Seq<char>) -> Seq<char> {
    keyword + seq![' '] + name + seq![':', '\n']
}

spec fn scope_first(stem: Seq<char>) -> Seq<char> {
    "    concept: {"@ + stem + "Concept}\n\n"@
}

spec fn scope_second(stem: Seq<char>, prose: Seq<char>) -> Seq<char> {
    "    pitch:\n"@ + prose + "\n\n    shape: {"@ + stem + "Shape}\n\n"@
}

spec fn scope_third(brief: Seq<char>) -> Seq<char> {
    "    description:\n"@ + brief + "\n"@
}

/// A new scope's pieces, put together as they are written.
pub proof fn lemma_scope_concat(request: RequestView)
    ensures
        ({
            let stem = request.stem();
            let prose = prose_of(request.description, 8);
            let brief = prose_of(sentence(request.description), 8);
            request.scope() == uses_of(request) + "\nexport "@ + request.keyword + " "@
                + request.name + ":\n    concept: {"@ + stem + "Concept}\n\nconcept "@ + stem
                + "Concept:\n    pitch:\n"@ + prose + "\n\n    shape: {"@ + stem
                + "Shape}\n\nshape "@ + stem + "Shape:\n    description:\n"@ + brief + "\n"@
        }),
{
    let uses = uses_of(request);
    let stem = request.stem();
    let kw = request.keyword;
    let name = request.name;
    let prose = prose_of(request.description, 8);
    let brief = prose_of(sentence(request.description), 8);
    let a = "\nexport "@;
    let b = " "@;
    let c = ":\n    concept: {"@;
    let d = "Concept}\n\nconcept "@;
    let e = "Concept:\n    pitch:\n"@;
    let f = "\n\n    shape: {"@;
    let g = "Shape}\n\nshape "@;
    let h = "Shape:\n    description:\n"@;
    let z = "\n"@;
    let none = Seq::<Seq<char>>::empty();
    let p0 = none.push(uses);
    let p1 = p0.push(a).push(kw).push(b).push(name).push(c);
    let p2 = p1.push(stem).push(d).push(stem).push(e);
    let p3 = p2.push(prose).push(f).push(stem).push(g);
    let p4 = p3.push(stem).push(h).push(brief).push(z);
    lemma_concat_push(none, uses);
    lemma_concat_push(p0, a);
    lemma_concat_push(p0.push(a), kw);
    lemma_concat_push(p0.push(a).push(kw), b);
    lemma_concat_push(p0.push(a).push(kw).push(b), name);
    lemma_concat_push(p0.push(a).push(kw).push(b).push(name), c);
    lemma_concat_push(p1, stem);
    lemma_concat_push(p1.push(stem), d);
    lemma_concat_push(p1.push(stem).push(d), stem);
    lemma_concat_push(p1.push(stem).push(d).push(stem), e);
    lemma_concat_push(p2, prose);
    lemma_concat_push(p2.push(prose), f);
    lemma_concat_push(p2.push(prose).push(f), stem);
    lemma_concat_push(p2.push(prose).push(f).push(stem), g);
    lemma_concat_push(p3, stem);
    lemma_concat_push(p3.push(stem), h);
    lemma_concat_push(p3.push(stem).push(h), brief);
    lemma_concat_push(p3.push(stem).push(h).push(brief), z);
    assert(seq![uses, a, kw, b, name, c, stem, d, stem, e, prose, f, stem, g, stem, h, brief, z]
        =~= p4);
    assert(concat(none) + uses =~= uses);
}

/// A new scope's pieces, line by line.
proof fn lemma_scope_pieces(request: RequestView)
    ensures
        ({
            let stem = request.stem();
            let prose = prose_of(request.description, 8);
            let brief = prose_of(sentence(request.description), 8);
            request.scope() == uses_of(request) + seq!['\n'] + scope_head(request) + scope_first(
                stem,
            ) + part_head("concept"@, stem + "Concept"@) + scope_second(stem, prose) + part_head(
                "shape"@,
                stem + "Shape"@,
            ) + scope_third(brief)
        }),
{
    let stem = request.stem();
    let prose = prose_of(request.description, 8);
    let brief = prose_of(sentence(request.description), 8);
    let uses = uses_of(request);
    let one = seq!['\n'];
    let space = seq![' '];
    let colon = seq![':', '\n'];
    lemma_scope_concat(request);
    lemma_scope_literals();
    lemma_regroup_head(
        uses,
        one,
        "export"@,
        space,
        request.keyword,
        request.name,
        colon,
        "    concept: {"@,
    );
    let t1 = uses + one + scope_head(request);
    lemma_regroup_concept(
        t1,
        "    concept: {"@,
        stem,
        "Concept}\n\n"@,
        "concept"@,
        space,
        "Concept"@,
        colon,
        "    pitch:\n"@,
    );
    let t2 = t1 + scope_first(stem) + part_head("concept"@, stem + "Concept"@);
    lemma_regroup_shape(
        t2,
        "    pitch:\n"@,
        prose,
        "\n\n    shape: {"@,
        stem,
        "Shape}\n\n"@,
        "shape"@,
        space,
    );
    let t3 = t2 + scope_second(stem, prose);
    lemma_regroup_end(
        t3,
        "shape"@,
        space,
        stem,
        "Shape"@,
        colon,
        "    description:\n"@,
        brief,
        "\n"@,
    );
}

proof fn lemma_scope_literals()
    ensures
        "\nexport "@ == seq!['\n'] + "export"@ + seq![' '],
        " "@ == seq![' '],
        ":\n    concept: {"@ == seq![':', '\n'] + "    concept: {"@,
        "Concept}\n\nconcept "@ == "Concept}\n\n"@ + "concept"@ + seq![' '],
        "Concept:\n    pitch:\n"@ == "Concept"@ + seq![':', '\n'] + "    pitch:\n"@,
        "Shape}\n\nshape "@ == "Shape}\n\n"@ + "shape"@ + seq![' '],
        "Shape:\n    description:\n"@ == "Shape"@ + seq![':', '\n'] + "    description:\n"@,
{
    reveal_strlit("\nexport ");
    reveal_strlit("export");
    reveal_strlit(" ");
    reveal_strlit(":\n    concept: {");
    reveal_strlit("    concept: {");
    reveal_strlit("Concept}\n\nconcept ");
    reveal_strlit("Concept}\n\n");
    reveal_strlit("concept");
    reveal_strlit("Concept:\n    pitch:\n");
    reveal_strlit("Concept");
    reveal_strlit("    pitch:\n");
    reveal_strlit("Shape}\n\nshape ");
    reveal_strlit("Shape}\n\n");
    reveal_strlit("shape");
    reveal_strlit("Shape:\n    description:\n");
    reveal_strlit("Shape");
    reveal_strlit("    description:\n");
    assert("\nexport "@ =~= seq!['\n'] + "export"@ + seq![' ']);
    assert(" "@ =~= seq![' ']);
    assert(":\n    concept: {"@ =~= seq![':', '\n'] + "    concept: {"@);
    assert("Concept}\n\nconcept "@ =~= "Concept}\n\n"@ + "concept"@ + seq![' ']);
    assert("Concept:\n    pitch:\n"@ =~= "Concept"@ + seq![':', '\n'] + "    pitch:\n"@);
    assert("Shape}\n\nshape "@ =~= "Shape}\n\n"@ + "shape"@ + seq![' ']);
    assert("Shape:\n    description:\n"@ =~= "Shape"@ + seq![':', '\n'] + "    description:\n"@);
}

/// The lines of a new scope between those that declare, none of which declares
/// anything.
proof fn lemma_scope_quiet(stem: Seq<char>, prose: Seq<char>, brief: Seq<char>)
    requires
        unbroken(stem),
        quiet(prose),
        quiet(brief),
    ensures
        quiet("    concept: {"@ + stem + "Concept}\n\n"@),
        quiet("    pitch:\n"@ + prose + "\n\n    shape: {"@ + stem + "Shape}\n\n"@),
        quiet("    description:\n"@ + brief + "\n"@),
{
    lemma_openings();
    reveal_strlit("    concept: {");
    reveal_strlit("Concept}\n\n");
    reveal_strlit("    pitch:\n");
    reveal_strlit("\n\n    shape: {");
    reveal_strlit("Shape}\n\n");
    reveal_strlit("    description:\n");
    let close = seq!['\n', '\n'];
    assert(quiet(close));
    let concept = seq!['C', 'o', 'n', 'c', 'e', 'p', 't', '}'];
    let shape = seq!['S', 'h', 'a', 'p', 'e', '}'];
    assert("Concept}\n\n"@ =~= concept + close);
    assert("Shape}\n\n"@ =~= shape + close);
    assert(quiet("    concept: {"@));
    lemma_quiet_goes_on("    concept: {"@, stem + concept);
    lemma_quiet_add("    concept: {"@ + (stem + concept), close);
    assert("    concept: {"@ + stem + "Concept}\n\n"@ =~= "    concept: {"@ + (stem + concept)
        + close);
    assert(quiet("    pitch:\n"@));
    lemma_quiet_add("    pitch:\n"@, prose);
    assert(quiet("\n\n    shape: {"@));
    lemma_quiet_goes_on("\n\n    shape: {"@, stem + shape);
    lemma_quiet_add("    pitch:\n"@ + prose, "\n\n    shape: {"@ + (stem + shape));
    lemma_quiet_add("    pitch:\n"@ + prose + ("\n\n    shape: {"@ + (stem + shape)), close);
    assert("    pitch:\n"@ + prose + "\n\n    shape: {"@ + stem + "Shape}\n\n"@
        =~= "    pitch:\n"@ + prose + ("\n\n    shape: {"@ + (stem + shape)) + close);
    assert(quiet("    description:\n"@));
    lemma_quiet_add("    description:\n"@, brief);
    assert(quiet("\n"@));
    lemma_quiet_add("    description:\n"@ + brief, "\n"@);
}

proof fn lemma_alphanumeric_add(a: Seq<char>, b: Seq<char>)
    requires
        all_alphanumeric(a),
        all_alphanumeric(b),
    ensures
        all_alphanumeric(a + b),
{
    let s = a + b;
    assert forall|k: int| 0 <= k < s.len() implies ascii_alphanumeric(#[trigger] s[k]) by {
        if k < a.len() {
            assert(s[k] == a[k]);
        } else {
            assert(s[k] == b[k - a.len()]);
        }
    }
}

proof fn lemma_suffix_words()
    ensures
        all_alphanumeric("Scope"@),
        all_alphanumeric("Concept"@),
        all_alphanumeric("Shape"@),
{
    reveal_strlit("Scope");
    reveal_strlit("Concept");
    reveal_strlit("Shape");
}

/// What the line declaring what goes with a new scope declares.
proof fn lemma_part_head(keyword: Seq<char>, name: Seq<char>)
    requires
        keyword == "concept"@ || keyword == "shape"@,
        name.len() > 0,
        all_alphanumeric(name),
    ensures
        declared_by_text(part_head(keyword, name)) == seq![(keyword, name)],
        part_head(keyword, name).len() > 0,
        part_head(keyword, name).last() == '\n',
{
    lemma_keywords();
    lemma_alphanumeric_is_plain(keyword);
    lemma_header(keyword, name);
    assert(part_head(keyword, name) =~= (keyword + seq![' '] + name).push(':').push('\n'));
}

/// What the line declaring a new scope declares.
proof fn lemma_scope_head(request: RequestView)
    requires
        request.name.len() > 0,
        all_alphanumeric(request.name),
        request.keyword == "scope"@ || request.keyword == "ui-component"@,
    ensures
        declared_by_text(scope_head(request)) == seq![(request.keyword, request.name)],
        scope_head(request).len() > 0,
        scope_head(request).last() == '\n',
{
    lemma_scope_keywords(request.keyword);
    lemma_header(request.keyword, request.name);
    assert(scope_head(request) =~= ("export"@ + seq![' '] + request.keyword + seq![' ']
        + request.name).push(':').push('\n'));
}

/// The lines between declare nothing, and end.
proof fn lemma_scope_between(stem: Seq<char>, description: Seq<char>)
    requires
        all_alphanumeric(stem),
    ensures
        ({
            let prose = prose_of(description, 8);
            let brief = prose_of(sentence(description), 8);
            let none = Seq::<(Seq<char>, Seq<char>)>::empty();
            &&& declared_by_text(scope_first(stem)) == none
            &&& declared_by_text(scope_second(stem, prose)) == none
            &&& declared_by_text(scope_third(brief)) == none
            &&& scope_first(stem).len() > 0 && scope_first(stem).last() == '\n'
            &&& scope_second(stem, prose).len() > 0 && scope_second(stem, prose).last() == '\n'
        }),
{
    let prose = prose_of(description, 8);
    let brief = prose_of(sentence(description), 8);
    lemma_alphanumeric_is_plain(stem);
    lemma_plain_unbroken(stem);
    lemma_prose_quiet(description);
    lemma_prose_quiet(sentence(description));
    lemma_scope_quiet(stem, prose, brief);
    lemma_quiet(scope_first(stem));
    lemma_quiet(scope_second(stem, prose));
    lemma_quiet(scope_third(brief));
    reveal_strlit("Concept}\n\n");
    reveal_strlit("Shape}\n\n");
}

proof fn lemma_scope_stem(request: RequestView, stem: Seq<char>)
    requires
        request.kind == ComponentKind::Scope,
        request.name == stem + "Scope"@,
    ensures
        request.stem() == stem,
{
    let name = request.name;
    let n = stem.len() as int;
    assert(name.subrange(n, name.len() as int) =~= "Scope"@);
    assert(name.take(n) =~= stem);
}

proof fn lemma_three(
    a: (Seq<char>, Seq<char>),
    b: (Seq<char>, Seq<char>),
    c: (Seq<char>, Seq<char>),
)
    ensures
        ({
            let none = Seq::<(Seq<char>, Seq<char>)>::empty();
            none + none + seq![a] + none + seq![b] + none + seq![c] + none == seq![a, b, c]
        }),
{
    let none = Seq::<(Seq<char>, Seq<char>)>::empty();
    assert(none + none + seq![a] + none + seq![b] + none + seq![c] + none =~= seq![a, b, c]);
}

/// A new scope's index.pi declares the scope, its concept and its shape, and
/// nothing else, whatever its description.
pub proof fn a_scope_declares_its_three_names(request: RequestView, stem: Seq<char>)
    requires
        request.kind == ComponentKind::Scope,
        stem.len() > 0,
        all_alphanumeric(stem),
        request.name == stem + "Scope"@,
        request.keyword == "scope"@ || request.keyword == "ui-component"@,
    ensures
        declared_by_text(request.scope()) == seq![
            (request.keyword, request.name),
            ("concept"@, stem + "Concept"@),
            ("shape"@, stem + "Shape"@),
        ],
{
    let prose = prose_of(request.description, 8);
    let brief = prose_of(sentence(request.description), 8);
    let one = seq!['\n'];
    lemma_suffix_words();
    lemma_alphanumeric_add(stem, "Scope"@);
    lemma_alphanumeric_add(stem, "Concept"@);
    lemma_alphanumeric_add(stem, "Shape"@);
    lemma_scope_stem(request, stem);
    lemma_scope_head(request);
    lemma_part_head("concept"@, stem + "Concept"@);
    lemma_part_head("shape"@, stem + "Shape"@);
    lemma_scope_between(stem, request.description);
    lemma_uses_declare_nothing(uses_of(request));
    assert(quiet(one));
    lemma_quiet(one);
    lemma_scope_pieces(request);
    lemma_pieces_declare(
        uses_of(request),
        one,
        scope_head(request),
        scope_first(stem),
        part_head("concept"@, stem + "Concept"@),
        scope_second(stem, prose),
        part_head("shape"@, stem + "Shape"@),
        scope_third(brief),
    );
    lemma_three(
        (request.keyword, request.name),
        ("concept"@, stem + "Concept"@),
        ("shape"@, stem + "Shape"@),
    );
}

/// Pieces that each end a line declare what each of them does.
proof fn lemma_pieces_declare(
    a: Seq<char>,
    b: Seq<char>,
    c: Seq<char>,
    d: Seq<char>,
    e: Seq<char>,
    f: Seq<char>,
    g: Seq<char>,
    h: Seq<char>,
)
    requires
        a.len() > 0 && a.last() == '\n',
        b.len() > 0 && b.last() == '\n',
        c.len() > 0 && c.last() == '\n',
        d.len() > 0 && d.last() == '\n',
        e.len() > 0 && e.last() == '\n',
        f.len() > 0 && f.last() == '\n',
        g.len() > 0 && g.last() == '\n',
    ensures
        declared_by_text(a + b + c + d + e + f + g + h) == declared_by_text(a) + declared_by_text(b)
            + declared_by_text(c) + declared_by_text(d) + declared_by_text(e) + declared_by_text(f)
            + declared_by_text(g) + declared_by_text(h),
{
    lemma_declared_text_add(a, b);
    lemma_declared_text_add(a + b, c);
    lemma_declared_text_add(a + b + c, d);
    lemma_declared_text_add(a + b + c + d, e);
    lemma_declared_text_add(a + b + c + d + e, f);
    lemma_declared_text_add(a + b + c + d + e + f, g);
    lemma_declared_text_add(a + b + c + d + e + f + g, h);
}

} // verus!
