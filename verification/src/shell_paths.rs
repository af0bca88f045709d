//! Works out, from a shell command as written, the files it reads, edits, or
//! writes, and the folders and patterns it takes files in by, as far as the
//! command shows. Anything it can't work out, such as a path built from a
//! variable or a command substitution, is left out rather than guessed at.
//!
//! What a command works on may hang on what there is on disk, so it is worked
//! out in two steps: what the command is found to do, from the command alone,
//! and what that comes to once the paths it asks about have been looked up.
use vstd::prelude::*;
use crate::listing::{Listing, ListingView};
use crate::paths::{a_file_name_is_a_name, a_name_joined_stays_normalized, absolute, file_name,
    file_name_of, is_within, join_path, joined_path, normalized, normalizing_twice_is_once, text_of,
    within};
use crate::shell_words::{token_views, tokenized, tokens, Redirect, Token, TokenView, Word,
    WordView};
use crate::text::{chars_of, end_of_run, ends_with, group_runs, is_at, piece,
    push_str, run_end, run_start, spells, start_of_run, starts_with, string_of, trim, trimmed,
    views, Class};

pub use crate::paths::normalize;

verus! {

// ---------------------------------------------------------------------------
// What a command works on
// ---------------------------------------------------------------------------

/// A folder a command or search takes files in by, and the folder the paths
/// its output names are read from.
pub struct Scope {
    pub dir: String,
    pub base: String,
}

#[verifier::ext_equal]
pub struct ScopeView {
    pub dir: Seq<char>,
    pub base: Seq<char>,
}

impl View for Scope {
    type V = ScopeView;

    open spec fn view(&self) -> ScopeView {
        ScopeView { dir: self.dir@, base: self.base@ }
    }
}

/// What a shell command works on.
pub struct ShellPaths {
    /// Each file it names, and whether it edits or writes it, in order.
    pub files: Vec<(String, bool)>,
    /// The folders it takes files in by, named or under a pattern. A file in
    /// one counts only when the command's output names it.
    pub scopes: Vec<Scope>,
}

#[verifier::ext_equal]
pub struct ShellPathsView {
    pub files: Seq<(Seq<char>, bool)>,
    pub scopes: Seq<ScopeView>,
}

pub open spec fn file_views(v: Seq<(String, bool)>) -> Seq<(Seq<char>, bool)> {
    v.map_values(|f: (String, bool)| (f.0@, f.1))
}

pub open spec fn scope_views(v: Seq<Scope>) -> Seq<ScopeView> {
    v.map_values(|s: Scope| s@)
}

impl View for ShellPaths {
    type V = ShellPathsView;

    open spec fn view(&self) -> ShellPathsView {
        ShellPathsView { files: file_views(self.files@), scopes: scope_views(self.scopes@) }
    }
}

/// Something a command is found to do, before anything is looked up.
pub enum Find {
    /// Writes the path.
    Writes(String),
    /// Reads the path, if it is a file.
    Reads(String),
    /// Edits the path, if it is a file.
    Edits(String),
    /// Reads the path if it is a file, and takes files in by it if it is a
    /// folder.
    Takes(Scope),
    /// Takes files in by the folder.
    Scope(Scope),
    /// Copies or moves the source, if it is a file, into the folder.
    Into(String, String),
    /// Copies or moves the source, if it is a file, onto the target, or into
    /// it if that is a folder; either where it could be worked out.
    Onto(Option<String>, Option<String>),
}

pub enum FindView {
    Writes(Seq<char>),
    Reads(Seq<char>),
    Edits(Seq<char>),
    Takes(ScopeView),
    Scope(ScopeView),
    Into(Seq<char>, Seq<char>),
    Onto(Option<Seq<char>>, Option<Seq<char>>),
}

impl View for Find {
    type V = FindView;

    open spec fn view(&self) -> FindView {
        match self {
            Find::Writes(path) => FindView::Writes(path@),
            Find::Reads(path) => FindView::Reads(path@),
            Find::Edits(path) => FindView::Edits(path@),
            Find::Takes(scope) => FindView::Takes(scope@),
            Find::Scope(scope) => FindView::Scope(scope@),
            Find::Into(source, dir) => FindView::Into(source@, dir@),
            Find::Onto(source, target) => FindView::Onto(text_of(*source), text_of(*target)),
        }
    }
}

pub open spec fn find_views(v: Seq<Find>) -> Seq<FindView> {
    v.map_values(|f: Find| f@)
}

// ---------------------------------------------------------------------------
// Paths that words name
// ---------------------------------------------------------------------------

/// `path` read from `cwd`, when that is known or `path` doesn't need it.
pub open spec fn read_from(cwd: Option<Seq<char>>, path: Seq<char>) -> Option<Seq<char>> {
    if absolute(path) {
        Some(normalized(path))
    } else {
        match cwd {
            Some(dir) => Some(normalized(join_path(dir, path))),
            None => None,
        }
    }
}

/// The path a word names, if it can be worked out.
pub open spec fn resolved(cwd: Option<Seq<char>>, word: WordView) -> Option<Seq<char>> {
    if !word.known || word.pattern || word.text.len() == 0 {
        None
    } else {
        read_from(cwd, word.text)
    }
}

/// The part of a pattern before its first wildcard, up to the last `/` there.
pub open spec fn literal_folder(text: Seq<char>) -> Seq<char> {
    let literal = text.take(run_end(text, Class::Literal, 0));
    literal.take(run_start(literal, Class::Not('/'), literal.len() as int))
}

/// The folder a pattern's matches are all in.
pub open spec fn pattern_folder(cwd: Option<Seq<char>>, word: WordView) -> Option<Seq<char>> {
    if !word.known {
        None
    } else {
        read_from(cwd, literal_folder(word.text))
    }
}

fn path_from(cwd: &Option<String>, path: &[char]) -> (r: Option<String>)
    ensures
        text_of(r) == read_from(text_of(*cwd), path@),
{
    let text = string_of(path);
    if path.len() > 0 && path[0] == '/' {
        return Some(normalize(&text));
    }
    match cwd {
        Some(dir) => Some(normalize(&joined_path(dir, &text))),
        None => None,
    }
}

/// The path a word names, if it can be worked out.
pub fn resolve(cwd: &Option<String>, word: &Word) -> (r: Option<String>)
    ensures
        text_of(r) == resolved(text_of(*cwd), word@),
{
    if !word.known || word.pattern || word.text.len() == 0 {
        return None;
    }
    path_from(cwd, &word.text)
}

/// The folder a pattern's matches are all in: the part of it before its first
/// wildcard, up to the last `/` there.
pub fn pattern_dir(cwd: &Option<String>, word: &Word) -> (r: Option<String>)
    ensures
        text_of(r) == pattern_folder(text_of(*cwd), word@),
{
    broadcast use group_runs;

    if !word.known {
        return None;
    }
    let literal = piece(&word.text, 0, end_of_run(&word.text, Class::Literal, 0));
    let dir = piece(&literal, 0, start_of_run(&literal, Class::Not('/'), literal.len()));
    proof {
        assert(literal@ =~= word.text@.take(run_end(word.text@, Class::Literal, 0)));
        assert(dir@ =~= literal_folder(word.text@));
    }
    path_from(cwd, &dir)
}

// ---------------------------------------------------------------------------
// Options and operands
// ---------------------------------------------------------------------------

pub open spec fn word_views(v: Seq<Word>) -> Seq<WordView> {
    v.map_values(|w: Word| w@)
}

pub open spec fn word_view_of(word: Option<Word>) -> Option<WordView> {
    match word {
        Some(word) => Some(word@),
        None => None,
    }
}

/// An option a command is given, with any value it takes.
pub struct Given {
    pub name: Vec<char>,
    pub value: Option<Word>,
}

#[verifier::ext_equal]
pub struct GivenView {
    pub name: Seq<char>,
    pub value: Option<WordView>,
}

impl View for Given {
    type V = GivenView;

    open spec fn view(&self) -> GivenView {
        GivenView { name: self.name@, value: word_view_of(self.value) }
    }
}

pub open spec fn given_views(v: Seq<Given>) -> Seq<GivenView> {
    v.map_values(|g: Given| g@)
}

/// A command's words split into options, each with any value it takes, and
/// operands.
pub struct Parsed {
    pub options: Vec<Given>,
    pub operands: Vec<Word>,
}

#[verifier::ext_equal]
pub struct ParsedView {
    pub options: Seq<GivenView>,
    pub operands: Seq<WordView>,
}

impl View for Parsed {
    type V = ParsedView;

    open spec fn view(&self) -> ParsedView {
        ParsedView { options: given_views(self.options@), operands: word_views(self.operands@) }
    }
}

/// `parsed` with the words from `i` on split too, `over` saying that the
/// options are over.
pub open spec fn parse_from(
    args: Seq<WordView>,
    takes_value: Seq<Seq<char>>,
    i: int,
    over: bool,
    parsed: ParsedView,
) -> ParsedView
    decreases args.len() - i,
{
    if i < 0 || i >= args.len() {
        parsed
    } else {
        let text = args[i].text;
        if over || !(text.len() > 0 && text[0] == '-') || text == "-"@ {
            parse_from(
                args,
                takes_value,
                i + 1,
                over,
                ParsedView { operands: parsed.operands.push(args[i]), ..parsed },
            )
        } else if text == "--"@ {
            parse_from(args, takes_value, i + 1, true, parsed)
        } else if takes_value.contains(text) {
            let value = if i + 1 < args.len() {
                Some(args[i + 1])
            } else {
                None
            };
            parse_from(
                args,
                takes_value,
                if i + 1 < args.len() {
                    i + 2
                } else {
                    i + 1
                },
                over,
                ParsedView {
                    options: parsed.options.push(GivenView { name: text, value }),
                    ..parsed
                },
            )
        } else {
            parse_from(
                args,
                takes_value,
                i + 1,
                over,
                ParsedView {
                    options: parsed.options.push(GivenView { name: text, value: None }),
                    ..parsed
                },
            )
        }
    }
}

/// Words split into options and operands, `takes_value` being the options
/// whose value is the next word.
pub open spec fn split_args(args: Seq<WordView>, takes_value: Seq<Seq<char>>) -> ParsedView {
    parse_from(args, takes_value, 0, false, ParsedView { options: seq![], operands: seq![] })
}

impl ParsedView {
    /// The value the first option of that name was given.
    pub open spec fn value_from(self, option: Seq<char>, i: int) -> Option<WordView>
        decreases self.options.len() - i,
    {
        if i < 0 || i >= self.options.len() {
            None
        } else if self.options[i].name == option {
            self.options[i].value
        } else {
            self.value_from(option, i + 1)
        }
    }

    pub open spec fn value_of(self, option: Seq<char>) -> Option<WordView> {
        self.value_from(option, 0)
    }

    pub open spec fn gives(self, option: Seq<char>) -> bool {
        exists|i: int| 0 <= i < self.options.len() && (#[trigger] self.options[i]).name == option
    }

    /// Whether a one-letter flag is given, alone or among others.
    pub open spec fn gives_flag(self, flag: char) -> bool {
        exists|i: int|
            0 <= i < self.options.len() && flag_in((#[trigger] self.options[i]).name, flag)
    }

    /// Whether one of `given_by` gave what otherwise comes first.
    pub open spec fn gives_one_of(self, given_by: Seq<Seq<char>>) -> bool {
        exists|i: int|
            0 <= i < self.options.len() && names_one_of(
                (#[trigger] self.options[i]).name,
                given_by,
            )
    }

    /// The operands after the pattern or script that comes first, unless one
    /// of `given_by` gave it instead.
    pub open spec fn operands_after_pattern(self, given_by: Seq<Seq<char>>) -> Seq<WordView> {
        if self.gives_one_of(given_by) || self.operands.len() == 0 {
            self.operands
        } else {
            self.operands.skip(1)
        }
    }

    /// Whether an option says that files are edited in place, as `-i` and
    /// `--in-place` do where `long` has it.
    pub open spec fn gives_in_place(self, long: bool) -> bool {
        exists|i: int|
            0 <= i < self.options.len() && in_place((#[trigger] self.options[i]).name, long)
    }
}

pub open spec fn flag_in(name: Seq<char>, flag: char) -> bool {
    !"--"@.is_prefix_of(name) && name.contains(flag)
}

/// Whether an option is one of some, or a long one of them with its value
/// after a `=`.
pub open spec fn names_one_of(name: Seq<char>, options: Seq<Seq<char>>) -> bool {
    exists|k: int|
        0 <= k < options.len() && (name == #[trigger] options[k] || (options[k]
            + "="@).is_prefix_of(name))
}

pub open spec fn in_place(name: Seq<char>, long: bool) -> bool {
    (long && "--in-place"@.is_prefix_of(name)) || flag_in(name, 'i')
}

fn is_one_of(text: &[char], options: &Vec<&'static str>) -> (b: bool)
    ensures
        b == views(options@).contains(text@),
{
    let mut i: usize = 0;
    while i < options.len()
        invariant
            i <= options@.len(),
            forall|k: int| 0 <= k < i ==> views(options@)[k] != text@,
        decreases options@.len() - i,
    {
        if spells(text, options[i]) {
            proof {
                assert(views(options@)[i as int] == text@);
            }
            return true;
        }
        i += 1;
    }
    false
}

/// Splits `args`, `takes_value` being the options whose value is the next
/// word.
pub fn parse(args: &Vec<Word>, takes_value: Vec<&'static str>) -> (r: Parsed)
    ensures
        r@ == split_args(word_views(args@), views(takes_value@)),
{
    let ghost all = word_views(args@);
    let ghost takes = views(takes_value@);
    let mut parsed = Parsed { options: Vec::new(), operands: Vec::new() };
    let mut over = false;
    let mut i: usize = 0;
    let len: usize = args.len();
    proof {
        assert(parsed@ =~= (ParsedView { options: seq![], operands: seq![] }));
    }
    while i < len
        invariant
            i <= len,
            len == args@.len(),
            all == word_views(args@),
            takes == views(takes_value@),
            parse_from(all, takes, i as int, over, parsed@) == split_args(all, takes),
        decreases len - i,
    {
        let ghost before = parsed@;
        let arg = args[i].copy();
        proof {
            assert(all[i as int] == arg@);
        }
        if over || !(arg.text.len() > 0 && arg.text[0] == '-') || spells(&arg.text, "-") {
            parsed.operands.push(arg);
            proof {
                assert(parsed@ =~= (ParsedView { operands: before.operands.push(arg@), ..before }));
            }
        } else if spells(&arg.text, "--") {
            over = true;
        } else if is_one_of(&arg.text, &takes_value) {
            let value = if len - i > 1 {
                Some(args[i + 1].copy())
            } else {
                None
            };
            let given = Given { name: arg.text, value };
            parsed.options.push(given);
            proof {
                if len - i > 1 {
                    assert(all[i + 1] == args@[i + 1]@);
                }
                assert(parsed@ =~= (ParsedView { options: before.options.push(given@), ..before }));
            }
            if len - i > 1 {
                i += 1;
            }
        } else {
            let given = Given { name: arg.text, value: None };
            parsed.options.push(given);
            proof {
                assert(parsed@ =~= (ParsedView { options: before.options.push(given@), ..before }));
            }
        }
        i += 1;
    }
    parsed
}

fn is_flag_in(name: &[char], flag: char) -> (b: bool)
    ensures
        b == flag_in(name@, flag),
{
    broadcast use group_runs;

    let found = end_of_run(name, Class::Not(flag), 0);
    proof {
        if found < name@.len() {
            assert(name@[found as int] == flag);
        } else if name@.contains(flag) {
            let k = choose|k: int| 0 <= k < name@.len() && name@[k] == flag;
            assert(Class::Not(flag).has(name@[k]));
        }
    }
    !starts_with(name, "--") && found < name.len()
}

fn is_naming_one_of(name: &[char], options: &Vec<&'static str>) -> (b: bool)
    ensures
        b == names_one_of(name@, views(options@)),
{
    let mut i: usize = 0;
    while i < options.len()
        invariant
            i <= options@.len(),
            forall|k: int|
                #![trigger views(options@)[k]]
                0 <= k < i ==> name@ != views(options@)[k] && !(views(options@)[k]
                    + "="@).is_prefix_of(name@),
        decreases options@.len() - i,
    {
        let mut long = chars_of(options[i]);
        proof {
            assert(views(options@)[i as int] == long@);
        }
        if spells(name, options[i]) {
            return true;
        }
        push_str(&mut long, "=");
        if is_at(name, &long, 0) {
            return true;
        }
        i += 1;
    }
    false
}

impl Parsed {
    /// The value an option was given.
    pub fn value(&self, option: &str) -> (r: Option<Word>)
        ensures
            word_view_of(r) == self@.value_of(option@),
    {
        let mut i: usize = 0;
        while i < self.options.len()
            invariant
                i <= self.options@.len(),
                self@.value_from(option@, i as int) == self@.value_of(option@),
            decreases self.options@.len() - i,
        {
            proof {
                assert(self@.options[i as int] == self.options@[i as int]@);
            }
            if spells(&self.options[i].name, option) {
                return match &self.options[i].value {
                    Some(word) => Some(word.copy()),
                    None => None,
                };
            }
            i += 1;
        }
        None
    }

    /// Whether an option is given.
    pub fn has(&self, option: &str) -> (b: bool)
        ensures
            b == self@.gives(option@),
    {
        let mut i: usize = 0;
        while i < self.options.len()
            invariant
                i <= self.options@.len(),
                forall|k: int| 0 <= k < i ==> (#[trigger] self@.options[k]).name != option@,
            decreases self.options@.len() - i,
        {
            proof {
                assert(self@.options[i as int] == self.options@[i as int]@);
            }
            if spells(&self.options[i].name, option) {
                return true;
            }
            i += 1;
        }
        false
    }

    /// Whether a one-letter flag is given, alone or among others.
    pub fn has_flag(&self, flag: char) -> (b: bool)
        ensures
            b == self@.gives_flag(flag),
    {
        let mut i: usize = 0;
        while i < self.options.len()
            invariant
                i <= self.options@.len(),
                forall|k: int| 0 <= k < i ==> !flag_in((#[trigger] self@.options[k]).name, flag),
            decreases self.options@.len() - i,
        {
            proof {
                assert(self@.options[i as int] == self.options@[i as int]@);
            }
            if is_flag_in(&self.options[i].name, flag) {
                return true;
            }
            i += 1;
        }
        false
    }

    /// Whether files are edited in place, `long` saying that `--in-place`
    /// does it too.
    fn has_in_place(&self, long: bool) -> (b: bool)
        ensures
            b == self@.gives_in_place(long),
    {
        let mut i: usize = 0;
        while i < self.options.len()
            invariant
                i <= self.options@.len(),
                forall|k: int| 0 <= k < i ==> !in_place((#[trigger] self@.options[k]).name, long),
            decreases self.options@.len() - i,
        {
            proof {
                assert(self@.options[i as int] == self.options@[i as int]@);
            }
            if (long && starts_with(&self.options[i].name, "--in-place")) || is_flag_in(
                &self.options[i].name,
                'i',
            ) {
                return true;
            }
            i += 1;
        }
        false
    }

    /// The operands after the pattern or script that comes first, unless one
    /// of `given_by` gave it instead.
    pub fn after_pattern(&self, given_by: Vec<&'static str>) -> (r: Vec<Word>)
        ensures
            word_views(r@) == self@.operands_after_pattern(views(given_by@)),
    {
        let mut given = false;
        let mut i: usize = 0;
        while i < self.options.len() && !given
            invariant
                i <= self.options@.len(),
                given ==> self@.gives_one_of(views(given_by@)),
                !given ==> forall|k: int|
                    0 <= k < i ==> !names_one_of(
                        (#[trigger] self@.options[k]).name,
                        views(given_by@),
                    ),
            decreases self.options@.len() - i,
        {
            proof {
                assert(self@.options[i as int] == self.options@[i as int]@);
            }
            if is_naming_one_of(&self.options[i].name, &given_by) {
                given = true;
            }
            i += 1;
        }
        let from: usize = if given || self.operands.len() == 0 {
            0
        } else {
            1
        };
        let r = words_from(&self.operands, from);
        proof {
            assert(word_views(self.operands@).skip(0) =~= word_views(self.operands@));
        }
        r
    }
}

/// The words from `from` on.
fn words_from(words: &Vec<Word>, from: usize) -> (r: Vec<Word>)
    requires
        from <= words@.len(),
    ensures
        word_views(r@) == word_views(words@).skip(from as int),
{
    let mut r: Vec<Word> = Vec::new();
    let mut i: usize = from;
    let ghost all = word_views(words@);
    proof {
        assert(word_views(r@) =~= all.subrange(from as int, i as int));
    }
    while i < words.len()
        invariant
            from <= i <= words@.len(),
            all == word_views(words@),
            word_views(r@) == all.subrange(from as int, i as int),
        decreases words@.len() - i,
    {
        let ghost before = word_views(r@);
        r.push(words[i].copy());
        proof {
            assert(word_views(r@) =~= before.push(words@[i as int]@));
            assert(all.subrange(from as int, i + 1) =~= all.subrange(from as int, i as int).push(
                words@[i as int]@,
            ));
        }
        i += 1;
    }
    proof {
        assert(all.subrange(from as int, all.len() as int) =~= all.skip(from as int));
    }
    r
}

// ---------------------------------------------------------------------------
// A command's work
// ---------------------------------------------------------------------------

/// A command's work as it is worked out: the folder it is in, while that is
/// known, and what it is found to do.
pub struct Work {
    pub cwd: Option<String>,
    pub finds: Vec<Find>,
}

#[verifier::ext_equal]
pub struct WorkView {
    pub cwd: Option<Seq<char>>,
    pub finds: Seq<FindView>,
}

impl View for Work {
    type V = WorkView;

    open spec fn view(&self) -> WorkView {
        WorkView { cwd: text_of(self.cwd), finds: find_views(self.finds@) }
    }
}

impl WorkView {
    pub open spec fn found(self, find: FindView) -> WorkView {
        WorkView { finds: self.finds.push(find), ..self }
    }

    /// Files are taken in by a folder, read from where the command is.
    pub open spec fn scoped(self, dir: Seq<char>) -> WorkView {
        match self.cwd {
            Some(base) => self.found(FindView::Scope(ScopeView { dir, base })),
            None => self,
        }
    }

    /// An operand read whole: a file named is read; a folder or pattern is a
    /// scope when `folders` says the command takes files in by them.
    pub open spec fn read(self, operand: WordView, folders: bool) -> WorkView {
        if operand.pattern {
            match pattern_folder(self.cwd, operand) {
                Some(dir) => self.scoped(dir),
                None => self,
            }
        } else {
            match resolved(self.cwd, operand) {
                Some(path) => match self.cwd {
                    Some(base) => if folders {
                        self.found(FindView::Takes(ScopeView { dir: path, base }))
                    } else {
                        self.found(FindView::Reads(path))
                    },
                    None => self.found(FindView::Reads(path)),
                },
                None => self,
            }
        }
    }

    pub open spec fn read_each(self, operands: Seq<WordView>, folders: bool) -> WorkView
        decreases operands.len(),
    {
        if operands.len() == 0 {
            self
        } else {
            self.read_each(operands.drop_last(), folders).read(operands.last(), folders)
        }
    }

    /// A search's operands: files are read, folders searched when it
    /// recurses, and with none it searches the folder it's in.
    pub open spec fn searched(self, operands: Seq<WordView>, recursive: bool) -> WorkView {
        if operands.len() > 0 {
            self.read_each(operands, recursive)
        } else if recursive && self.cwd is Some {
            self.scoped(self.cwd->0)
        } else {
            self
        }
    }

    pub open spec fn edit_each(self, operands: Seq<WordView>) -> WorkView
        decreases operands.len(),
    {
        if operands.len() == 0 {
            self
        } else {
            let before = self.edit_each(operands.drop_last());
            match resolved(before.cwd, operands.last()) {
                Some(path) => before.found(FindView::Edits(path)),
                None => before,
            }
        }
    }

    pub open spec fn read_or_edited(self, operands: Seq<WordView>, edits: bool) -> WorkView {
        if edits {
            self.edit_each(operands)
        } else {
            self.read_each(operands, false)
        }
    }

    /// A target written, unless it is a device.
    pub open spec fn written(self, target: Option<WordView>) -> WorkView {
        match target {
            Some(target) => match resolved(self.cwd, target) {
                Some(path) => if within(path, "/dev"@) {
                    self
                } else {
                    self.found(FindView::Writes(path))
                },
                None => self,
            },
            None => self,
        }
    }

    pub open spec fn write_each(self, targets: Seq<WordView>) -> WorkView
        decreases targets.len(),
    {
        if targets.len() == 0 {
            self
        } else {
            self.write_each(targets.drop_last()).written(Some(targets.last()))
        }
    }

    pub open spec fn into_each(self, sources: Seq<WordView>, dir: Seq<char>) -> WorkView
        decreases sources.len(),
    {
        if sources.len() == 0 {
            self
        } else {
            let before = self.into_each(sources.drop_last(), dir);
            match resolved(before.cwd, sources.last()) {
                Some(path) => before.found(FindView::Into(path, dir)),
                None => before,
            }
        }
    }

    pub open spec fn copied_into(self, sources: Seq<WordView>, dir: WordView) -> WorkView {
        match resolved(self.cwd, dir) {
            Some(dir) => self.into_each(sources, dir),
            None => self,
        }
    }

    /// `cp` or `mv`: sources read, and what they're copied or moved onto
    /// written.
    pub open spec fn copied(self, parsed: ParsedView) -> WorkView {
        let named = match parsed.value_of("-t"@) {
            Some(dir) => Some(dir),
            None => parsed.value_of("--target-directory"@),
        };
        let operands = parsed.operands;
        match named {
            Some(dir) => self.copied_into(operands, dir),
            None => if operands.len() < 2 {
                self
            } else if operands.len() > 2 || operands.last().text.last() == '/' && operands.last()
                .text.len() > 0 {
                self.copied_into(operands.drop_last(), operands.last())
            } else {
                self.found(
                    FindView::Onto(
                        resolved(self.cwd, operands[0]),
                        resolved(self.cwd, operands[1]),
                    ),
                )
            },
        }
    }
}

fn copy_of(s: &Option<String>) -> (r: Option<String>)
    ensures
        text_of(r) == text_of(*s),
{
    match s {
        Some(s) => Some(s.clone()),
        None => None,
    }
}

impl Work {
    fn find(&mut self, find: Find)
        ensures
            final(self)@ == old(self)@.found(find@),
    {
        self.finds.push(find);
        proof {
            assert(find_views(self.finds@) =~= find_views(old(self).finds@).push(find@));
        }
    }

    /// Files are taken in by `dir`.
    pub fn scope(&mut self, dir: String)
        ensures
            final(self)@ == old(self)@.scoped(dir@),
    {
        match copy_of(&self.cwd) {
            Some(base) => self.find(Find::Scope(Scope { dir, base })),
            None => {},
        }
    }

    fn read(&mut self, operand: &Word, folders: bool)
        ensures
            final(self)@ == old(self)@.read(operand@, folders),
    {
        if operand.pattern {
            match pattern_dir(&self.cwd, operand) {
                Some(dir) => self.scope(dir),
                None => {},
            }
        } else {
            match resolve(&self.cwd, operand) {
                Some(path) => match copy_of(&self.cwd) {
                    Some(base) => if folders {
                        self.find(Find::Takes(Scope { dir: path, base }))
                    } else {
                        self.find(Find::Reads(path))
                    },
                    None => self.find(Find::Reads(path)),
                },
                None => {},
            }
        }
    }

    /// Operands read whole: a file named is read; a folder or pattern is a
    /// scope when `folders` says the command takes files in by them.
    pub fn read_all(&mut self, operands: &Vec<Word>, folders: bool)
        ensures
            final(self)@ == old(self)@.read_each(word_views(operands@), folders),
    {
        let ghost all = word_views(operands@);
        let mut i: usize = 0;
        while i < operands.len()
            invariant
                i <= operands@.len(),
                all == word_views(operands@),
                self@ == old(self)@.read_each(all.take(i as int), folders),
            decreases operands@.len() - i,
        {
            self.read(&operands[i], folders);
            i += 1;
            proof {
                assert(all.take(i as int).drop_last() =~= all.take(i - 1));
                assert(all.take(i as int).last() == operands@[i - 1]@);
            }
        }
        proof {
            assert(all.take(all.len() as int) =~= all);
        }
    }

    /// A search's operands: files are read, folders searched when it
    /// recurses, and with none it searches the folder it's in.
    pub fn search(&mut self, operands: &Vec<Word>, recursive: bool)
        ensures
            final(self)@ == old(self)@.searched(word_views(operands@), recursive),
    {
        if operands.len() == 0 {
            if recursive {
                match copy_of(&self.cwd) {
                    Some(dir) => self.scope(dir),
                    None => {},
                }
            }
            return ;
        }
        self.read_all(operands, recursive);
    }

    pub fn read_or_edit(&mut self, operands: &Vec<Word>, edits: bool)
        ensures
            final(self)@ == old(self)@.read_or_edited(word_views(operands@), edits),
    {
        if !edits {
            self.read_all(operands, false);
            return ;
        }
        let ghost all = word_views(operands@);
        let mut i: usize = 0;
        while i < operands.len()
            invariant
                i <= operands@.len(),
                all == word_views(operands@),
                self@ == old(self)@.edit_each(all.take(i as int)),
            decreases operands@.len() - i,
        {
            match resolve(&self.cwd, &operands[i]) {
                Some(path) => self.find(Find::Edits(path)),
                None => {},
            }
            i += 1;
            proof {
                assert(all.take(i as int).drop_last() =~= all.take(i - 1));
                assert(all.take(i as int).last() == operands@[i - 1]@);
            }
        }
        proof {
            assert(all.take(all.len() as int) =~= all);
        }
    }

    /// A target written, unless it is a device.
    pub fn write(&mut self, target: Option<Word>)
        ensures
            final(self)@ == old(self)@.written(word_view_of(target)),
    {
        match target {
            Some(target) => match resolve(&self.cwd, &target) {
                Some(path) => if !is_within(&path, "/dev") {
                    self.find(Find::Writes(path))
                },
                None => {},
            },
            None => {},
        }
    }

    fn write_all(&mut self, targets: &Vec<Word>)
        ensures
            final(self)@ == old(self)@.write_each(word_views(targets@)),
    {
        let ghost all = word_views(targets@);
        let mut i: usize = 0;
        while i < targets.len()
            invariant
                i <= targets@.len(),
                all == word_views(targets@),
                self@ == old(self)@.write_each(all.take(i as int)),
            decreases targets@.len() - i,
        {
            self.write(Some(targets[i].copy()));
            i += 1;
            proof {
                assert(all.take(i as int).drop_last() =~= all.take(i - 1));
                assert(all.take(i as int).last() == targets@[i - 1]@);
            }
        }
        proof {
            assert(all.take(all.len() as int) =~= all);
        }
    }

    fn copy_into(&mut self, sources: &Vec<Word>, dir: &Word)
        ensures
            final(self)@ == old(self)@.copied_into(word_views(sources@), dir@),
    {
        let dir = match resolve(&self.cwd, dir) {
            Some(dir) => dir,
            None => {
                return ;
            },
        };
        let ghost all = word_views(sources@);
        let mut i: usize = 0;
        while i < sources.len()
            invariant
                i <= sources@.len(),
                all == word_views(sources@),
                self@ == old(self)@.into_each(all.take(i as int), dir@),
            decreases sources@.len() - i,
        {
            match resolve(&self.cwd, &sources[i]) {
                Some(path) => self.find(Find::Into(path, dir.clone())),
                None => {},
            }
            i += 1;
            proof {
                assert(all.take(i as int).drop_last() =~= all.take(i - 1));
                assert(all.take(i as int).last() == sources@[i - 1]@);
            }
        }
        proof {
            assert(all.take(all.len() as int) =~= all);
        }
    }

    /// `cp` or `mv`: sources read, and what they're copied or moved onto
    /// written.
    pub fn copy(&mut self, parsed: &Parsed)
        ensures
            final(self)@ == old(self)@.copied(parsed@),
    {
        let named = match parsed.value("-t") {
            Some(dir) => Some(dir),
            None => parsed.value("--target-directory"),
        };
        let ghost all = word_views(parsed.operands@);
        match named {
            Some(dir) => self.copy_into(&parsed.operands, &dir),
            None => {
                let n = parsed.operands.len();
                if n < 2 {
                    return ;
                }
                let target = parsed.operands[n - 1].copy();
                proof {
                    assert(all.last() == target@);
                    assert(all[0] == parsed.operands@[0]@);
                    assert(all[1] == parsed.operands@[1]@);
                }
                if n > 2 || (target.text.len() > 0 && target.text[target.text.len() - 1] == '/') {
                    let mut sources = words_from(&parsed.operands, 0);
                    proof {
                        assert(all.skip(0) =~= all);
                        assert(sources@.len() == word_views(sources@).len());
                    }
                    let ghost whole = sources@;
                    sources.pop();
                    proof {
                        assert(word_views(sources@) =~= word_views(whole).drop_last());
                    }
                    self.copy_into(&sources, &target);
                } else {
                    let source = resolve(&self.cwd, &parsed.operands[0]);
                    let onto = resolve(&self.cwd, &target);
                    self.find(Find::Onto(source, onto));
                }
            },
        }
    }
}

// ---------------------------------------------------------------------------
// What each program does
// ---------------------------------------------------------------------------

/// Whether a word sets a variable for the command after it.
pub open spec fn assigns(text: Seq<char>) -> bool {
    let end = run_end(text, Class::Not('='), 0);
    0 < end < text.len() && forall|k: int| 0 <= k < end ==> Class::Name.has(#[trigger] text[k])
}

/// Whether a program only runs the command after it.
pub open spec fn wraps(text: Seq<char>) -> bool {
    text == "sudo"@ || text == "env"@ || text == "command"@ || text == "builtin"@ || text
        == "exec"@ || text == "time"@ || text == "nice"@ || text == "nohup"@
}

/// Where the program is among a command's words, after what sets variables and
/// what only runs the next word.
pub open spec fn program_at(args: Seq<WordView>, i: int) -> int
    decreases args.len() - i,
{
    if 0 <= i < args.len() && (assigns(args[i].text) || wraps(args[i].text)) {
        program_at(args, i + 1)
    } else {
        i
    }
}

/// A program without the folder it is in.
pub open spec fn base_name(text: Seq<char>) -> Seq<char> {
    text.skip(run_start(text, Class::Not('/'), text.len() as int))
}

/// The programs that read each file they are given.
pub open spec fn reads_whole(program: Seq<char>) -> bool {
    program == "cat"@ || program == "less"@ || program == "more"@ || program == "bat"@ || program
        == "batcat"@ || program == "nl"@ || program == "wc"@ || program == "tac"@ || program
        == "cmp"@ || program == "od"@ || program == "xxd"@ || program == "hexdump"@ || program
        == "strings"@ || program == "file"@ || program == "stat"@ || program == "md5sum"@
        || program == "sha1sum"@ || program == "sha256sum"@ || program == "column"@ || program
        == "fold"@ || program == "fmt"@ || program == "rev"@ || program == "paste"@ || program
        == "head"@ || program == "tail"@ || program == "cut"@
}

pub open spec fn greps(program: Seq<char>) -> bool {
    program == "grep"@ || program == "egrep"@ || program == "fgrep"@
}

pub open spec fn ripgreps(program: Seq<char>) -> bool {
    program == "rg"@ || program == "ag"@
}

pub open spec fn awks(program: Seq<char>) -> bool {
    program == "awk"@ || program == "gawk"@
}

pub open spec fn queries(program: Seq<char>) -> bool {
    program == "jq"@ || program == "yq"@
}

pub open spec fn copies(program: Seq<char>) -> bool {
    program == "cp"@ || program == "mv"@
}

pub open spec fn changes_folder(program: Seq<char>) -> bool {
    program == "cd"@ || program == "pushd"@
}

/// The options of a program whose value is the next word.
pub open spec fn value_options(program: Seq<char>) -> Seq<Seq<char>> {
    if program == "head"@ || program == "tail"@ {
        seq!["-n"@, "-c"@]
    } else if program == "cut"@ {
        seq!["-d"@, "-f"@, "-c"@, "-b"@]
    } else if program == "diff"@ {
        seq!["-U"@, "-C"@, "-L"@, "-x"@, "-X"@, "-I"@]
    } else if program == "sort"@ {
        seq!["-k"@, "-t"@, "-o"@, "-S"@, "-T"@]
    } else if greps(program) {
        seq!["-e"@, "--regexp"@, "-f"@, "--file"@, "-m"@, "-A"@, "-B"@, "-C"@, "-d"@, "-D"@]
    } else if ripgreps(program) {
        seq![
            "-e"@,
            "--regexp"@,
            "-f"@,
            "--file"@,
            "-g"@,
            "--glob"@,
            "--iglob"@,
            "-t"@,
            "--type"@,
            "-T"@,
            "--type-not"@,
            "-m"@,
            "-A"@,
            "-B"@,
            "-C"@,
            "-M"@,
            "-j"@,
            "--max-depth"@,
        ]
    } else if program == "sed"@ {
        seq!["-e"@, "--expression"@, "-f"@, "--file"@, "-l"@]
    } else if awks(program) {
        seq!["-f"@, "--file"@, "-v"@, "-F"@, "-i"@]
    } else if program == "perl"@ {
        seq!["-e"@, "-E"@, "-I"@, "-M"@]
    } else if queries(program) {
        seq!["--arg"@, "--argjson"@, "-f"@, "--from-file"@]
    } else if copies(program) {
        seq!["-t"@, "--target-directory"@, "-S"@, "--suffix"@]
    } else if program == "git"@ {
        seq!["-U"@, "-n"@, "--format"@, "--pretty"@]
    } else {
        seq![]
    }
}

/// The options that give a program the pattern or script that otherwise comes
/// before its operands.
pub open spec fn pattern_options(program: Seq<char>) -> Seq<Seq<char>> {
    if greps(program) || ripgreps(program) {
        seq!["-e"@, "--regexp"@, "-f"@, "--file"@]
    } else if program == "sed"@ {
        seq!["-e"@, "--expression"@, "-f"@, "--file"@]
    } else if awks(program) {
        seq!["-f"@, "--file"@]
    } else if program == "perl"@ {
        seq!["-e"@, "-E"@]
    } else if queries(program) {
        seq!["-f"@, "--from-file"@]
    } else {
        seq![]
    }
}

/// The folders `find` starts from: its words up to its first test.
pub open spec fn starts_end(args: Seq<WordView>, i: int) -> int
    decreases args.len() - i,
{
    if 0 <= i < args.len() && !(args[i].text.len() > 0 && (args[i].text[0] == '-'
        || args[i].text[0] == '(' || args[i].text[0] == '!')) {
        starts_end(args, i + 1)
    } else {
        i
    }
}

/// Whether git's subcommand shows what files hold.
pub open spec fn shows_files(subcommand: Seq<char>) -> bool {
    subcommand == "diff"@ || subcommand == "show"@ || subcommand == "log"@ || subcommand
        == "blame"@
}

/// Where `cd` goes, if it can be worked out.
pub open spec fn changed_to(cwd: Option<Seq<char>>, operands: Seq<WordView>) -> Option<Seq<char>> {
    if operands.len() > 0 && operands[0].text != "-"@ {
        resolved(cwd, operands[0])
    } else {
        None
    }
}

/// The work of `git` given its words: files shown are read, and with none
/// named it shows those in the folder it's in.
pub open spec fn shown(work: WorkView, args: Seq<WordView>) -> WorkView {
    if args.len() > 0 && shows_files(args[0].text) {
        let operands = split_args(args.skip(1), value_options("git"@)).operands;
        let read = work.read_each(operands, true);
        if operands.len() == 0 && read.cwd is Some {
            read.scoped(read.cwd->0)
        } else {
            read
        }
    } else {
        work
    }
}

/// The work of a program given its words.
pub open spec fn performed(work: WorkView, program: Seq<char>, args: Seq<WordView>) -> WorkView {
    let parsed = split_args(args, value_options(program));
    let after = parsed.operands_after_pattern(pattern_options(program));
    if changes_folder(program) {
        WorkView { cwd: changed_to(work.cwd, parsed.operands), ..work }
    } else if reads_whole(program) {
        work.read_each(parsed.operands, false)
    } else if program == "diff"@ {
        work.read_each(parsed.operands, true)
    } else if program == "sort"@ {
        work.read_each(parsed.operands, false).written(parsed.value_of("-o"@))
    } else if greps(program) {
        work.searched(
            after,
            parsed.gives_flag('r') || parsed.gives_flag('R') || parsed.gives("--recursive"@),
        )
    } else if ripgreps(program) {
        work.searched(after, true)
    } else if program == "find"@ {
        work.searched(args.take(starts_end(args, 0)), true)
    } else if program == "sed"@ {
        work.read_or_edited(after, parsed.gives_in_place(true))
    } else if awks(program) {
        work.read_or_edited(
            after,
            parsed.value_of("-i"@) is Some && parsed.value_of("-i"@)->0.text == "inplace"@,
        )
    } else if program == "perl"@ {
        if parsed.gives_in_place(false) {
            work.edit_each(after)
        } else {
            work
        }
    } else if queries(program) {
        work.read_each(after, false)
    } else if program == "tee"@ {
        work.write_each(parsed.operands)
    } else if copies(program) {
        work.copied(parsed)
    } else if program == "git"@ {
        shown(work, args)
    } else {
        work
    }
}

/// The work of a redirect onto or from a word.
pub open spec fn redirected(work: WorkView, redirect: Redirect, target: WordView) -> WorkView {
    match resolved(work.cwd, target) {
        Some(path) => if within(path, "/dev"@) {
            work
        } else {
            match redirect {
                Redirect::Write => work.found(FindView::Writes(path)),
                Redirect::Read => work.found(FindView::Reads(path)),
                Redirect::NotAFile => work,
            }
        },
        None => work,
    }
}

/// A simple command's redirects worked out from `i` on, and the words left.
pub open spec fn gather(
    tokens: Seq<TokenView>,
    i: int,
    work: WorkView,
    args: Seq<WordView>,
) -> (WorkView, Seq<WordView>)
    decreases tokens.len() - i,
{
    if i < 0 || i >= tokens.len() {
        (work, args)
    } else {
        match tokens[i] {
            TokenView::Word(word) => gather(tokens, i + 1, work, args.push(word)),
            TokenView::Redirect(redirect) => if i + 1 < tokens.len() {
                match tokens[i + 1] {
                    TokenView::Word(target) => gather(
                        tokens,
                        i + 2,
                        redirected(work, redirect, target),
                        args,
                    ),
                    _ => gather(tokens, i + 2, work, args),
                }
            } else {
                (work, args)
            },
            TokenView::Break => gather(tokens, i + 1, work, args),
        }
    }
}

/// The work of a simple command, one between breaks.
pub open spec fn commanded(work: WorkView, tokens: Seq<TokenView>) -> WorkView {
    let (work, args) = gather(tokens, 0, work, seq![]);
    let at = program_at(args, 0);
    if 0 <= at < args.len() && args[at].known {
        performed(work, base_name(args[at].text), args.skip(at + 1))
    } else {
        work
    }
}

/// Where the simple command starting at `i` ends.
pub open spec fn break_at(tokens: Seq<TokenView>, i: int) -> int
    decreases tokens.len() - i,
{
    if 0 <= i < tokens.len() && tokens[i] != TokenView::Break {
        break_at(tokens, i + 1)
    } else {
        i
    }
}

/// The work of the simple commands from `i` on, one after the other, each in
/// the folder the one before left.
pub open spec fn commanded_from(work: WorkView, tokens: Seq<TokenView>, i: int) -> WorkView
    decreases tokens.len() - i,
{
    let end = break_at(tokens, i);
    let now = commanded(work, tokens.subrange(i, end));
    if 0 <= i <= end < tokens.len() {
        commanded_from(now, tokens, end + 1)
    } else {
        now
    }
}

/// What a command is found to do, started in `dir`.
pub open spec fn found_in(command: Seq<char>, dir: Seq<char>) -> Seq<FindView> {
    commanded_from(WorkView { cwd: Some(dir), finds: seq![] }, tokenized(command), 0).finds
}

// ---------------------------------------------------------------------------
// Working out what a program does
// ---------------------------------------------------------------------------

fn is_assignment(text: &[char]) -> (b: bool)
    ensures
        b == assigns(text@),
{
    broadcast use group_runs;

    let end = end_of_run(text, Class::Not('='), 0);
    let names = end_of_run(text, Class::Name, 0);
    proof {
        if names < end {
            assert(!Class::Name.has(text@[names as int]));
        }
    }
    0 < end && end < text.len() && names >= end
}

fn is_wrapper(text: &[char]) -> (b: bool)
    ensures
        b == wraps(text@),
{
    spells(text, "sudo") || spells(text, "env") || spells(text, "command") || spells(
        text,
        "builtin",
    ) || spells(text, "exec") || spells(text, "time") || spells(text, "nice") || spells(
        text,
        "nohup",
    )
}

fn is_reading_whole(p: &[char]) -> (b: bool)
    ensures
        b == reads_whole(p@),
{
    spells(p, "cat") || spells(p, "less") || spells(p, "more") || spells(p, "bat") || spells(
        p,
        "batcat",
    ) || spells(p, "nl") || spells(p, "wc") || spells(p, "tac") || spells(p, "cmp") || spells(
        p,
        "od",
    ) || spells(p, "xxd") || spells(p, "hexdump") || spells(p, "strings") || spells(p, "file")
        || spells(p, "stat") || spells(p, "md5sum") || spells(p, "sha1sum") || spells(
        p,
        "sha256sum",
    ) || spells(p, "column") || spells(p, "fold") || spells(p, "fmt") || spells(p, "rev") || spells(
        p,
        "paste",
    ) || spells(p, "head") || spells(p, "tail") || spells(p, "cut")
}

fn value_options_of(p: &[char]) -> (r: Vec<&'static str>)
    ensures
        views(r@) == value_options(p@),
{
    let r: Vec<&'static str> = if spells(p, "head") || spells(p, "tail") {
        vec!["-n", "-c"]
    } else if spells(p, "cut") {
        vec!["-d", "-f", "-c", "-b"]
    } else if spells(p, "diff") {
        vec!["-U", "-C", "-L", "-x", "-X", "-I"]
    } else if spells(p, "sort") {
        vec!["-k", "-t", "-o", "-S", "-T"]
    } else if spells(p, "grep") || spells(p, "egrep") || spells(p, "fgrep") {
        vec!["-e", "--regexp", "-f", "--file", "-m", "-A", "-B", "-C", "-d", "-D"]
    } else if spells(p, "rg") || spells(p, "ag") {
        vec![
            "-e",
            "--regexp",
            "-f",
            "--file",
            "-g",
            "--glob",
            "--iglob",
            "-t",
            "--type",
            "-T",
            "--type-not",
            "-m",
            "-A",
            "-B",
            "-C",
            "-M",
            "-j",
            "--max-depth",
        ]
    } else if spells(p, "sed") {
        vec!["-e", "--expression", "-f", "--file", "-l"]
    } else if spells(p, "awk") || spells(p, "gawk") {
        vec!["-f", "--file", "-v", "-F", "-i"]
    } else if spells(p, "perl") {
        vec!["-e", "-E", "-I", "-M"]
    } else if spells(p, "jq") || spells(p, "yq") {
        vec!["--arg", "--argjson", "-f", "--from-file"]
    } else if spells(p, "cp") || spells(p, "mv") {
        vec!["-t", "--target-directory", "-S", "--suffix"]
    } else if spells(p, "git") {
        vec!["-U", "-n", "--format", "--pretty"]
    } else {
        Vec::new()
    };
    proof {
        assert(views(r@) =~= value_options(p@));
    }
    r
}

fn pattern_options_of(p: &[char]) -> (r: Vec<&'static str>)
    ensures
        views(r@) == pattern_options(p@),
{
    let r: Vec<&'static str> = if spells(p, "grep") || spells(p, "egrep") || spells(p, "fgrep")
        || spells(p, "rg") || spells(p, "ag") {
        vec!["-e", "--regexp", "-f", "--file"]
    } else if spells(p, "sed") {
        vec!["-e", "--expression", "-f", "--file"]
    } else if spells(p, "awk") || spells(p, "gawk") {
        vec!["-f", "--file"]
    } else if spells(p, "perl") {
        vec!["-e", "-E"]
    } else if spells(p, "jq") || spells(p, "yq") {
        vec!["-f", "--from-file"]
    } else {
        Vec::new()
    };
    proof {
        assert(views(r@) =~= pattern_options(p@));
    }
    r
}

/// The words `find` starts from.
fn starts_of(args: &Vec<Word>) -> (r: Vec<Word>)
    ensures
        word_views(r@) == word_views(args@).take(starts_end(word_views(args@), 0)),
{
    let ghost all = word_views(args@);
    let mut r: Vec<Word> = Vec::new();
    let mut i: usize = 0;
    proof {
        assert(word_views(r@) =~= all.take(0));
    }
    while i < args.len()
        invariant
            i <= args@.len(),
            all == word_views(args@),
            word_views(r@) == all.take(i as int),
            starts_end(all, i as int) == starts_end(all, 0),
        decreases args@.len() - i,
    {
        proof {
            assert(all[i as int] == args@[i as int]@);
        }
        let arg = args[i].copy();
        if arg.text.len() > 0 && (arg.text[0] == '-' || arg.text[0] == '(' || arg.text[0] == '!') {
            return r;
        }
        let ghost before = word_views(r@);
        r.push(arg);
        proof {
            assert(word_views(r@) =~= before.push(arg@));
            assert(all.take(i + 1) =~= all.take(i as int).push(arg@));
        }
        i += 1;
    }
    r
}

impl Work {
    /// `git` given its words.
    fn git(&mut self, args: &Vec<Word>)
        ensures
            final(self)@ == shown(old(self)@, word_views(args@)),
    {
        if args.len() == 0 {
            return ;
        }
        proof {
            assert(word_views(args@)[0] == args@[0]@);
        }
        let subcommand = args[0].copy();
        if !(spells(&subcommand.text, "diff") || spells(&subcommand.text, "show") || spells(
            &subcommand.text,
            "log",
        ) || spells(&subcommand.text, "blame")) {
            return ;
        }
        let parsed = parse(&words_from(args, 1), value_options_of(&chars_of("git")));
        self.read_all(&parsed.operands, true);
        if parsed.operands.len() == 0 {
            match copy_of(&self.cwd) {
                Some(dir) => self.scope(dir),
                None => {},
            }
        }
    }

    /// What a program given its words does.
    fn perform(&mut self, program: &[char], args: &Vec<Word>)
        ensures
            final(self)@ == performed(old(self)@, program@, word_views(args@)),
    {
        let parsed = parse(args, value_options_of(program));
        let after = parsed.after_pattern(pattern_options_of(program));
        if spells(program, "cd") || spells(program, "pushd") {
            let to = if parsed.operands.len() > 0 && !spells(&parsed.operands[0].text, "-") {
                resolve(&self.cwd, &parsed.operands[0])
            } else {
                None
            };
            proof {
                if parsed.operands@.len() > 0 {
                    assert(parsed@.operands[0] == parsed.operands@[0]@);
                }
            }
            self.cwd = to;
        } else if is_reading_whole(program) {
            self.read_all(&parsed.operands, false);
        } else if spells(program, "diff") {
            self.read_all(&parsed.operands, true);
        } else if spells(program, "sort") {
            self.read_all(&parsed.operands, false);
            self.write(parsed.value("-o"));
        } else if spells(program, "grep") || spells(program, "egrep") || spells(program, "fgrep") {
            let recursive = parsed.has_flag('r') || parsed.has_flag('R') || parsed.has(
                "--recursive",
            );
            self.search(&after, recursive);
        } else if spells(program, "rg") || spells(program, "ag") {
            self.search(&after, true);
        } else if spells(program, "find") {
            self.search(&starts_of(args), true);
        } else if spells(program, "sed") {
            let edits = parsed.has_in_place(true);
            self.read_or_edit(&after, edits);
        } else if spells(program, "awk") || spells(program, "gawk") {
            let edits = match parsed.value("-i") {
                Some(value) => spells(&value.text, "inplace"),
                None => false,
            };
            self.read_or_edit(&after, edits);
        } else if spells(program, "perl") {
            if parsed.has_in_place(false) {
                self.read_or_edit(&after, true);
            }
        } else if spells(program, "jq") || spells(program, "yq") {
            self.read_all(&after, false);
        } else if spells(program, "tee") {
            self.write_all(&parsed.operands);
        } else if spells(program, "cp") || spells(program, "mv") {
            self.copy(&parsed);
        } else if spells(program, "git") {
            self.git(args);
        }
    }

    fn redirect(&mut self, redirect: Redirect, target: &Word)
        ensures
            final(self)@ == redirected(old(self)@, redirect, target@),
    {
        match resolve(&self.cwd, target) {
            Some(path) => if !is_within(&path, "/dev") {
                match redirect {
                    Redirect::Write => self.find(Find::Writes(path)),
                    Redirect::Read => self.find(Find::Reads(path)),
                    Redirect::NotAFile => {},
                }
            },
            None => {},
        }
    }
}

/// What a simple command, the tokens from `from` up to `to`, works on,
/// following `cd` for those after it.
pub fn simple_command(tokens: &Vec<Token>, from: usize, to: usize, work: &mut Work)
    requires
        from <= to <= tokens@.len(),
    ensures
        final(work)@ == commanded(
            old(work)@,
            token_views(tokens@).subrange(from as int, to as int),
        ),
{
    let ghost all = token_views(tokens@).subrange(from as int, to as int);
    let mut args: Vec<Word> = Vec::new();
    let mut i: usize = from;
    proof {
        assert(word_views(args@) =~= seq![]);
    }
    while i < to
        invariant
            from <= i <= to <= tokens@.len(),
            all == token_views(tokens@).subrange(from as int, to as int),
            gather(all, i - from, work@, word_views(args@)) == gather(all, 0, old(work)@, seq![]),
        decreases to - i,
    {
        proof {
            assert(all[i - from] == tokens@[i as int]@);
            if i + 1 < to {
                assert(all[i + 1 - from] == tokens@[i + 1]@);
            }
        }
        match &tokens[i] {
            Token::Word(word) => {
                let ghost before = word_views(args@);
                args.push(word.copy());
                proof {
                    assert(word_views(args@) =~= before.push(word@));
                }
                i += 1;
            },
            Token::Redirect(redirect) => {
                if to - i > 1 {
                    match &tokens[i + 1] {
                        Token::Word(target) => work.redirect(*redirect, target),
                        _ => {},
                    }
                    i += 2;
                } else {
                    i += 1;
                }
            },
            Token::Break => {
                i += 1;
            },
        }
    }
    let ghost words = word_views(args@);
    let mut at: usize = 0;
    while at < args.len() && (is_assignment(&args[at].text) || is_wrapper(&args[at].text))
        invariant
            at <= args@.len(),
            words == word_views(args@),
            program_at(words, at as int) == program_at(words, 0),
        decreases args@.len() - at,
    {
        proof {
            assert(words[at as int] == args@[at as int]@);
        }
        at += 1;
    }
    proof {
        if at < args@.len() {
            assert(words[at as int] == args@[at as int]@);
        }
    }
    if at < args.len() && args[at].known {
        let text = &args[at].text;
        let base = piece(text, start_of_run(text, Class::Not('/'), text.len()), text.len());
        proof {
            broadcast use group_runs;

            assert(base@ =~= base_name(text@));
        }
        work.perform(&base, &words_from(&args, at + 1));
    }
}

/// What `command` is found to do, its relative paths read from `dir`.
pub fn finds(command: &str, dir: &str) -> (r: Vec<Find>)
    ensures
        find_views(r@) == found_in(command@, dir@),
{
    let tokens = tokens(command);
    let ghost all = token_views(tokens@);
    let mut work = Work { cwd: Some(dir.to_owned()), finds: Vec::new() };
    let ghost start = WorkView { cwd: Some(dir@), finds: seq![] };
    proof {
        assert(work@ =~= start);
    }
    let mut i: usize = 0;
    loop
        invariant
            i <= tokens@.len(),
            all == token_views(tokens@),
            commanded_from(work@, all, i as int) == commanded_from(start, all, 0),
            found_in(command@, dir@) == commanded_from(start, all, 0).finds,
        decreases tokens@.len() - i,
    {
        let mut end: usize = i;
        while end < tokens.len() && !matches!(tokens[end], Token::Break)
            invariant
                i <= end <= tokens@.len(),
                all == token_views(tokens@),
                break_at(all, end as int) == break_at(all, i as int),
            decreases tokens@.len() - end,
        {
            proof {
                assert(all[end as int] == tokens@[end as int]@);
            }
            end += 1;
        }
        proof {
            if end < tokens@.len() {
                assert(all[end as int] == tokens@[end as int]@);
            }
        }
        simple_command(&tokens, i, end, &mut work);
        if end >= tokens.len() {
            return work.finds;
        }
        i = end + 1;
    }
}

// ---------------------------------------------------------------------------
// What it comes to on disk
// ---------------------------------------------------------------------------

impl ShellPathsView {
    pub open spec fn with_file(self, path: Seq<char>, edited: bool) -> ShellPathsView {
        ShellPathsView { files: self.files.push((path, edited)), ..self }
    }

    pub open spec fn with_scope(self, scope: ScopeView) -> ShellPathsView {
        ShellPathsView { scopes: self.scopes.push(scope), ..self }
    }

    /// A source, if it is a file, read, and written under its name in `dir`.
    pub open spec fn put_into(
        self,
        source: Seq<char>,
        dir: Seq<char>,
        listing: ListingView,
    ) -> ShellPathsView {
        if listing.files.contains(source) && file_name(source) is Some {
            self.with_file(source, false).with_file(join_path(dir, file_name(source)->0), true)
        } else {
            self
        }
    }

    /// A source, if it is a file, read, and the target, unless it is a device,
    /// written; or put into the target if that is a folder.
    pub open spec fn put_onto(
        self,
        source: Option<Seq<char>>,
        target: Option<Seq<char>>,
        listing: ListingView,
    ) -> ShellPathsView {
        if target is Some && listing.folders.contains(target->0) {
            match source {
                Some(source) => self.put_into(source, target->0, listing),
                None => self,
            }
        } else {
            let read = if source is Some && listing.files.contains(source->0) {
                self.with_file(source->0, false)
            } else {
                self
            };
            if target is Some && !within(target->0, "/dev"@) {
                read.with_file(target->0, true)
            } else {
                read
            }
        }
    }

    /// What is worked on, with something the command is found to do added.
    pub open spec fn settle(self, find: FindView, listing: ListingView) -> ShellPathsView {
        match find {
            FindView::Writes(path) => self.with_file(path, true),
            FindView::Reads(path) => if listing.files.contains(path) {
                self.with_file(path, false)
            } else {
                self
            },
            FindView::Edits(path) => if listing.files.contains(path) {
                self.with_file(path, true)
            } else {
                self
            },
            FindView::Takes(scope) => if listing.files.contains(scope.dir) {
                self.with_file(scope.dir, false)
            } else if listing.folders.contains(scope.dir) {
                self.with_scope(scope)
            } else {
                self
            },
            FindView::Scope(scope) => self.with_scope(scope),
            FindView::Into(source, dir) => self.put_into(source, dir, listing),
            FindView::Onto(source, target) => self.put_onto(source, target, listing),
        }
    }
}

/// What is worked on by what a command is found to do.
pub open spec fn settled(finds: Seq<FindView>, listing: ListingView) -> ShellPathsView
    decreases finds.len(),
{
    if finds.len() == 0 {
        ShellPathsView { files: seq![], scopes: seq![] }
    } else {
        settled(finds.drop_last(), listing).settle(finds.last(), listing)
    }
}

/// The paths to look up for something a command is found to do.
pub open spec fn asked_by(find: FindView) -> Seq<Seq<char>> {
    match find {
        FindView::Writes(path) => seq![],
        FindView::Reads(path) => seq![path],
        FindView::Edits(path) => seq![path],
        FindView::Takes(scope) => seq![scope.dir],
        FindView::Scope(scope) => seq![],
        FindView::Into(source, dir) => seq![source],
        FindView::Onto(source, target) => (if source is Some {
            seq![source->0]
        } else {
            seq![]
        }) + (if target is Some {
            seq![target->0]
        } else {
            seq![]
        }),
    }
}

/// The paths to look up for what a command is found to do.
pub open spec fn asked(finds: Seq<FindView>) -> Seq<Seq<char>>
    decreases finds.len(),
{
    if finds.len() == 0 {
        seq![]
    } else {
        asked(finds.drop_last()) + asked_by(finds.last())
    }
}

impl ShellPaths {
    fn add_file(&mut self, path: &String, edited: bool)
        ensures
            final(self)@ == old(self)@.with_file(path@, edited),
    {
        let file = (path.clone(), edited);
        self.files.push(file);
        proof {
            assert(file_views(self.files@) =~= file_views(old(self).files@).push(
                (path@, edited),
            ));
        }
    }

    fn add_scope(&mut self, scope: &Scope)
        ensures
            final(self)@ == old(self)@.with_scope(scope@),
    {
        let scope = Scope { dir: scope.dir.clone(), base: scope.base.clone() };
        self.scopes.push(scope);
        proof {
            assert(scope_views(self.scopes@) =~= scope_views(old(self).scopes@).push(scope@));
        }
    }

    fn add_into(&mut self, source: &String, dir: &String, listing: &Listing)
        ensures
            final(self)@ == old(self)@.put_into(source@, dir@, listing@),
    {
        if listing.is_file(source) {
            match file_name_of(source) {
                Some(name) => {
                    self.add_file(source, false);
                    self.add_file(&joined_path(dir, &name), true);
                },
                None => {},
            }
        }
    }

    fn add_onto(&mut self, source: &Option<String>, target: &Option<String>, listing: &Listing)
        ensures
            final(self)@ == old(self)@.put_onto(text_of(*source), text_of(*target), listing@),
    {
        if let Some(dir) = target {
            if listing.is_folder(dir) {
                if let Some(source) = source {
                    self.add_into(source, dir, listing);
                }
                return ;
            }
        }
        if let Some(source) = source {
            if listing.is_file(source) {
                self.add_file(source, false);
            }
        }
        if let Some(target) = target {
            if !is_within(target, "/dev") {
                self.add_file(target, true);
            }
        }
    }

    fn add(&mut self, find: &Find, listing: &Listing)
        ensures
            final(self)@ == old(self)@.settle(find@, listing@),
    {
        match find {
            Find::Writes(path) => self.add_file(path, true),
            Find::Reads(path) => if listing.is_file(path) {
                self.add_file(path, false)
            },
            Find::Edits(path) => if listing.is_file(path) {
                self.add_file(path, true)
            },
            Find::Takes(scope) => if listing.is_file(&scope.dir) {
                self.add_file(&scope.dir, false)
            } else if listing.is_folder(&scope.dir) {
                self.add_scope(scope)
            },
            Find::Scope(scope) => self.add_scope(scope),
            Find::Into(source, dir) => self.add_into(source, dir, listing),
            Find::Onto(source, target) => self.add_onto(source, target, listing),
        }
    }
}

/// What is worked on by what a command is found to do, `listing` being what
/// there is of the paths it asks about.
pub fn settle(finds: &Vec<Find>, listing: &Listing) -> (r: ShellPaths)
    ensures
        r@ == settled(find_views(finds@), listing@),
{
    let ghost all = find_views(finds@);
    let mut paths = ShellPaths { files: Vec::new(), scopes: Vec::new() };
    let mut i: usize = 0;
    proof {
        assert(paths@ =~= settled(all.take(0), listing@));
    }
    while i < finds.len()
        invariant
            i <= finds@.len(),
            all == find_views(finds@),
            paths@ == settled(all.take(i as int), listing@),
        decreases finds@.len() - i,
    {
        paths.add(&finds[i], listing);
        i += 1;
        proof {
            assert(all.take(i as int).drop_last() =~= all.take(i - 1));
            assert(all.take(i as int).last() == finds@[i - 1]@);
        }
    }
    proof {
        assert(all.take(all.len() as int) =~= all);
    }
    paths
}

/// The files and scopes `command` works on, its relative paths read from
/// `dir`, and `listing` being what there is of the paths it asks about.
pub fn analyze(command: &str, dir: &str, listing: &Listing) -> (r: ShellPaths)
    ensures
        r@ == settled(found_in(command@, dir@), listing@),
{
    settle(&finds(command, dir), listing)
}

fn push_path(paths: &mut Vec<String>, path: &String)
    ensures
        views(final(paths)@) == views(old(paths)@).push(path@),
{
    paths.push(path.clone());
    proof {
        assert(views(paths@) =~= views(old(paths)@).push(path@));
    }
}

/// The paths to look up for what a command is found to do.
pub fn paths_asked_about(finds: &Vec<Find>) -> (r: Vec<String>)
    ensures
        views(r@) == asked(find_views(finds@)),
{
    let ghost all = find_views(finds@);
    let mut r: Vec<String> = Vec::new();
    let mut i: usize = 0;
    proof {
        assert(views(r@) =~= asked(all.take(0)));
    }
    while i < finds.len()
        invariant
            i <= finds@.len(),
            all == find_views(finds@),
            views(r@) == asked(all.take(i as int)),
        decreases finds@.len() - i,
    {
        let ghost before = views(r@);
        match &finds[i] {
            Find::Writes(_) | Find::Scope(_) => {},
            Find::Reads(path) | Find::Edits(path) => push_path(&mut r, path),
            Find::Takes(scope) => push_path(&mut r, &scope.dir),
            Find::Into(source, _) => push_path(&mut r, source),
            Find::Onto(source, target) => {
                if let Some(source) = source {
                    push_path(&mut r, source);
                }
                if let Some(target) = target {
                    push_path(&mut r, target);
                }
            },
        }
        i += 1;
        proof {
            assert(views(r@) =~= before + asked_by(finds@[i - 1]@));
            assert(all.take(i as int).drop_last() =~= all.take(i - 1));
            assert(all.take(i as int).last() == finds@[i - 1]@);
        }
    }
    proof {
        assert(all.take(all.len() as int) =~= all);
    }
    r
}

/// What a command works on follows from what there is of the paths it asks
/// about: what is anywhere else on disk makes no difference.
pub proof fn only_what_is_asked_about_counts(
    finds: Seq<FindView>,
    one: ListingView,
    other: ListingView,
)
    requires
        forall|path: Seq<char>| #[trigger]
            asked(finds).contains(path) ==> one.files.contains(path) == other.files.contains(path),
        forall|path: Seq<char>| #[trigger]
            asked(finds).contains(path) ==> one.folders.contains(path) == other.folders.contains(
                path,
            ),
    ensures
        settled(finds, one) == settled(finds, other),
    decreases finds.len(),
{
    if finds.len() > 0 {
        let rest = asked(finds.drop_last());
        let last = asked_by(finds.last());
        let all = asked(finds);
        assert forall|path: Seq<char>| #[trigger] rest.contains(path) implies all.contains(
            path,
        ) by {
            let k = choose|k: int| 0 <= k < rest.len() && rest[k] == path;
            assert(all[k] == path);
        }
        assert forall|k: int| 0 <= k < last.len() implies all.contains(#[trigger] last[k]) by {
            assert(all[rest.len() + k] == last[k]);
        }
        only_what_is_asked_about_counts(finds.drop_last(), one, other);
        match finds.last() {
            FindView::Reads(path) | FindView::Edits(path) => {
                assert(all.contains(last[0]));
            },
            FindView::Takes(scope) => {
                assert(all.contains(last[0]));
            },
            FindView::Into(source, dir) => {
                assert(all.contains(last[0]));
            },
            FindView::Onto(source, target) => {
                if source is Some {
                    assert(all.contains(last[0]));
                }
                if target is Some {
                    assert(all.contains(last[last.len() - 1]));
                }
            },
            _ => {},
        }
    }
}

// ---------------------------------------------------------------------------
// What output names
// ---------------------------------------------------------------------------

/// `s` without the prefix and suffix, when it has both.
pub open spec fn stripped(s: Seq<char>, prefix: Seq<char>, suffix: Seq<char>) -> Option<
    Seq<char>,
> {
    if prefix.is_prefix_of(s) && suffix.is_suffix_of(s.skip(prefix.len() as int)) {
        Some(s.subrange(prefix.len() as int, s.len() - suffix.len()))
    } else {
        None
    }
}

/// What a heading names, as `head`, `tail`, and `diff` print it.
pub open spec fn headed(line: Seq<char>) -> Option<Seq<char>> {
    if let Some(named) = stripped(line, "==> "@, " <=="@) {
        Some(named)
    } else if let Some(named) = stripped(line, "+++ b/"@, ""@) {
        Some(named)
    } else if let Some(named) = stripped(line, "--- a/"@, ""@) {
        Some(named)
    } else if let Some(named) = stripped(line, "+++ "@, ""@) {
        Some(named)
    } else {
        stripped(line, "--- "@, ""@)
    }
}

/// What comes before the first `c`.
pub open spec fn before(s: Seq<char>, c: char) -> Seq<char> {
    s.take(run_end(s, Class::Not(c), 0))
}

pub open spec fn some_text(text: Seq<char>) -> Seq<Seq<char>> {
    if text.len() > 0 {
        seq![text]
    } else {
        seq![]
    }
}

/// What a line of output may name, the likeliest first: what a heading names,
/// the whole line, and what comes before its first colon.
pub open spec fn names_in(line: Seq<char>) -> Seq<Seq<char>> {
    let line = trim(line);
    (match headed(line) {
        Some(named) => some_text(before(named, '\t')),
        None => seq![],
    }) + some_text(line) + (if line.contains(':') {
        some_text(before(line, ':'))
    } else {
        seq![]
    })
}

/// The paths in a scope that some names may be.
pub open spec fn paths_in(scope: ScopeView, names: Seq<Seq<char>>) -> Seq<Seq<char>>
    decreases names.len(),
{
    if names.len() == 0 {
        seq![]
    } else {
        let path = normalized(join_path(scope.base, names.last()));
        let others = paths_in(scope, names.drop_last());
        if within(path, scope.dir) {
            others.push(path)
        } else {
            others
        }
    }
}

/// The first of some paths that is a file.
pub open spec fn first_file(paths: Seq<Seq<char>>, listing: ListingView, i: int) -> Option<
    Seq<char>,
>
    decreases paths.len() - i,
{
    if i < 0 || i >= paths.len() {
        None
    } else if listing.files.contains(paths[i]) {
        Some(paths[i])
    } else {
        first_file(paths, listing, i + 1)
    }
}

fn strip(s: &[char], prefix: &str, suffix: &str) -> (r: Option<Vec<char>>)
    ensures
        match r {
            Some(r) => stripped(s@, prefix@, suffix@) == Some(r@),
            None => stripped(s@, prefix@, suffix@) is None,
        },
{
    if !starts_with(s, prefix) {
        return None;
    }
    let p = chars_of(prefix);
    let q = chars_of(suffix);
    let rest = piece(s, p.len(), s.len());
    proof {
        assert(rest@ =~= s@.skip(prefix@.len() as int));
    }
    if !ends_with(&rest, suffix) {
        return None;
    }
    Some(piece(s, p.len(), s.len() - q.len()))
}

fn push_text(texts: &mut Vec<Vec<char>>, text: Vec<char>)
    ensures
        views(final(texts)@) == views(old(texts)@) + some_text(text@),
{
    if text.len() > 0 {
        texts.push(text);
    }
    proof {
        assert(views(texts@) =~= views(old(texts)@) + some_text(text@));
    }
}

fn named(output: &str) -> (r: Vec<Vec<char>>)
    ensures
        views(r@) == names_in(output@),
{
    broadcast use group_runs;

    let line = trimmed(&chars_of(output));
    let mut r: Vec<Vec<char>> = Vec::new();
    let heading = if let Some(named) = strip(&line, "==> ", " <==") {
        Some(named)
    } else if let Some(named) = strip(&line, "+++ b/", "") {
        Some(named)
    } else if let Some(named) = strip(&line, "--- a/", "") {
        Some(named)
    } else if let Some(named) = strip(&line, "+++ ", "") {
        Some(named)
    } else {
        strip(&line, "--- ", "")
    };
    let ghost mut first: Seq<Seq<char>> = seq![];
    if let Some(named) = heading {
        let text = piece(&named, 0, end_of_run(&named, Class::Not('\t'), 0));
        proof {
            assert(text@ =~= before(named@, '\t'));
            first = some_text(text@);
        }
        push_text(&mut r, text);
    }
    proof {
        assert(views(r@) =~= first);
    }
    let colon = end_of_run(&line, Class::Not(':'), 0);
    let start = piece(&line, 0, colon);
    let whole = piece(&line, 0, line.len());
    proof {
        assert(start@ =~= before(line@, ':'));
        assert(whole@ =~= line@);
        if colon < line@.len() {
            assert(line@[colon as int] == ':');
        } else if line@.contains(':') {
            let k = choose|k: int| 0 <= k < line@.len() && line@[k] == ':';
            assert(Class::Not(':').has(line@[k]));
        }
        assert(line@.contains(':') == (colon < line@.len()));
    }
    push_text(&mut r, whole);
    if colon < line.len() {
        push_text(&mut r, start);
    }
    proof {
        assert(views(r@) =~= names_in(output@));
    }
    r
}

impl Scope {
    /// The paths in the scope that a line of output may name, the likeliest
    /// first.
    pub fn paths_named_in(&self, line: &str) -> (r: Vec<String>)
        ensures
            views(r@) == paths_in(self@, names_in(line@)),
    {
        let names = named(line);
        let ghost all = views(names@);
        let mut r: Vec<String> = Vec::new();
        let mut i: usize = 0;
        proof {
            assert(views(r@) =~= paths_in(self@, all.take(0)));
        }
        while i < names.len()
            invariant
                i <= names@.len(),
                all == views(names@),
                views(r@) == paths_in(self@, all.take(i as int)),
            decreases names@.len() - i,
        {
            let path = normalize(&joined_path(&self.base, &string_of(&names[i])));
            if is_within(&path, &self.dir) {
                push_path(&mut r, &path);
            }
            i += 1;
            proof {
                assert(all.take(i as int).drop_last() =~= all.take(i - 1));
                assert(all.take(i as int).last() == names@[i - 1]@);
            }
        }
        proof {
            assert(all.take(all.len() as int) =~= all);
        }
        r
    }

    /// The file in the scope that a line of output names: a line that is a
    /// path, one that starts with a path and a colon, as a search's matches
    /// do, or a heading naming one, as `head`, `tail`, and `diff` print.
    pub fn named_in(&self, line: &str, listing: &Listing) -> (r: Option<String>)
        ensures
            text_of(r) == first_file(paths_in(self@, names_in(line@)), listing@, 0),
    {
        let paths = self.paths_named_in(line);
        let ghost all = views(paths@);
        let mut i: usize = 0;
        while i < paths.len()
            invariant
                i <= paths@.len(),
                all == views(paths@),
                all == paths_in(self@, names_in(line@)),
                first_file(all, listing@, i as int) == first_file(all, listing@, 0),
            decreases paths@.len() - i,
        {
            proof {
                assert(all[i as int] == paths@[i as int]@);
            }
            if listing.is_file(&paths[i]) {
                return Some(paths[i].clone());
            }
            i += 1;
        }
        None
    }
}

// ---------------------------------------------------------------------------
// What holds of the paths worked out
// ---------------------------------------------------------------------------

/// What is built from a variable, a command substitution or a home directory is
/// left out rather than guessed at: nothing is found to be done with it.
pub proof fn what_is_not_known_is_left_out(
    work: WorkView,
    word: WordView,
    redirect: Redirect,
    folders: bool,
)
    requires
        !word.known,
    ensures
        work.read(word, folders) == work,
        work.written(Some(word)) == work,
        work.copied_into(seq![], word) == work,
        redirected(work, redirect, word) == work,
        resolved(work.cwd, word) is None,
{
}

/// A file that a line of output names is a file, and in the scope.
pub proof fn a_file_named_is_in_the_scope(scope: ScopeView, line: Seq<char>, listing: ListingView)
    ensures
        ({
            let file = first_file(paths_in(scope, names_in(line)), listing, 0);
            file is Some ==> listing.files.contains(file->0) && within(file->0, scope.dir)
                && worked_out(file->0)
        }),
{
    lemma_paths_in(scope, names_in(line));
    lemma_first_file(paths_in(scope, names_in(line)), listing, 0);
}

proof fn lemma_paths_in(scope: ScopeView, names: Seq<Seq<char>>)
    ensures
        forall|k: int|
            0 <= k < paths_in(scope, names).len() ==> within(
                #[trigger] paths_in(scope, names)[k],
                scope.dir,
            ) && worked_out(paths_in(scope, names)[k]),
    decreases names.len(),
{
    if names.len() > 0 {
        lemma_paths_in(scope, names.drop_last());
        normalizing_twice_is_once(join_path(scope.base, names.last()));
        let others = paths_in(scope, names.drop_last());
        let all = paths_in(scope, names);
        assert forall|k: int| 0 <= k < all.len() implies within(#[trigger] all[k], scope.dir)
            && worked_out(all[k]) by {
            if k < others.len() {
                assert(all[k] == others[k]);
            }
        }
    }
}

proof fn lemma_first_file(paths: Seq<Seq<char>>, listing: ListingView, i: int)
    requires
        0 <= i <= paths.len(),
    ensures
        ({
            let file = first_file(paths, listing, i);
            file is Some ==> listing.files.contains(file->0) && exists|k: int|
                0 <= k < paths.len() && #[trigger] paths[k] == file->0
        }),
    decreases paths.len() - i,
{
    if i < paths.len() && !listing.files.contains(paths[i]) {
        lemma_first_file(paths, listing, i + 1);
    }
}

/// Whether a path has nothing left to work out.
pub open spec fn worked_out(path: Seq<char>) -> bool {
    normalized(path) == path
}

pub open spec fn worked_out_if_any(path: Option<Seq<char>>) -> bool {
    path is Some ==> worked_out(path->0)
}

pub open spec fn scope_worked_out(scope: ScopeView) -> bool {
    worked_out(scope.dir) && worked_out(scope.base)
}

/// Whether the paths of what a command is found to do are worked out, the folder
/// it is done in too where `settled` says that it is.
pub open spec fn find_worked_out(find: FindView, settled: bool) -> bool {
    match find {
        FindView::Writes(path) => worked_out(path),
        FindView::Reads(path) => worked_out(path),
        FindView::Edits(path) => worked_out(path),
        FindView::Takes(scope) => worked_out(scope.dir) && (settled ==> scope_worked_out(scope)),
        FindView::Scope(scope) => settled ==> scope_worked_out(scope),
        FindView::Into(source, dir) => worked_out(source) && worked_out(dir),
        FindView::Onto(source, target) => worked_out_if_any(source) && worked_out_if_any(target),
    }
}

pub open spec fn all_worked_out(work: WorkView, settled: bool) -> bool {
    &&& settled ==> worked_out_if_any(work.cwd)
    &&& forall|k: int|
        0 <= k < work.finds.len() ==> find_worked_out(#[trigger] work.finds[k], settled)
}

pub open spec fn paths_worked_out(paths: ShellPathsView, settled: bool) -> bool {
    &&& forall|k: int| 0 <= k < paths.files.len() ==> worked_out((#[trigger] paths.files[k]).0)
    &&& settled ==> forall|k: int|
        0 <= k < paths.scopes.len() ==> scope_worked_out(#[trigger] paths.scopes[k])
}

proof fn lemma_resolved(cwd: Option<Seq<char>>, word: WordView)
    ensures
        worked_out_if_any(resolved(cwd, word)),
        worked_out_if_any(pattern_folder(cwd, word)),
{
    let dir = literal_folder(word.text);
    normalizing_twice_is_once(word.text);
    normalizing_twice_is_once(dir);
    if cwd is Some {
        normalizing_twice_is_once(join_path(cwd->0, word.text));
        normalizing_twice_is_once(join_path(cwd->0, dir));
    }
}

proof fn lemma_read_each(work: WorkView, operands: Seq<WordView>, folders: bool, settled_dir: bool)
    requires
        all_worked_out(work, settled_dir),
    ensures
        all_worked_out(work.read_each(operands, folders), settled_dir),
        work.read_each(operands, folders).cwd == work.cwd,
    decreases operands.len(),
{
    if operands.len() > 0 {
        lemma_read_each(work, operands.drop_last(), folders, settled_dir);
        lemma_resolved(work.cwd, operands.last());
    }
}

proof fn lemma_edit_each(work: WorkView, operands: Seq<WordView>, settled_dir: bool)
    requires
        all_worked_out(work, settled_dir),
    ensures
        all_worked_out(work.edit_each(operands), settled_dir),
    decreases operands.len(),
{
    if operands.len() > 0 {
        lemma_edit_each(work, operands.drop_last(), settled_dir);
        lemma_resolved(work.edit_each(operands.drop_last()).cwd, operands.last());
    }
}

proof fn lemma_written(work: WorkView, target: Option<WordView>, settled_dir: bool)
    requires
        all_worked_out(work, settled_dir),
    ensures
        all_worked_out(work.written(target), settled_dir),
{
    if target is Some {
        lemma_resolved(work.cwd, target->0);
    }
}

proof fn lemma_write_each(work: WorkView, targets: Seq<WordView>, settled_dir: bool)
    requires
        all_worked_out(work, settled_dir),
    ensures
        all_worked_out(work.write_each(targets), settled_dir),
    decreases targets.len(),
{
    if targets.len() > 0 {
        lemma_write_each(work, targets.drop_last(), settled_dir);
        lemma_written(work.write_each(targets.drop_last()), Some(targets.last()), settled_dir);
    }
}

proof fn lemma_into_each(work: WorkView, sources: Seq<WordView>, dir: Seq<char>, settled_dir: bool)
    requires
        all_worked_out(work, settled_dir),
        worked_out(dir),
    ensures
        all_worked_out(work.into_each(sources, dir), settled_dir),
    decreases sources.len(),
{
    if sources.len() > 0 {
        lemma_into_each(work, sources.drop_last(), dir, settled_dir);
        lemma_resolved(work.into_each(sources.drop_last(), dir).cwd, sources.last());
    }
}

proof fn lemma_copied_into(work: WorkView, sources: Seq<WordView>, dir: WordView, settled_dir: bool)
    requires
        all_worked_out(work, settled_dir),
    ensures
        all_worked_out(work.copied_into(sources, dir), settled_dir),
{
    lemma_resolved(work.cwd, dir);
    if resolved(work.cwd, dir) is Some {
        lemma_into_each(work, sources, resolved(work.cwd, dir)->0, settled_dir);
    }
}

proof fn lemma_copied(work: WorkView, parsed: ParsedView, settled_dir: bool)
    requires
        all_worked_out(work, settled_dir),
    ensures
        all_worked_out(work.copied(parsed), settled_dir),
{
    let operands = parsed.operands;
    if parsed.value_of("-t"@) is Some {
        lemma_copied_into(work, operands, parsed.value_of("-t"@)->0, settled_dir);
    } else if parsed.value_of("--target-directory"@) is Some {
        lemma_copied_into(work, operands, parsed.value_of("--target-directory"@)->0, settled_dir);
    } else if operands.len() >= 2 {
        lemma_copied_into(work, operands.drop_last(), operands.last(), settled_dir);
        lemma_resolved(work.cwd, operands[0]);
        lemma_resolved(work.cwd, operands[1]);
    }
}

proof fn lemma_performed(work: WorkView, program: Seq<char>, args: Seq<WordView>, settled_dir: bool)
    requires
        all_worked_out(work, settled_dir),
    ensures
        all_worked_out(performed(work, program, args), settled_dir),
{
    let parsed = split_args(args, value_options(program));
    let after = parsed.operands_after_pattern(pattern_options(program));
    if changes_folder(program) {
        if parsed.operands.len() > 0 {
            lemma_resolved(work.cwd, parsed.operands[0]);
        }
    } else {
        lemma_read_each(work, parsed.operands, false, settled_dir);
        lemma_read_each(work, parsed.operands, true, settled_dir);
        lemma_read_each(work, after, false, settled_dir);
        lemma_read_each(work, after, true, settled_dir);
        lemma_read_each(work, args.take(starts_end(args, 0)), true, settled_dir);
        lemma_edit_each(work, after, settled_dir);
        lemma_write_each(work, parsed.operands, settled_dir);
        lemma_written(work.read_each(parsed.operands, false), parsed.value_of("-o"@), settled_dir);
        lemma_copied(work, parsed, settled_dir);
        let operands = split_args(args.skip(1), value_options("git"@)).operands;
        lemma_read_each(work, operands, true, settled_dir);
    }
}

proof fn lemma_gather(tokens: Seq<TokenView>, i: int, work: WorkView, args: Seq<WordView>, settled_dir: bool)
    requires
        all_worked_out(work, settled_dir),
    ensures
        all_worked_out(gather(tokens, i, work, args).0, settled_dir),
    decreases tokens.len() - i,
{
    if 0 <= i < tokens.len() {
        match tokens[i] {
            TokenView::Word(word) => lemma_gather(tokens, i + 1, work, args.push(word), settled_dir),
            TokenView::Redirect(redirect) => if i + 1 < tokens.len() {
                match tokens[i + 1] {
                    TokenView::Word(target) => {
                        lemma_resolved(work.cwd, target);
                        lemma_gather(tokens, i + 2, redirected(work, redirect, target), args, settled_dir);
                    },
                    _ => lemma_gather(tokens, i + 2, work, args, settled_dir),
                }
            },
            TokenView::Break => lemma_gather(tokens, i + 1, work, args, settled_dir),
        }
    }
}

proof fn lemma_commanded_from(work: WorkView, tokens: Seq<TokenView>, i: int, settled_dir: bool)
    requires
        all_worked_out(work, settled_dir),
    ensures
        all_worked_out(commanded_from(work, tokens, i), settled_dir),
    decreases tokens.len() - i,
{
    let end = break_at(tokens, i);
    let segment = tokens.subrange(i, end);
    lemma_gather(segment, 0, work, seq![], settled_dir);
    let (gathered, args) = gather(segment, 0, work, seq![]);
    let at = program_at(args, 0);
    if 0 <= at < args.len() && args[at].known {
        lemma_performed(gathered, base_name(args[at].text), args.skip(at + 1), settled_dir);
    }
    if 0 <= i <= end < tokens.len() {
        lemma_commanded_from(commanded(work, segment), tokens, end + 1, settled_dir);
    }
}

proof fn lemma_settled_worked_out(finds: Seq<FindView>, listing: ListingView, settled_dir: bool)
    requires
        forall|k: int| 0 <= k < finds.len() ==> find_worked_out(#[trigger] finds[k], settled_dir),
    ensures
        paths_worked_out(settled(finds, listing), settled_dir),
    decreases finds.len(),
{
    if finds.len() > 0 {
        let rest = finds.drop_last();
        assert forall|k: int| 0 <= k < rest.len() implies find_worked_out(#[trigger] rest[k], settled_dir) by {
            assert(rest[k] == finds[k]);
        }
        lemma_settled_worked_out(rest, listing, settled_dir);
        assert(find_worked_out(finds[finds.len() - 1], settled_dir));
        match finds.last() {
            FindView::Into(source, dir) => lemma_put_into(source, dir),
            FindView::Onto(source, target) => if source is Some && target is Some {
                lemma_put_into(source->0, target->0);
            },
            _ => {},
        }
    }
}

proof fn lemma_put_into(source: Seq<char>, dir: Seq<char>)
    requires
        worked_out(dir),
    ensures
        file_name(source) is Some ==> worked_out(join_path(dir, file_name(source)->0)),
{
    a_file_name_is_a_name(source);
    if file_name(source) is Some {
        a_name_joined_stays_normalized(dir, file_name(source)->0);
    }
}

/// No file that a command is found to work on has anything left to work out in
/// its path: each is written one way, whatever way the command wrote it. Nor
/// have the folders it takes files in by, where the path of the one it is run in
/// hasn't.
pub proof fn paths_come_worked_out(command: Seq<char>, dir: Seq<char>, listing: ListingView)
    ensures
        paths_worked_out(settled(found_in(command, dir), listing), worked_out(dir)),
{
    let start = WorkView { cwd: Some(dir), finds: seq![] };
    lemma_commanded_from(start, tokenized(command), 0, worked_out(dir));
    lemma_settled_worked_out(found_in(command, dir), listing, worked_out(dir));
}

} // verus!
