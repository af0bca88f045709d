//! What holds of the files commands work on where they copy, show, redirect, change
//! folders, or come one after the other.
use vstd::prelude::*;
use crate::command_laws::{all_meant, all_plain, bare, file_named, folder_named, given, given_values,
    has_known_work, laid, lemma_commanded, lemma_known_program, lemma_laid, lemma_line,
    lemma_nothing_read, lemma_operands, lemma_parsed_line, lemma_program, lemma_read_all,
    lemma_space, lemma_spelling, lemma_split_laid, lemma_value_of, lemma_word_token,
    lemma_words_read, line, meant, names_program, not_empty, operands, options, options_alone,
    path_meant, proper, spoken, start, started, texts, value_given, valued_options, word_tokens,
    works_on, Quotes, Spelled, Valued};
use crate::command_laws::reads_its_files;
use crate::listing::ListingView;
use crate::paths::{file_name, join_path, within};
use crate::shell_lines::{after, lemma_commanded_from_apart, lemma_commanded_on,
    lemma_lex_shift, lemma_performed_apart, lemma_settled_add, with_found};
use crate::shell_paths::{base_name, commanded, commanded_from, found_in, gather, performed,
    program_at, resolved, settled, FindView, ParsedView, ScopeView, WorkView};
use crate::shell_words::{lemma_lex_next_advances, lex_next, tokenized, Redirect, TokenView,
    WordView};
use crate::text::{group_runs, lemma_run_end_is, run_start, Class};

verus! {

// ---------------------------------------------------------------------------
// Copies
// ---------------------------------------------------------------------------

/// A source copied into a folder, if it is a file: read, and written there under its
/// name.
pub open spec fn copied_into(dir: Seq<char>, to: Seq<char>, listing: ListingView) -> spec_fn(
    Seq<char>,
) -> Seq<(Seq<char>, bool)> {
    |text: Seq<char>|
        {
            let path = path_meant(dir, text);
            if listing.files.contains(path) && file_name(path) is Some {
                seq![(path, false), (join_path(to, file_name(path)->0), true)]
            } else {
                seq![]
            }
        }
}

proof fn lemma_into_all(
    all: Seq<Seq<char>>,
    to: Seq<char>,
    dir: Seq<char>,
    listing: ListingView,
)
    requires
        not_empty(all),
    ensures
        ({
            let done = started(dir).into_each(all_meant(all), to);
            let r = settled(done.finds, listing);
            &&& done.cwd == Some(dir)
            &&& r.files == all.map_values(copied_into(dir, to, listing)).flatten()
            &&& r.scopes == Seq::<ScopeView>::empty()
        }),
    decreases all.len(),
{
    let f = copied_into(dir, to, listing);
    if all.len() > 0 {
        let rest = all.drop_last();
        assert forall|k: int| 0 <= k < rest.len() implies (#[trigger] rest[k]).len() > 0 by {
            assert(rest[k] == all[k]);
        }
        lemma_into_all(rest, to, dir, listing);
        assert(all_meant(all).drop_last() =~= all_meant(rest));
        assert(all[all.len() - 1].len() > 0);
        let before = started(dir).into_each(all_meant(rest), to);
        let done = started(dir).into_each(all_meant(all), to);
        assert(done.finds.drop_last() =~= before.finds);
        assert(all.map_values(f) =~= rest.map_values(f).push(f(all.last())));
        rest.map_values(f).lemma_flatten_push(f(all.last()));
        assert(settled(done.finds, listing).files =~= settled(before.finds, listing).files + f(
            all.last(),
        ));
    } else {
        assert(all.map_values(f) =~= Seq::<Seq<(Seq<char>, bool)>>::empty());
        assert(all.map_values(f).flatten() =~= Seq::<(Seq<char>, bool)>::empty());
    }
}

/// The folder that `cp` or `mv` was told to copy into.
pub open spec fn folder_told(valued: Seq<Valued>) -> Option<Seq<char>> {
    match value_given(valued, "-t"@) {
        Some(folder) => Some(folder),
        None => value_given(valued, "--target-directory"@),
    }
}

/// `cp` and `mv` given a folder read each file they are given and write it there:
/// the folder they are told of, or the last word where there are more than two, or
/// where it ends with a slash or names a folder.
pub proof fn copies_go_into_a_folder(
    program: Seq<char>,
    valued: Seq<Valued>,
    args: Seq<Spelled>,
    dir: Seq<char>,
    listing: ListingView,
)
    requires
        program == "cp"@ || program == "mv"@,
        proper(program, valued, args),
        folder_told(valued) is Some || operands(args).len() > 2 || (operands(args).len() == 2 && (
        operands(args)[1].last() == '/' || listing.folders.contains(
            path_meant(dir, operands(args)[1]),
        ))),
    ensures
        ({
            let r = works_on(line(program, laid(valued, args)), dir, listing);
            let sources = if folder_told(valued) is Some {
                operands(args)
            } else {
                operands(args).drop_last()
            };
            let to = path_meant(
                dir,
                if folder_told(valued) is Some {
                    folder_told(valued)->0
                } else {
                    operands(args).last()
                },
            );
            &&& r.files == sources.map_values(copied_into(dir, to, listing)).flatten()
            &&& r.scopes.len() == 0
        }),
{
    lemma_parsed_line(program, valued, args, dir);
    lemma_spelling();
    let ops = operands(args);
    let parsed = ParsedView {
        options: given_values(valued) + given(options(args)),
        operands: all_meant(ops),
    };
    assert(valued_options(program)[0] == "-t"@);
    assert(valued_options(program)[1] == "--target-directory"@);
    lemma_value_of(program, valued, args, "-t"@, parsed);
    lemma_value_of(program, valued, args, "--target-directory"@, parsed);
    if folder_told(valued) is Some {
        lemma_into_all(ops, path_meant(dir, folder_told(valued)->0), dir, listing);
    } else {
        let sources = ops.drop_last();
        let to = path_meant(dir, ops.last());
        assert forall|k: int| 0 <= k < sources.len() implies (#[trigger] sources[k]).len() > 0 by {
            assert(sources[k] == ops[k]);
        }
        assert(ops[ops.len() - 1].len() > 0);
        lemma_into_all(sources, to, dir, listing);
        assert(all_meant(ops).drop_last() =~= all_meant(sources));
        assert(all_meant(ops).last() == meant(ops.last()));
        if ops.len() == 2 && ops[1].last() != '/' {
            lemma_put_into(ops, dir, listing);
        }
    }
}

/// One file put into a folder.
proof fn lemma_put_into(ops: Seq<Seq<char>>, dir: Seq<char>, listing: ListingView)
    requires
        ops.len() == 2,
        not_empty(ops),
        listing.folders.contains(path_meant(dir, ops[1])),
    ensures
        ({
            let find = FindView::Onto(
                resolved(Some(dir), meant(ops[0])),
                resolved(Some(dir), meant(ops[1])),
            );
            let r = settled(started(dir).found(find).finds, listing);
            let f = copied_into(dir, path_meant(dir, ops[1]), listing);
            r.files == ops.drop_last().map_values(f).flatten() && r.scopes.len() == 0
        }),
{
    assert(ops[0].len() > 0 && ops[1].len() > 0);
    let find = FindView::Onto(
        resolved(Some(dir), meant(ops[0])),
        resolved(Some(dir), meant(ops[1])),
    );
    let finds = started(dir).found(find).finds;
    assert(finds.drop_last() =~= Seq::<FindView>::empty());
    reveal_with_fuel(settled, 2);
    let f = copied_into(dir, path_meant(dir, ops[1]), listing);
    let one = ops.drop_last().map_values(f);
    assert(one =~= seq![f(ops[0])]);
    one.lemma_flatten_one_element();
    assert(settled(finds, listing).files =~= f(ops[0]));
}

/// `cp` and `mv` given two files read the first, if it is one, and write the second,
/// unless it is a device.
pub proof fn a_copy_goes_onto_a_file(
    program: Seq<char>,
    valued: Seq<Valued>,
    args: Seq<Spelled>,
    dir: Seq<char>,
    listing: ListingView,
)
    requires
        program == "cp"@ || program == "mv"@,
        proper(program, valued, args),
        folder_told(valued) is None,
        operands(args).len() == 2,
        operands(args)[1].last() != '/',
        !listing.folders.contains(path_meant(dir, operands(args)[1])),
    ensures
        ({
            let r = works_on(line(program, laid(valued, args)), dir, listing);
            let from = path_meant(dir, operands(args)[0]);
            let to = path_meant(dir, operands(args)[1]);
            &&& r.scopes.len() == 0
            &&& r.files == (if listing.files.contains(from) {
                seq![(from, false)]
            } else {
                seq![]
            }) + (if within(to, "/dev"@) {
                seq![]
            } else {
                seq![(to, true)]
            })
        }),
{
    lemma_parsed_line(program, valued, args, dir);
    lemma_spelling();
    let ops = operands(args);
    let parsed = ParsedView {
        options: given_values(valued) + given(options(args)),
        operands: all_meant(ops),
    };
    assert(valued_options(program)[0] == "-t"@);
    assert(valued_options(program)[1] == "--target-directory"@);
    lemma_value_of(program, valued, args, "-t"@, parsed);
    lemma_value_of(program, valued, args, "--target-directory"@, parsed);
    assert(ops[0].len() > 0 && ops[1].len() > 0);
    assert(all_meant(ops)[0] == meant(ops[0]) && all_meant(ops)[1] == meant(ops[1]));
    let find = FindView::Onto(
        resolved(Some(dir), meant(ops[0])),
        resolved(Some(dir), meant(ops[1])),
    );
    let finds = started(dir).found(find).finds;
    assert(finds.drop_last() =~= Seq::<FindView>::empty());
    reveal_with_fuel(settled, 2);
    let from = path_meant(dir, ops[0]);
    let to = path_meant(dir, ops[1]);
    assert(settled(finds, listing).files =~= (if listing.files.contains(from) {
        seq![(from, false)]
    } else {
        seq![]
    }) + (if within(to, "/dev"@) {
        seq![]
    } else {
        seq![(to, true)]
    }));
}

// ---------------------------------------------------------------------------
// What git shows, and programs that do nothing
// ---------------------------------------------------------------------------

/// `git diff`, `show`, `log` and `blame` read the files they are given and take in the
/// folders, or the folder they are in where they are given none. Its other
/// subcommands work on nothing.
pub proof fn git_shows_what_it_is_given(
    subcommand: Spelled,
    valued: Seq<Valued>,
    args: Seq<Spelled>,
    dir: Seq<char>,
    listing: ListingView,
)
    requires
        subcommand.plain(),
        proper("git"@, valued, args),
    ensures
        ({
            let r = works_on(
                line("git"@, seq![subcommand] + laid(valued, args)),
                dir,
                listing,
            );
            let text = subcommand.text;
            if text == "diff"@ || text == "show"@ || text == "log"@ || text == "blame"@ {
                &&& r.files == operands(args).filter_map(file_named(dir, listing, false))
                &&& r.scopes == if operands(args).len() == 0 {
                    seq![ScopeView { dir, base: dir }]
                } else {
                    operands(args).filter_map(folder_named(dir, listing))
                }
            } else {
                r.files.len() == 0 && r.scopes.len() == 0
            }
        }),
{
    lemma_spelling();
    let program = "git"@;
    lemma_known_program(program);
    lemma_laid(program, valued, args);
    let all = seq![subcommand] + laid(valued, args);
    assert forall|k: int| 0 <= k < all.len() implies (#[trigger] all[k]).plain() by {
        if k > 0 {
            assert(all[k] == laid(valued, args)[k - 1]);
        }
    }
    lemma_line(program, all, dir);
    let words = all_meant(texts(all));
    assert(words[0] == meant(subcommand.text));
    assert(words.skip(1) =~= all_meant(texts(laid(valued, args))));
    lemma_split_laid(program, valued, args);
    lemma_operands(args);
    let ops = operands(args);
    lemma_read_all(ops, true, dir, listing);
    if ops.len() == 0 {
        let scope = FindView::Scope(ScopeView { dir, base: dir });
        let finds = started(dir).found(scope).finds;
        assert(finds.drop_last() =~= Seq::<FindView>::empty());
        reveal_with_fuel(settled, 2);
        assert(settled(finds, listing).scopes =~= seq![ScopeView { dir, base: dir }]);
        assert(settled(finds, listing).files =~= ops.filter_map(file_named(dir, listing, false)));
    }
}

/// A program whose work is not known works on nothing it is given.
pub proof fn other_programs_work_on_nothing(
    program: Seq<char>,
    args: Seq<Spelled>,
    dir: Seq<char>,
    listing: ListingView,
)
    requires
        names_program(program),
        !has_known_work(program),
        all_plain(args),
    ensures
        works_on(line(program, args), dir, listing).files.len() == 0,
        works_on(line(program, args), dir, listing).scopes.len() == 0,
{
    lemma_line(program, args, dir);
}

// ---------------------------------------------------------------------------
// What comes before a program
// ---------------------------------------------------------------------------

pub proof fn lemma_spoken_plain(words: Seq<Spelled>, dir: Seq<char>)
    requires
        words.len() > 0,
        all_plain(words),
    ensures
        tokenized(spoken(words)) == word_tokens(words),
        found_in(spoken(words), dir) == commanded(started(dir), word_tokens(words)).finds,
{
    let none = Seq::<char>::empty();
    lemma_words_read(words, none);
    lemma_nothing_read();
    assert(spoken(words) + none =~= spoken(words));
    assert(word_tokens(words) + Seq::<TokenView>::empty() =~= word_tokens(words));
    lemma_commanded(words, started(dir));
}

/// The work of a program given its words, whatever that is.
#[verifier::opaque]
spec fn performs(dir: Seq<char>, program: Seq<char>, args: Seq<WordView>) -> Seq<FindView> {
    performed(started(dir), program, args).finds
}

/// What words are found to do as a command.
spec fn work_of(args: Seq<WordView>, dir: Seq<char>) -> Seq<FindView> {
    let at = program_at(args, 0);
    if 0 <= at < args.len() {
        performs(dir, base_name(args[at].text), args.skip(at + 1))
    } else {
        seq![]
    }
}

proof fn lemma_work_of(words: Seq<Spelled>, dir: Seq<char>)
    requires
        words.len() > 0,
        all_plain(words),
    ensures
        found_in(spoken(words), dir) == work_of(all_meant(texts(words)), dir),
{
    reveal(performs);
    lemma_spoken_plain(words, dir);
    lemma_commanded(words, started(dir));
}

proof fn lemma_program_after(first: WordView, args: Seq<WordView>, i: int)
    requires
        0 <= i <= args.len(),
    ensures
        program_at(seq![first] + args, i + 1) == program_at(args, i) + 1,
        program_at(args, i) >= i,
    decreases args.len() - i,
{
    let all = seq![first] + args;
    if i < args.len() {
        assert(all[i + 1] == args[i]);
        lemma_program_after(first, args, i + 1);
    }
}

/// Whether a text sets a variable: a name, a `=` and a value.
pub open spec fn sets_variable(text: Seq<char>, name: Seq<char>, value: Seq<char>) -> bool {
    text == name + seq!['='] + value && name.len() > 0 && forall|k: int|
        0 <= k < name.len() ==> crate::text::name_char(#[trigger] name[k]) && name[k] != '='
}

proof fn lemma_sets_variable(text: Seq<char>, name: Seq<char>, value: Seq<char>)
    requires
        sets_variable(text, name, value),
    ensures
        crate::shell_paths::assigns(text),
{
    let n = name.len() as int;
    assert forall|k: int| 0 <= k < n implies Class::Not('=').has(#[trigger] text[k])
        && Class::Name.has(text[k]) by {
        assert(text[k] == name[k]);
    }
    assert(text[n] == '=');
    lemma_run_end_is(text, Class::Not('='), 0, n);
}

/// Setting a variable, or having `sudo`, `env` or the like run a command, makes no
/// difference to what it works on.
pub proof fn what_only_runs_a_command_makes_no_difference(
    first: Spelled,
    words: Seq<Spelled>,
    dir: Seq<char>,
    name: Seq<char>,
    value: Seq<char>,
)
    requires
        first.plain(),
        words.len() > 0,
        all_plain(words),
        ({
            let text = first.text;
            text == "sudo"@ || text == "env"@ || text == "command"@ || text == "builtin"@ || text
                == "exec"@ || text == "time"@ || text == "nice"@ || text == "nohup"@
                || sets_variable(text, name, value)
        }),
    ensures
        found_in(spoken(seq![first] + words), dir) == found_in(spoken(words), dir),
{
    let all = seq![first] + words;
    assert forall|k: int| 0 <= k < all.len() implies (#[trigger] all[k]).plain() by {
        if k > 0 {
            assert(all[k] == words[k - 1]);
        }
    }
    lemma_work_of(all, dir);
    lemma_work_of(words, dir);
    let args = all_meant(texts(words));
    let more = all_meant(texts(all));
    assert(more =~= seq![meant(first.text)] + args);
    let text = first.text;
    if sets_variable(text, name, value) {
        lemma_sets_variable(text, name, value);
    }
    assert(more[0].text == text);
    lemma_program_after(meant(text), args, 0);
    let at = program_at(args, 0);
    assert(program_at(more, 0) == at + 1);
    if 0 <= at < args.len() {
        assert(more[at + 1] == args[at]);
        assert(more.skip(at + 2) =~= args.skip(at + 1));
    }
}

/// The folder a program is in makes no difference to what it works on.
pub proof fn where_a_program_is_makes_no_difference(
    folder: Seq<char>,
    program: Seq<char>,
    args: Seq<Spelled>,
    dir: Seq<char>,
)
    requires
        bare(folder),
        forall|k: int| 0 <= k < folder.len() ==> #[trigger] folder[k] != '=',
        names_program(program),
        all_plain(args),
    ensures
        found_in(line(folder + seq!['/'] + program, args), dir) == found_in(
            line(program, args),
            dir,
        ),
{
    let text = folder + seq!['/'] + program;
    lemma_program_in_folder(folder, program);
    let first = Spelled { text, quotes: Quotes::Bare };
    let plain = Spelled { text: program, quotes: Quotes::Bare };
    let words = seq![first] + args;
    let less = seq![plain] + args;
    assert(first.plain() && plain.plain());
    assert forall|k: int| 0 <= k < words.len() implies (#[trigger] words[k]).plain() by {
        if k > 0 {
            assert(words[k] == args[k - 1]);
        }
    }
    assert forall|k: int| 0 <= k < less.len() implies (#[trigger] less[k]).plain() by {
        if k > 0 {
            assert(less[k] == args[k - 1]);
        }
    }
    lemma_work_of(words, dir);
    lemma_work_of(less, dir);
    lemma_program(program);
    let all = all_meant(texts(words));
    let other = all_meant(texts(less));
    assert(all[0].text == text && other[0].text == program);
    assert(all.skip(1) =~= other.skip(1));
    assert(program_at(all, 0) == 0);
    assert(program_at(other, 0) == 0);
}

/// A program in a folder is one, by its own name.
proof fn lemma_program_in_folder(folder: Seq<char>, program: Seq<char>)
    requires
        bare(folder),
        forall|k: int| 0 <= k < folder.len() ==> #[trigger] folder[k] != '=',
        names_program(program),
    ensures
        ({
            let text = folder + seq!['/'] + program;
            &&& bare(text)
            &&& base_name(text) == program
            &&& !crate::shell_paths::assigns(text)
            &&& !crate::shell_paths::wraps(text)
        }),
{
    broadcast use group_runs;

    let text = folder + seq!['/'] + program;
    let n = text.len() as int;
    let m = folder.len() as int;
    assert forall|k: int| 0 <= k < n implies crate::command_laws::stands_for_itself(
        #[trigger] text[k],
    ) && text[k] != '=' by {
        if k < m {
            assert(text[k] == folder[k]);
        } else if k > m {
            assert(text[k] == program[k - m - 1]);
            assert(program[k - m - 1] != '/');
        }
    }
    assert(text[0] == folder[0]);
    assert forall|k: int| 0 <= k < n implies Class::Not('=').has(#[trigger] text[k]) by {
        assert(text[k] != '=');
    }
    lemma_run_end_is(text, Class::Not('='), 0, n);
    let from = run_start(text, Class::Not('/'), n);
    assert(text[m] == '/');
    if from <= m {
        assert(Class::Not('/').has(text[m]));
    }
    if from > m + 1 {
        assert(!Class::Not('/').has(text[from - 1]));
        assert(text[from - 1] == program[from - 1 - m - 1]);
        assert(program[from - 1 - m - 1] != '/');
    }
    assert(text.skip(m + 1) =~= program);
    if crate::shell_paths::wraps(text) {
        lemma_wrappers_slashless(text, m);
    }
}

proof fn lemma_wrappers_slashless(text: Seq<char>, k: int)
    requires
        crate::shell_paths::wraps(text),
        0 <= k < text.len(),
    ensures
        text[k] != '/',
{
    lemma_spelling();
    if text == "sudo"@ {
    } else if text == "env"@ {
    } else if text == "command"@ {
    } else if text == "builtin"@ {
    } else if text == "exec"@ {
    } else if text == "time"@ {
    } else if text == "nice"@ {
    } else {
    }
}

// ---------------------------------------------------------------------------
// One command after the other
// ---------------------------------------------------------------------------

/// What breaks one command from the next, with the spaces around it.
pub enum Broken {
    And,
    Or,
    Pipe,
    Then,
    Line,
    Aside,
}

impl Broken {
    /// How it is written.
    pub open spec fn written(self) -> Seq<char> {
        match self {
            Broken::And => " && "@,
            Broken::Or => " || "@,
            Broken::Pipe => " | "@,
            Broken::Then => "; "@,
            Broken::Line => "\n"@,
            Broken::Aside => " & "@,
        }
    }
}

/// A piece read with nothing but a break coming of it.
proof fn lemma_break_piece(piece: Seq<char>, tail: Seq<char>)
    requires
        piece == seq!['&', '&'] || piece == seq!['|', '|'] || piece == seq![';'] || piece
            == seq!['\n'] || ((piece == seq!['|'] || piece == seq!['&']) && tail.len() > 0 && tail[0]
            == ' '),
    ensures
        tokenized(piece + tail) == seq![TokenView::Break] + tokenized(tail),
{
    let s = piece + tail;
    let had = seq![TokenView::Break];
    let next = lex_next(s, start());
    assert(s[0] == piece[0]);
    if piece.len() == 2 {
        assert(s[1] == piece[1]);
    } else if tail.len() > 0 {
        assert(s[1] == tail[0]);
    }
    assert(crate::shell::bodies_end(s, 1, Seq::<crate::shell::HeredocView>::empty()) == 1);
    assert(next =~= after(piece, had, start()));
    lemma_lex_next_advances(s, start());
    lemma_lex_shift(piece, had, tail, start());
}

proof fn lemma_break_spelling()
    ensures
        " && "@ == seq![' '] + (seq!['&', '&'] + seq![' ']),
        " || "@ == seq![' '] + (seq!['|', '|'] + seq![' ']),
        " | "@ == seq![' '] + (seq!['|'] + seq![' ']),
        " & "@ == seq![' '] + (seq!['&'] + seq![' ']),
        "; "@ == seq![';'] + seq![' '],
        "\n"@ == seq!['\n'],
{
    reveal_strlit(" && ");
    reveal_strlit(" || ");
    reveal_strlit(" | ");
    reveal_strlit(" & ");
    reveal_strlit("; ");
    reveal_strlit("\n");
    assert(" && "@ =~= seq![' '] + (seq!['&', '&'] + seq![' ']));
    assert(" || "@ =~= seq![' '] + (seq!['|', '|'] + seq![' ']));
    assert(" | "@ =~= seq![' '] + (seq!['|'] + seq![' ']));
    assert(" & "@ =~= seq![' '] + (seq!['&'] + seq![' ']));
    assert("; "@ =~= seq![';'] + seq![' ']);
    assert("\n"@ =~= seq!['\n']);
}

/// What breaks commands comes to one break.
proof fn lemma_broken(between: Broken, tail: Seq<char>)
    ensures
        tokenized(between.written() + tail) == seq![TokenView::Break] + tokenized(tail),
        crate::command_laws::sets_off(between.written() + tail),
        (between.written() + tail)[0] != '<' && (between.written() + tail)[0] != '>',
{
    lemma_break_spelling();
    let w = between.written();
    let all = w + tail;
    let spaced = seq![' '] + tail;
    lemma_space(tail);
    let piece = match between {
        Broken::And => seq!['&', '&'],
        Broken::Or => seq!['|', '|'],
        Broken::Pipe => seq!['|'],
        Broken::Then => seq![';'],
        Broken::Line => seq!['\n'],
        Broken::Aside => seq!['&'],
    };
    match between {
        Broken::Line => {
            lemma_break_piece(piece, tail);
        },
        Broken::Then => {
            assert(all =~= piece + spaced);
            lemma_break_piece(piece, spaced);
        },
        _ => {
            assert(all =~= seq![' '] + (piece + spaced));
            lemma_space(piece + spaced);
            lemma_break_piece(piece, spaced);
        },
    }
    assert(all[0] == w[0]);
}

proof fn lemma_then(words: Seq<Spelled>, between: Broken, rest: Seq<char>, dir: Seq<char>)
    requires
        words.len() > 0,
        all_plain(words),
    ensures
        ({
            let done = commanded(started(dir), word_tokens(words));
            found_in(spoken(words) + between.written() + rest, dir) == commanded_from(
                done,
                tokenized(rest),
                0,
            ).finds
        }),
{
    let tail = between.written() + rest;
    lemma_broken(between, rest);
    lemma_words_read(words, tail);
    let a = word_tokens(words);
    let b = tokenized(rest);
    assert(spoken(words) + between.written() + rest =~= spoken(words) + tail);
    assert(a + (seq![TokenView::Break] + b) =~= a.push(TokenView::Break) + b);
    lemma_commanded_on(started(dir), a, b, 0);
    lemma_commanded(words, started(dir));
}

/// A command after another works on what it works on by itself, after what the other
/// works on, unless the other changes the folder.
pub proof fn commands_work_one_after_the_other(
    program: Seq<char>,
    args: Seq<Spelled>,
    between: Broken,
    rest: Seq<char>,
    dir: Seq<char>,
    listing: ListingView,
)
    requires
        names_program(program),
        program != "cd"@ && program != "pushd"@,
        all_plain(args),
    ensures
        ({
            let both = works_on(line(program, args) + between.written() + rest, dir, listing);
            let one = works_on(line(program, args), dir, listing);
            let other = works_on(rest, dir, listing);
            both.files == one.files + other.files && both.scopes == one.scopes + other.scopes
        }),
{
    let first = Spelled { text: program, quotes: Quotes::Bare };
    let words = seq![first] + args;
    assert forall|k: int| 0 <= k < words.len() implies (#[trigger] words[k]).plain() by {
        if k > 0 {
            assert(words[k] == args[k - 1]);
        }
    }
    lemma_then(words, between, rest, dir);
    lemma_spoken_plain(words, dir);
    lemma_commanded(words, started(dir));
    lemma_program(program);
    let all = all_meant(texts(words));
    assert(all[0].text == program);
    assert(program_at(all, 0) == 0);
    lemma_performed_apart(seq![], started(dir), program, all.skip(1));
    let done = commanded(started(dir), word_tokens(words));
    assert(done =~= with_found(done.finds, started(dir)));
    lemma_commanded_from_apart(done.finds, started(dir), tokenized(rest), 0);
    lemma_settled_add(done.finds, found_in(rest, dir), listing);
}

/// A command after a `cd` or `pushd` works in the folder that it goes to.
pub proof fn a_command_after_cd_works_there(
    program: Seq<char>,
    folder: Spelled,
    between: Broken,
    rest: Seq<char>,
    dir: Seq<char>,
)
    requires
        program == "cd"@ || program == "pushd"@,
        folder.plain(),
        folder.text[0] != '-',
    ensures
        found_in(line(program, seq![folder]) + between.written() + rest, dir) == found_in(
            rest,
            path_meant(dir, folder.text),
        ),
        found_in(line(program, seq![folder]), dir).len() == 0,
{
    lemma_spelling();
    let args = seq![folder];
    lemma_known_program(program);
    let first = Spelled { text: program, quotes: Quotes::Bare };
    let words = seq![first] + args;
    assert(first.plain());
    assert forall|k: int| 0 <= k < words.len() implies (#[trigger] words[k]).plain() by {}
    lemma_then(words, between, rest, dir);
    lemma_spoken_plain(words, dir);
    lemma_commanded(words, started(dir));
    lemma_program(program);
    let all = all_meant(texts(words));
    assert(all[0].text == program);
    assert(program_at(all, 0) == 0);
    let none = Seq::<Valued>::empty();
    reveal_strlit("--");
    assert(all_plain(args));
    assert(laid(none, args) == args);
    assert(options_alone(args, valued_options(program))) by {
        assert(folder.text != "--"@) by {
            assert("--"@[0] == '-');
        }
        assert(valued_options(program).len() == 0);
    }
    lemma_parsed_line(program, none, args, dir);
    assert(all.skip(1) =~= all_meant(texts(args)));
    lemma_one_operand(folder);
    reveal_strlit("-");
    assert("-"@[0] == '-');
    let to = path_meant(dir, folder.text);
    assert(commanded(started(dir), word_tokens(words)) =~= started(to));
}

proof fn lemma_one_operand(word: Spelled)
    requires
        word.text.len() > 0,
        word.text[0] != '-',
    ensures
        operands(seq![word]) == seq![word.text],
{
    let all = texts(seq![word]);
    assert(all =~= seq![word.text]);
    reveal_with_fuel(Seq::<_>::filter, 2);
    assert(all.drop_last() =~= Seq::<Seq<char>>::empty());
    assert(operands(seq![word]) =~= seq![word.text]);
}

// ---------------------------------------------------------------------------
// Redirects
// ---------------------------------------------------------------------------

/// A redirect as it is written, with the spaces around it, or the descriptor's number
/// before it.
pub enum Redirected {
    Write,
    Append,
    Clobber,
    Both,
    Errors,
    Read,
}

impl Redirected {
    pub open spec fn written(self) -> Seq<char> {
        match self {
            Redirected::Write => " > "@,
            Redirected::Append => " >> "@,
            Redirected::Clobber => " >| "@,
            Redirected::Both => " &> "@,
            Redirected::Errors => " 2> "@,
            Redirected::Read => " < "@,
        }
    }

    pub open spec fn writes(self) -> bool {
        !(self is Read)
    }
}

/// A piece read with nothing but a redirect coming of it.
proof fn lemma_redirect_piece(piece: Seq<char>, tail: Seq<char>)
    requires
        tail.len() > 0 && tail[0] == ' ',
        piece == seq!['>'] || piece == seq!['>', '>'] || piece == seq!['>', '|'] || piece == seq![
            '&',
            '>',
        ] || piece == seq!['<'],
    ensures
        tokenized(piece + tail) == seq![
            TokenView::Redirect(
                if piece == seq!['<'] {
                    Redirect::Read
                } else {
                    Redirect::Write
                },
            ),
        ] + tokenized(tail),
{
    let s = piece + tail;
    let had = seq![
        TokenView::Redirect(
            if piece == seq!['<'] {
                Redirect::Read
            } else {
                Redirect::Write
            },
        ),
    ];
    assert(s[0] == piece[0]);
    assert(s[piece.len() as int] == tail[0]);
    if piece.len() == 2 {
        assert(s[1] == piece[1]);
    }
    let next = lex_next(s, start());
    assert(next =~= after(piece, had, start()));
    lemma_lex_next_advances(s, start());
    lemma_lex_shift(piece, had, tail, start());
}

/// A descriptor's number before a redirect makes no difference.
proof fn lemma_descriptor(tail: Seq<char>)
    requires
        tail.len() > 0 && tail[0] == '>',
    ensures
        tokenized(seq!['2'] + tail) == tokenized(tail),
{
    broadcast use group_runs;

    let p = seq!['2'];
    let s = p + tail;
    let none = Seq::<TokenView>::empty();
    assert(s[0] == '2' && s[1] == '>');
    assert(Class::Digit.has('2') && !Class::Digit.has('>'));
    lemma_run_end_is(s, Class::Digit, 0, 1);
    let next = lex_next(s, start());
    assert(next =~= after(p, none, start()));
    lemma_lex_next_advances(s, start());
    lemma_lex_shift(p, none, tail, start());
    assert(none + tokenized(tail) =~= tokenized(tail));
}

proof fn lemma_redirect_spelling()
    ensures
        " > "@ == seq![' '] + (seq!['>'] + seq![' ']),
        " >> "@ == seq![' '] + (seq!['>', '>'] + seq![' ']),
        " >| "@ == seq![' '] + (seq!['>', '|'] + seq![' ']),
        " &> "@ == seq![' '] + (seq!['&', '>'] + seq![' ']),
        " 2> "@ == seq![' '] + (seq!['2'] + (seq!['>'] + seq![' '])),
        " < "@ == seq![' '] + (seq!['<'] + seq![' ']),
{
    reveal_strlit(" > ");
    reveal_strlit(" >> ");
    reveal_strlit(" >| ");
    reveal_strlit(" &> ");
    reveal_strlit(" 2> ");
    reveal_strlit(" < ");
    assert(" > "@ =~= seq![' '] + (seq!['>'] + seq![' ']));
    assert(" >> "@ =~= seq![' '] + (seq!['>', '>'] + seq![' ']));
    assert(" >| "@ =~= seq![' '] + (seq!['>', '|'] + seq![' ']));
    assert(" &> "@ =~= seq![' '] + (seq!['&', '>'] + seq![' ']));
    assert(" 2> "@ =~= seq![' '] + (seq!['2'] + (seq!['>'] + seq![' '])));
    assert(" < "@ =~= seq![' '] + (seq!['<'] + seq![' ']));
}

proof fn lemma_redirect_read(how: Redirected, target: Spelled)
    requires
        target.plain(),
    ensures
        ({
            let tail = how.written() + target.written();
            &&& tail[0] == ' '
            &&& tokenized(tail) == seq![
                TokenView::Redirect(
                    if how.writes() {
                        Redirect::Write
                    } else {
                        Redirect::Read
                    },
                ),
                TokenView::Word(meant(target.text)),
            ]
        }),
{
    lemma_redirect_spelling();
    let none = Seq::<char>::empty();
    let tail = how.written() + target.written();
    let spaced = seq![' '] + target.written();
    lemma_word_token(target, none);
    lemma_nothing_read();
    assert(target.written() + none =~= target.written());
    lemma_space(target.written());
    let piece = match how {
        Redirected::Write => seq!['>'],
        Redirected::Append => seq!['>', '>'],
        Redirected::Clobber => seq!['>', '|'],
        Redirected::Both => seq!['&', '>'],
        Redirected::Errors => seq!['>'],
        Redirected::Read => seq!['<'],
    };
    assert(piece[0] != '<' || how is Read);
    lemma_redirect_piece(piece, spaced);
    let kind = if how.writes() {
        Redirect::Write
    } else {
        Redirect::Read
    };
    assert((piece == seq!['<']) == (how is Read)) by {
        assert(seq!['<'][0] == '<');
    }
    let word = seq![TokenView::Word(meant(target.text))];
    assert(word + Seq::<TokenView>::empty() =~= word);
    assert(seq![TokenView::Redirect(kind)] + word =~= seq![
        TokenView::Redirect(kind),
        TokenView::Word(meant(target.text)),
    ]);
    if how is Errors {
        assert(tail =~= seq![' '] + (seq!['2'] + (piece + spaced)));
        lemma_space(seq!['2'] + (piece + spaced));
        assert((piece + spaced)[0] == '>');
        lemma_descriptor(piece + spaced);
    } else {
        assert(tail =~= seq![' '] + (piece + spaced));
        lemma_space(piece + spaced);
    }
}

/// Words gathered with a redirect after them.
proof fn lemma_gathered_then(
    words: Seq<Spelled>,
    kind: Redirect,
    target: Seq<char>,
    i: int,
    work: WorkView,
    args: Seq<WordView>,
)
    requires
        0 <= i <= words.len(),
    ensures
        gather(
            word_tokens(words) + seq![
                TokenView::Redirect(kind),
                TokenView::Word(meant(target)),
            ],
            i,
            work,
            args,
        ) == (
            crate::shell_paths::redirected(work, kind, meant(target)),
            args + all_meant(texts(words)).skip(i),
        ),
    decreases words.len() - i,
{
    let all = all_meant(texts(words));
    let tokens = word_tokens(words) + seq![
        TokenView::Redirect(kind),
        TokenView::Word(meant(target)),
    ];
    if i < words.len() {
        assert(tokens[i] == TokenView::Word(all[i]));
        lemma_gathered_then(words, kind, target, i + 1, work, args.push(all[i]));
        assert(args.push(all[i]) + all.skip(i + 1) =~= args + all.skip(i));
    } else {
        assert(tokens[i] == TokenView::Redirect(kind));
        assert(tokens[i + 1] == TokenView::Word(meant(target)));
        reveal_with_fuel(gather, 2);
        assert(args + all.skip(i) =~= args);
    }
}

proof fn lemma_no_break_then(words: Seq<Spelled>, kind: Redirect, target: Seq<char>, i: int)
    requires
        0 <= i <= words.len() + 2,
    ensures
        ({
            let tokens = word_tokens(words) + seq![
                TokenView::Redirect(kind),
                TokenView::Word(meant(target)),
            ];
            crate::shell_paths::break_at(tokens, i) == tokens.len()
        }),
    decreases words.len() + 2 - i,
{
    let tokens = word_tokens(words) + seq![
        TokenView::Redirect(kind),
        TokenView::Word(meant(target)),
    ];
    if i < tokens.len() {
        if i < words.len() {
            assert(tokens[i] == TokenView::Word(meant(words[i].text)));
        } else if i == words.len() {
            assert(tokens[i] == TokenView::Redirect(kind));
        } else {
            assert(tokens[i] == TokenView::Word(meant(target)));
        }
        lemma_no_break_then(words, kind, target, i + 1);
    }
}

/// A redirect's file comes before what the command works on: written, there or not,
/// or read if it is a file, unless it is a device.
pub proof fn a_redirect_works_on_its_file(
    program: Seq<char>,
    args: Seq<Spelled>,
    how: Redirected,
    target: Spelled,
    dir: Seq<char>,
    listing: ListingView,
)
    requires
        names_program(program),
        program != "cd"@ && program != "pushd"@,
        all_plain(args),
        target.plain(),
    ensures
        ({
            let r = works_on(
                line(program, args) + how.written() + target.written(),
                dir,
                listing,
            );
            let one = works_on(line(program, args), dir, listing);
            let path = path_meant(dir, target.text);
            &&& r.scopes == one.scopes
            &&& r.files == (if within(path, "/dev"@) {
                seq![]
            } else if how.writes() {
                seq![(path, true)]
            } else if listing.files.contains(path) {
                seq![(path, false)]
            } else {
                seq![]
            }) + one.files
        }),
{
    let kind = if how.writes() {
        Redirect::Write
    } else {
        Redirect::Read
    };
    lemma_redirected(program, args, how, target, dir);
    let had = crate::shell_paths::redirected(started(dir), kind, meant(target.text));
    let one = found_in(line(program, args), dir);
    lemma_settled_add(had.finds, one, listing);
    lemma_redirect_settled(kind, target.text, dir, listing);
    assert(Seq::<ScopeView>::empty() + settled(one, listing).scopes =~= settled(
        one,
        listing,
    ).scopes);
}

/// A command with a redirect is found to do what the redirect does, and then what it
/// does.
proof fn lemma_redirected(
    program: Seq<char>,
    args: Seq<Spelled>,
    how: Redirected,
    target: Spelled,
    dir: Seq<char>,
)
    requires
        names_program(program),
        program != "cd"@ && program != "pushd"@,
        all_plain(args),
        target.plain(),
    ensures
        ({
            let kind = if how.writes() {
                Redirect::Write
            } else {
                Redirect::Read
            };
            let had = crate::shell_paths::redirected(started(dir), kind, meant(target.text));
            found_in(line(program, args) + how.written() + target.written(), dir) == had.finds
                + found_in(line(program, args), dir)
        }),
{
    let first = Spelled { text: program, quotes: Quotes::Bare };
    let words = seq![first] + args;
    assert forall|k: int| 0 <= k < words.len() implies (#[trigger] words[k]).plain() by {
        if k > 0 {
            assert(words[k] == args[k - 1]);
        }
    }
    let tail = how.written() + target.written();
    let kind = if how.writes() {
        Redirect::Write
    } else {
        Redirect::Read
    };
    lemma_redirect_read(how, target);
    lemma_words_read(words, tail);
    assert(spoken(words) + how.written() + target.written() =~= spoken(words) + tail);
    lemma_line(program, args, dir);
    let all = all_meant(texts(words));
    assert(all[0].text == program);
    assert(all.skip(1) =~= all_meant(texts(args)));
    let had = crate::shell_paths::redirected(started(dir), kind, meant(target.text));
    lemma_performed_apart(had.finds, started(dir), program, all.skip(1));
    assert(had =~= with_found(had.finds, started(dir)));
    lemma_redirected_command(words, kind, target.text, dir);
}

proof fn lemma_redirected_command(
    words: Seq<Spelled>,
    kind: Redirect,
    target: Seq<char>,
    dir: Seq<char>,
)
    requires
        words.len() > 0,
        names_program(words[0].text),
    ensures
        ({
            let tokens = word_tokens(words) + seq![
                TokenView::Redirect(kind),
                TokenView::Word(meant(target)),
            ];
            let had = crate::shell_paths::redirected(started(dir), kind, meant(target));
            commanded_from(started(dir), tokens, 0) == performed(
                had,
                words[0].text,
                all_meant(texts(words)).skip(1),
            )
        }),
{
    let tokens = word_tokens(words) + seq![
        TokenView::Redirect(kind),
        TokenView::Word(meant(target)),
    ];
    lemma_no_break_then(words, kind, target, 0);
    assert(tokens.subrange(0, tokens.len() as int) =~= tokens);
    let none = Seq::<WordView>::empty();
    lemma_gathered_then(words, kind, target, 0, started(dir), none);
    let all = all_meant(texts(words));
    assert(none + all.skip(0) =~= all);
    lemma_program(words[0].text);
    assert(all[0].text == words[0].text);
    assert(program_at(all, 0) == 0);
}

proof fn lemma_redirect_settled(
    kind: Redirect,
    target: Seq<char>,
    dir: Seq<char>,
    listing: ListingView,
)
    requires
        target.len() > 0,
        kind != Redirect::NotAFile,
    ensures
        ({
            let had = crate::shell_paths::redirected(started(dir), kind, meant(target));
            let path = path_meant(dir, target);
            let r = settled(had.finds, listing);
            &&& had.cwd == Some(dir)
            &&& r.scopes == Seq::<ScopeView>::empty()
            &&& r.files == if within(path, "/dev"@) {
                seq![]
            } else if kind == Redirect::Write {
                seq![(path, true)]
            } else if listing.files.contains(path) {
                seq![(path, false)]
            } else {
                seq![]
            }
        }),
{
    let had = crate::shell_paths::redirected(started(dir), kind, meant(target));
    let path = path_meant(dir, target);
    reveal_with_fuel(settled, 2);
    if !within(path, "/dev"@) {
        assert(had.finds.drop_last() =~= Seq::<FindView>::empty());
        assert(settled(had.finds, listing).files =~= if kind == Redirect::Write {
            seq![(path, true)]
        } else if listing.files.contains(path) {
            seq![(path, false)]
        } else {
            seq![]
        });
    }
}

/// A descriptor that is duplicated is no file: it makes no difference to what a command
/// works on.
pub proof fn a_duplicated_descriptor_is_no_file(
    program: Seq<char>,
    args: Seq<Spelled>,
    dir: Seq<char>,
)
    requires
        names_program(program),
        all_plain(args),
    ensures
        found_in(line(program, args) + " 2>&1"@, dir) == found_in(line(program, args), dir),
{
    reveal_strlit(" 2>&1");
    let tail = seq![' '] + (seq!['2'] + (seq!['>', '&'] + seq!['1']));
    assert(" 2>&1"@ =~= tail);
    let inner = seq!['>', '&'] + seq!['1'];
    lemma_duplicated();
    assert(inner[0] == '>');
    lemma_descriptor(inner);
    lemma_space(seq!['2'] + inner);
    let first = Spelled { text: program, quotes: Quotes::Bare };
    let words = seq![first] + args;
    assert forall|k: int| 0 <= k < words.len() implies (#[trigger] words[k]).plain() by {
        if k > 0 {
            assert(words[k] == args[k - 1]);
        }
    }
    assert(tail[0] == ' ');
    lemma_words_read(words, tail);
    lemma_redirected_command(words, Redirect::NotAFile, seq!['1'], dir);
    let all = all_meant(texts(words));
    assert(all.skip(1) =~= all_meant(texts(args)));
    lemma_line(program, args, dir);
}

proof fn lemma_duplicated()
    ensures
        tokenized(seq!['>', '&'] + seq!['1']) == seq![
            TokenView::Redirect(Redirect::NotAFile),
            TokenView::Word(meant(seq!['1'])),
        ],
{
    let p = seq!['>', '&'];
    let one = seq!['1'];
    let s = p + one;
    let had = seq![TokenView::Redirect(Redirect::NotAFile)];
    assert(s[0] == '>' && s[1] == '&');
    assert(lex_next(s, start()) =~= after(p, had, start()));
    lemma_lex_next_advances(s, start());
    lemma_lex_shift(p, had, one, start());
    let word = Spelled { text: one, quotes: Quotes::Bare };
    assert(word.plain());
    let none = Seq::<char>::empty();
    lemma_word_token(word, none);
    lemma_nothing_read();
    assert(word.written() + none =~= one);
    assert(had + (seq![TokenView::Word(meant(one))] + Seq::<TokenView>::empty()) =~= seq![
        TokenView::Redirect(Redirect::NotAFile),
        TokenView::Word(meant(one)),
    ]);
}

/// After a `cd` that can't be followed, to where it was before or home, what is named
/// relative to the folder is not worked out, and what starts at the root still is.
pub proof fn nothing_is_guessed_after_a_cd_elsewhere(
    home: bool,
    between: Broken,
    program: Seq<char>,
    file: Spelled,
    dir: Seq<char>,
    listing: ListingView,
)
    requires
        reads_its_files(program),
        file.plain(),
        file.text[0] != '-',
    ensures
        ({
            let away = if home {
                Seq::<Spelled>::empty()
            } else {
                seq![Spelled { text: "-"@, quotes: Quotes::Bare }]
            };
            let r = works_on(
                line("cd"@, away) + between.written() + line(program, seq![file]),
                dir,
                listing,
            );
            let path = crate::paths::normalized(file.text);
            r.scopes.len() == 0 && r.files == if file.text[0] == '/' && listing.files.contains(
                path,
            ) {
                seq![(path, false)]
            } else {
                seq![]
            }
        }),
{
    lemma_spelling();
    reveal_strlit("-");
    let away = if home {
        Seq::<Spelled>::empty()
    } else {
        seq![Spelled { text: "-"@, quotes: Quotes::Bare }]
    };
    let cd = Spelled { text: "cd"@, quotes: Quotes::Bare };
    let words = seq![cd] + away;
    lemma_known_program("cd"@);
    assert(cd.plain());
    assert forall|k: int| 0 <= k < words.len() implies (#[trigger] words[k]).plain() by {}
    let rest = line(program, seq![file]);
    lemma_then(words, between, rest, dir);
    lemma_away(home, away, dir);
    let lost = WorkView { cwd: None, finds: seq![] };
    lemma_file_read(program, file, lost);
    let done = commanded(started(dir), word_tokens(words));
    assert(done == lost);
    reveal_with_fuel(settled, 2);
    let finds = lost.read(meant(file.text), false).finds;
    if file.text[0] == '/' {
        assert(finds.drop_last() =~= Seq::<FindView>::empty());
    }
    assert(settled(finds, listing).files =~= if file.text[0] == '/' && listing.files.contains(
        crate::paths::normalized(file.text),
    ) {
        seq![(crate::paths::normalized(file.text), false)]
    } else {
        seq![]
    });
}

proof fn lemma_away(home: bool, away: Seq<Spelled>, dir: Seq<char>)
    requires
        away == if home {
            Seq::<Spelled>::empty()
        } else {
            seq![Spelled { text: "-"@, quotes: Quotes::Bare }]
        },
    ensures
        commanded(
            started(dir),
            word_tokens(seq![Spelled { text: "cd"@, quotes: Quotes::Bare }] + away),
        ) == (WorkView { cwd: None, finds: seq![] }),
{
    lemma_spelling();
    reveal_strlit("-");
    reveal_strlit("--");
    let cd = Spelled { text: "cd"@, quotes: Quotes::Bare };
    let words = seq![cd] + away;
    lemma_commanded(words, started(dir));
    lemma_known_program("cd"@);
    lemma_program("cd"@);
    let all = all_meant(texts(words));
    assert(all[0].text == "cd"@);
    assert(program_at(all, 0) == 0);
    assert(all.skip(1) =~= all_meant(texts(away)));
    let none = Seq::<Valued>::empty();
    assert forall|k: int| 0 <= k < away.len() implies (#[trigger] away[k]).plain() by {}
    assert(laid(none, away) == away);
    assert(valued_options("cd"@).len() == 0);
    assert(options_alone(away, valued_options("cd"@))) by {
        assert forall|k: int| 0 <= k < away.len() implies (#[trigger] away[k]).text != "--"@
            && !valued_options("cd"@).contains(away[k].text) by {
            assert("-"@.len() == 1 && "--"@.len() == 2);
        }
    }
    lemma_split_laid("cd"@, none, away);
    crate::command_laws::lemma_tables("cd"@);
    lemma_away_operands(home, away);
}

proof fn lemma_away_operands(home: bool, away: Seq<Spelled>)
    requires
        away == if home {
            Seq::<Spelled>::empty()
        } else {
            seq![Spelled { text: "-"@, quotes: Quotes::Bare }]
        },
    ensures
        operands(away) == if home {
            Seq::<Seq<char>>::empty()
        } else {
            seq!["-"@]
        },
{
    let all = texts(away);
    reveal_with_fuel(Seq::<_>::filter, 2);
    if home {
        assert(all =~= Seq::<Seq<char>>::empty());
        assert(operands(away) =~= Seq::<Seq<char>>::empty());
    } else {
        assert(all =~= seq!["-"@]);
        assert(all.drop_last() =~= Seq::<Seq<char>>::empty());
        assert(operands(away) =~= seq!["-"@]);
    }
}

proof fn lemma_file_read(program: Seq<char>, file: Spelled, work: WorkView)
    requires
        reads_its_files(program),
        file.plain(),
        file.text[0] != '-',
    ensures
        commanded_from(work, tokenized(line(program, seq![file])), 0) == work.read(
            meant(file.text),
            false,
        ),
{
    let args = seq![file];
    let none = Seq::<Valued>::empty();
    crate::command_laws::lemma_reader(program);
    lemma_known_program(program);
    lemma_program(program);
    let first = Spelled { text: program, quotes: Quotes::Bare };
    let words = seq![first] + args;
    assert(first.plain());
    assert forall|k: int| 0 <= k < words.len() implies (#[trigger] words[k]).plain() by {}
    lemma_spoken_plain(words, seq![]);
    lemma_commanded(words, work);
    let all = all_meant(texts(words));
    assert(all[0].text == program);
    assert(program_at(all, 0) == 0);
    assert(all.skip(1) =~= all_meant(texts(args)));
    assert(laid(none, args) == args);
    assert(all_plain(args));
    reveal_strlit("--");
    assert(options_alone(args, valued_options(program))) by {
        if valued_options(program).contains(file.text) {
            crate::command_laws::lemma_valued_option(program, file.text);
        }
        assert("--"@[0] == '-');
    }
    lemma_split_laid(program, none, args);
    crate::command_laws::lemma_tables(program);
    lemma_one_operand(file);
    let ops = all_meant(operands(args));
    assert(ops =~= seq![meant(file.text)]);
    assert(ops.drop_last() =~= Seq::<WordView>::empty());
    reveal_with_fuel(WorkView::read_each, 2);
}

} // verus!
