//! What holds of the files plain commands work on: a program and the words after
//! it, told of the words themselves.
use vstd::prelude::*;
use crate::listing::ListingView;
use crate::paths::{join_path, normalized, within};
use crate::shell_lines::{after, lemma_lex_shift};
use crate::shell_paths::{base_name, commanded, commanded_from, found_in, gather, parse_from,
    performed, program_at, settled, split_args, FindView, GivenView, ParsedView, ScopeView,
    ShellPathsView, WorkView};
use crate::shell_words::{ends_word, lex_next, lemma_lex_next_advances, no_word, quoted_from,
    tokenized, word_at, word_from, Lexed, TokenView, WordView};
use crate::text::{group_runs, join, lemma_join_first, lemma_run_end_is, run_end, run_start, Class};

verus! {

// ---------------------------------------------------------------------------
// Words as they are written
// ---------------------------------------------------------------------------

/// How a word is written in a command.
pub enum Quotes {
    Bare,
    Single,
    Double,
}

/// A word of a command, and how it is written.
pub struct Spelled {
    pub text: Seq<char>,
    pub quotes: Quotes,
}

/// Whether a character stands for itself in a command, without quotes.
pub open spec fn stands_for_itself(c: char) -> bool {
    c != ' ' && c != '\t' && c != '\n' && c != ';' && c != '&' && c != '|' && c != '<' && c != '>'
        && c != '(' && c != ')' && c != '\'' && c != '"' && c != '\\' && c != '$' && c != '`' && c
        != '*' && c != '?' && c != '[' && c != '{'
}

/// Whether a text, written without quotes, is a word that stands for itself.
pub open spec fn bare(text: Seq<char>) -> bool {
    text.len() > 0 && text[0] != '#' && text[0] != '~' && forall|k: int|
        0 <= k < text.len() ==> stands_for_itself(#[trigger] text[k])
}

impl Spelled {
    /// The word as it is written.
    pub open spec fn written(self) -> Seq<char> {
        match self.quotes {
            Quotes::Bare => self.text,
            Quotes::Single => seq!['\''] + self.text + seq!['\''],
            Quotes::Double => seq!['"'] + self.text + seq!['"'],
        }
    }

    /// Whether it can be written so and mean itself.
    pub open spec fn plain(self) -> bool {
        self.text.len() > 0 && match self.quotes {
            Quotes::Bare => bare(self.text),
            Quotes::Single => forall|k: int|
                0 <= k < self.text.len() ==> #[trigger] self.text[k] != '\'',
            Quotes::Double => forall|k: int|
                0 <= k < self.text.len() ==> {
                    &&& #[trigger] self.text[k] != '"'
                    &&& self.text[k] != '\\'
                    &&& self.text[k] != '$'
                    &&& self.text[k] != '`'
                },
        }
    }
}

pub open spec fn all_plain(words: Seq<Spelled>) -> bool {
    forall|k: int| 0 <= k < words.len() ==> (#[trigger] words[k]).plain()
}

pub open spec fn texts(words: Seq<Spelled>) -> Seq<Seq<char>> {
    words.map_values(|w: Spelled| w.text)
}

/// Words as they are written in a command, a space between them.
pub open spec fn spoken(words: Seq<Spelled>) -> Seq<char> {
    join(words.map_values(|w: Spelled| w.written()), " "@)
}

/// A program written without quotes, with words after it.
pub open spec fn line(program: Seq<char>, args: Seq<Spelled>) -> Seq<char> {
    spoken(seq![Spelled { text: program, quotes: Quotes::Bare }] + args)
}

/// A word that means a text.
pub open spec fn meant(text: Seq<char>) -> WordView {
    WordView { text, known: true, pattern: false }
}

pub open spec fn all_meant(texts: Seq<Seq<char>>) -> Seq<WordView> {
    texts.map_values(|text: Seq<char>| meant(text))
}

pub open spec fn word_tokens(words: Seq<Spelled>) -> Seq<TokenView> {
    words.map_values(|w: Spelled| TokenView::Word(meant(w.text)))
}

// ---------------------------------------------------------------------------
// Reading words
// ---------------------------------------------------------------------------

pub open spec fn start() -> Lexed {
    Lexed { i: 0, tokens: seq![], heredocs: seq![], delimiter_next: None }
}

/// Whether what follows a word ends it.
pub open spec fn sets_off(tail: Seq<char>) -> bool {
    tail.len() == 0 || ends_word(tail[0])
}

pub proof fn lemma_bare_from(s: Seq<char>, from: int, i: int, end: int, word: WordView)
    requires
        0 <= from <= i <= end <= s.len(),
        forall|k: int| i <= k < end ==> stands_for_itself(#[trigger] s[k]),
        i == from && i < end ==> s[i] != '~',
        end < s.len() ==> ends_word(s[end]),
    ensures
        word_from(s, from, i, word) == (
            WordView { text: word.text + s.subrange(i, end), ..word },
            end,
        ),
    decreases end - i,
{
    if i < end {
        assert(stands_for_itself(s[i]));
        let more = crate::shell_words::with_char(word, s[i]);
        lemma_bare_from(s, from, i + 1, end, more);
        assert(more.text + s.subrange(i + 1, end) =~= word.text + s.subrange(i, end));
    } else {
        assert(word.text + s.subrange(i, end) =~= word.text);
    }
}

proof fn lemma_double_from(s: Seq<char>, i: int, end: int, word: WordView)
    requires
        0 <= i <= end < s.len(),
        forall|k: int|
            i <= k < end ==> {
                &&& #[trigger] s[k] != '"'
                &&& s[k] != '\\'
                &&& s[k] != '$'
                &&& s[k] != '`'
            },
        s[end] == '"',
    ensures
        quoted_from(s, i, word) == (
            WordView { text: word.text + s.subrange(i, end), ..word },
            end + 1,
        ),
    decreases end - i,
{
    if i < end {
        assert(s[i] != '"');
        let more = crate::shell_words::with_char(word, s[i]);
        lemma_double_from(s, i + 1, end, more);
        assert(more.text + s.subrange(i + 1, end) =~= word.text + s.subrange(i, end));
    } else {
        assert(word.text + s.subrange(i, end) =~= word.text);
    }
}

/// A word that is written plainly is read as what it means.
pub proof fn lemma_word_read(word: Spelled, tail: Seq<char>)
    requires
        word.plain(),
        sets_off(tail),
    ensures
        ({
            let s = word.written() + tail;
            word_at(s, 0) == (meant(word.text), word.written().len() as int)
        }),
{
    broadcast use group_runs;

    let w = word.written();
    let s = w + tail;
    let n = w.len() as int;
    if n < s.len() {
        assert(s[n] == tail[0]);
    }
    match word.quotes {
        Quotes::Bare => {
            assert forall|k: int| 0 <= k < n implies stands_for_itself(#[trigger] s[k]) by {
                assert(s[k] == word.text[k]);
            }
            assert(s[0] == word.text[0]);
            lemma_bare_from(s, 0, 0, n, no_word());
            assert(no_word().text + s.subrange(0, n) =~= word.text);
        },
        Quotes::Single => {
            assert(s[0] == '\'' && s[n - 1] == '\'');
            assert forall|k: int| 1 <= k < n - 1 implies Class::Not('\'').has(#[trigger] s[k]) by {
                assert(s[k] == word.text[k - 1]);
            }
            lemma_run_end_is(s, Class::Not('\''), 1, n - 1);
            assert(no_word().text + s.subrange(1, n - 1) =~= word.text);
            lemma_bare_from(s, 0, n, n, meant(word.text));
            assert(word.text + s.subrange(n, n) =~= word.text);
        },
        Quotes::Double => {
            assert(s[0] == '"' && s[n - 1] == '"');
            assert forall|k: int| 1 <= k < n - 1 implies {
                &&& #[trigger] s[k] != '"'
                &&& s[k] != '\\'
                &&& s[k] != '$'
                &&& s[k] != '`'
            } by {
                assert(s[k] == word.text[k - 1]);
                assert(word.text[k - 1] != '"');
            }
            lemma_double_from(s, 1, n - 1, no_word());
            assert(no_word().text + s.subrange(1, n - 1) =~= word.text);
            lemma_bare_from(s, 0, n, n, meant(word.text));
            assert(word.text + s.subrange(n, n) =~= word.text);
        },
    }
}

/// A word comes first, and then what follows it.
pub proof fn lemma_word_token(word: Spelled, tail: Seq<char>)
    requires
        word.plain(),
        sets_off(tail),
        tail.len() > 0 ==> tail[0] != '<' && tail[0] != '>',
    ensures
        tokenized(word.written() + tail) == seq![TokenView::Word(meant(word.text))] + tokenized(
            tail,
        ),
{
    broadcast use group_runs;

    let w = word.written();
    let s = w + tail;
    let n = w.len() as int;
    lemma_word_read(word, tail);
    assert(s[0] == w[0]);
    let digits = run_end(s, Class::Digit, 0);
    if digits > 0 && digits < s.len() && (s[digits] == '<' || s[digits] == '>') {
        if digits < n {
            assert(s[digits] == w[digits]);
            match word.quotes {
                Quotes::Bare => {
                    assert(stands_for_itself(word.text[digits]));
                },
                _ => {
                    assert(Class::Digit.has(s[0]));
                },
            }
        } else if digits > n {
            assert(Class::Digit.has(s[n]));
            assert(s[n] == tail[0]);
        } else {
            assert(s[n] == tail[0]);
        }
    }
    match word.quotes {
        Quotes::Bare => {
            assert(stands_for_itself(word.text[0]));
        },
        _ => {},
    }
    let next = lex_next(s, start());
    let had = seq![TokenView::Word(meant(word.text))];
    assert(next =~= after(w, had, start()));
    lemma_lex_next_advances(s, start());
    lemma_lex_shift(w, had, tail, start());
}

/// A space makes no difference.
pub proof fn lemma_space(tail: Seq<char>)
    ensures
        tokenized(seq![' '] + tail) == tokenized(tail),
{
    let p = seq![' '];
    let s = p + tail;
    let none = Seq::<TokenView>::empty();
    let next = lex_next(s, start());
    assert(next =~= after(p, none, start()));
    lemma_lex_next_advances(s, start());
    lemma_lex_shift(p, none, tail, start());
    assert(none + tokenized(tail) =~= tokenized(tail));
}

pub proof fn lemma_nothing_read()
    ensures
        tokenized(Seq::<char>::empty()) == Seq::<TokenView>::empty(),
{
}

pub proof fn lemma_gap()
    ensures
        " "@ == seq![' '],
{
    reveal_strlit(" ");
    assert(" "@ =~= seq![' ']);
}

/// Words are read one after the other, and then what follows them.
pub proof fn lemma_words_read(words: Seq<Spelled>, tail: Seq<char>)
    requires
        words.len() > 0,
        all_plain(words),
        sets_off(tail),
        tail.len() > 0 ==> tail[0] != '<' && tail[0] != '>',
    ensures
        tokenized(spoken(words) + tail) == word_tokens(words) + tokenized(tail),
    decreases words.len(),
{
    lemma_gap();
    let f = |w: Spelled| w.written();
    let parts = words.map_values(f);
    let first = words[0];
    assert(first.plain());
    if words.len() == 1 {
        assert(parts[0] == first.written());
        lemma_word_token(first, tail);
        assert(seq![TokenView::Word(meant(first.text))] =~= word_tokens(words));
    } else {
        let rest = words.skip(1);
        assert forall|k: int| 0 <= k < rest.len() implies (#[trigger] rest[k]).plain() by {
            assert(rest[k] == words[k + 1]);
        }
        lemma_words_read(rest, tail);
        lemma_join_first(parts, " "@);
        assert(parts.skip(1) =~= rest.map_values(f));
        let more = seq![' '] + (spoken(rest) + tail);
        assert(spoken(words) + tail =~= first.written() + more);
        lemma_word_token(first, more);
        lemma_space(spoken(rest) + tail);
        assert(seq![TokenView::Word(meant(first.text))] + (word_tokens(rest) + tokenized(tail))
            =~= word_tokens(words) + tokenized(tail));
    }
}

// ---------------------------------------------------------------------------
// One command
// ---------------------------------------------------------------------------

pub open spec fn started(dir: Seq<char>) -> WorkView {
    WorkView { cwd: Some(dir), finds: seq![] }
}

pub proof fn lemma_gathered(words: Seq<Spelled>, i: int, work: WorkView, args: Seq<WordView>)
    requires
        0 <= i <= words.len(),
    ensures
        gather(word_tokens(words), i, work, args) == (
            work,
            args + all_meant(texts(words)).skip(i),
        ),
    decreases words.len() - i,
{
    let all = all_meant(texts(words));
    if i < words.len() {
        lemma_gathered(words, i + 1, work, args.push(all[i]));
        assert(args.push(all[i]) + all.skip(i + 1) =~= args + all.skip(i));
    } else {
        assert(args + all.skip(i) =~= args);
    }
}

proof fn lemma_no_break(words: Seq<Spelled>, i: int)
    requires
        0 <= i <= words.len(),
    ensures
        crate::shell_paths::break_at(word_tokens(words), i) == words.len(),
    decreases words.len() - i,
{
    if i < words.len() {
        assert(word_tokens(words)[i] == TokenView::Word(meant(words[i].text)));
        lemma_no_break(words, i + 1);
    }
}

/// The work of a command of words is that of its program, given the words after
/// it.
pub proof fn lemma_commanded(words: Seq<Spelled>, work: WorkView)
    ensures
        commanded(work, word_tokens(words)) == ({
            let args = all_meant(texts(words));
            let at = program_at(args, 0);
            if 0 <= at < args.len() {
                performed(work, base_name(args[at].text), args.skip(at + 1))
            } else {
                work
            }
        }),
        commanded_from(work, word_tokens(words), 0) == commanded(work, word_tokens(words)),
{
    let args = all_meant(texts(words));
    let none = Seq::<WordView>::empty();
    lemma_gathered(words, 0, work, none);
    assert(none + args.skip(0) =~= args);
    lemma_no_break(words, 0);
    let tokens = word_tokens(words);
    assert(tokens.subrange(0, tokens.len() as int) =~= tokens);
}

/// Whether a text can be a program: it is in no folder, sets nothing, and doesn't
/// only run what comes after it.
pub open spec fn names_program(text: Seq<char>) -> bool {
    &&& bare(text)
    &&& forall|k: int| 0 <= k < text.len() ==> #[trigger] text[k] != '/' && text[k] != '='
    &&& text != "sudo"@ && text != "env"@ && text != "command"@ && text != "builtin"@ && text
        != "exec"@ && text != "time"@ && text != "nice"@ && text != "nohup"@
}

pub proof fn lemma_program(text: Seq<char>)
    requires
        names_program(text),
    ensures
        !crate::shell_paths::assigns(text),
        !crate::shell_paths::wraps(text),
        base_name(text) == text,
{
    broadcast use group_runs;

    let n = text.len() as int;
    assert forall|k: int| 0 <= k < n implies Class::Not('=').has(#[trigger] text[k]) by {
        assert(text[k] != '/');
    }
    lemma_run_end_is(text, Class::Not('='), 0, n);
    let from = run_start(text, Class::Not('/'), n);
    if from > 0 {
        assert(text[from - 1] != '/');
    }
    assert(text.skip(0) =~= text);
}

/// What a plain command is found to do.
pub proof fn lemma_line(program: Seq<char>, args: Seq<Spelled>, dir: Seq<char>)
    requires
        names_program(program),
        all_plain(args),
    ensures
        found_in(line(program, args), dir) == performed(
            started(dir),
            program,
            all_meant(texts(args)),
        ).finds,
{
    let first = Spelled { text: program, quotes: Quotes::Bare };
    let words = seq![first] + args;
    assert forall|k: int| 0 <= k < words.len() implies (#[trigger] words[k]).plain() by {
        if k > 0 {
            assert(words[k] == args[k - 1]);
        }
    }
    let none = Seq::<char>::empty();
    lemma_words_read(words, none);
    lemma_nothing_read();
    assert(spoken(words) + none =~= spoken(words));
    assert(word_tokens(words) + Seq::<TokenView>::empty() =~= word_tokens(words));
    lemma_commanded(words, started(dir));
    lemma_program(program);
    let all = all_meant(texts(words));
    assert(all[0].text == program);
    assert(all.skip(1) =~= all_meant(texts(args)));
    assert(program_at(all, 0) == 0);
}

// ---------------------------------------------------------------------------
// Options and operands
// ---------------------------------------------------------------------------

/// Whether a word is an option.
pub open spec fn is_option(text: Seq<char>) -> bool {
    text.len() > 0 && text[0] == '-' && text != "-"@
}

/// The words that are no options.
pub open spec fn operands(args: Seq<Spelled>) -> Seq<Seq<char>> {
    texts(args).filter(|text: Seq<char>| !is_option(text))
}

/// The words that are options.
pub open spec fn options(args: Seq<Spelled>) -> Seq<Seq<char>> {
    texts(args).filter(|text: Seq<char>| is_option(text))
}

/// Whether every option stands for itself: none of `with_value` takes the next word
/// as its value, and none ends the options.
pub open spec fn options_alone(args: Seq<Spelled>, with_value: Seq<Seq<char>>) -> bool {
    forall|k: int|
        0 <= k < args.len() ==> (#[trigger] args[k]).text != "--"@ && !with_value.contains(
            args[k].text,
        )
}

pub open spec fn given(names: Seq<Seq<char>>) -> Seq<GivenView> {
    names.map_values(|name: Seq<char>| GivenView { name, value: None })
}

proof fn lemma_parsed(
    all: Seq<Seq<char>>,
    with_value: Seq<Seq<char>>,
    i: int,
    parsed: ParsedView,
)
    requires
        0 <= i <= all.len(),
        forall|k: int|
            i <= k < all.len() ==> #[trigger] all[k] != "--"@ && !with_value.contains(all[k]),
    ensures
        parse_from(all_meant(all), with_value, i, false, parsed) == (ParsedView {
            operands: parsed.operands + all_meant(
                all.skip(i).filter(|text: Seq<char>| !is_option(text)),
            ),
            options: parsed.options + given(
                all.skip(i).filter(|text: Seq<char>| is_option(text)),
            ),
        }),
    decreases all.len() - i,
{
    let no = |text: Seq<char>| !is_option(text);
    let yes = |text: Seq<char>| is_option(text);
    if i < all.len() {
        let text = all[i];
        let one = seq![text];
        let rest = all.skip(i + 1);
        assert(all.skip(i) =~= one + rest);
        Seq::filter_distributes_over_add(one, rest, no);
        Seq::filter_distributes_over_add(one, rest, yes);
        reveal_with_fuel(Seq::<_>::filter, 2);
        assert(one.drop_last() =~= Seq::<Seq<char>>::empty());
        assert(one.filter(no) =~= if is_option(text) {
            seq![]
        } else {
            one
        });
        assert(one.filter(yes) =~= if is_option(text) {
            one
        } else {
            seq![]
        });
        assert(all_meant(all)[i] == meant(text));
        if is_option(text) {
            let more = ParsedView {
                options: parsed.options.push(GivenView { name: text, value: None }),
                ..parsed
            };
            lemma_parsed(all, with_value, i + 1, more);
            assert(all_meant(all.skip(i).filter(no)) =~= all_meant(rest.filter(no)));
            assert(more.options + given(rest.filter(yes)) =~= parsed.options + given(
                all.skip(i).filter(yes),
            ));
        } else {
            let more = ParsedView { operands: parsed.operands.push(meant(text)), ..parsed };
            lemma_parsed(all, with_value, i + 1, more);
            assert(given(all.skip(i).filter(yes)) =~= given(rest.filter(yes)));
            assert(more.operands + all_meant(rest.filter(no)) =~= parsed.operands + all_meant(
                all.skip(i).filter(no),
            ));
        }
    } else {
        let none = all.skip(i);
        assert(none =~= Seq::<Seq<char>>::empty());
        reveal(Seq::filter);
        assert(parsed.operands + all_meant(none.filter(no)) =~= parsed.operands);
        assert(parsed.options + given(none.filter(yes)) =~= parsed.options);
    }
}

// ---------------------------------------------------------------------------
// Programs
// ---------------------------------------------------------------------------

/// The programs that read each file they are given.
pub open spec fn reads_its_files(program: Seq<char>) -> bool {
    program == "cat"@ || program == "less"@ || program == "more"@
        || program == "bat"@ || program == "batcat"@ || program == "nl"@
        || program == "wc"@ || program == "tac"@ || program == "cmp"@
        || program == "od"@ || program == "xxd"@ || program == "hexdump"@
        || program == "strings"@ || program == "file"@ || program == "stat"@
        || program == "md5sum"@ || program == "sha1sum"@ || program == "sha256sum"@
        || program == "column"@ || program == "fold"@ || program == "fmt"@
        || program == "rev"@ || program == "paste"@ || program == "head"@
        || program == "tail"@ || program == "cut"@
}

/// The programs whose work is known.
pub open spec fn has_known_work(program: Seq<char>) -> bool {
    reads_its_files(program) || program == "diff"@ || program == "sort"@ || program == "grep"@
        || program == "egrep"@ || program == "fgrep"@ || program == "rg"@
        || program == "ag"@ || program == "find"@ || program == "sed"@
        || program == "awk"@ || program == "gawk"@ || program == "perl"@
        || program == "jq"@ || program == "yq"@ || program == "tee"@
        || program == "cp"@ || program == "mv"@ || program == "git"@
        || program == "cd"@ || program == "pushd"@
}

/// The options of a program whose value is the next word.
pub open spec fn valued_options(program: Seq<char>) -> Seq<Seq<char>> {
    if program == "head"@ || program == "tail"@ {
        seq!["-n"@, "-c"@]
    } else if program == "cut"@ {
        seq!["-d"@, "-f"@, "-c"@, "-b"@]
    } else if program == "diff"@ {
        seq!["-U"@, "-C"@, "-L"@, "-x"@, "-X"@, "-I"@]
    } else if program == "sort"@ {
        seq!["-k"@, "-t"@, "-o"@, "-S"@, "-T"@]
    } else if program == "grep"@ || program == "egrep"@ || program == "fgrep"@ {
        seq!["-e"@, "--regexp"@, "-f"@, "--file"@, "-m"@, "-A"@, "-B"@, "-C"@, "-d"@, "-D"@]
    } else if program == "rg"@ || program == "ag"@ {
        seq![
            "-e"@,
            "--regexp"@,
            "-f"@,
            "--file"@,
            "-g"@,
            "--glob"@,
            "--iglob"@,
            "-t"@,
            "--type"@,
            "-T"@,
            "--type-not"@,
            "-m"@,
            "-A"@,
            "-B"@,
            "-C"@,
            "-M"@,
            "-j"@,
            "--max-depth"@,
        ]
    } else if program == "sed"@ {
        seq!["-e"@, "--expression"@, "-f"@, "--file"@, "-l"@]
    } else if program == "awk"@ || program == "gawk"@ {
        seq!["-f"@, "--file"@, "-v"@, "-F"@, "-i"@]
    } else if program == "perl"@ {
        seq!["-e"@, "-E"@, "-I"@, "-M"@]
    } else if program == "jq"@ || program == "yq"@ {
        seq!["--arg"@, "--argjson"@, "-f"@, "--from-file"@]
    } else if program == "cp"@ || program == "mv"@ {
        seq!["-t"@, "--target-directory"@, "-S"@, "--suffix"@]
    } else if program == "git"@ {
        seq!["-U"@, "-n"@, "--format"@, "--pretty"@]
    } else {
        seq![]
    }
}

/// The options that give a program the pattern or script that otherwise comes
/// before its files.
pub open spec fn script_options(program: Seq<char>) -> Seq<Seq<char>> {
    if program == "grep"@ || program == "egrep"@ || program == "fgrep"@ || program == "rg"@
        || program == "ag"@ {
        seq!["-e"@, "--regexp"@, "-f"@, "--file"@]
    } else if program == "sed"@ {
        seq!["-e"@, "--expression"@, "-f"@, "--file"@]
    } else if program == "awk"@ || program == "gawk"@ {
        seq!["-f"@, "--file"@]
    } else if program == "perl"@ {
        seq!["-e"@, "-E"@]
    } else if program == "jq"@ || program == "yq"@ {
        seq!["-f"@, "--from-file"@]
    } else {
        seq![]
    }
}

pub proof fn lemma_tables(program: Seq<char>)
    ensures
        crate::shell_paths::value_options(program) == valued_options(program),
        crate::shell_paths::pattern_options(program) == script_options(program),
{
}

/// An option whose value is the word after it.
pub struct Valued {
    pub option: Seq<char>,
    pub value: Spelled,
}

/// Words after a program: options with their values, and then the rest.
pub open spec fn laid(valued: Seq<Valued>, args: Seq<Spelled>) -> Seq<Spelled>
    decreases valued.len(),
{
    if valued.len() == 0 {
        args
    } else {
        seq![Spelled { text: valued[0].option, quotes: Quotes::Bare }, valued[0].value] + laid(
            valued.skip(1),
            args,
        )
    }
}

/// Whether options are those of a program that have a value, and the rest of the
/// words are plain, its options without any.
pub open spec fn proper(program: Seq<char>, valued: Seq<Valued>, args: Seq<Spelled>) -> bool {
    &&& all_plain(args)
    &&& options_alone(args, valued_options(program))
    &&& forall|k: int|
        0 <= k < valued.len() ==> valued_options(program).contains(
            (#[trigger] valued[k]).option,
        ) && valued[k].value.plain()
}

pub open spec fn given_values(valued: Seq<Valued>) -> Seq<GivenView> {
    valued.map_values(
        |v: Valued| GivenView { name: v.option, value: Some(meant(v.value.text)) },
    )
}

/// Options of this form are bare words.
pub proof fn lemma_valued_option(program: Seq<char>, option: Seq<char>)
    requires
        valued_options(program).contains(option),
    ensures
        bare(option),
        is_option(option),
        option != "--"@,
{
    lemma_option_spelling();
    let all = valued_options(program);
    let k = choose|k: int| 0 <= k < all.len() && all[k] == option;
    assert(all[k] == option);
    lemma_valued_spelled(option);
}

/// Whether a text is one of the options that have values.
spec fn some_option(option: Seq<char>) -> bool {
    option == "-n"@ || option == "-c"@ || option == "-d"@
        || option == "-f"@ || option == "-b"@ || option == "-U"@
        || option == "-C"@ || option == "-L"@ || option == "-x"@
        || option == "-X"@ || option == "-I"@ || option == "-k"@
        || option == "-t"@ || option == "-o"@ || option == "-S"@
        || option == "-T"@ || option == "-e"@ || option == "--regexp"@
        || option == "--file"@ || option == "-m"@ || option == "-A"@
        || option == "-B"@ || option == "-D"@ || option == "-g"@
        || option == "--glob"@ || option == "--iglob"@ || option == "--type"@
        || option == "--type-not"@ || option == "-M"@ || option == "-j"@
        || option == "--max-depth"@ || option == "--expression"@ || option == "-l"@
        || option == "-v"@ || option == "-F"@ || option == "-i"@
        || option == "-E"@ || option == "--arg"@ || option == "--argjson"@
        || option == "--from-file"@ || option == "--target-directory"@ || option == "--suffix"@
        || option == "--format"@ || option == "--pretty"@
}

proof fn lemma_valued_spelled(option: Seq<char>)
    requires
        some_option(option),
    ensures
        bare(option),
        is_option(option),
        option != "--"@,
{
    lemma_option_spelling();
    assert(bare(option));
}

proof fn lemma_option_spelling()
    ensures
        "-n"@.len() == 2 && "-n"@[0] == '-' && "-n"@[1] == 'n',
        "-c"@.len() == 2 && "-c"@[0] == '-' && "-c"@[1] == 'c',
        "-d"@.len() == 2 && "-d"@[0] == '-' && "-d"@[1] == 'd',
        "-f"@.len() == 2 && "-f"@[0] == '-' && "-f"@[1] == 'f',
        "-b"@.len() == 2 && "-b"@[0] == '-' && "-b"@[1] == 'b',
        "-U"@.len() == 2 && "-U"@[0] == '-' && "-U"@[1] == 'U',
        "-C"@.len() == 2 && "-C"@[0] == '-' && "-C"@[1] == 'C',
        "-L"@.len() == 2 && "-L"@[0] == '-' && "-L"@[1] == 'L',
        "-x"@.len() == 2 && "-x"@[0] == '-' && "-x"@[1] == 'x',
        "-X"@.len() == 2 && "-X"@[0] == '-' && "-X"@[1] == 'X',
        "-I"@.len() == 2 && "-I"@[0] == '-' && "-I"@[1] == 'I',
        "-k"@.len() == 2 && "-k"@[0] == '-' && "-k"@[1] == 'k',
        "-t"@.len() == 2 && "-t"@[0] == '-' && "-t"@[1] == 't',
        "-o"@.len() == 2 && "-o"@[0] == '-' && "-o"@[1] == 'o',
        "-S"@.len() == 2 && "-S"@[0] == '-' && "-S"@[1] == 'S',
        "-T"@.len() == 2 && "-T"@[0] == '-' && "-T"@[1] == 'T',
        "-e"@.len() == 2 && "-e"@[0] == '-' && "-e"@[1] == 'e',
        "--regexp"@.len() == 8 && "--regexp"@[0] == '-' && "--regexp"@[1] == '-'
            && "--regexp"@[2] == 'r' && "--regexp"@[3] == 'e' && "--regexp"@[4] == 'g'
            && "--regexp"@[5] == 'e' && "--regexp"@[6] == 'x' && "--regexp"@[7] == 'p',
        "--file"@.len() == 6 && "--file"@[0] == '-' && "--file"@[1] == '-' && "--file"@[2] == 'f'
            && "--file"@[3] == 'i' && "--file"@[4] == 'l' && "--file"@[5] == 'e',
        "-m"@.len() == 2 && "-m"@[0] == '-' && "-m"@[1] == 'm',
        "-A"@.len() == 2 && "-A"@[0] == '-' && "-A"@[1] == 'A',
        "-B"@.len() == 2 && "-B"@[0] == '-' && "-B"@[1] == 'B',
        "-D"@.len() == 2 && "-D"@[0] == '-' && "-D"@[1] == 'D',
        "-g"@.len() == 2 && "-g"@[0] == '-' && "-g"@[1] == 'g',
        "--glob"@.len() == 6 && "--glob"@[0] == '-' && "--glob"@[1] == '-' && "--glob"@[2] == 'g'
            && "--glob"@[3] == 'l' && "--glob"@[4] == 'o' && "--glob"@[5] == 'b',
        "--iglob"@.len() == 7 && "--iglob"@[0] == '-' && "--iglob"@[1] == '-'
            && "--iglob"@[2] == 'i' && "--iglob"@[3] == 'g' && "--iglob"@[4] == 'l'
            && "--iglob"@[5] == 'o' && "--iglob"@[6] == 'b',
        "--type"@.len() == 6 && "--type"@[0] == '-' && "--type"@[1] == '-' && "--type"@[2] == 't'
            && "--type"@[3] == 'y' && "--type"@[4] == 'p' && "--type"@[5] == 'e',
        "--type-not"@.len() == 10 && "--type-not"@[0] == '-' && "--type-not"@[1] == '-'
            && "--type-not"@[2] == 't' && "--type-not"@[3] == 'y' && "--type-not"@[4] == 'p'
            && "--type-not"@[5] == 'e' && "--type-not"@[6] == '-' && "--type-not"@[7] == 'n'
            && "--type-not"@[8] == 'o' && "--type-not"@[9] == 't',
        "-M"@.len() == 2 && "-M"@[0] == '-' && "-M"@[1] == 'M',
        "-j"@.len() == 2 && "-j"@[0] == '-' && "-j"@[1] == 'j',
        "--max-depth"@.len() == 11 && "--max-depth"@[0] == '-' && "--max-depth"@[1] == '-'
            && "--max-depth"@[2] == 'm' && "--max-depth"@[3] == 'a' && "--max-depth"@[4] == 'x'
            && "--max-depth"@[5] == '-' && "--max-depth"@[6] == 'd' && "--max-depth"@[7] == 'e'
            && "--max-depth"@[8] == 'p' && "--max-depth"@[9] == 't' && "--max-depth"@[10] == 'h',
        "--expression"@.len() == 12 && "--expression"@[0] == '-' && "--expression"@[1] == '-'
            && "--expression"@[2] == 'e' && "--expression"@[3] == 'x' && "--expression"@[4] == 'p'
            && "--expression"@[5] == 'r' && "--expression"@[6] == 'e' && "--expression"@[7] == 's'
            && "--expression"@[8] == 's' && "--expression"@[9] == 'i'
            && "--expression"@[10] == 'o' && "--expression"@[11] == 'n',
        "-l"@.len() == 2 && "-l"@[0] == '-' && "-l"@[1] == 'l',
        "-v"@.len() == 2 && "-v"@[0] == '-' && "-v"@[1] == 'v',
        "-F"@.len() == 2 && "-F"@[0] == '-' && "-F"@[1] == 'F',
        "-i"@.len() == 2 && "-i"@[0] == '-' && "-i"@[1] == 'i',
        "-E"@.len() == 2 && "-E"@[0] == '-' && "-E"@[1] == 'E',
        "--arg"@.len() == 5 && "--arg"@[0] == '-' && "--arg"@[1] == '-' && "--arg"@[2] == 'a'
            && "--arg"@[3] == 'r' && "--arg"@[4] == 'g',
        "--argjson"@.len() == 9 && "--argjson"@[0] == '-' && "--argjson"@[1] == '-'
            && "--argjson"@[2] == 'a' && "--argjson"@[3] == 'r' && "--argjson"@[4] == 'g'
            && "--argjson"@[5] == 'j' && "--argjson"@[6] == 's' && "--argjson"@[7] == 'o'
            && "--argjson"@[8] == 'n',
        "--from-file"@.len() == 11 && "--from-file"@[0] == '-' && "--from-file"@[1] == '-'
            && "--from-file"@[2] == 'f' && "--from-file"@[3] == 'r' && "--from-file"@[4] == 'o'
            && "--from-file"@[5] == 'm' && "--from-file"@[6] == '-' && "--from-file"@[7] == 'f'
            && "--from-file"@[8] == 'i' && "--from-file"@[9] == 'l' && "--from-file"@[10] == 'e',
        "--target-directory"@.len() == 18 && "--target-directory"@[0] == '-'
            && "--target-directory"@[1] == '-' && "--target-directory"@[2] == 't'
            && "--target-directory"@[3] == 'a' && "--target-directory"@[4] == 'r'
            && "--target-directory"@[5] == 'g' && "--target-directory"@[6] == 'e'
            && "--target-directory"@[7] == 't' && "--target-directory"@[8] == '-'
            && "--target-directory"@[9] == 'd' && "--target-directory"@[10] == 'i'
            && "--target-directory"@[11] == 'r' && "--target-directory"@[12] == 'e'
            && "--target-directory"@[13] == 'c' && "--target-directory"@[14] == 't'
            && "--target-directory"@[15] == 'o' && "--target-directory"@[16] == 'r'
            && "--target-directory"@[17] == 'y',
        "--suffix"@.len() == 8 && "--suffix"@[0] == '-' && "--suffix"@[1] == '-'
            && "--suffix"@[2] == 's' && "--suffix"@[3] == 'u' && "--suffix"@[4] == 'f'
            && "--suffix"@[5] == 'f' && "--suffix"@[6] == 'i' && "--suffix"@[7] == 'x',
        "--format"@.len() == 8 && "--format"@[0] == '-' && "--format"@[1] == '-'
            && "--format"@[2] == 'f' && "--format"@[3] == 'o' && "--format"@[4] == 'r'
            && "--format"@[5] == 'm' && "--format"@[6] == 'a' && "--format"@[7] == 't',
        "--pretty"@.len() == 8 && "--pretty"@[0] == '-' && "--pretty"@[1] == '-'
            && "--pretty"@[2] == 'p' && "--pretty"@[3] == 'r' && "--pretty"@[4] == 'e'
            && "--pretty"@[5] == 't' && "--pretty"@[6] == 't' && "--pretty"@[7] == 'y',
        "-"@.len() == 1 && "-"@[0] == '-',
        "--"@.len() == 2 && "--"@[0] == '-' && "--"@[1] == '-',
{
    reveal_strlit("-n");
    reveal_strlit("-c");
    reveal_strlit("-d");
    reveal_strlit("-f");
    reveal_strlit("-b");
    reveal_strlit("-U");
    reveal_strlit("-C");
    reveal_strlit("-L");
    reveal_strlit("-x");
    reveal_strlit("-X");
    reveal_strlit("-I");
    reveal_strlit("-k");
    reveal_strlit("-t");
    reveal_strlit("-o");
    reveal_strlit("-S");
    reveal_strlit("-T");
    reveal_strlit("-e");
    reveal_strlit("--regexp");
    reveal_strlit("--file");
    reveal_strlit("-m");
    reveal_strlit("-A");
    reveal_strlit("-B");
    reveal_strlit("-D");
    reveal_strlit("-g");
    reveal_strlit("--glob");
    reveal_strlit("--iglob");
    reveal_strlit("--type");
    reveal_strlit("--type-not");
    reveal_strlit("-M");
    reveal_strlit("-j");
    reveal_strlit("--max-depth");
    reveal_strlit("--expression");
    reveal_strlit("-l");
    reveal_strlit("-v");
    reveal_strlit("-F");
    reveal_strlit("-i");
    reveal_strlit("-E");
    reveal_strlit("--arg");
    reveal_strlit("--argjson");
    reveal_strlit("--from-file");
    reveal_strlit("--target-directory");
    reveal_strlit("--suffix");
    reveal_strlit("--format");
    reveal_strlit("--pretty");
    reveal_strlit("-");
    reveal_strlit("--");
}

pub proof fn lemma_laid(program: Seq<char>, valued: Seq<Valued>, args: Seq<Spelled>)
    requires
        proper(program, valued, args),
    ensures
        all_plain(laid(valued, args)),
        laid(valued, args).len() == 2 * valued.len() + args.len(),
        laid(valued, args).skip(2 * valued.len() as int) == args,
        forall|k: int|
            0 <= k < valued.len() ==> (#[trigger] valued[k]).option == laid(valued, args)[2 * k].text
                && valued[k].value == laid(valued, args)[2 * k + 1],
    decreases valued.len(),
{
    let all = laid(valued, args);
    if valued.len() == 0 {
        assert(args.skip(0) =~= args);
    } else {
        let rest = valued.skip(1);
        assert forall|k: int| 0 <= k < rest.len() implies valued_options(program).contains(
            (#[trigger] rest[k]).option,
        ) && rest[k].value.plain() by {
            assert(rest[k] == valued[k + 1]);
        }
        lemma_laid(program, rest, args);
        assert(valued[0].value.plain());
        lemma_valued_option(program, valued[0].option);
        let more = laid(rest, args);
        assert forall|k: int| 0 <= k < all.len() implies (#[trigger] all[k]).plain() by {
            if k >= 2 {
                assert(all[k] == more[k - 2]);
            }
        }
        assert(all.skip(2 * valued.len() as int) =~= more.skip(2 * rest.len() as int));
        assert forall|k: int| 0 <= k < valued.len() implies (#[trigger] valued[k]).option == all[2
            * k].text && valued[k].value == all[2 * k + 1] by {
            if k > 0 {
                assert(rest[k - 1] == valued[k]);
                assert(all[2 * k] == more[2 * (k - 1)]);
                assert(all[2 * k + 1] == more[2 * (k - 1) + 1]);
            }
        }
    }
}

proof fn lemma_values_parsed(
    program: Seq<char>,
    valued: Seq<Valued>,
    args: Seq<Spelled>,
    j: int,
)
    requires
        proper(program, valued, args),
        0 <= j <= valued.len(),
    ensures
        ({
            let had = ParsedView { options: given_values(valued.take(j)), operands: seq![] };
            parse_from(
                all_meant(texts(laid(valued, args))),
                valued_options(program),
                2 * j,
                false,
                had,
            ) == (ParsedView {
                options: given_values(valued) + given(options(args)),
                operands: all_meant(operands(args)),
            })
        }),
    decreases valued.len() - j,
{
    lemma_laid(program, valued, args);
    let all = texts(laid(valued, args));
    let had = ParsedView { options: given_values(valued.take(j)), operands: seq![] };
    let tv = valued_options(program);
    let n = valued.len() as int;
    if j < n {
        let v = valued[j];
        assert(v.option == laid(valued, args)[2 * j].text);
        assert(v.value == laid(valued, args)[2 * j + 1]);
        lemma_valued_option(program, v.option);
        let words = all_meant(all);
        assert(words[2 * j] == meant(v.option));
        assert(words[2 * j + 1] == meant(v.value.text));
        lemma_values_parsed(program, valued, args, j + 1);
        assert(given_values(valued.take(j + 1)) =~= given_values(valued.take(j)).push(
            GivenView { name: v.option, value: Some(meant(v.value.text)) },
        ));
    } else {
        assert(valued.take(n) =~= valued);
        assert forall|k: int| 2 * n <= k < all.len() implies #[trigger] all[k] != "--"@
            && !tv.contains(all[k]) by {
            assert(laid(valued, args).skip(2 * n)[k - 2 * n] == args[k - 2 * n]);
            assert(args[k - 2 * n].text != "--"@);
        }
        lemma_parsed(all, tv, 2 * n, had);
        assert(all.skip(2 * n) =~= texts(args));
        assert(had.operands + all_meant(operands(args)) =~= all_meant(operands(args)));
    }
}

pub proof fn lemma_split_laid(program: Seq<char>, valued: Seq<Valued>, args: Seq<Spelled>)
    requires
        proper(program, valued, args),
    ensures
        split_args(all_meant(texts(laid(valued, args))), valued_options(program)) == (ParsedView {
            options: given_values(valued) + given(options(args)),
            operands: all_meant(operands(args)),
        }),
{
    lemma_values_parsed(program, valued, args, 0);
    assert(given_values(valued.take(0)) =~= Seq::<GivenView>::empty());
}

pub proof fn lemma_spelling()
    ensures
        "cat"@.len() == 3 && "cat"@[0] == 'c' && "cat"@[1] == 'a' && "cat"@[2] == 't',
        "less"@.len() == 4 && "less"@[0] == 'l' && "less"@[1] == 'e' && "less"@[2] == 's'
            && "less"@[3] == 's',
        "more"@.len() == 4 && "more"@[0] == 'm' && "more"@[1] == 'o' && "more"@[2] == 'r'
            && "more"@[3] == 'e',
        "bat"@.len() == 3 && "bat"@[0] == 'b' && "bat"@[1] == 'a' && "bat"@[2] == 't',
        "batcat"@.len() == 6 && "batcat"@[0] == 'b' && "batcat"@[1] == 'a' && "batcat"@[2] == 't'
            && "batcat"@[3] == 'c' && "batcat"@[4] == 'a' && "batcat"@[5] == 't',
        "nl"@.len() == 2 && "nl"@[0] == 'n' && "nl"@[1] == 'l',
        "wc"@.len() == 2 && "wc"@[0] == 'w' && "wc"@[1] == 'c',
        "tac"@.len() == 3 && "tac"@[0] == 't' && "tac"@[1] == 'a' && "tac"@[2] == 'c',
        "cmp"@.len() == 3 && "cmp"@[0] == 'c' && "cmp"@[1] == 'm' && "cmp"@[2] == 'p',
        "od"@.len() == 2 && "od"@[0] == 'o' && "od"@[1] == 'd',
        "xxd"@.len() == 3 && "xxd"@[0] == 'x' && "xxd"@[1] == 'x' && "xxd"@[2] == 'd',
        "hexdump"@.len() == 7 && "hexdump"@[0] == 'h' && "hexdump"@[1] == 'e'
            && "hexdump"@[2] == 'x' && "hexdump"@[3] == 'd' && "hexdump"@[4] == 'u'
            && "hexdump"@[5] == 'm' && "hexdump"@[6] == 'p',
        "strings"@.len() == 7 && "strings"@[0] == 's' && "strings"@[1] == 't'
            && "strings"@[2] == 'r' && "strings"@[3] == 'i' && "strings"@[4] == 'n'
            && "strings"@[5] == 'g' && "strings"@[6] == 's',
        "file"@.len() == 4 && "file"@[0] == 'f' && "file"@[1] == 'i' && "file"@[2] == 'l'
            && "file"@[3] == 'e',
        "stat"@.len() == 4 && "stat"@[0] == 's' && "stat"@[1] == 't' && "stat"@[2] == 'a'
            && "stat"@[3] == 't',
        "md5sum"@.len() == 6 && "md5sum"@[0] == 'm' && "md5sum"@[1] == 'd' && "md5sum"@[2] == '5'
            && "md5sum"@[3] == 's' && "md5sum"@[4] == 'u' && "md5sum"@[5] == 'm',
        "sha1sum"@.len() == 7 && "sha1sum"@[0] == 's' && "sha1sum"@[1] == 'h'
            && "sha1sum"@[2] == 'a' && "sha1sum"@[3] == '1' && "sha1sum"@[4] == 's'
            && "sha1sum"@[5] == 'u' && "sha1sum"@[6] == 'm',
        "sha256sum"@.len() == 9 && "sha256sum"@[0] == 's' && "sha256sum"@[1] == 'h'
            && "sha256sum"@[2] == 'a' && "sha256sum"@[3] == '2' && "sha256sum"@[4] == '5'
            && "sha256sum"@[5] == '6' && "sha256sum"@[6] == 's' && "sha256sum"@[7] == 'u'
            && "sha256sum"@[8] == 'm',
        "column"@.len() == 6 && "column"@[0] == 'c' && "column"@[1] == 'o' && "column"@[2] == 'l'
            && "column"@[3] == 'u' && "column"@[4] == 'm' && "column"@[5] == 'n',
        "fold"@.len() == 4 && "fold"@[0] == 'f' && "fold"@[1] == 'o' && "fold"@[2] == 'l'
            && "fold"@[3] == 'd',
        "fmt"@.len() == 3 && "fmt"@[0] == 'f' && "fmt"@[1] == 'm' && "fmt"@[2] == 't',
        "rev"@.len() == 3 && "rev"@[0] == 'r' && "rev"@[1] == 'e' && "rev"@[2] == 'v',
        "paste"@.len() == 5 && "paste"@[0] == 'p' && "paste"@[1] == 'a' && "paste"@[2] == 's'
            && "paste"@[3] == 't' && "paste"@[4] == 'e',
        "head"@.len() == 4 && "head"@[0] == 'h' && "head"@[1] == 'e' && "head"@[2] == 'a'
            && "head"@[3] == 'd',
        "tail"@.len() == 4 && "tail"@[0] == 't' && "tail"@[1] == 'a' && "tail"@[2] == 'i'
            && "tail"@[3] == 'l',
        "cut"@.len() == 3 && "cut"@[0] == 'c' && "cut"@[1] == 'u' && "cut"@[2] == 't',
        "diff"@.len() == 4 && "diff"@[0] == 'd' && "diff"@[1] == 'i' && "diff"@[2] == 'f'
            && "diff"@[3] == 'f',
        "sort"@.len() == 4 && "sort"@[0] == 's' && "sort"@[1] == 'o' && "sort"@[2] == 'r'
            && "sort"@[3] == 't',
        "grep"@.len() == 4 && "grep"@[0] == 'g' && "grep"@[1] == 'r' && "grep"@[2] == 'e'
            && "grep"@[3] == 'p',
        "egrep"@.len() == 5 && "egrep"@[0] == 'e' && "egrep"@[1] == 'g' && "egrep"@[2] == 'r'
            && "egrep"@[3] == 'e' && "egrep"@[4] == 'p',
        "fgrep"@.len() == 5 && "fgrep"@[0] == 'f' && "fgrep"@[1] == 'g' && "fgrep"@[2] == 'r'
            && "fgrep"@[3] == 'e' && "fgrep"@[4] == 'p',
        "rg"@.len() == 2 && "rg"@[0] == 'r' && "rg"@[1] == 'g',
        "ag"@.len() == 2 && "ag"@[0] == 'a' && "ag"@[1] == 'g',
        "find"@.len() == 4 && "find"@[0] == 'f' && "find"@[1] == 'i' && "find"@[2] == 'n'
            && "find"@[3] == 'd',
        "sed"@.len() == 3 && "sed"@[0] == 's' && "sed"@[1] == 'e' && "sed"@[2] == 'd',
        "awk"@.len() == 3 && "awk"@[0] == 'a' && "awk"@[1] == 'w' && "awk"@[2] == 'k',
        "gawk"@.len() == 4 && "gawk"@[0] == 'g' && "gawk"@[1] == 'a' && "gawk"@[2] == 'w'
            && "gawk"@[3] == 'k',
        "perl"@.len() == 4 && "perl"@[0] == 'p' && "perl"@[1] == 'e' && "perl"@[2] == 'r'
            && "perl"@[3] == 'l',
        "jq"@.len() == 2 && "jq"@[0] == 'j' && "jq"@[1] == 'q',
        "yq"@.len() == 2 && "yq"@[0] == 'y' && "yq"@[1] == 'q',
        "tee"@.len() == 3 && "tee"@[0] == 't' && "tee"@[1] == 'e' && "tee"@[2] == 'e',
        "cp"@.len() == 2 && "cp"@[0] == 'c' && "cp"@[1] == 'p',
        "mv"@.len() == 2 && "mv"@[0] == 'm' && "mv"@[1] == 'v',
        "git"@.len() == 3 && "git"@[0] == 'g' && "git"@[1] == 'i' && "git"@[2] == 't',
        "cd"@.len() == 2 && "cd"@[0] == 'c' && "cd"@[1] == 'd',
        "pushd"@.len() == 5 && "pushd"@[0] == 'p' && "pushd"@[1] == 'u' && "pushd"@[2] == 's'
            && "pushd"@[3] == 'h' && "pushd"@[4] == 'd',
        "sudo"@.len() == 4 && "sudo"@[0] == 's' && "sudo"@[1] == 'u' && "sudo"@[2] == 'd'
            && "sudo"@[3] == 'o',
        "env"@.len() == 3 && "env"@[0] == 'e' && "env"@[1] == 'n' && "env"@[2] == 'v',
        "command"@.len() == 7 && "command"@[0] == 'c' && "command"@[1] == 'o'
            && "command"@[2] == 'm' && "command"@[3] == 'm' && "command"@[4] == 'a'
            && "command"@[5] == 'n' && "command"@[6] == 'd',
        "builtin"@.len() == 7 && "builtin"@[0] == 'b' && "builtin"@[1] == 'u'
            && "builtin"@[2] == 'i' && "builtin"@[3] == 'l' && "builtin"@[4] == 't'
            && "builtin"@[5] == 'i' && "builtin"@[6] == 'n',
        "exec"@.len() == 4 && "exec"@[0] == 'e' && "exec"@[1] == 'x' && "exec"@[2] == 'e'
            && "exec"@[3] == 'c',
        "time"@.len() == 4 && "time"@[0] == 't' && "time"@[1] == 'i' && "time"@[2] == 'm'
            && "time"@[3] == 'e',
        "nice"@.len() == 4 && "nice"@[0] == 'n' && "nice"@[1] == 'i' && "nice"@[2] == 'c'
            && "nice"@[3] == 'e',
        "nohup"@.len() == 5 && "nohup"@[0] == 'n' && "nohup"@[1] == 'o' && "nohup"@[2] == 'h'
            && "nohup"@[3] == 'u' && "nohup"@[4] == 'p',
{
    reveal_strlit("cat");
    reveal_strlit("less");
    reveal_strlit("more");
    reveal_strlit("bat");
    reveal_strlit("batcat");
    reveal_strlit("nl");
    reveal_strlit("wc");
    reveal_strlit("tac");
    reveal_strlit("cmp");
    reveal_strlit("od");
    reveal_strlit("xxd");
    reveal_strlit("hexdump");
    reveal_strlit("strings");
    reveal_strlit("file");
    reveal_strlit("stat");
    reveal_strlit("md5sum");
    reveal_strlit("sha1sum");
    reveal_strlit("sha256sum");
    reveal_strlit("column");
    reveal_strlit("fold");
    reveal_strlit("fmt");
    reveal_strlit("rev");
    reveal_strlit("paste");
    reveal_strlit("head");
    reveal_strlit("tail");
    reveal_strlit("cut");
    reveal_strlit("diff");
    reveal_strlit("sort");
    reveal_strlit("grep");
    reveal_strlit("egrep");
    reveal_strlit("fgrep");
    reveal_strlit("rg");
    reveal_strlit("ag");
    reveal_strlit("find");
    reveal_strlit("sed");
    reveal_strlit("awk");
    reveal_strlit("gawk");
    reveal_strlit("perl");
    reveal_strlit("jq");
    reveal_strlit("yq");
    reveal_strlit("tee");
    reveal_strlit("cp");
    reveal_strlit("mv");
    reveal_strlit("git");
    reveal_strlit("cd");
    reveal_strlit("pushd");
    reveal_strlit("sudo");
    reveal_strlit("env");
    reveal_strlit("command");
    reveal_strlit("builtin");
    reveal_strlit("exec");
    reveal_strlit("time");
    reveal_strlit("nice");
    reveal_strlit("nohup");
}

pub proof fn lemma_known_program(program: Seq<char>)
    requires
        has_known_work(program),
    ensures
        names_program(program),
{
    lemma_spelling();
    assert(bare(program));
}

pub proof fn lemma_reader(program: Seq<char>)
    requires
        reads_its_files(program),
    ensures
        crate::shell_paths::reads_whole(program),
        !crate::shell_paths::changes_folder(program),
        has_known_work(program),
{
    lemma_spelling();
}

// ---------------------------------------------------------------------------
// Files and folders that words name
// ---------------------------------------------------------------------------

/// The path a word names in a folder.
pub open spec fn path_meant(dir: Seq<char>, text: Seq<char>) -> Seq<char> {
    if text[0] == '/' {
        normalized(text)
    } else {
        normalized(join_path(dir, text))
    }
}

/// The file a word names, read or edited, if it is one.
pub open spec fn file_named(dir: Seq<char>, listing: ListingView, edited: bool) -> spec_fn(
    Seq<char>,
) -> Option<(Seq<char>, bool)> {
    |text: Seq<char>|
        if listing.files.contains(path_meant(dir, text)) {
            Some((path_meant(dir, text), edited))
        } else {
            None
        }
}

/// The folder a word names, to take files in by, if it is one.
pub open spec fn folder_named(dir: Seq<char>, listing: ListingView) -> spec_fn(
    Seq<char>,
) -> Option<ScopeView> {
    |text: Seq<char>|
        if !listing.files.contains(path_meant(dir, text)) && listing.folders.contains(
            path_meant(dir, text),
        ) {
            Some(ScopeView { dir: path_meant(dir, text), base: dir })
        } else {
            None
        }
}

/// The file a word names, written whether it is there or not, unless it is a device.
pub open spec fn target_named(dir: Seq<char>) -> spec_fn(Seq<char>) -> Option<(Seq<char>, bool)> {
    |text: Seq<char>|
        if within(path_meant(dir, text), "/dev"@) {
            None
        } else {
            Some((path_meant(dir, text), true))
        }
}

/// What a command, run in a folder, works on.
pub open spec fn works_on(command: Seq<char>, dir: Seq<char>, listing: ListingView) -> ShellPathsView {
    settled(found_in(command, dir), listing)
}

pub open spec fn not_empty(all: Seq<Seq<char>>) -> bool {
    forall|k: int| 0 <= k < all.len() ==> (#[trigger] all[k]).len() > 0
}

pub proof fn lemma_operands(args: Seq<Spelled>)
    requires
        all_plain(args),
    ensures
        not_empty(operands(args)),
{
    let all = texts(args);
    let no = |text: Seq<char>| !is_option(text);
    let ops = operands(args);
    assert forall|k: int| 0 <= k < ops.len() implies (#[trigger] ops[k]).len() > 0 by {
        assert(ops.contains(ops[k]));
        all.lemma_filter_contains_rev(no, ops[k]);
        let j = choose|j: int| 0 <= j < all.len() && all[j] == ops[k];
        assert(args[j].plain());
    }
}

pub proof fn lemma_read_all(ops: Seq<Seq<char>>, folders: bool, dir: Seq<char>, listing: ListingView)
    requires
        not_empty(ops),
    ensures
        ({
            let done = started(dir).read_each(all_meant(ops), folders);
            let r = settled(done.finds, listing);
            &&& done.cwd == Some(dir)
            &&& r.files == ops.filter_map(file_named(dir, listing, false))
            &&& r.scopes == if folders {
                ops.filter_map(folder_named(dir, listing))
            } else {
                seq![]
            }
        }),
    decreases ops.len(),
{
    if ops.len() > 0 {
        let rest = ops.drop_last();
        assert forall|k: int| 0 <= k < rest.len() implies (#[trigger] rest[k]).len() > 0 by {
            assert(rest[k] == ops[k]);
        }
        lemma_read_all(rest, folders, dir, listing);
        assert(all_meant(ops).drop_last() =~= all_meant(rest));
        assert(ops[ops.len() - 1].len() > 0);
        let before = started(dir).read_each(all_meant(rest), folders);
        let done = started(dir).read_each(all_meant(ops), folders);
        assert(done == before.read(meant(ops.last()), folders));
        assert(done.finds.drop_last() =~= before.finds);
    }
}

/// The programs that read the files they are given read every one of them that is a
/// file, in order, and work on nothing else.
pub proof fn every_file_given_is_read(
    program: Seq<char>,
    valued: Seq<Valued>,
    args: Seq<Spelled>,
    dir: Seq<char>,
    listing: ListingView,
)
    requires
        reads_its_files(program),
        proper(program, valued, args),
    ensures
        works_on(line(program, laid(valued, args)), dir, listing).files == operands(
            args,
        ).filter_map(file_named(dir, listing, false)),
        works_on(line(program, laid(valued, args)), dir, listing).scopes.len() == 0,
{
    lemma_reader(program);
    lemma_parsed_line(program, valued, args, dir);
    lemma_read_all(operands(args), false, dir, listing);
}

/// What a known program is found to do, given words.
pub proof fn lemma_parsed_line(
    program: Seq<char>,
    valued: Seq<Valued>,
    args: Seq<Spelled>,
    dir: Seq<char>,
)
    requires
        has_known_work(program),
        proper(program, valued, args),
    ensures
        found_in(line(program, laid(valued, args)), dir) == performed(
            started(dir),
            program,
            all_meant(texts(laid(valued, args))),
        ).finds,
        split_args(
            all_meant(texts(laid(valued, args))),
            crate::shell_paths::value_options(program),
        ) == (ParsedView {
            options: given_values(valued) + given(options(args)),
            operands: all_meant(operands(args)),
        }),
        not_empty(operands(args)),
        crate::shell_paths::pattern_options(program) == script_options(program),
{
    lemma_tables(program);
    lemma_known_program(program);
    lemma_laid(program, valued, args);
    lemma_line(program, laid(valued, args), dir);
    lemma_split_laid(program, valued, args);
    lemma_operands(args);
}

/// Each word given to a program that reads its files, wherever it stands among the
/// words, is read if it names a file.
pub proof fn a_file_given_is_read(
    program: Seq<char>,
    valued: Seq<Valued>,
    args: Seq<Spelled>,
    dir: Seq<char>,
    listing: ListingView,
    k: int,
)
    requires
        reads_its_files(program),
        proper(program, valued, args),
        0 <= k < args.len(),
        !is_option(args[k].text),
        listing.files.contains(path_meant(dir, args[k].text)),
    ensures
        works_on(line(program, laid(valued, args)), dir, listing).files.contains(
            (path_meant(dir, args[k].text), false),
        ),
{
    every_file_given_is_read(program, valued, args, dir, listing);
    let all = texts(args);
    let no = |text: Seq<char>| !is_option(text);
    assert(all[k] == args[k].text);
    all.lemma_filter_contains(no, k);
    lemma_filter_map_has(operands(args), file_named(dir, listing, false), all[k]);
}

proof fn lemma_filter_map_has<B>(
    all: Seq<Seq<char>>,
    f: spec_fn(Seq<char>) -> Option<B>,
    text: Seq<char>,
)
    requires
        all.contains(text),
        f(text) is Some,
    ensures
        all.filter_map(f).contains(f(text)->0),
    decreases all.len(),
{
    let now = all.filter_map(f);
    let rest = all.drop_last();
    let before = rest.filter_map(f);
    if all.last() == text {
        assert(now[now.len() - 1] == f(text)->0);
    } else {
        let k = choose|k: int| 0 <= k < all.len() && all[k] == text;
        assert(rest[k] == text);
        lemma_filter_map_has(rest, f, text);
        let j = choose|j: int| 0 <= j < before.len() && before[j] == f(text)->0;
        assert(now[j] == f(text)->0);
    }
}

// ---------------------------------------------------------------------------
// Options that make a difference
// ---------------------------------------------------------------------------

/// Whether some option is given that is of a kind.
pub open spec fn some_option_is(
    valued: Seq<Valued>,
    args: Seq<Spelled>,
    kind: spec_fn(Seq<char>) -> bool,
) -> bool {
    ||| exists|k: int| 0 <= k < valued.len() && kind((#[trigger] valued[k]).option)
    ||| exists|k: int|
        0 <= k < args.len() && is_option((#[trigger] args[k]).text) && kind(args[k].text)
}

/// Whether an option of one letter, or letters together, has a letter in it.
pub open spec fn has_letter(option: Seq<char>, letter: char) -> bool {
    option.contains(letter) && !(option.len() >= 2 && option[0] == '-' && option[1] == '-')
}

/// Whether an option gives a program its pattern or script, after a `=` or not.
pub open spec fn gives_script(program: Seq<char>, option: Seq<char>) -> bool {
    exists|k: int|
        0 <= k < script_options(program).len() && (option == #[trigger] script_options(program)[k]
            || (script_options(program)[k] + seq!['=']).is_prefix_of(option))
}

spec fn named_in(given: Seq<GivenView>, kind: spec_fn(Seq<char>) -> bool) -> bool {
    exists|k: int| 0 <= k < given.len() && kind((#[trigger] given[k]).name)
}

proof fn lemma_named(
    valued: Seq<Valued>,
    args: Seq<Spelled>,
    kind: spec_fn(Seq<char>) -> bool,
)
    ensures
        named_in(given_values(valued) + given(options(args)), kind) == some_option_is(
            valued,
            args,
            kind,
        ),
{
    let all = given_values(valued) + given(options(args));
    let n = valued.len() as int;
    let opts = options(args);
    let every = texts(args);
    let yes = |text: Seq<char>| is_option(text);
    if named_in(all, kind) {
        let k = choose|k: int| 0 <= k < all.len() && kind((#[trigger] all[k]).name);
        if k < n {
            assert(all[k].name == valued[k].option);
            assert(kind(valued[k].option));
        } else {
            let name = opts[k - n];
            assert(all[k].name == name);
            assert(opts.contains(name));
            every.lemma_filter_contains_rev(yes, name);
            every.lemma_filter_pred(yes, k - n);
            let j = choose|j: int| 0 <= j < every.len() && every[j] == name;
            assert(args[j].text == name);
            assert(is_option(args[j].text) && kind(args[j].text));
        }
    }
    if some_option_is(valued, args, kind) {
        if exists|k: int| 0 <= k < valued.len() && kind((#[trigger] valued[k]).option) {
            let k = choose|k: int| 0 <= k < valued.len() && kind((#[trigger] valued[k]).option);
            assert(all[k].name == valued[k].option);
            assert(kind(all[k].name));
        } else {
            let j = choose|j: int|
                0 <= j < args.len() && is_option((#[trigger] args[j]).text) && kind(args[j].text);
            assert(every[j] == args[j].text);
            every.lemma_filter_contains(yes, j);
            let k = choose|k: int| 0 <= k < opts.len() && opts[k] == every[j];
            assert(all[n + k].name == opts[k]);
            assert(kind(all[n + k].name));
        }
    }
}

proof fn lemma_letter(option: Seq<char>, letter: char)
    ensures
        crate::shell_paths::flag_in(option, letter) == has_letter(option, letter),
{
    reveal_strlit("--");
    let dashes = "--"@;
    if dashes.is_prefix_of(option) {
        assert(option.subrange(0, 2)[0] == '-' && option.subrange(0, 2)[1] == '-');
    }
    if option.len() >= 2 && option[0] == '-' && option[1] == '-' {
        assert(option.subrange(0, 2) =~= dashes);
    }
}

/// Whether an option asks for folders to be gone through.
pub open spec fn recurses() -> spec_fn(Seq<char>) -> bool {
    |option: Seq<char>|
        has_letter(option, 'r') || has_letter(option, 'R') || option == "--recursive"@
}

/// Whether an option asks for files to be edited in place, in letters or, where a
/// program has it, in full.
pub open spec fn edits_in_place(in_full: bool) -> spec_fn(Seq<char>) -> bool {
    |option: Seq<char>|
        has_letter(option, 'i') || (in_full && "--in-place"@.is_prefix_of(option))
}

pub open spec fn scripts(program: Seq<char>) -> spec_fn(Seq<char>) -> bool {
    |option: Seq<char>| gives_script(program, option)
}

/// The files a program that takes a pattern or a script first is given.
pub open spec fn files_after(program: Seq<char>, valued: Seq<Valued>, args: Seq<Spelled>) -> Seq<
    Seq<char>,
> {
    if some_option_is(valued, args, scripts(program)) || operands(args).len() == 0 {
        operands(args)
    } else {
        operands(args).skip(1)
    }
}

proof fn lemma_options_tell(program: Seq<char>, valued: Seq<Valued>, args: Seq<Spelled>)
    ensures
        ({
            let parsed = ParsedView {
                options: given_values(valued) + given(options(args)),
                operands: all_meant(operands(args)),
            };
            &&& (parsed.gives_flag('r') || parsed.gives_flag('R') || parsed.gives("--recursive"@))
                == some_option_is(valued, args, recurses())
            &&& parsed.gives_in_place(true) == some_option_is(valued, args, edits_in_place(true))
            &&& parsed.gives_in_place(false) == some_option_is(valued, args, edits_in_place(false))
            &&& parsed.operands_after_pattern(script_options(program)) == all_meant(
                files_after(program, valued, args),
            )
        }),
{
    let parsed = ParsedView {
        options: given_values(valued) + given(options(args)),
        operands: all_meant(operands(args)),
    };
    let o = parsed.options;
    lemma_named(valued, args, recurses());
    lemma_named(valued, args, edits_in_place(true));
    lemma_named(valued, args, edits_in_place(false));
    lemma_named(valued, args, scripts(program));
    lemma_tells_recursion(parsed);
    lemma_tells_place(parsed, true);
    lemma_tells_place(parsed, false);
    lemma_tells_script(parsed, program);
    if operands(args).len() > 0 {
        assert(all_meant(operands(args)).skip(1) =~= all_meant(operands(args).skip(1)));
    }
}

proof fn lemma_tells_recursion(parsed: ParsedView)
    ensures
        (parsed.gives_flag('r') || parsed.gives_flag('R') || parsed.gives("--recursive"@))
            == named_in(parsed.options, recurses()),
{
    let o = parsed.options;
    let kind = recurses();
    if named_in(o, kind) {
        let k = choose|k: int| 0 <= k < o.len() && kind((#[trigger] o[k]).name);
        lemma_letter(o[k].name, 'r');
        lemma_letter(o[k].name, 'R');
        assert(crate::shell_paths::flag_in(o[k].name, 'r') || crate::shell_paths::flag_in(
            o[k].name,
            'R',
        ) || o[k].name == "--recursive"@);
    }
    if parsed.gives_flag('r') {
        let k = choose|k: int|
            0 <= k < o.len() && crate::shell_paths::flag_in((#[trigger] o[k]).name, 'r');
        lemma_letter(o[k].name, 'r');
        assert(kind(o[k].name));
    }
    if parsed.gives_flag('R') {
        let k = choose|k: int|
            0 <= k < o.len() && crate::shell_paths::flag_in((#[trigger] o[k]).name, 'R');
        lemma_letter(o[k].name, 'R');
        assert(kind(o[k].name));
    }
    if parsed.gives("--recursive"@) {
        let k = choose|k: int| 0 <= k < o.len() && (#[trigger] o[k]).name == "--recursive"@;
        assert(kind(o[k].name));
    }
}

proof fn lemma_tells_place(parsed: ParsedView, in_full: bool)
    ensures
        parsed.gives_in_place(in_full) == named_in(parsed.options, edits_in_place(in_full)),
{
    let o = parsed.options;
    let kind = edits_in_place(in_full);
    if named_in(o, kind) {
        let k = choose|k: int| 0 <= k < o.len() && kind((#[trigger] o[k]).name);
        lemma_letter(o[k].name, 'i');
        assert(crate::shell_paths::in_place(o[k].name, in_full));
    }
    if parsed.gives_in_place(in_full) {
        let k = choose|k: int|
            0 <= k < o.len() && crate::shell_paths::in_place((#[trigger] o[k]).name, in_full);
        lemma_letter(o[k].name, 'i');
        assert(kind(o[k].name));
    }
}

proof fn lemma_tells_script(parsed: ParsedView, program: Seq<char>)
    ensures
        parsed.gives_one_of(script_options(program)) == named_in(parsed.options, scripts(program)),
{
    reveal_strlit("=");
    assert("="@ =~= seq!['=']);
    let o = parsed.options;
    let kind = scripts(program);
    let all = script_options(program);
    if named_in(o, kind) {
        let k = choose|k: int| 0 <= k < o.len() && kind((#[trigger] o[k]).name);
        let j = choose|j: int|
            0 <= j < all.len() && (o[k].name == #[trigger] all[j] || (all[j]
                + seq!['=']).is_prefix_of(o[k].name));
        assert(crate::shell_paths::names_one_of(o[k].name, all)) by {
            assert(o[k].name == all[j] || (all[j] + "="@).is_prefix_of(o[k].name));
        }
    }
    if parsed.gives_one_of(all) {
        let k = choose|k: int|
            0 <= k < o.len() && crate::shell_paths::names_one_of((#[trigger] o[k]).name, all);
        let j = choose|j: int|
            0 <= j < all.len() && (o[k].name == #[trigger] all[j] || (all[j]
                + "="@).is_prefix_of(o[k].name));
        assert(gives_script(program, o[k].name)) by {
            assert(o[k].name == all[j] || (all[j] + seq!['=']).is_prefix_of(o[k].name));
        }
        assert(kind(o[k].name));
    }
}

/// The value an option was given first.
pub open spec fn value_given(valued: Seq<Valued>, option: Seq<char>) -> Option<Seq<char>>
    decreases valued.len(),
{
    if valued.len() == 0 {
        None
    } else if valued[0].option == option {
        Some(valued[0].value.text)
    } else {
        value_given(valued.skip(1), option)
    }
}

proof fn lemma_value_from(
    valued: Seq<Valued>,
    args: Seq<Spelled>,
    option: Seq<char>,
    parsed: ParsedView,
    i: int,
)
    requires
        parsed.options == given_values(valued) + given(options(args)),
        forall|k: int| 0 <= k < args.len() ==> (#[trigger] args[k]).text != option,
        0 <= i <= valued.len(),
    ensures
        parsed.value_from(option, i) == (match value_given(valued.skip(i), option) {
            Some(text) => Some(meant(text)),
            None => None,
        }),
    decreases valued.len() - i,
{
    let n = valued.len() as int;
    if i < n {
        assert(parsed.options[i].name == valued[i].option);
        assert(valued.skip(i)[0] == valued[i]);
        assert(valued.skip(i).skip(1) =~= valued.skip(i + 1));
        lemma_value_from(valued, args, option, parsed, i + 1);
    } else {
        assert(valued.skip(i).len() == 0);
        lemma_no_value(valued, args, option, parsed, i);
    }
}

proof fn lemma_no_value(
    valued: Seq<Valued>,
    args: Seq<Spelled>,
    option: Seq<char>,
    parsed: ParsedView,
    i: int,
)
    requires
        parsed.options == given_values(valued) + given(options(args)),
        forall|k: int| 0 <= k < args.len() ==> (#[trigger] args[k]).text != option,
        valued.len() <= i <= parsed.options.len(),
    ensures
        parsed.value_from(option, i) is None,
    decreases parsed.options.len() - i,
{
    if i < parsed.options.len() {
        let opts = options(args);
        let every = texts(args);
        let yes = |text: Seq<char>| is_option(text);
        let name = opts[i - valued.len()];
        assert(parsed.options[i].name == name);
        assert(opts.contains(name));
        every.lemma_filter_contains_rev(yes, name);
        let j = choose|j: int| 0 <= j < every.len() && every[j] == name;
        assert(args[j].text == name);
        lemma_no_value(valued, args, option, parsed, i + 1);
    }
}

pub proof fn lemma_value_of(
    program: Seq<char>,
    valued: Seq<Valued>,
    args: Seq<Spelled>,
    option: Seq<char>,
    parsed: ParsedView,
)
    requires
        proper(program, valued, args),
        valued_options(program).contains(option),
        parsed.options == given_values(valued) + given(options(args)),
    ensures
        parsed.value_of(option) == (match value_given(valued, option) {
            Some(text) => Some(meant(text)),
            None => None,
        }),
        value_given(valued, option) is Some ==> value_given(valued, option)->0.len() > 0,
{
    assert forall|k: int| 0 <= k < args.len() implies (#[trigger] args[k]).text != option by {
        assert(!valued_options(program).contains(args[k].text));
    }
    lemma_value_from(valued, args, option, parsed, 0);
    assert(valued.skip(0) =~= valued);
    lemma_value_not_empty(program, valued, args, option);
}

proof fn lemma_value_not_empty(
    program: Seq<char>,
    valued: Seq<Valued>,
    args: Seq<Spelled>,
    option: Seq<char>,
)
    requires
        proper(program, valued, args),
    ensures
        value_given(valued, option) is Some ==> value_given(valued, option)->0.len() > 0,
    decreases valued.len(),
{
    if valued.len() > 0 {
        assert(valued[0].value.plain());
        let rest = valued.skip(1);
        assert forall|k: int| 0 <= k < rest.len() implies valued_options(program).contains(
            (#[trigger] rest[k]).option,
        ) && rest[k].value.plain() by {
            assert(rest[k] == valued[k + 1]);
        }
        lemma_value_not_empty(program, rest, args, option);
    }
}

// ---------------------------------------------------------------------------
// Searches
// ---------------------------------------------------------------------------

proof fn lemma_after_not_empty(program: Seq<char>, valued: Seq<Valued>, args: Seq<Spelled>)
    requires
        not_empty(operands(args)),
    ensures
        not_empty(files_after(program, valued, args)),
{
    let ops = operands(args);
    let rest = files_after(program, valued, args);
    assert forall|k: int| 0 <= k < rest.len() implies (#[trigger] rest[k]).len() > 0 by {
        if rest.len() < ops.len() {
            assert(rest[k] == ops[k + 1]);
        } else {
            assert(rest[k] == ops[k]);
        }
    }
}

/// What a search of words works on: the files they name, and, where it goes through
/// folders, the folders they name, or the folder it is in where there are none.
pub open spec fn searches(
    all: Seq<Seq<char>>,
    recursive: bool,
    dir: Seq<char>,
    listing: ListingView,
) -> ShellPathsView {
    ShellPathsView {
        files: all.filter_map(file_named(dir, listing, false)),
        scopes: if !recursive {
            seq![]
        } else if all.len() == 0 {
            seq![ScopeView { dir, base: dir }]
        } else {
            all.filter_map(folder_named(dir, listing))
        },
    }
}

proof fn lemma_searched(
    all: Seq<Seq<char>>,
    recursive: bool,
    dir: Seq<char>,
    listing: ListingView,
)
    requires
        not_empty(all),
    ensures
        settled(started(dir).searched(all_meant(all), recursive).finds, listing) == searches(
            all,
            recursive,
            dir,
            listing,
        ),
{
    lemma_read_all(all, recursive, dir, listing);
    let done = started(dir).searched(all_meant(all), recursive);
    if all.len() == 0 {
        assert(all.filter_map(file_named(dir, listing, false)) =~= seq![]);
        if recursive {
            reveal_with_fuel(settled, 2);
            assert(done.finds =~= seq![FindView::Scope(ScopeView { dir, base: dir })]);
            assert(done.finds.drop_last() =~= Seq::<FindView>::empty());
            assert(settled(done.finds, listing).scopes =~= seq![ScopeView { dir, base: dir }]);
        }
    }
    assert(settled(done.finds, listing) =~= searches(all, recursive, dir, listing));
}

/// `grep` and its like read the files after their pattern, and go through the
/// folders among them where they are asked to.
pub proof fn a_search_goes_through_what_comes_after_its_pattern(
    program: Seq<char>,
    valued: Seq<Valued>,
    args: Seq<Spelled>,
    dir: Seq<char>,
    listing: ListingView,
)
    requires
        program == "grep"@ || program == "egrep"@ || program == "fgrep"@ || program == "rg"@
            || program == "ag"@,
        proper(program, valued, args),
    ensures
        works_on(line(program, laid(valued, args)), dir, listing) == searches(
            files_after(program, valued, args),
            program == "rg"@ || program == "ag"@ || some_option_is(valued, args, recurses()),
            dir,
            listing,
        ),
{
    lemma_parsed_line(program, valued, args, dir);
    lemma_options_tell(program, valued, args);
    lemma_after_not_empty(program, valued, args);
    lemma_spelling();
    let recursive = program == "rg"@ || program == "ag"@ || some_option_is(
        valued,
        args,
        recurses(),
    );
    lemma_searched(files_after(program, valued, args), recursive, dir, listing);
}

/// `find` goes through what it is given before its first test, or the folder it is
/// in.
pub proof fn find_goes_through_its_folders(
    starts: Seq<Spelled>,
    tests: Seq<Spelled>,
    dir: Seq<char>,
    listing: ListingView,
)
    requires
        all_plain(starts),
        all_plain(tests),
        forall|k: int|
            0 <= k < starts.len() ==> (#[trigger] starts[k]).text[0] != '-' && starts[k].text[0]
                != '(' && starts[k].text[0] != '!',
        tests.len() > 0 ==> tests[0].text[0] == '-' || tests[0].text[0] == '(' || tests[0].text[0]
            == '!',
    ensures
        works_on(line("find"@, starts + tests), dir, listing) == searches(
            texts(starts),
            true,
            dir,
            listing,
        ),
{
    lemma_spelling();
    let program = "find"@;
    let args = starts + tests;
    lemma_known_program(program);
    assert forall|k: int| 0 <= k < args.len() implies (#[trigger] args[k]).plain() by {
        if k < starts.len() {
            assert(args[k] == starts[k]);
        } else {
            assert(args[k] == tests[k - starts.len()]);
        }
    }
    lemma_line(program, args, dir);
    let words = all_meant(texts(args));
    lemma_starts(starts, tests, 0);
    assert(words.take(starts.len() as int) =~= all_meant(texts(starts)));
    let all = texts(starts);
    assert forall|k: int| 0 <= k < all.len() implies (#[trigger] all[k]).len() > 0 by {
        assert(starts[k].plain());
    }
    lemma_searched(all, true, dir, listing);
}

proof fn lemma_starts(starts: Seq<Spelled>, tests: Seq<Spelled>, i: int)
    requires
        all_plain(starts),
        all_plain(tests),
        0 <= i <= starts.len(),
        forall|k: int|
            0 <= k < starts.len() ==> (#[trigger] starts[k]).text[0] != '-' && starts[k].text[0]
                != '(' && starts[k].text[0] != '!',
        tests.len() > 0 ==> tests[0].text[0] == '-' || tests[0].text[0] == '(' || tests[0].text[0]
            == '!',
    ensures
        crate::shell_paths::starts_end(all_meant(texts(starts + tests)), i) == starts.len(),
    decreases starts.len() - i,
{
    let words = all_meant(texts(starts + tests));
    if i < starts.len() {
        assert(words[i].text == starts[i].text);
        lemma_starts(starts, tests, i + 1);
    } else if tests.len() > 0 {
        assert(words[i].text == tests[0].text);
        assert(tests[0].plain());
    }
}

// ---------------------------------------------------------------------------
// Edits
// ---------------------------------------------------------------------------

proof fn lemma_edited(all: Seq<Seq<char>>, dir: Seq<char>, listing: ListingView)
    requires
        not_empty(all),
    ensures
        ({
            let done = started(dir).edit_each(all_meant(all));
            let r = settled(done.finds, listing);
            &&& done.cwd == Some(dir)
            &&& r.files == all.filter_map(file_named(dir, listing, true))
            &&& r.scopes == Seq::<ScopeView>::empty()
        }),
    decreases all.len(),
{
    if all.len() > 0 {
        let rest = all.drop_last();
        assert forall|k: int| 0 <= k < rest.len() implies (#[trigger] rest[k]).len() > 0 by {
            assert(rest[k] == all[k]);
        }
        lemma_edited(rest, dir, listing);
        assert(all_meant(all).drop_last() =~= all_meant(rest));
        assert(all[all.len() - 1].len() > 0);
        let before = started(dir).edit_each(all_meant(rest));
        let done = started(dir).edit_each(all_meant(all));
        assert(done.finds.drop_last() =~= before.finds);
    }
}

/// `sed` reads the files after its script, or edits them where it is to edit in
/// place; so does `awk`, to which `-i inplace` says so. `perl` works on files only to
/// edit them in place. `jq` and `yq` read them.
pub proof fn files_after_a_script_are_read_or_edited(
    program: Seq<char>,
    valued: Seq<Valued>,
    args: Seq<Spelled>,
    dir: Seq<char>,
    listing: ListingView,
)
    requires
        program == "sed"@ || program == "awk"@ || program == "gawk"@ || program == "perl"@
            || program == "jq"@ || program == "yq"@,
        proper(program, valued, args),
    ensures
        ({
            let all = files_after(program, valued, args);
            let r = works_on(line(program, laid(valued, args)), dir, listing);
            let edits = if program == "sed"@ {
                some_option_is(valued, args, edits_in_place(true))
            } else if program == "awk"@ || program == "gawk"@ {
                value_given(valued, "-i"@) == Some("inplace"@)
            } else if program == "perl"@ {
                some_option_is(valued, args, edits_in_place(false))
            } else {
                false
            };
            &&& r.scopes.len() == 0
            &&& r.files == if program == "perl"@ && !edits {
                seq![]
            } else {
                all.filter_map(file_named(dir, listing, edits))
            }
        }),
{
    lemma_parsed_line(program, valued, args, dir);
    lemma_options_tell(program, valued, args);
    lemma_after_not_empty(program, valued, args);
    lemma_spelling();
    let all = files_after(program, valued, args);
    lemma_edited(all, dir, listing);
    lemma_read_all(all, false, dir, listing);
    let parsed = ParsedView {
        options: given_values(valued) + given(options(args)),
        operands: all_meant(operands(args)),
    };
    if program == "awk"@ || program == "gawk"@ {
        assert(valued_options(program)[4] == "-i"@);
        lemma_value_of(program, valued, args, "-i"@, parsed);
    }
}

// ---------------------------------------------------------------------------
// Files written
// ---------------------------------------------------------------------------

proof fn lemma_written_all(all: Seq<Seq<char>>, dir: Seq<char>, listing: ListingView)
    requires
        not_empty(all),
    ensures
        ({
            let done = started(dir).write_each(all_meant(all));
            let r = settled(done.finds, listing);
            &&& done.cwd == Some(dir)
            &&& r.files == all.filter_map(target_named(dir))
            &&& r.scopes == Seq::<ScopeView>::empty()
        }),
    decreases all.len(),
{
    if all.len() > 0 {
        let rest = all.drop_last();
        assert forall|k: int| 0 <= k < rest.len() implies (#[trigger] rest[k]).len() > 0 by {
            assert(rest[k] == all[k]);
        }
        lemma_written_all(rest, dir, listing);
        assert(all_meant(all).drop_last() =~= all_meant(rest));
        assert(all[all.len() - 1].len() > 0);
        let before = started(dir).write_each(all_meant(rest));
        let done = started(dir).write_each(all_meant(all));
        if !within(path_meant(dir, all.last()), "/dev"@) {
            assert(done.finds.drop_last() =~= before.finds);
        }
    }
}

/// `tee` writes every file it is given, there or not, but devices.
pub proof fn tee_writes_each_file(
    args: Seq<Spelled>,
    dir: Seq<char>,
    listing: ListingView,
)
    requires
        all_plain(args),
        options_alone(args, seq![]),
    ensures
        works_on(line("tee"@, args), dir, listing).files == operands(args).filter_map(
            target_named(dir),
        ),
        works_on(line("tee"@, args), dir, listing).scopes.len() == 0,
{
    lemma_spelling();
    let none = Seq::<Valued>::empty();
    lemma_parsed_line("tee"@, none, args, dir);
    lemma_written_all(operands(args), dir, listing);
}

/// `diff` reads the files it is given, and takes in the folders. `sort` reads its
/// files, and writes what `-o` names.
pub proof fn files_compared_or_sorted_are_read(
    program: Seq<char>,
    valued: Seq<Valued>,
    args: Seq<Spelled>,
    dir: Seq<char>,
    listing: ListingView,
)
    requires
        program == "diff"@ || program == "sort"@,
        proper(program, valued, args),
    ensures
        ({
            let r = works_on(line(program, laid(valued, args)), dir, listing);
            let read = operands(args).filter_map(file_named(dir, listing, false));
            if program == "diff"@ {
                r.files == read && r.scopes == operands(args).filter_map(
                    folder_named(dir, listing),
                )
            } else {
                r.scopes.len() == 0 && r.files == read + (match value_given(valued, "-o"@) {
                    Some(target) => if within(path_meant(dir, target), "/dev"@) {
                        seq![]
                    } else {
                        seq![(path_meant(dir, target), true)]
                    },
                    None => seq![],
                })
            }
        }),
{
    lemma_parsed_line(program, valued, args, dir);
    lemma_spelling();
    let all = operands(args);
    lemma_read_all(all, program == "diff"@, dir, listing);
    let parsed = ParsedView {
        options: given_values(valued) + given(options(args)),
        operands: all_meant(operands(args)),
    };
    if program == "sort"@ {
        assert(valued_options(program)[2] == "-o"@);
        lemma_value_of(program, valued, args, "-o"@, parsed);
        let read = started(dir).read_each(all_meant(all), false);
        let done = read.written(parsed.value_of("-o"@));
        let files = settled(read.finds, listing).files;
        if done.finds.len() > read.finds.len() {
            assert(done.finds.drop_last() =~= read.finds);
        }
        assert(files + Seq::<(Seq<char>, bool)>::empty() =~= files);
        assert(value_given(valued, "-o"@) is Some && !within(
            path_meant(dir, value_given(valued, "-o"@)->0),
            "/dev"@,
        ) ==> settled(done.finds, listing).files =~= files + seq![
            (path_meant(dir, value_given(valued, "-o"@)->0), true),
        ]);
    }
}

} // verus!
