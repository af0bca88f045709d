//! What holds of how commands are read beside plain words: comments, here-documents,
//! patterns, variables and escapes.
use vstd::prelude::*;
use crate::chain_laws::lemma_spoken_plain;
use crate::command_laws::{all_plain, bare, lemma_word_read, lemma_words_read, meant, path_meant,
    spoken, stands_for_itself, start, started, word_tokens, Quotes, Spelled};
use crate::paths::join_path;
use crate::shell::{body_end, closes, next_line, HeredocView};
use crate::shell_lines::{after, lemma_lex_shift, lemma_word_shift};
use crate::shell_paths::{found_in, FindView, ScopeView};
use crate::shell_words::{ends_word, lemma_lex_next_advances, lex, lex_next, no_word, tokenized,
    word_at, word_from, Lexed, TokenView, WordView};
use crate::text::{group_runs, lemma_run_end_is, run_end, run_start, Class};

verus! {

// ---------------------------------------------------------------------------
// Comments
// ---------------------------------------------------------------------------

proof fn lemma_comment_read(text: Seq<char>)
    requires
        forall|k: int| 0 <= k < text.len() ==> #[trigger] text[k] != '\n',
    ensures
        tokenized(seq![' ', '#'] + text) == Seq::<TokenView>::empty(),
{
    let s = seq![' ', '#'] + text;
    let n = s.len() as int;
    assert(s[0] == ' ' && s[1] == '#');
    let first = Lexed { i: 1, ..start() };
    assert(lex_next(s, start()) =~= first);
    lemma_lex_next_advances(s, start());
    assert forall|k: int| 1 <= k < n implies Class::Not('\n').has(#[trigger] s[k]) by {
        if k > 1 {
            assert(s[k] == text[k - 2]);
        }
    }
    lemma_run_end_is(s, Class::Not('\n'), 1, n);
    let last = Lexed { i: n, ..start() };
    assert(lex_next(s, first) =~= last);
    lemma_lex_next_advances(s, first);
    assert(lex(s, last) == last.tokens);
    assert(lex(s, first) == lex(s, last));
    assert(lex(s, start()) == lex(s, first));
}

/// A comment after a command makes no difference to what it works on, whatever it
/// says.
pub proof fn a_comment_is_passed_over(words: Seq<Spelled>, text: Seq<char>, dir: Seq<char>)
    requires
        words.len() > 0,
        all_plain(words),
        forall|k: int| 0 <= k < text.len() ==> #[trigger] text[k] != '\n',
    ensures
        found_in(spoken(words) + (seq![' ', '#'] + text), dir) == found_in(spoken(words), dir),
{
    let tail = seq![' ', '#'] + text;
    assert(tail[0] == ' ');
    lemma_words_read(words, tail);
    lemma_comment_read(text);
    lemma_spoken_plain(words, dir);
    assert(word_tokens(words) + Seq::<TokenView>::empty() =~= word_tokens(words));
}

// ---------------------------------------------------------------------------
// Here-documents
// ---------------------------------------------------------------------------

/// Lines, each with the line break that ends it.
pub open spec fn body_of(lines: Seq<Seq<char>>) -> Seq<char>
    decreases lines.len(),
{
    if lines.len() == 0 {
        seq![]
    } else {
        lines[0] + seq!['\n'] + body_of(lines.skip(1))
    }
}

/// Whether lines are those of a here-document's body: none of them is its delimiter.
pub open spec fn in_body(lines: Seq<Seq<char>>, delimiter: Seq<char>) -> bool {
    forall|k: int|
        0 <= k < lines.len() ==> #[trigger] lines[k] != delimiter && !lines[k].contains('\n')
}

proof fn lemma_line_at(s: Seq<char>, i: int, text: Seq<char>)
    requires
        0 <= i,
        i + text.len() < s.len(),
        s.subrange(i, i + text.len()) == text,
        s[i + text.len()] == '\n',
        !text.contains('\n'),
    ensures
        run_end(s, Class::Not('\n'), i) == i + text.len(),
        next_line(s, i) == i + text.len() + 1,
{
    let n = text.len() as int;
    assert forall|k: int| i <= k < i + n implies Class::Not('\n').has(#[trigger] s[k]) by {
        assert(s.subrange(i, i + n)[k - i] == text[k - i]);
        assert(text.contains(text[k - i]));
    }
    lemma_run_end_is(s, Class::Not('\n'), i, i + n);
}

/// A here-document's body ends after the first line that is its delimiter.
pub proof fn a_body_ends_after_its_delimiter(
    s: Seq<char>,
    i: int,
    lines: Seq<Seq<char>>,
    delimiter: Seq<char>,
    rest: Seq<char>,
)
    requires
        0 <= i <= s.len(),
        s.skip(i) == body_of(lines) + delimiter + seq!['\n'] + rest,
        in_body(lines, delimiter),
        !delimiter.contains('\n'),
    ensures
        body_end(s, i, HeredocView { delimiter, strip_tabs: false }) == i + body_of(lines).len()
            + delimiter.len() + 1,
    decreases lines.len(),
{
    let heredoc = HeredocView { delimiter, strip_tabs: false };
    let all = s.skip(i);
    assert(all.len() == s.len() - i);
    if lines.len() == 0 {
        let n = delimiter.len() as int;
        assert(s.subrange(i, i + n) =~= all.subrange(0, n));
        assert(all.subrange(0, n) =~= delimiter);
        assert(s[i + n] == all[n]);
        lemma_line_at(s, i, delimiter);
        assert(closes(s.subrange(i, run_end(s, Class::Not('\n'), i)), heredoc));
    } else {
        let line = lines[0];
        let less = lines.skip(1);
        let n = line.len() as int;
        assert(line != delimiter && !line.contains('\n'));
        assert(s.subrange(i, i + n) =~= all.subrange(0, n));
        assert(all.subrange(0, n) =~= line);
        assert(s[i + n] == all[n]);
        lemma_line_at(s, i, line);
        assert(!closes(s.subrange(i, run_end(s, Class::Not('\n'), i)), heredoc));
        assert forall|k: int| 0 <= k < less.len() implies #[trigger] less[k] != delimiter
            && !less[k].contains('\n') by {
            assert(less[k] == lines[k + 1]);
        }
        assert(s.skip(i + n + 1) =~= all.skip(n + 1));
        assert(all.skip(n + 1) =~= body_of(less) + delimiter + seq!['\n'] + rest);
        a_body_ends_after_its_delimiter(s, i + n + 1, less, delimiter, rest);
    }
}

/// One whose tabs are stripped ends after the first line that is its delimiter with
/// tabs before it, or none.
pub proof fn a_stripped_body_ends_after_its_delimiter(
    s: Seq<char>,
    i: int,
    lines: Seq<Seq<char>>,
    tabs: nat,
    delimiter: Seq<char>,
    rest: Seq<char>,
)
    requires
        0 <= i <= s.len(),
        s.skip(i) == body_of(lines) + (crate::text::repeat('\t', tabs) + delimiter) + seq!['\n']
            + rest,
        forall|k: int|
            0 <= k < lines.len() ==> untabbed(#[trigger] lines[k]) != delimiter
                && !lines[k].contains('\n'),
        !delimiter.contains('\n'),
        delimiter.len() > 0,
        delimiter[0] != '\t',
    ensures
        body_end(s, i, HeredocView { delimiter, strip_tabs: true }) == i + body_of(lines).len()
            + tabs + delimiter.len() + 1,
    decreases lines.len(),
{
    let heredoc = HeredocView { delimiter, strip_tabs: true };
    let all = s.skip(i);
    let last = crate::text::repeat('\t', tabs) + delimiter;
    assert(all.len() == s.len() - i);
    if lines.len() == 0 {
        let n = last.len() as int;
        assert(s.subrange(i, i + n) =~= all.subrange(0, n));
        assert(all.subrange(0, n) =~= last);
        assert(s[i + n] == all[n]);
        assert(!last.contains('\n')) by {
            if last.contains('\n') {
                let k = choose|k: int| 0 <= k < last.len() && last[k] == '\n';
                assert(k >= tabs);
                assert(delimiter.contains(delimiter[k - tabs]));
            }
        }
        lemma_line_at(s, i, last);
        assert forall|k: int| 0 <= k < tabs implies Class::Is('\t').has(#[trigger] last[k]) by {}
        assert(last[tabs as int] == delimiter[0]);
        lemma_run_end_is(last, Class::Is('\t'), 0, tabs as int);
        assert(untabbed(last) =~= delimiter);
        assert(closes(s.subrange(i, run_end(s, Class::Not('\n'), i)), heredoc));
    } else {
        let line = lines[0];
        let less = lines.skip(1);
        let n = line.len() as int;
        assert(untabbed(line) != delimiter && !line.contains('\n'));
        assert(s.subrange(i, i + n) =~= all.subrange(0, n));
        assert(all.subrange(0, n) =~= line);
        assert(s[i + n] == all[n]);
        lemma_line_at(s, i, line);
        assert(!closes(s.subrange(i, run_end(s, Class::Not('\n'), i)), heredoc));
        assert forall|k: int| 0 <= k < less.len() implies untabbed(#[trigger] less[k]) != delimiter
            && !less[k].contains('\n') by {
            assert(less[k] == lines[k + 1]);
        }
        assert(s.skip(i + n + 1) =~= all.skip(n + 1));
        assert(all.skip(n + 1) =~= body_of(less) + last + seq!['\n'] + rest);
        a_stripped_body_ends_after_its_delimiter(s, i + n + 1, less, tabs, delimiter, rest);
    }
}

/// A line without the tabs it starts with.
pub open spec fn untabbed(line: Seq<char>) -> Seq<char> {
    line.skip(run_end(line, Class::Is('\t'), 0))
}

proof fn lemma_heredoc_read(
    delimiter: Seq<char>,
    lines: Seq<Seq<char>>,
    rest: Seq<char>,
)
    requires
        bare(delimiter),
        delimiter[0] != '-',
        !Class::Digit.has(delimiter[0]),
        in_body(lines, delimiter),
    ensures
        tokenized(
            seq!['<', '<'] + delimiter + seq!['\n'] + (body_of(lines) + delimiter + seq!['\n']
                + rest),
        ) == seq![TokenView::Break] + tokenized(rest),
{
    let tail = body_of(lines) + delimiter + seq!['\n'] + rest;
    let s = seq!['<', '<'] + delimiter + seq!['\n'] + tail;
    let n = delimiter.len() as int;
    let p = seq!['<', '<'];
    let b = delimiter + (seq!['\n'] + tail);
    assert(s =~= p + b);
    assert(s[0] == '<' && s[1] == '<' && s[2] == delimiter[0]);
    assert(stands_for_itself(delimiter[0]));
    let one = Lexed { i: 2, delimiter_next: Some(false), ..start() };
    assert(lex_next(s, start()) =~= one);
    lemma_lex_next_advances(s, start());
    let word = Spelled { text: delimiter, quotes: Quotes::Bare };
    assert(word.plain());
    let after_word = seq!['\n'] + tail;
    assert(after_word[0] == '\n');
    lemma_word_read(word, after_word);
    assert(word.written() + after_word =~= b);
    lemma_word_shift(p, b, 0, 0, no_word());
    assert(word_at(s, 2) == (meant(delimiter), 2 + n));
    let heredoc = HeredocView { delimiter, strip_tabs: false };
    let two = Lexed { i: 2 + n, heredocs: seq![heredoc], ..start() };
    lemma_no_digits(s, 2);
    assert(lex_next(s, one) =~= two) by {
        assert(start().heredocs.push(heredoc) =~= seq![heredoc]);
    }
    lemma_lex_next_advances(s, one);
    assert(s[2 + n] == '\n');
    assert(s.skip(3 + n) =~= tail);
    assert(!delimiter.contains('\n')) by {
        if delimiter.contains('\n') {
            let k = choose|k: int| 0 <= k < delimiter.len() && delimiter[k] == '\n';
            assert(stands_for_itself(delimiter[k]));
        }
    }
    a_body_ends_after_its_delimiter(s, 3 + n, lines, delimiter, rest);
    let end = 3 + n + body_of(lines).len() + n + 1;
    lemma_one_body(s, 3 + n, heredoc);
    let read = s.take(end);
    assert(s =~= read + rest);
    let had = seq![TokenView::Break];
    assert(lex_next(s, two) =~= after(read, had, start()));
    lemma_lex_next_advances(s, two);
    lemma_lex_shift(read, had, rest, start());
    assert(lex(s, start()) == lex(s, one));
    assert(lex(s, one) == lex(s, two));
    assert(lex(s, two) == lex(s, lex_next(s, two)));
}

proof fn lemma_one_body(s: Seq<char>, i: int, heredoc: HeredocView)
    ensures
        crate::shell::bodies_end(s, i, seq![heredoc]) == body_end(s, i, heredoc),
{
    reveal_with_fuel(crate::shell::bodies_end, 2);
    assert(seq![heredoc].skip(1) =~= Seq::<HeredocView>::empty());
}

proof fn lemma_no_digits(s: Seq<char>, i: int)
    requires
        0 <= i < s.len(),
        !Class::Digit.has(s[i]),
    ensures
        run_end(s, Class::Digit, i) == i,
{
}

/// What is in a here-document is no command: what comes after it works on what it works
/// on by itself, after what the command it is for works on.
pub proof fn a_heredocs_body_is_no_command(
    words: Seq<Spelled>,
    delimiter: Seq<char>,
    lines: Seq<Seq<char>>,
    rest: Seq<char>,
)
    requires
        words.len() > 0,
        all_plain(words),
        bare(delimiter),
        delimiter[0] != '-',
        !Class::Digit.has(delimiter[0]),
        in_body(lines, delimiter),
    ensures
        tokenized(
            spoken(words) + seq![' ', '<', '<'] + delimiter + seq!['\n'] + (body_of(lines)
                + delimiter + seq!['\n'] + rest),
        ) == tokenized(spoken(words) + seq!['\n'] + rest),
{
    let tail = body_of(lines) + delimiter + seq!['\n'] + rest;
    let inner = seq!['<', '<'] + delimiter + seq!['\n'] + tail;
    let spaced = seq![' '] + inner;
    lemma_heredoc_read(delimiter, lines, rest);
    crate::command_laws::lemma_space(inner);
    assert(spaced[0] == ' ');
    lemma_words_read(words, spaced);
    assert(spoken(words) + seq![' ', '<', '<'] + delimiter + seq!['\n'] + tail =~= spoken(words)
        + spaced);
    let next = seq!['\n'] + rest;
    assert(next[0] == '\n');
    lemma_words_read(words, next);
    assert(spoken(words) + seq!['\n'] + rest =~= spoken(words) + next);
    lemma_line_break(rest);
}

proof fn lemma_line_break(rest: Seq<char>)
    ensures
        tokenized(seq!['\n'] + rest) == seq![TokenView::Break] + tokenized(rest),
{
    let p = seq!['\n'];
    let s = p + rest;
    let had = seq![TokenView::Break];
    assert(crate::shell::bodies_end(s, 1, Seq::<HeredocView>::empty()) == 1);
    assert(lex_next(s, start()) =~= after(p, had, start()));
    lemma_lex_next_advances(s, start());
    lemma_lex_shift(p, had, rest, start());
}

// ---------------------------------------------------------------------------
// Words that are not plain
// ---------------------------------------------------------------------------

/// A word read by itself, with nothing after it.
proof fn lemma_word_alone(s: Seq<char>, word: WordView)
    requires
        s.len() > 0,
        word_at(s, 0) == (word, s.len() as int),
        !ends_word(s[0]) && s[0] != '#' && !Class::Digit.has(s[0]),
        !(s[0] == '\\' && s.len() > 1 && s[1] == '\n'),
    ensures
        tokenized(s) == seq![TokenView::Word(word)],
{
    lemma_no_digits(s, 0);
    let none = Seq::<char>::empty();
    let had = seq![TokenView::Word(word)];
    assert(lex_next(s, start()) =~= after(s, had, start()));
    lemma_lex_next_advances(s, start());
    lemma_lex_shift(s, had, none, start());
    assert(s + none =~= s);
    crate::command_laws::lemma_nothing_read();
    assert(had + Seq::<TokenView>::empty() =~= had);
}

/// A variable's value is not known.
pub proof fn a_variable_is_not_known(name: Seq<char>)
    requires
        name.len() > 0,
        forall|k: int| 0 <= k < name.len() ==> crate::text::name_char(#[trigger] name[k]),
    ensures
        tokenized(seq!['$'] + name) == seq![
            TokenView::Word(WordView { text: seq![], known: false, pattern: false }),
        ],
{
    let s = seq!['$'] + name;
    let n = s.len() as int;
    assert(s[0] == '$' && s[1] == name[0]);
    assert(crate::text::name_char(name[0]));
    assert forall|k: int| 1 <= k < n implies Class::Name.has(#[trigger] s[k]) by {
        assert(s[k] == name[k - 1]);
    }
    lemma_run_end_is(s, Class::Name, 1, n);
    let word = WordView { text: seq![], known: false, pattern: false };
    assert(crate::shell_words::unknown(no_word()) =~= word);
    assert(word_from(s, 0, n, word) == (word, n));
    lemma_name_is_no_mark(name[0]);
    assert(crate::shell_words::substitution_end(s, 0) == n);
    assert(crate::shell_words::substitutes(s, 0, false));
    assert(word_at(s, 0) == word_from(s, 0, n, word));
    lemma_word_alone(s, word);
}

proof fn lemma_name_is_no_mark(c: char)
    requires
        crate::text::name_char(c),
    ensures
        c != '(' && c != '{' && c != '\'' && c != '"',
{
}

/// A home directory is not known, whatever comes after it.
pub proof fn a_home_directory_is_not_known(rest: Seq<char>)
    requires
        forall|k: int| 0 <= k < rest.len() ==> stands_for_itself(#[trigger] rest[k]),
    ensures
        tokenized(seq!['~'] + rest) == seq![
            TokenView::Word(WordView { text: rest, known: false, pattern: false }),
        ],
{
    let s = seq!['~'] + rest;
    let n = s.len() as int;
    assert(s[0] == '~');
    let word = WordView { text: seq![], known: false, pattern: false };
    assert(crate::shell_words::unknown(no_word()) =~= word);
    assert forall|k: int| 1 <= k < n implies stands_for_itself(#[trigger] s[k]) by {
        assert(s[k] == rest[k - 1]);
    }
    crate::command_laws::lemma_bare_from(s, 0, 1, n, word);
    assert(word.text + s.subrange(1, n) =~= rest);
    assert(word_at(s, 0) == word_from(s, 0, 1, word));
    lemma_word_alone(s, WordView { text: rest, known: false, pattern: false });
}

/// A character after a backslash stands for itself, whatever it is.
pub proof fn an_escaped_character_stands_for_itself(
    before: Seq<char>,
    c: char,
    rest: Seq<char>,
)
    requires
        bare(before),
        !Class::Digit.has(before[0]),
        c != '\n',
        forall|k: int| 0 <= k < rest.len() ==> stands_for_itself(#[trigger] rest[k]),
    ensures
        tokenized(before + seq!['\\', c] + rest) == seq![
            TokenView::Word(meant(before + seq![c] + rest)),
        ],
{
    let s = before + seq!['\\', c] + rest;
    let n = s.len() as int;
    let m = before.len() as int;
    assert(s[m] == '\\' && s[m + 1] == c);
    assert(s[0] == before[0]);
    assert(stands_for_itself(before[0]));
    assert forall|k: int| 0 <= k < m implies stands_for_itself(#[trigger] s[k]) by {
        assert(s[k] == before[k]);
    }
    assert forall|k: int| m + 2 <= k < n implies stands_for_itself(#[trigger] s[k]) by {
        assert(s[k] == rest[k - m - 2]);
    }
    let read = meant(before);
    lemma_copied_from(s, 0, m, no_word());
    assert(no_word().text + s.subrange(0, m) =~= before);
    let more = crate::shell_words::with_char(read, c);
    assert(word_from(s, 0, m, read) == word_from(s, 0, m + 2, more));
    crate::command_laws::lemma_bare_from(s, 0, m + 2, n, more);
    assert(more.text + s.subrange(m + 2, n) =~= before + seq![c] + rest);
    lemma_word_alone(s, meant(before + seq![c] + rest));
}

/// What stands for itself is read up to where it does.
proof fn lemma_copied_from(s: Seq<char>, i: int, end: int, word: WordView)
    requires
        0 <= i <= end < s.len(),
        forall|k: int| i <= k < end ==> stands_for_itself(#[trigger] s[k]),
        i == 0 && i < end ==> s[i] != '~',
    ensures
        word_from(s, 0, i, word) == word_from(
            s,
            0,
            end,
            (WordView { text: word.text + s.subrange(i, end), ..word }),
        ),
    decreases end - i,
{
    if i < end {
        assert(stands_for_itself(s[i]));
        let more = crate::shell_words::with_char(word, s[i]);
        lemma_copied_from(s, i + 1, end, more);
        assert(more.text + s.subrange(i + 1, end) =~= word.text + s.subrange(i, end));
    } else {
        assert(word.text + s.subrange(i, end) =~= word.text);
    }
}

/// Whether a character is one of a pattern's.
pub open spec fn wild(c: char) -> bool {
    c == '*' || c == '?' || c == '[' || c == '{'
}

proof fn lemma_wild_from(s: Seq<char>, i: int, word: WordView)
    requires
        0 < i <= s.len(),
        forall|k: int| i <= k < s.len() ==> stands_for_itself(#[trigger] s[k]) || wild(s[k]),
        word.pattern,
    ensures
        word_from(s, 0, i, word) == (
            WordView { text: word.text + s.skip(i), ..word },
            s.len() as int,
        ),
    decreases s.len() - i,
{
    if i < s.len() {
        assert(stands_for_itself(s[i]) || wild(s[i]));
        let more = crate::shell_words::with_char(word, s[i]);
        assert(WordView { pattern: true, ..more } =~= more);
        lemma_wild_from(s, i + 1, more);
        assert(more.text + s.skip(i + 1) =~= word.text + s.skip(i));
    } else {
        assert(word.text + s.skip(i) =~= word.text);
    }
}

/// A word with a `*`, a `?`, a `[` or a `{` in it is a pattern, and known as it is
/// written.
pub proof fn a_pattern_is_read_as_one(before: Seq<char>, c: char, rest: Seq<char>)
    requires
        bare(before),
        !Class::Digit.has(before[0]),
        wild(c),
        forall|k: int| 0 <= k < rest.len() ==> stands_for_itself(#[trigger] rest[k]) || wild(rest[k]),
    ensures
        tokenized(before + seq![c] + rest) == seq![
            TokenView::Word(
                WordView { text: before + seq![c] + rest, known: true, pattern: true },
            ),
        ],
{
    let s = before + seq![c] + rest;
    let n = s.len() as int;
    let m = before.len() as int;
    assert(s[m] == c);
    assert(s[0] == before[0]);
    assert(stands_for_itself(before[0]));
    assert forall|k: int| 0 <= k < m implies stands_for_itself(#[trigger] s[k]) by {
        assert(s[k] == before[k]);
    }
    assert forall|k: int| m + 1 <= k < n implies stands_for_itself(#[trigger] s[k]) || wild(
        s[k],
    ) by {
        assert(s[k] == rest[k - m - 1]);
    }
    lemma_copied_from(s, 0, m, no_word());
    let read = meant(before);
    assert(no_word().text + s.subrange(0, m) =~= before);
    let more = WordView { pattern: true, ..crate::shell_words::with_char(read, c) };
    assert(word_from(s, 0, m, read) == word_from(s, 0, m + 1, more));
    lemma_wild_from(s, m + 1, more);
    assert(more.text + s.skip(m + 1) =~= s);
    lemma_word_alone(s, WordView { text: s, known: true, pattern: true });
}

/// Where a pattern names files to read, the folder its matches are all in is taken in:
/// the one before its first wildcard.
pub proof fn a_pattern_takes_in_its_folder(
    folder: Seq<char>,
    rest: Seq<char>,
    dir: Seq<char>,
    folders: bool,
)
    requires
        folder.len() > 0,
        forall|k: int| 0 <= k < folder.len() ==> !wild(#[trigger] folder[k]),
        rest.len() > 0,
        exists|k: int| 0 <= k < rest.len() && wild(#[trigger] rest[k]),
        forall|k: int| 0 <= k < rest.len() ==> #[trigger] rest[k] != '/',
    ensures
        ({
            let word = WordView { text: folder + seq!['/'] + rest, known: true, pattern: true };
            started(dir).read(word, folders).finds == seq![
                FindView::Scope(ScopeView { dir: path_meant(dir, folder), base: dir }),
            ]
        }),
{
    broadcast use group_runs;

    let text = folder + seq!['/'] + rest;
    let word = WordView { text, known: true, pattern: true };
    let n = folder.len() as int;
    assert(text[n] == '/');
    let end = run_end(text, Class::Literal, 0);
    if end <= n {
        if end < n {
            assert(text[end] == folder[end]);
        }
        assert(!Class::Literal.has(text[end]));
    }
    let w = choose|k: int| 0 <= k < rest.len() && wild(#[trigger] rest[k]);
    assert(text[n + 1 + w] == rest[w]);
    if end > n + 1 + w {
        assert(Class::Literal.has(text[n + 1 + w]));
    }
    let literal = text.take(end);
    let from = run_start(literal, Class::Not('/'), end);
    assert(literal[n] == '/');
    if from <= n {
        assert(Class::Not('/').has(literal[n]));
    }
    if from > n + 1 {
        assert(!Class::Not('/').has(literal[from - 1]));
        assert(literal[from - 1] == rest[from - 1 - n - 1]);
    }
    let kept = folder + seq!['/'];
    assert(literal.take(from) =~= kept);
    assert(crate::shell_paths::literal_folder(text) == kept);
    assert(kept[0] == folder[0]);
    let name = seq!['a'];
    reveal_strlit(".");
    reveal_strlit("..");
    assert(name != "."@ && name != ".."@) by {
        assert(name[0] == 'a');
        assert("."@[0] == '.' && ".."@[0] == '.');
    }
    crate::path_laws::going_in_and_out_leads_nowhere(folder, name);
    let joined = join_path(dir, folder);
    if folder[0] != '/' {
        assert(join_path(dir, kept) =~= joined + seq!['/']);
        crate::path_laws::going_in_and_out_leads_nowhere(joined, name);
    }
    assert(crate::shell_paths::pattern_folder(Some(dir), word) == Some(path_meant(dir, folder)));
    assert(started(dir).read(word, folders).finds =~= seq![
        FindView::Scope(ScopeView { dir: path_meant(dir, folder), base: dir }),
    ]);
}

} // verus!
