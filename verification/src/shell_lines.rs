//! What holds of commands on successive lines: each works on what it works on
//! alone, one after the other, as long as the first neither goes on past its
//! line nor changes the folder.
use vstd::prelude::*;
use crate::listing::ListingView;
use crate::shell::{bodies_end, body_end, char_at, close_step, closed, closes, comments, escaped_end,
    lemma_body_end, next_line, past, HeredocView, Nest};
use crate::shell_paths::{awks, base_name, break_at, changes_folder, commanded, commanded_from,
    copies, found_in, gather, greps, pattern_options, performed, program_at, queries, reads_whole,
    redirected, resolved, ripgreps, settled, shown, split_args, starts_end, value_options, FindView,
    ParsedView, WorkView};
use crate::shell_words::{ends_word, lemma_lex_next_advances, lemma_quoted_from, lemma_substituted,
    lex, lex_next, no_word, quoted_from, substituted, substitutes, tokenized, unknown, with_char,
    word_at, word_from, Lexed, Redirect, TokenView, WordView};
use crate::text::{group_runs, run_end, Class};

verus! {

// ---------------------------------------------------------------------------
// Reading what follows
// ---------------------------------------------------------------------------

proof fn lemma_run_shift(p: Seq<char>, b: Seq<char>, class: Class, j: int)
    requires
        0 <= j <= b.len(),
    ensures
        run_end(p + b, class, p.len() + j) == p.len() + run_end(b, class, j),
    decreases b.len() - j,
{
    if j < b.len() {
        assert((p + b)[p.len() + j] == b[j]);
        if class.has(b[j]) {
            lemma_run_shift(p, b, class, j + 1);
        }
    }
}

pub proof fn lemma_escaped_shift(p: Seq<char>, b: Seq<char>, j: int)
    requires
        0 <= j <= b.len(),
    ensures
        escaped_end(p + b, p.len() + j) == p.len() + escaped_end(b, j),
    decreases b.len() - j,
{
    if j < b.len() {
        assert((p + b)[p.len() + j] == b[j]);
        if b[j] == '\\' {
            if j + 1 < b.len() {
                lemma_escaped_shift(p, b, j + 2);
            }
        } else if b[j] != '\'' {
            lemma_escaped_shift(p, b, j + 1);
        }
    }
}

proof fn lemma_char_shift(p: Seq<char>, b: Seq<char>, j: int)
    requires
        0 <= j,
    ensures
        char_at(p + b, p.len() + j) == char_at(b, j),
{
    if j < b.len() {
        assert((p + b)[p.len() + j] == b[j]);
    }
}

proof fn lemma_close_step_shift(p: Seq<char>, b: Seq<char>, j: int, open: Seq<Nest>)
    requires
        0 <= j < b.len(),
        j > 0 || p.len() == 0 || p.last() == '\n',
    ensures
        close_step(p + b, p.len() + j, open) == (
            p.len() + close_step(b, j, open).0,
            close_step(b, j, open).1,
        ),
{
    let s = p + b;
    let i = p.len() + j;
    assert(s[i] == b[j]);
    lemma_char_shift(p, b, j + 1);
    lemma_run_shift(p, b, Class::Not('\''), j + 1);
    lemma_run_shift(p, b, Class::Not('\n'), j);
    if j + 2 <= b.len() {
        lemma_escaped_shift(p, b, j + 2);
    }
    if j > 0 {
        assert(s[i - 1] == b[j - 1]);
    } else if p.len() > 0 {
        assert(s[i - 1] == p.last());
    }
    let top = open.last();
    assert(comments(top, char_at(s, i - 1), s[i]) == comments(top, char_at(b, j - 1), b[j]));
}

pub proof fn lemma_closed_shift(p: Seq<char>, b: Seq<char>, j: int, open: Seq<Nest>)
    requires
        0 < j <= b.len(),
    ensures
        closed(p + b, p.len() + j, open) == p.len() + closed(b, j, open),
    decreases b.len() - j,
{
    if j < b.len() && open.len() > 0 {
        lemma_close_step_shift(p, b, j, open);
        let (next, now) = close_step(b, j, open);
        lemma_step_advances(b, j, open);
        lemma_closed_shift(p, b, next, now);
    }
}

pub proof fn lemma_step_advances(s: Seq<char>, i: int, open: Seq<Nest>)
    requires
        0 <= i < s.len(),
    ensures
        i < close_step(s, i, open).0 <= s.len(),
{
    broadcast use group_runs;

    if i + 2 <= s.len() {
        crate::shell::lemma_escaped_end(s, i + 2);
    }
    if s[i] == '#' {
        assert(Class::Not('\n').has(s[i]));
    }
}

proof fn lemma_substituted_shift(p: Seq<char>, b: Seq<char>, j: int, quoted: bool)
    requires
        0 <= j < b.len(),
    ensures
        substituted(p + b, p.len() + j, quoted) == p.len() + substituted(b, j, quoted),
        substitutes(p + b, p.len() + j, quoted) == substitutes(b, j, quoted),
{
    assert((p + b)[p.len() + j] == b[j]);
    lemma_char_shift(p, b, j + 1);
    lemma_closed_shift(p, b, j + 1, seq![Nest::Tick]);
    if j + 2 <= b.len() {
        lemma_closed_shift(p, b, j + 2, seq![Nest::Paren]);
        lemma_closed_shift(p, b, j + 2, seq![Nest::Brace]);
        lemma_closed_shift(p, b, j + 2, seq![Nest::QuotedBrace]);
        lemma_escaped_shift(p, b, j + 2);
    }
    lemma_run_shift(p, b, Class::Name, j + 1);
}

proof fn lemma_quoted_shift(p: Seq<char>, b: Seq<char>, j: int, word: WordView)
    requires
        0 <= j <= b.len(),
    ensures
        quoted_from(p + b, p.len() + j, word) == (
            quoted_from(b, j, word).0,
            p.len() + quoted_from(b, j, word).1,
        ),
    decreases b.len() - j,
{
    if j < b.len() {
        let s = p + b;
        assert(s[p.len() + j] == b[j]);
        if j + 1 < b.len() {
            assert(s[p.len() + j + 1] == b[j + 1]);
        }
        lemma_substituted_shift(p, b, j, true);
        lemma_substituted(b, j, true);
        if b[j] == '"' {
        } else if b[j] == '\\' && j + 1 < b.len() && crate::shell_words::escapable(b[j + 1]) {
            lemma_quoted_shift(p, b, j + 2, with_char(word, b[j + 1]));
        } else if b[j] == '\\' && j + 1 < b.len() && b[j + 1] == '\n' {
            lemma_quoted_shift(p, b, j + 2, word);
        } else if substitutes(b, j, true) {
            lemma_quoted_shift(p, b, substituted(b, j, true), unknown(word));
        } else {
            lemma_quoted_shift(p, b, j + 1, with_char(word, b[j]));
        }
    }
}

pub proof fn lemma_word_shift(p: Seq<char>, b: Seq<char>, start: int, j: int, word: WordView)
    requires
        0 <= j <= b.len(),
    ensures
        word_from(p + b, p.len() + start, p.len() + j, word) == (
            word_from(b, start, j, word).0,
            p.len() + word_from(b, start, j, word).1,
        ),
    decreases b.len() - j,
{
    broadcast use group_runs;

    let s = p + b;
    if j < b.len() && !ends_word(b[j]) {
        assert(s[p.len() + j] == b[j]);
        if j + 1 < b.len() {
            assert(s[p.len() + j + 1] == b[j + 1]);
        }
        lemma_substituted_shift(p, b, j, false);
        lemma_substituted(b, j, false);
        lemma_run_shift(p, b, Class::Not('\''), j + 1);
        lemma_quoted_shift(p, b, j + 1, word);
        lemma_quoted_from(b, j + 1, word);
        if b[j] == '\'' {
            let end = run_end(b, Class::Not('\''), j + 1);
            assert(s.subrange(p.len() + j + 1, p.len() + end) =~= b.subrange(j + 1, end));
            lemma_word_shift(
                p,
                b,
                start,
                past(b, end),
                WordView { text: word.text + b.subrange(j + 1, end), ..word },
            );
        } else if b[j] == '"' {
            let (read, end) = quoted_from(b, j + 1, word);
            lemma_word_shift(p, b, start, end, read);
        } else if b[j] == '\\' {
            if j + 1 < b.len() {
                if b[j + 1] == '\n' {
                    lemma_word_shift(p, b, start, j + 2, word);
                } else {
                    lemma_word_shift(p, b, start, j + 2, with_char(word, b[j + 1]));
                }
            }
        } else if substitutes(b, j, false) {
            lemma_word_shift(p, b, start, substituted(b, j, false), unknown(word));
        } else if b[j] == '~' && j == start {
            lemma_word_shift(p, b, start, j + 1, unknown(word));
        } else if !Class::Literal.has(b[j]) {
            lemma_word_shift(
                p,
                b,
                start,
                j + 1,
                WordView { pattern: true, ..with_char(word, b[j]) },
            );
        } else {
            lemma_word_shift(p, b, start, j + 1, with_char(word, b[j]));
        }
    } else if j < b.len() {
        assert(s[p.len() + j] == b[j]);
    }
}

proof fn lemma_body_shift(p: Seq<char>, b: Seq<char>, j: int, heredoc: HeredocView)
    requires
        0 <= j <= b.len(),
    ensures
        body_end(p + b, p.len() + j, heredoc) == p.len() + body_end(b, j, heredoc),
    decreases b.len() - j,
{
    broadcast use group_runs;

    if j < b.len() {
        lemma_run_shift(p, b, Class::Not('\n'), j);
        let end = run_end(b, Class::Not('\n'), j);
        let line = b.subrange(j, end);
        assert((p + b).subrange(p.len() + j, p.len() + end) =~= line);
        if !closes(line, heredoc) {
            lemma_body_shift(p, b, next_line(b, j), heredoc);
        }
    }
}

proof fn lemma_bodies_shift(p: Seq<char>, b: Seq<char>, j: int, heredocs: Seq<HeredocView>)
    requires
        0 <= j <= b.len(),
    ensures
        bodies_end(p + b, p.len() + j, heredocs) == p.len() + bodies_end(b, j, heredocs),
    decreases heredocs.len(),
{
    if heredocs.len() > 0 {
        lemma_body_shift(p, b, j, heredocs[0]);
        lemma_body_end(b, j, heredocs[0]);
        lemma_bodies_shift(p, b, body_end(b, j, heredocs[0]), heredocs.skip(1));
    }
}

/// What a state of reading is with so much read before it.
pub open spec fn after(p: Seq<char>, had: Seq<TokenView>, lexed: Lexed) -> Lexed {
    Lexed { i: p.len() + lexed.i, tokens: had + lexed.tokens, ..lexed }
}

proof fn lemma_lex_next_shift(p: Seq<char>, had: Seq<TokenView>, b: Seq<char>, lexed: Lexed)
    requires
        0 <= lexed.i < b.len(),
    ensures
        lex_next(p + b, after(p, had, lexed)) == after(p, had, lex_next(b, lexed)),
{
    broadcast use group_runs;

    let s = p + b;
    let j = lexed.i;
    let i = p.len() + j;
    assert(s[i] == b[j]);
    lemma_char_shift(p, b, j + 1);
    lemma_char_shift(p, b, j + 2);
    lemma_bodies_shift(p, b, j + 1, lexed.heredocs);
    lemma_run_shift(p, b, Class::Not('\n'), j);
    lemma_run_shift(p, b, Class::Digit, j);
    lemma_char_shift(p, b, run_end(b, Class::Digit, j));
    lemma_word_shift(p, b, j, j, no_word());
    let one = lex_next(s, after(p, had, lexed));
    let other = after(p, had, lex_next(b, lexed));
    assert(one.i == other.i);
    assert(one.tokens =~= other.tokens);
    assert(one.heredocs =~= other.heredocs);
}

pub proof fn lemma_lex_shift(p: Seq<char>, had: Seq<TokenView>, b: Seq<char>, lexed: Lexed)
    requires
        0 <= lexed.i <= b.len(),
    ensures
        lex(p + b, after(p, had, lexed)) == had + lex(b, lexed),
    decreases b.len() - lexed.i,
{
    if lexed.i < b.len() {
        lemma_lex_next_advances(b, lexed);
        lemma_lex_next_shift(p, had, b, lexed);
        lemma_lex_shift(p, had, b, lex_next(b, lexed));
    }
}

// ---------------------------------------------------------------------------
// Reading what comes first
// ---------------------------------------------------------------------------

/// Whether a command is done with at the end of its line: nothing in it quotes,
/// escapes, substitutes or opens a here-document.
pub open spec fn ends_with_its_line(s: Seq<char>) -> bool {
    forall|k: int|
        0 <= k < s.len() ==> {
            &&& #[trigger] s[k] != '\''
            &&& s[k] != '"'
            &&& s[k] != '`'
            &&& s[k] != '\\'
            &&& s[k] != '$'
            &&& s[k] != '<'
        }
}

proof fn lemma_run_within(a: Seq<char>, b: Seq<char>, class: Class, i: int)
    requires
        0 <= i <= a.len(),
        !class.has('\n'),
    ensures
        run_end(a + seq!['\n'] + b, class, i) == run_end(a, class, i),
    decreases a.len() - i,
{
    let c = a + seq!['\n'] + b;
    if i < a.len() {
        assert(c[i] == a[i]);
        if class.has(a[i]) {
            lemma_run_within(a, b, class, i + 1);
        }
    } else {
        assert(c[i] == '\n');
    }
}

/// A word is what is written, but for a `~` it starts with.
proof fn lemma_word_within(a: Seq<char>, b: Seq<char>, start: int, i: int, word: WordView)
    requires
        ends_with_its_line(a),
        0 <= start <= i <= a.len(),
    ensures
        word_from(a + seq!['\n'] + b, start, i, word) == word_from(a, start, i, word),
        i <= word_from(a, start, i, word).1 <= a.len(),
        ({
            let (read, end) = word_from(a, start, i, word);
            let from = if i < end && i == start && a[i] == '~' {
                i + 1
            } else {
                i
            };
            read.text == word.text + a.subrange(from, end)
        }),
    decreases a.len() - i,
{
    let c = a + seq!['\n'] + b;
    if i < a.len() {
        assert(c[i] == a[i]);
        assert(a[i] != '$');
        if !ends_word(a[i]) {
            let next = if a[i] == '~' && i == start {
                unknown(word)
            } else if !Class::Literal.has(a[i]) {
                WordView { pattern: true, ..with_char(word, a[i]) }
            } else {
                with_char(word, a[i])
            };
            lemma_word_within(a, b, start, i + 1, next);
            let (read, end) = word_from(a, start, i + 1, next);
            let from = if a[i] == '~' && i == start {
                i + 1
            } else {
                i
            };
            assert(read.text == next.text + a.subrange(i + 1, end));
            assert(word.text + a.subrange(from, end) =~= next.text + a.subrange(i + 1, end));
        } else {
            assert(word.text =~= word.text + a.subrange(i, i));
        }
    } else {
        assert(c[i] == '\n');
        assert(word.text =~= word.text + a.subrange(i, i));
    }
}

/// Whether a text is written somewhere in another.
spec fn stands_in(part: Seq<char>, s: Seq<char>) -> bool {
    exists|p: int|
        0 <= p && p + part.len() <= s.len() && #[trigger] s.subrange(p, p + part.len()) == part
}

/// Whether every word among tokens is written in a text.
spec fn written_in(tokens: Seq<TokenView>, s: Seq<char>) -> bool {
    forall|k: int|
        0 <= k < tokens.len() && (#[trigger] tokens[k] is Word) ==> stands_in(
            tokens[k]->Word_0.text,
            s,
        )
}

spec fn plain_state(lexed: Lexed) -> bool {
    lexed.heredocs.len() == 0 && lexed.delimiter_next is None
}

proof fn lemma_lex_next_within(a: Seq<char>, b: Seq<char>, lexed: Lexed)
    requires
        ends_with_its_line(a),
        0 <= lexed.i < a.len(),
        plain_state(lexed),
        written_in(lexed.tokens, a),
    ensures
        lex_next(a + seq!['\n'] + b, lexed) == lex_next(a, lexed),
        plain_state(lex_next(a, lexed)),
        written_in(lex_next(a, lexed).tokens, a),
{
    broadcast use group_runs;

    let c = a + seq!['\n'] + b;
    let i = lexed.i;
    assert(c[i] == a[i]);
    if i + 1 < a.len() {
        assert(c[i + 1] == a[i + 1]);
    } else {
        assert(c[i + 1] == '\n');
    }
    if i + 2 < a.len() {
        assert(c[i + 2] == a[i + 2]);
    } else if i + 2 == a.len() {
        assert(c[i + 2] == '\n');
    }
    lemma_run_within_line(a, b, i);
    lemma_run_within(a, b, Class::Digit, i);
    let digits = run_end(a, Class::Digit, i);
    if digits < a.len() {
        assert(c[digits] == a[digits]);
    } else {
        assert(c[digits] == '\n');
    }
    lemma_word_within(a, b, i, i, no_word());
    assert(lexed.heredocs =~= seq![]);
    let now = lex_next(a, lexed);
    assert(lex_next(c, lexed) =~= now);
    assert forall|k: int| 0 <= k < now.tokens.len() && (
    #[trigger] now.tokens[k] is Word) implies stands_in(now.tokens[k]->Word_0.text, a) by {
        if k < lexed.tokens.len() {
            assert(now.tokens[k] == lexed.tokens[k]);
        } else {
            let (read, end) = word_at(a, i);
            let from = if i < end && a[i] == '~' {
                i + 1
            } else {
                i
            };
            assert(now.tokens[k]->Word_0 == read);
            assert(read.text =~= a.subrange(from, end));
            assert(a.subrange(from, from + read.text.len()) == read.text);
        }
    }
}

proof fn lemma_run_within_line(a: Seq<char>, b: Seq<char>, i: int)
    requires
        0 <= i <= a.len(),
    ensures
        run_end(a + seq!['\n'] + b, Class::Not('\n'), i) == run_end(a, Class::Not('\n'), i),
{
    lemma_run_within(a, b, Class::Not('\n'), i);
}

proof fn lemma_lex_within(a: Seq<char>, b: Seq<char>, lexed: Lexed)
    requires
        ends_with_its_line(a),
        0 <= lexed.i <= a.len(),
        plain_state(lexed),
        written_in(lexed.tokens, a),
    ensures
        lex(a + seq!['\n'] + b, lexed) == lex(
            a + seq!['\n'] + b,
            (Lexed { i: a.len() as int, tokens: lex(a, lexed), ..lexed }),
        ),
        written_in(lex(a, lexed), a),
    decreases a.len() - lexed.i,
{
    let c = a + seq!['\n'] + b;
    if lexed.i < a.len() {
        lemma_lex_next_advances(a, lexed);
        lemma_lex_next_within(a, b, lexed);
        lemma_lex_next_advances(c, lexed);
        let next = lex_next(a, lexed);
        lemma_lex_within(a, b, next);
        assert(next.heredocs =~= lexed.heredocs);
    }
}

/// The tokens of two lines are those of the first, a break, and those of the
/// second.
proof fn lemma_tokens_of_lines(a: Seq<char>, b: Seq<char>)
    requires
        ends_with_its_line(a),
    ensures
        tokenized(a + seq!['\n'] + b) == tokenized(a).push(TokenView::Break) + tokenized(b),
        written_in(tokenized(a), a),
{
    let c = a + seq!['\n'] + b;
    let p = a + seq!['\n'];
    let start = Lexed { i: 0, tokens: seq![], heredocs: seq![], delimiter_next: None };
    lemma_lex_within(a, b, start);
    let end = Lexed { i: a.len() as int, tokens: tokenized(a), ..start };
    assert(c[a.len() as int] == '\n');
    let next = lex_next(c, end);
    assert(bodies_end(c, a.len() as int + 1, seq![]) == a.len() + 1);
    let had = tokenized(a).push(TokenView::Break);
    assert(next =~= after(p, had, start));
    lemma_lex_next_advances(c, end);
    lemma_lex_shift(p, had, b, start);
    assert(p + b =~= c);
}

// ---------------------------------------------------------------------------
// What is found
// ---------------------------------------------------------------------------

/// Work with so much found before it.
pub open spec fn with_found(had: Seq<FindView>, work: WorkView) -> WorkView {
    WorkView { finds: had + work.finds, ..work }
}

/// Whether finding more before it makes no difference to a step of work, which
/// leaves the folder as it is.
pub open spec fn apart(had: Seq<FindView>, was: WorkView, one: WorkView, other: WorkView) -> bool {
    other == with_found(had, one) && one.cwd == was.cwd
}

proof fn lemma_found_apart(had: Seq<FindView>, work: WorkView, find: FindView)
    ensures
        apart(had, work, work.found(find), with_found(had, work).found(find)),
{
    assert(with_found(had, work).found(find).finds =~= with_found(had, work.found(find)).finds);
}

proof fn lemma_read_apart(had: Seq<FindView>, work: WorkView, word: WordView, folders: bool)
    ensures
        apart(had, work, work.read(word, folders), with_found(had, work).read(word, folders)),
{
    let one = work.read(word, folders);
    assert(with_found(had, work).read(word, folders).finds =~= with_found(had, one).finds);
}

proof fn lemma_read_each_apart(
    had: Seq<FindView>,
    work: WorkView,
    words: Seq<WordView>,
    folders: bool,
)
    ensures
        apart(
            had,
            work,
            work.read_each(words, folders),
            with_found(had, work).read_each(words, folders),
        ),
    decreases words.len(),
{
    if words.len() > 0 {
        lemma_read_each_apart(had, work, words.drop_last(), folders);
        lemma_read_apart(had, work.read_each(words.drop_last(), folders), words.last(), folders);
    }
}

proof fn lemma_scoped_apart(had: Seq<FindView>, work: WorkView, dir: Seq<char>)
    ensures
        apart(had, work, work.scoped(dir), with_found(had, work).scoped(dir)),
{
    assert(with_found(had, work).scoped(dir).finds =~= with_found(had, work.scoped(dir)).finds);
}

proof fn lemma_searched_apart(
    had: Seq<FindView>,
    work: WorkView,
    words: Seq<WordView>,
    recursive: bool,
)
    ensures
        apart(
            had,
            work,
            work.searched(words, recursive),
            with_found(had, work).searched(words, recursive),
        ),
{
    lemma_read_each_apart(had, work, words, recursive);
    if work.cwd is Some {
        lemma_scoped_apart(had, work, work.cwd->0);
    }
}

proof fn lemma_edit_each_apart(had: Seq<FindView>, work: WorkView, words: Seq<WordView>)
    ensures
        apart(had, work, work.edit_each(words), with_found(had, work).edit_each(words)),
    decreases words.len(),
{
    if words.len() > 0 {
        lemma_edit_each_apart(had, work, words.drop_last());
        let one = work.edit_each(words);
        assert(with_found(had, work).edit_each(words).finds =~= with_found(had, one).finds);
    }
}

proof fn lemma_written_apart(had: Seq<FindView>, work: WorkView, target: Option<WordView>)
    ensures
        apart(had, work, work.written(target), with_found(had, work).written(target)),
{
    let one = work.written(target);
    assert(with_found(had, work).written(target).finds =~= with_found(had, one).finds);
}

proof fn lemma_write_each_apart(had: Seq<FindView>, work: WorkView, words: Seq<WordView>)
    ensures
        apart(had, work, work.write_each(words), with_found(had, work).write_each(words)),
    decreases words.len(),
{
    if words.len() > 0 {
        lemma_write_each_apart(had, work, words.drop_last());
        lemma_written_apart(had, work.write_each(words.drop_last()), Some(words.last()));
    }
}

proof fn lemma_into_each_apart(
    had: Seq<FindView>,
    work: WorkView,
    words: Seq<WordView>,
    dir: Seq<char>,
)
    ensures
        apart(had, work, work.into_each(words, dir), with_found(had, work).into_each(words, dir)),
    decreases words.len(),
{
    if words.len() > 0 {
        lemma_into_each_apart(had, work, words.drop_last(), dir);
        let one = work.into_each(words, dir);
        assert(with_found(had, work).into_each(words, dir).finds =~= with_found(had, one).finds);
    }
}

proof fn lemma_copied_into_apart(
    had: Seq<FindView>,
    work: WorkView,
    words: Seq<WordView>,
    dir: WordView,
)
    ensures
        apart(
            had,
            work,
            work.copied_into(words, dir),
            with_found(had, work).copied_into(words, dir),
        ),
{
    let to = resolved(work.cwd, dir);
    if to is Some {
        lemma_into_each_apart(had, work, words, to->0);
    }
}

proof fn lemma_copied_apart(had: Seq<FindView>, work: WorkView, parsed: ParsedView)
    ensures
        apart(had, work, work.copied(parsed), with_found(had, work).copied(parsed)),
{
    let operands = parsed.operands;
    if parsed.value_of("-t"@) is Some {
        lemma_copied_into_apart(had, work, operands, parsed.value_of("-t"@)->0);
    } else if parsed.value_of("--target-directory"@) is Some {
        lemma_copied_into_apart(
            had,
            work,
            operands,
            parsed.value_of("--target-directory"@)->0,
        );
    } else if operands.len() >= 2 {
        lemma_copied_into_apart(had, work, operands.drop_last(), operands.last());
        lemma_found_apart(
            had,
            work,
            FindView::Onto(
                resolved(work.cwd, operands[0]),
                resolved(work.cwd, operands[1]),
            ),
        );
    }
}

proof fn lemma_shown_apart(had: Seq<FindView>, work: WorkView, args: Seq<WordView>)
    ensures
        apart(had, work, shown(work, args), shown(with_found(had, work), args)),
{
    let operands = split_args(args.skip(1), value_options("git"@)).operands;
    lemma_read_each_apart(had, work, operands, true);
    let read = work.read_each(operands, true);
    if read.cwd is Some {
        lemma_scoped_apart(had, read, read.cwd->0);
    }
}

/// What a program is found to do doesn't hang on what was found before it.
pub proof fn lemma_performed_apart(
    had: Seq<FindView>,
    work: WorkView,
    program: Seq<char>,
    args: Seq<WordView>,
)
    ensures
        performed(with_found(had, work), program, args) == with_found(
            had,
            performed(work, program, args),
        ),
        !changes_folder(program) ==> performed(work, program, args).cwd == work.cwd,
{
    let parsed = split_args(args, value_options(program));
    let rest = parsed.operands_after_pattern(pattern_options(program));
    if changes_folder(program) {
    } else if reads_whole(program) {
        lemma_read_each_apart(had, work, parsed.operands, false);
    } else if program == "diff"@ {
        lemma_read_each_apart(had, work, parsed.operands, true);
    } else if program == "sort"@ {
        lemma_read_each_apart(had, work, parsed.operands, false);
        lemma_written_apart(
            had,
            work.read_each(parsed.operands, false),
            parsed.value_of("-o"@),
        );
    } else if greps(program) {
        lemma_searched_apart(
            had,
            work,
            rest,
            parsed.gives_flag('r') || parsed.gives_flag('R') || parsed.gives("--recursive"@),
        );
    } else if ripgreps(program) {
        lemma_searched_apart(had, work, rest, true);
    } else if program == "find"@ {
        lemma_searched_apart(had, work, args.take(starts_end(args, 0)), true);
    } else if program == "sed"@ || awks(program) {
        lemma_read_each_apart(had, work, rest, false);
        lemma_edit_each_apart(had, work, rest);
    } else if program == "perl"@ {
        lemma_edit_each_apart(had, work, rest);
    } else if queries(program) {
        lemma_read_each_apart(had, work, rest, false);
    } else if program == "tee"@ {
        lemma_write_each_apart(had, work, parsed.operands);
    } else if copies(program) {
        lemma_copied_apart(had, work, parsed);
    } else if program == "git"@ {
        lemma_shown_apart(had, work, args);
    }
}

pub proof fn lemma_gather_apart(
    had: Seq<FindView>,
    tokens: Seq<TokenView>,
    i: int,
    work: WorkView,
    args: Seq<WordView>,
)
    ensures
        gather(tokens, i, with_found(had, work), args).0 == with_found(
            had,
            gather(tokens, i, work, args).0,
        ),
        gather(tokens, i, with_found(had, work), args).1 == gather(tokens, i, work, args).1,
        gather(tokens, i, work, args).0.cwd == work.cwd,
    decreases tokens.len() - i,
{
    if 0 <= i < tokens.len() {
        match tokens[i] {
            TokenView::Word(word) => lemma_gather_apart(
                had,
                tokens,
                i + 1,
                work,
                args.push(word),
            ),
            TokenView::Redirect(redirect) => if i + 1 < tokens.len() {
                match tokens[i + 1] {
                    TokenView::Word(target) => {
                        let one = redirected(work, redirect, target);
                        assert(redirected(with_found(had, work), redirect, target).finds
                            =~= with_found(had, one).finds);
                        lemma_gather_apart(had, tokens, i + 2, one, args);
                    },
                    _ => lemma_gather_apart(had, tokens, i + 2, work, args),
                }
            },
            TokenView::Break => lemma_gather_apart(had, tokens, i + 1, work, args),
        }
    }
}

proof fn lemma_commanded_apart(had: Seq<FindView>, work: WorkView, tokens: Seq<TokenView>)
    ensures
        commanded(with_found(had, work), tokens) == with_found(had, commanded(work, tokens)),
{
    lemma_gather_apart(had, tokens, 0, work, seq![]);
    let (gathered, args) = gather(tokens, 0, work, seq![]);
    let at = program_at(args, 0);
    if 0 <= at < args.len() {
        lemma_performed_apart(had, gathered, base_name(args[at].text), args.skip(at + 1));
    }
}

pub proof fn lemma_commanded_from_apart(
    had: Seq<FindView>,
    work: WorkView,
    tokens: Seq<TokenView>,
    i: int,
)
    ensures
        commanded_from(with_found(had, work), tokens, i) == with_found(
            had,
            commanded_from(work, tokens, i),
        ),
    decreases tokens.len() - i,
{
    let end = break_at(tokens, i);
    let segment = tokens.subrange(i, end);
    lemma_commanded_apart(had, work, segment);
    if 0 <= i <= end < tokens.len() {
        lemma_commanded_from_apart(had, commanded(work, segment), tokens, end + 1);
    }
}

// ---------------------------------------------------------------------------
// One command after the other
// ---------------------------------------------------------------------------

pub proof fn lemma_break_at(tokens: Seq<TokenView>, i: int)
    requires
        0 <= i <= tokens.len(),
    ensures
        i <= break_at(tokens, i) <= tokens.len(),
        break_at(tokens, i) < tokens.len() ==> tokens[break_at(tokens, i)] == TokenView::Break,
    decreases tokens.len() - i,
{
    if i < tokens.len() && tokens[i] != TokenView::Break {
        lemma_break_at(tokens, i + 1);
    }
}

proof fn lemma_break_within(a: Seq<TokenView>, b: Seq<TokenView>, i: int)
    requires
        0 <= i <= a.len(),
    ensures
        break_at(a.push(TokenView::Break) + b, i) == break_at(a, i),
    decreases a.len() - i,
{
    let all = a.push(TokenView::Break) + b;
    if i < a.len() {
        assert(all[i] == a[i]);
        if a[i] != TokenView::Break {
            lemma_break_within(a, b, i + 1);
        }
    } else {
        assert(all[i] == TokenView::Break);
    }
}

proof fn lemma_break_shift(p: Seq<TokenView>, b: Seq<TokenView>, j: int)
    requires
        0 <= j <= b.len(),
    ensures
        break_at(p + b, p.len() + j) == p.len() + break_at(b, j),
    decreases b.len() - j,
{
    if j < b.len() {
        assert((p + b)[p.len() + j] == b[j]);
        if b[j] != TokenView::Break {
            lemma_break_shift(p, b, j + 1);
        }
    }
}

proof fn lemma_commanded_shift(
    work: WorkView,
    p: Seq<TokenView>,
    b: Seq<TokenView>,
    j: int,
)
    requires
        0 <= j <= b.len(),
    ensures
        commanded_from(work, p + b, p.len() + j) == commanded_from(work, b, j),
    decreases b.len() - j,
{
    lemma_break_shift(p, b, j);
    lemma_break_at(b, j);
    let end = break_at(b, j);
    assert((p + b).subrange(p.len() + j, p.len() + end) =~= b.subrange(j, end));
    if end < b.len() {
        lemma_commanded_shift(commanded(work, b.subrange(j, end)), p, b, end + 1);
    }
}

pub proof fn lemma_commanded_on(work: WorkView, a: Seq<TokenView>, b: Seq<TokenView>, i: int)
    requires
        0 <= i <= a.len(),
    ensures
        commanded_from(work, a.push(TokenView::Break) + b, i) == commanded_from(
            commanded_from(work, a, i),
            b,
            0,
        ),
    decreases a.len() - i,
{
    let p = a.push(TokenView::Break);
    let all = p + b;
    lemma_break_within(a, b, i);
    lemma_break_at(a, i);
    let end = break_at(a, i);
    assert(all.subrange(i, end) =~= a.subrange(i, end));
    let now = commanded(work, a.subrange(i, end));
    if end < a.len() {
        lemma_commanded_on(now, a, b, end + 1);
    } else {
        lemma_commanded_shift(now, p, b, 0);
    }
}

// ---------------------------------------------------------------------------
// Staying in the folder
// ---------------------------------------------------------------------------

/// Whether a text is written nowhere in another.
pub open spec fn nowhere_in(part: Seq<char>, s: Seq<char>) -> bool {
    forall|p: int| 0 <= p && p + part.len() <= s.len() ==> #[trigger] s.subrange(
        p,
        p + part.len(),
    ) != part
}

/// Whether every word is written in a text.
spec fn words_written(args: Seq<WordView>, s: Seq<char>) -> bool {
    forall|k: int| 0 <= k < args.len() ==> stands_in((#[trigger] args[k]).text, s)
}

proof fn lemma_gathered_written(
    tokens: Seq<TokenView>,
    i: int,
    work: WorkView,
    args: Seq<WordView>,
    s: Seq<char>,
)
    requires
        written_in(tokens, s),
        words_written(args, s),
    ensures
        words_written(gather(tokens, i, work, args).1, s),
    decreases tokens.len() - i,
{
    if 0 <= i < tokens.len() {
        match tokens[i] {
            TokenView::Word(word) => {
                let more = args.push(word);
                assert forall|k: int| 0 <= k < more.len() implies stands_in(
                    (#[trigger] more[k]).text,
                    s,
                ) by {
                    if k < args.len() {
                        assert(more[k] == args[k]);
                    } else {
                        assert(tokens[i] is Word);
                        assert(more[k] == tokens[i]->Word_0);
                    }
                }
                lemma_gathered_written(tokens, i + 1, work, more, s);
            },
            TokenView::Redirect(redirect) => if i + 1 < tokens.len() {
                match tokens[i + 1] {
                    TokenView::Word(target) => lemma_gathered_written(
                        tokens,
                        i + 2,
                        redirected(work, redirect, target),
                        args,
                        s,
                    ),
                    _ => lemma_gathered_written(tokens, i + 2, work, args, s),
                }
            },
            TokenView::Break => lemma_gathered_written(tokens, i + 1, work, args, s),
        }
    }
}

proof fn lemma_stays(work: WorkView, tokens: Seq<TokenView>, s: Seq<char>)
    requires
        written_in(tokens, s),
        nowhere_in("cd"@, s),
        nowhere_in("pushd"@, s),
    ensures
        commanded(work, tokens).cwd == work.cwd,
{
    broadcast use group_runs;

    lemma_gather_apart(seq![], tokens, 0, work, seq![]);
    lemma_gathered_written(tokens, 0, work, seq![], s);
    let (gathered, args) = gather(tokens, 0, work, seq![]);
    let at = program_at(args, 0);
    if 0 <= at < args.len() {
        let text = args[at].text;
        let program = base_name(text);
        assert(stands_in(text, s));
        let p = choose|p: int|
            0 <= p && p + text.len() <= s.len() && #[trigger] s.subrange(p, p + text.len()) == text;
        let from = text.len() - program.len();
        assert(program =~= text.skip(from));
        assert(s.subrange(p + from, p + from + program.len()) =~= program) by {
            assert forall|k: int| 0 <= k < program.len() implies s.subrange(
                p + from,
                p + from + program.len(),
            )[k] == program[k] by {
                assert(s.subrange(p, p + text.len())[from + k] == text[from + k]);
            }
        }
        assert(!changes_folder(program));
        lemma_performed_apart(seq![], gathered, program, args.skip(at + 1));
    }
}

proof fn lemma_stays_on(work: WorkView, tokens: Seq<TokenView>, i: int, s: Seq<char>)
    requires
        0 <= i <= tokens.len(),
        written_in(tokens, s),
        nowhere_in("cd"@, s),
        nowhere_in("pushd"@, s),
    ensures
        commanded_from(work, tokens, i).cwd == work.cwd,
    decreases tokens.len() - i,
{
    lemma_break_at(tokens, i);
    let end = break_at(tokens, i);
    let segment = tokens.subrange(i, end);
    assert(written_in(segment, s)) by {
        assert forall|k: int| 0 <= k < segment.len() && (
        #[trigger] segment[k] is Word) implies stands_in(segment[k]->Word_0.text, s) by {
            assert(segment[k] == tokens[i + k]);
            assert(tokens[i + k] is Word);
        }
    }
    lemma_stays(work, segment, s);
    if end < tokens.len() {
        lemma_stays_on(commanded(work, segment), tokens, end + 1, s);
    }
}

// ---------------------------------------------------------------------------
// What it comes to
// ---------------------------------------------------------------------------

pub proof fn lemma_settled_add(first: Seq<FindView>, second: Seq<FindView>, listing: ListingView)
    ensures
        settled(first + second, listing).files == settled(first, listing).files + settled(
            second,
            listing,
        ).files,
        settled(first + second, listing).scopes == settled(first, listing).scopes + settled(
            second,
            listing,
        ).scopes,
    decreases second.len(),
{
    let one = settled(first, listing);
    if second.len() == 0 {
        assert(first + second =~= first);
        assert(one.files + settled(second, listing).files =~= one.files);
        assert(one.scopes + settled(second, listing).scopes =~= one.scopes);
    } else {
        let rest = second.drop_last();
        let last = second.last();
        lemma_settled_add(first, rest, listing);
        assert((first + second).drop_last() =~= first + rest);
        assert((first + second).last() == last);
        let before = settled(rest, listing);
        let both = settled(first + rest, listing);
        assert(both.settle(last, listing).files =~= one.files + before.settle(last, listing).files);
        assert(both.settle(last, listing).scopes =~= one.scopes + before.settle(
            last,
            listing,
        ).scopes);
    }
}

/// Commands on successive lines work on what each works on, one after the other,
/// as long as the first is done with at the end of its line and stays in the
/// folder it is run in.
pub proof fn commands_on_lines_work_one_after_the_other(
    first: Seq<char>,
    second: Seq<char>,
    dir: Seq<char>,
    listing: ListingView,
)
    requires
        ends_with_its_line(first),
        nowhere_in("cd"@, first),
        nowhere_in("pushd"@, first),
    ensures
        ({
            let both = settled(found_in(first + seq!['\n'] + second, dir), listing);
            let one = settled(found_in(first, dir), listing);
            let other = settled(found_in(second, dir), listing);
            both.files == one.files + other.files && both.scopes == one.scopes + other.scopes
        }),
{
    let start = WorkView { cwd: Some(dir), finds: seq![] };
    let a = tokenized(first);
    let b = tokenized(second);
    lemma_tokens_of_lines(first, second);
    lemma_commanded_on(start, a, b, 0);
    lemma_stays_on(start, a, 0, first);
    let now = commanded_from(start, a, 0);
    assert(now =~= with_found(now.finds, start));
    lemma_commanded_from_apart(now.finds, start, b, 0);
    assert(found_in(first + seq!['\n'] + second, dir) == found_in(first, dir) + found_in(
        second,
        dir,
    ));
    lemma_settled_add(found_in(first, dir), found_in(second, dir), listing);
}

} // verus!
