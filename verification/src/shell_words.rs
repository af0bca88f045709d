//! A shell command read as the shell reads it: words, redirects, and what
//! breaks one simple command from the next.
use vstd::prelude::*;
use crate::shell::{bodies_end, char_at, closed, end_of_bodies, end_of_escaped, end_of_nest,
    escaped_end, heredoc_views, lemma_bodies_end, lemma_closed, lemma_escaped_end, past, past_end,
    Heredoc, HeredocView, Nest};
use crate::text::{chars_of, end_of_run, group_runs, piece, push_all, run_end, Class};

verus! {

// ---------------------------------------------------------------------------
// Words and tokens
// ---------------------------------------------------------------------------

/// A word of a command as the shell would read it.
pub struct Word {
    pub text: Vec<char>,
    /// Whether it can be worked out without running anything: no variable,
    /// command substitution, or home directory in it.
    pub known: bool,
    /// Whether it has a pattern in it, for the shell to expand.
    pub pattern: bool,
}

#[verifier::ext_equal]
pub struct WordView {
    pub text: Seq<char>,
    pub known: bool,
    pub pattern: bool,
}

impl View for Word {
    type V = WordView;

    open spec fn view(&self) -> WordView {
        WordView { text: self.text@, known: self.known, pattern: self.pattern }
    }
}

impl Word {
    pub fn copy(&self) -> (r: Word)
        ensures
            r@ == self@,
    {
        let text = piece(&self.text, 0, self.text.len());
        proof {
            assert(text@ =~= self.text@);
        }
        Word { text, known: self.known, pattern: self.pattern }
    }
}

#[derive(Clone, Copy, Debug, PartialEq, Eq, Structural)]
pub enum Redirect {
    Read,
    Write,
    /// A duplicated descriptor or a here-string, whose word is no file.
    NotAFile,
}

pub enum Token {
    Word(Word),
    /// Ends a simple command: `;`, `&`, `&&`, `||`, `|`, a parenthesis, or a
    /// line break.
    Break,
    /// A redirect, whose target is the next word.
    Redirect(Redirect),
}

pub enum TokenView {
    Word(WordView),
    Break,
    Redirect(Redirect),
}

impl View for Token {
    type V = TokenView;

    open spec fn view(&self) -> TokenView {
        match self {
            Token::Word(word) => TokenView::Word(word@),
            Token::Break => TokenView::Break,
            Token::Redirect(redirect) => TokenView::Redirect(*redirect),
        }
    }
}

pub open spec fn token_views(v: Seq<Token>) -> Seq<TokenView> {
    v.map_values(|t: Token| t@)
}

// ---------------------------------------------------------------------------
// How words are read
// ---------------------------------------------------------------------------

/// Whether a character after a `$` is a parameter of the shell's own.
pub open spec fn parameter(c: char) -> bool {
    c == '@' || c == '*' || c == '#' || c == '?' || c == '-' || c == '$' || c == '!'
}

/// Whether a variable or command substitution starts at `i`, or, where `quoted`
/// doesn't say that it is in double quotes, text in `$'` or `$"` quotes. A `$`
/// that starts none is only that.
pub open spec fn substitutes(s: Seq<char>, i: int, quoted: bool) -> bool {
    s[i] == '`' || (s[i] == '$' && (match char_at(s, i + 1) {
        Some(c) => c == '(' || c == '{' || Class::Name.has(c) || parameter(c) || (!quoted && (c
            == '\'' || c == '"')),
        None => false,
    }))
}

/// Where the variable or command substitution starting at `start` ends,
/// `quoted` saying that it is in double quotes.
pub open spec fn substituted(s: Seq<char>, start: int, quoted: bool) -> int {
    if s[start] == '`' {
        closed(s, start + 1, seq![Nest::Tick])
    } else {
        match char_at(s, start + 1) {
            Some(c) => if c == '(' {
                closed(s, start + 2, seq![Nest::Paren])
            } else if c == '{' {
                closed(s, start + 2, seq![if quoted { Nest::QuotedBrace } else { Nest::Brace }])
            } else if c == '\'' {
                escaped_end(s, start + 2)
            } else if c == '"' {
                start + 1
            } else if Class::Name.has(c) {
                run_end(s, Class::Name, start + 1)
            } else {
                start + 2
            },
            None => start + 1,
        }
    }
}

/// Where the variable or command substitution starting at `start` ends.
pub open spec fn substitution_end(s: Seq<char>, start: int) -> int {
    substituted(s, start, false)
}

pub open spec fn with_char(word: WordView, c: char) -> WordView {
    WordView { text: word.text.push(c), ..word }
}

pub open spec fn unknown(word: WordView) -> WordView {
    WordView { known: false, ..word }
}

/// Whether a backslash in double quotes escapes a character.
pub open spec fn escapable(c: char) -> bool {
    c == '"' || c == '\\' || c == '$' || c == '`'
}

/// The word with what is in double quotes up to `i` read, read to the closing
/// quote, and where that leaves off.
pub open spec fn quoted_from(s: Seq<char>, i: int, word: WordView) -> (WordView, int)
    decreases s.len() - i,
    when 0 <= i <= s.len()
    via quoted_from_advances
{
    if i >= s.len() {
        (word, i)
    } else if s[i] == '"' {
        (word, i + 1)
    } else if s[i] == '\\' && i + 1 < s.len() && escapable(s[i + 1]) {
        quoted_from(s, i + 2, with_char(word, s[i + 1]))
    } else if s[i] == '\\' && i + 1 < s.len() && s[i + 1] == '\n' {
        quoted_from(s, i + 2, word)
    } else if substitutes(s, i, true) {
        quoted_from(s, substituted(s, i, true), unknown(word))
    } else {
        quoted_from(s, i + 1, with_char(word, s[i]))
    }
}

#[via_fn]
proof fn quoted_from_advances(s: Seq<char>, i: int, word: WordView) {
    if i < s.len() {
        lemma_substituted(s, i, true);
    }
}

/// Whether a character ends the word before it.
pub open spec fn ends_word(c: char) -> bool {
    c == ' ' || c == '\t' || c == '\n' || c == ';' || c == '&' || c == '|' || c == '<' || c == '>'
        || c == '(' || c == ')'
}

/// The word that started at `start`, `word` of it read up to `i`, read to its
/// end, and where that is.
pub open spec fn word_from(s: Seq<char>, start: int, i: int, word: WordView) -> (WordView, int)
    decreases s.len() - i,
    when 0 <= i <= s.len()
    via word_from_advances
{
    if i >= s.len() || ends_word(s[i]) {
        (word, i)
    } else if s[i] == '\'' {
        let end = run_end(s, Class::Not('\''), i + 1);
        word_from(
            s,
            start,
            past(s, end),
            WordView { text: word.text + s.subrange(i + 1, end), ..word },
        )
    } else if s[i] == '"' {
        let (word, end) = quoted_from(s, i + 1, word);
        word_from(s, start, end, word)
    } else if s[i] == '\\' {
        if i + 1 >= s.len() {
            (word, i + 1)
        } else if s[i + 1] == '\n' {
            word_from(s, start, i + 2, word)
        } else {
            word_from(s, start, i + 2, with_char(word, s[i + 1]))
        }
    } else if substitutes(s, i, false) {
        word_from(s, start, substitution_end(s, i), unknown(word))
    } else if s[i] == '~' && i == start {
        word_from(s, start, i + 1, unknown(word))
    } else if !Class::Literal.has(s[i]) {
        word_from(s, start, i + 1, WordView { pattern: true, ..with_char(word, s[i]) })
    } else {
        word_from(s, start, i + 1, with_char(word, s[i]))
    }
}

#[via_fn]
proof fn word_from_advances(s: Seq<char>, start: int, i: int, word: WordView) {
    broadcast use group_runs;

    if i < s.len() {
        lemma_substituted(s, i, false);
        lemma_quoted_from(s, i + 1, word);
    }
}

pub open spec fn no_word() -> WordView {
    WordView { text: seq![], known: true, pattern: false }
}

/// The word starting at `start`, and where it ends.
pub open spec fn word_at(s: Seq<char>, start: int) -> (WordView, int) {
    word_from(s, start, start, no_word())
}

pub proof fn lemma_substituted(s: Seq<char>, start: int, quoted: bool)
    requires
        0 <= start < s.len(),
    ensures
        start < substituted(s, start, quoted) <= s.len(),
{
    broadcast use group_runs;

    lemma_closed(s, start + 1, seq![Nest::Tick]);
    if start + 1 < s.len() {
        lemma_closed(s, start + 2, seq![Nest::Paren]);
        lemma_closed(s, start + 2, seq![Nest::Brace]);
        lemma_closed(s, start + 2, seq![Nest::QuotedBrace]);
        lemma_escaped_end(s, start + 2);
    }
}

pub proof fn lemma_quoted_from(s: Seq<char>, i: int, word: WordView)
    requires
        0 <= i <= s.len(),
    ensures
        i <= quoted_from(s, i, word).1 <= s.len(),
    decreases s.len() - i,
{
    if i < s.len() {
        lemma_substituted(s, i, true);
        if s[i] == '"' {
        } else if s[i] == '\\' && i + 1 < s.len() && escapable(s[i + 1]) {
            lemma_quoted_from(s, i + 2, with_char(word, s[i + 1]));
        } else if s[i] == '\\' && i + 1 < s.len() && s[i + 1] == '\n' {
            lemma_quoted_from(s, i + 2, word);
        } else if substitutes(s, i, true) {
            lemma_quoted_from(s, substituted(s, i, true), unknown(word));
        } else {
            lemma_quoted_from(s, i + 1, with_char(word, s[i]));
        }
    }
}

pub proof fn lemma_word_from(s: Seq<char>, start: int, i: int, word: WordView)
    requires
        0 <= i <= s.len(),
    ensures
        i <= word_from(s, start, i, word).1 <= s.len(),
        i < s.len() && !ends_word(s[i]) ==> i < word_from(s, start, i, word).1,
    decreases s.len() - i,
{
    broadcast use group_runs;

    if i < s.len() && !ends_word(s[i]) {
        lemma_substituted(s, i, false);
        lemma_quoted_from(s, i + 1, word);
        if s[i] == '\'' {
            let end = run_end(s, Class::Not('\''), i + 1);
            lemma_word_from(
                s,
                start,
                past(s, end),
                WordView { text: word.text + s.subrange(i + 1, end), ..word },
            );
        } else if s[i] == '"' {
            let (word, end) = quoted_from(s, i + 1, word);
            lemma_word_from(s, start, end, word);
        } else if s[i] == '\\' {
            if i + 1 < s.len() {
                lemma_word_from(s, start, i + 2, word);
                lemma_word_from(s, start, i + 2, with_char(word, s[i + 1]));
            }
        } else if substitutes(s, i, false) {
            lemma_word_from(s, start, substitution_end(s, i), unknown(word));
        } else {
            lemma_word_from(s, start, i + 1, unknown(word));
            lemma_word_from(
                s,
                start,
                i + 1,
                WordView { pattern: true, ..with_char(word, s[i]) },
            );
            lemma_word_from(s, start, i + 1, with_char(word, s[i]));
        }
    }
}

fn is_parameter(c: char) -> (b: bool)
    ensures
        b == parameter(c),
{
    c == '@' || c == '*' || c == '#' || c == '?' || c == '-' || c == '$' || c == '!'
}

fn is_substitution(chars: &[char], i: usize, quoted: bool) -> (b: bool)
    requires
        i < chars@.len(),
    ensures
        b == substitutes(chars@, i as int, quoted),
{
    if chars[i] == '`' {
        return true;
    }
    if chars[i] != '$' || i + 1 >= chars.len() {
        return false;
    }
    let c = chars[i + 1];
    c == '(' || c == '{' || Class::Name.holds(c) || is_parameter(c) || (!quoted && (c == '\'' || c
        == '"'))
}

fn end_of_substitution(chars: &[char], start: usize, quoted: bool) -> (end: usize)
    requires
        start < chars@.len(),
    ensures
        end == substituted(chars@, start as int, quoted),
        start < end <= chars@.len(),
{
    proof {
        lemma_substituted(chars@, start as int, quoted);
    }
    let len: usize = chars.len();
    if chars[start] == '`' {
        return end_of_nest(chars, start + 1, Nest::Tick);
    }
    if start + 1 >= len {
        return start + 1;
    }
    let c = chars[start + 1];
    if c == '(' {
        end_of_nest(chars, start + 2, Nest::Paren)
    } else if c == '{' {
        let nest = if quoted {
            Nest::QuotedBrace
        } else {
            Nest::Brace
        };
        end_of_nest(chars, start + 2, nest)
    } else if c == '\'' {
        end_of_escaped(chars, start + 2)
    } else if c == '"' {
        start + 1
    } else if Class::Name.holds(c) {
        end_of_run(chars, Class::Name, start + 1)
    } else {
        start + 2
    }
}

/// Where a variable or command substitution starting at `start` ends.
pub fn substitution(chars: &[char], start: usize) -> (end: usize)
    requires
        start < chars@.len(),
    ensures
        end == substitution_end(chars@, start as int),
        start < end <= chars@.len(),
{
    end_of_substitution(chars, start, false)
}

/// Reads on in double quotes from `from`, returning where that leaves off.
fn quoted(chars: &[char], from: usize, word: &mut Word) -> (end: usize)
    requires
        from <= chars@.len(),
    ensures
        (final(word)@, end as int) == quoted_from(chars@, from as int, old(word)@),
        from <= end <= chars@.len(),
{
    let mut i: usize = from;
    while i < chars.len()
        invariant
            from <= i <= chars@.len(),
            quoted_from(chars@, i as int, word@) == quoted_from(
                chars@,
                from as int,
                old(word)@,
            ),
        decreases chars@.len() - i,
    {
        let ghost before = word@;
        let c = chars[i];
        if c == '"' {
            return i + 1;
        }
        if c == '\\' && i + 1 < chars.len() && (chars[i + 1] == '"' || chars[i + 1] == '\\'
            || chars[i + 1] == '$' || chars[i + 1] == '`') {
            word.text.push(chars[i + 1]);
            proof {
                assert(word@ =~= with_char(before, chars@[i + 1]));
            }
            i += 2;
        } else if c == '\\' && i + 1 < chars.len() && chars[i + 1] == '\n' {
            i += 2;
        } else if is_substitution(chars, i, true) {
            word.known = false;
            proof {
                assert(word@ =~= unknown(before));
            }
            i = end_of_substitution(chars, i, true);
        } else {
            word.text.push(c);
            proof {
                assert(word@ =~= with_char(before, c));
            }
            i += 1;
        }
    }
    i
}

/// The word starting at `start`, and where it ends.
pub fn word(chars: &[char], start: usize) -> (r: (Word, usize))
    requires
        start <= chars@.len(),
    ensures
        (r.0@, r.1 as int) == word_at(chars@, start as int),
        start <= r.1 <= chars@.len(),
{
    let mut word = Word { text: Vec::new(), known: true, pattern: false };
    proof {
        assert(word@ =~= no_word());
    }
    let mut i: usize = start;
    while i < chars.len()
        invariant
            start <= i <= chars@.len(),
            word_from(chars@, start as int, i as int, word@) == word_at(chars@, start as int),
        decreases chars@.len() - i,
    {
        broadcast use group_runs;

        let c = chars[i];
        if c == ' ' || c == '\t' || c == '\n' || c == ';' || c == '&' || c == '|' || c == '<' || c
            == '>' || c == '(' || c == ')' {
            return (word, i);
        }
        if c == '\'' {
            let end = end_of_run(chars, Class::Not('\''), i + 1);
            push_all(&mut word.text, &piece(chars, i + 1, end));
            i = past_end(chars, end);
        } else if c == '"' {
            proof {
                lemma_quoted_from(chars@, i + 1, word@);
            }
            i = quoted(chars, i + 1, &mut word);
        } else if c == '\\' {
            if i + 1 >= chars.len() {
                return (word, i + 1);
            }
            if chars[i + 1] != '\n' {
                word.text.push(chars[i + 1]);
            }
            i += 2;
        } else if is_substitution(chars, i, false) {
            word.known = false;
            i = substitution(chars, i);
        } else if c == '~' && i == start {
            word.known = false;
            i += 1;
        } else if !Class::Literal.holds(c) {
            word.pattern = true;
            word.text.push(c);
            i += 1;
        } else {
            word.text.push(c);
            i += 1;
        }
    }
    (word, i)
}

// ---------------------------------------------------------------------------
// How commands are read
// ---------------------------------------------------------------------------

/// How far a command has been read.
#[verifier::ext_equal]
pub struct Lexed {
    pub i: int,
    pub tokens: Seq<TokenView>,
    /// Here-documents opened on the current line, whose bodies follow it.
    pub heredocs: Seq<HeredocView>,
    /// Set when the next word is a here-document's delimiter: whether its
    /// lines' tabs are stripped.
    pub delimiter_next: Option<bool>,
}

pub open spec fn with_token(lexed: Lexed, token: TokenView, i: int) -> Lexed {
    Lexed { i, tokens: lexed.tokens.push(token), ..lexed }
}

/// How many characters a doubled operator takes, `twice` saying it is.
pub open spec fn width(twice: bool) -> int {
    if twice {
        2
    } else {
        1
    }
}

/// The command read one step further.
pub open spec fn lex_next(s: Seq<char>, lexed: Lexed) -> Lexed {
    let i = lexed.i;
    let c = s[i];
    let next = char_at(s, i + 1);
    let third = char_at(s, i + 2);
    if c == ' ' || c == '\t' {
        Lexed { i: i + 1, ..lexed }
    } else if c == '\\' && next == Some('\n') {
        // The line goes on: this is no word.
        Lexed { i: i + 2, ..lexed }
    } else if c == '\n' {
        Lexed {
            heredocs: seq![],
            ..with_token(lexed, TokenView::Break, bodies_end(s, i + 1, lexed.heredocs))
        }
    } else if c == '#' {
        Lexed { i: run_end(s, Class::Not('\n'), i), ..lexed }
    } else if c == ';' || c == '(' || c == ')' {
        with_token(lexed, TokenView::Break, i + 1)
    } else if c == '|' {
        with_token(lexed, TokenView::Break, i + width(next == Some('|')))
    } else if c == '&' && next == Some('>') {
        with_token(
            lexed,
            TokenView::Redirect(Redirect::Write),
            i + 1 + width(third == Some('>')),
        )
    } else if c == '&' {
        with_token(lexed, TokenView::Break, i + width(next == Some('&')))
    } else if c == '<' && next == Some('<') && third == Some('<') {
        with_token(lexed, TokenView::Redirect(Redirect::NotAFile), i + 3)
    } else if c == '<' && next == Some('<') {
        Lexed {
            i: i + 1 + width(third == Some('-')),
            delimiter_next: Some(third == Some('-')),
            ..lexed
        }
    } else if (c == '<' || c == '>') && next == Some('&') {
        with_token(lexed, TokenView::Redirect(Redirect::NotAFile), i + 2)
    } else if c == '<' {
        with_token(lexed, TokenView::Redirect(Redirect::Read), i + width(next == Some('>')))
    } else if c == '>' {
        with_token(
            lexed,
            TokenView::Redirect(Redirect::Write),
            i + width(next == Some('>') || next == Some('|')),
        )
    } else {
        // A descriptor's number before a redirect belongs to it.
        let digits = run_end(s, Class::Digit, i);
        if digits > i && (char_at(s, digits) == Some('<') || char_at(s, digits) == Some('>')) {
            Lexed { i: digits, ..lexed }
        } else {
            let (word, end) = word_at(s, i);
            match lexed.delimiter_next {
                Some(strip_tabs) => Lexed {
                    i: end,
                    heredocs: lexed.heredocs.push(
                        HeredocView { delimiter: word.text, strip_tabs },
                    ),
                    delimiter_next: None,
                    ..lexed
                },
                None => with_token(lexed, TokenView::Word(word), end),
            }
        }
    }
}

pub proof fn lemma_lex_next_advances(s: Seq<char>, lexed: Lexed)
    requires
        0 <= lexed.i < s.len(),
    ensures
        lexed.i < lex_next(s, lexed).i <= s.len(),
{
    broadcast use group_runs;

    let i = lexed.i;
    lemma_bodies_end(s, i + 1, lexed.heredocs);
    lemma_word_from(s, i, i, no_word());
    if s[i] == '#' {
        assert(Class::Not('\n').has(s[i]));
        assert(run_end(s, Class::Not('\n'), i) > i);
    }
}

/// The tokens of the command read to its end.
pub open spec fn lex(s: Seq<char>, lexed: Lexed) -> Seq<TokenView>
    decreases s.len() - lexed.i,
    when 0 <= lexed.i <= s.len()
    via lex_advances
{
    if lexed.i >= s.len() {
        lexed.tokens
    } else {
        lex(s, lex_next(s, lexed))
    }
}

#[via_fn]
proof fn lex_advances(s: Seq<char>, lexed: Lexed) {
    if lexed.i < s.len() {
        lemma_lex_next_advances(s, lexed);
    }
}

/// The tokens of a command.
pub open spec fn tokenized(command: Seq<char>) -> Seq<TokenView> {
    lex(command, Lexed { i: 0, tokens: seq![], heredocs: seq![], delimiter_next: None })
}

/// The tokens of a command.
pub fn tokens(command: &str) -> (r: Vec<Token>)
    ensures
        token_views(r@) == tokenized(command@),
{
    let chars: Vec<char> = chars_of(command);
    let ghost s = chars@;
    let mut tokens: Vec<Token> = Vec::new();
    let mut heredocs: Vec<Heredoc> = Vec::new();
    let mut delimiter_next: Option<bool> = None;
    let mut i: usize = 0;
    proof {
        assert(token_views(tokens@) =~= seq![]);
        assert(heredoc_views(heredocs@) =~= seq![]);
    }
    while i < chars.len()
        invariant
            i <= chars@.len(),
            s == chars@,
            lex(
                s,
                (Lexed {
                    i: i as int,
                    tokens: token_views(tokens@),
                    heredocs: heredoc_views(heredocs@),
                    delimiter_next,
                }),
            ) == tokenized(s),
        decreases chars@.len() - i,
    {
        broadcast use group_runs;

        let ghost lexed = Lexed {
            i: i as int,
            tokens: token_views(tokens@),
            heredocs: heredoc_views(heredocs@),
            delimiter_next,
        };
        proof {
            lemma_lex_next_advances(s, lexed);
        }
        let c = chars[i];
        let next: Option<char> = if i + 1 < chars.len() {
            Some(chars[i + 1])
        } else {
            None
        };
        let third: Option<char> = if next.is_some() && i + 2 < chars.len() {
            Some(chars[i + 2])
        } else {
            None
        };
        let mut token: Option<Token> = None;
        if c == ' ' || c == '\t' {
            i += 1;
        } else if c == '\\' && next == Some('\n') {
            i += 2;
        } else if c == '\n' {
            token = Some(Token::Break);
            i = end_of_bodies(&chars, i + 1, &heredocs);
            heredocs = Vec::new();
            proof {
                assert(heredoc_views(heredocs@) =~= seq![]);
            }
        } else if c == '#' {
            i = end_of_run(&chars, Class::Not('\n'), i);
        } else if c == ';' || c == '(' || c == ')' {
            token = Some(Token::Break);
            i += 1;
        } else if c == '|' {
            token = Some(Token::Break);
            i += if next == Some('|') {
                2
            } else {
                1
            };
        } else if c == '&' && next == Some('>') {
            token = Some(Token::Redirect(Redirect::Write));
            i += if third == Some('>') {
                3
            } else {
                2
            };
        } else if c == '&' {
            token = Some(Token::Break);
            i += if next == Some('&') {
                2
            } else {
                1
            };
        } else if c == '<' && next == Some('<') && third == Some('<') {
            token = Some(Token::Redirect(Redirect::NotAFile));
            i += 3;
        } else if c == '<' && next == Some('<') {
            let strip_tabs = third == Some('-');
            i += if strip_tabs {
                3
            } else {
                2
            };
            delimiter_next = Some(strip_tabs);
        } else if (c == '<' || c == '>') && next == Some('&') {
            token = Some(Token::Redirect(Redirect::NotAFile));
            i += 2;
        } else if c == '<' {
            token = Some(Token::Redirect(Redirect::Read));
            i += if next == Some('>') {
                2
            } else {
                1
            };
        } else if c == '>' {
            token = Some(Token::Redirect(Redirect::Write));
            i += if next == Some('>') || next == Some('|') {
                2
            } else {
                1
            };
        } else {
            let digits = end_of_run(&chars, Class::Digit, i);
            if digits > i && digits < chars.len() && (chars[digits] == '<' || chars[digits]
                == '>') {
                i = digits;
            } else {
                let (word, end) = word(&chars, i);
                i = end;
                match delimiter_next {
                    Some(strip_tabs) => {
                        let ghost before = heredoc_views(heredocs@);
                        let heredoc = Heredoc { delimiter: word.text, strip_tabs };
                        heredocs.push(heredoc);
                        delimiter_next = None;
                        proof {
                            assert(heredoc_views(heredocs@) =~= before.push(heredoc@));
                        }
                    },
                    None => {
                        token = Some(Token::Word(word));
                    },
                }
            }
        }
        match token {
            Some(token) => {
                let ghost before = token_views(tokens@);
                tokens.push(token);
                proof {
                    assert(token_views(tokens@) =~= before.push(token@));
                }
            },
            None => {},
        }
        proof {
            let now = Lexed {
                i: i as int,
                tokens: token_views(tokens@),
                heredocs: heredoc_views(heredocs@),
                delimiter_next,
            };
            assert(now =~= lex_next(s, lexed));
        }
    }
    tokens
}

} // verus!
