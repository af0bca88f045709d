//! What reading shell commands and laying them out have in common: where quoted
//! text, substitutions and here-documents end.
use vstd::prelude::*;
use crate::text::{end_of_run, is_at, is_white, piece, run_end, trim_start_of, trimmed_start_of,
    group_runs, white, Class};

verus! {

// ---------------------------------------------------------------------------
// Quotes and substitutions
// ---------------------------------------------------------------------------

/// What is open in a command, to be closed.
#[derive(Clone, Copy, Debug, PartialEq, Eq, Structural)]
pub enum Nest {
    /// A parenthesis, as of `$(`.
    Paren,
    /// A brace, as of `${`.
    Brace,
    /// A brace in double quotes, where a single quote is only that.
    QuotedBrace,
    /// Double quotes.
    Double,
    /// Backquotes.
    Tick,
}

impl Nest {
    pub open spec fn closer(self) -> char {
        match self {
            Nest::Paren => ')',
            Nest::Brace => '}',
            Nest::QuotedBrace => '}',
            Nest::Double => '"',
            Nest::Tick => '`',
        }
    }

    fn closes(self) -> (c: char)
        ensures
            c == self.closer(),
    {
        match self {
            Nest::Paren => ')',
            Nest::Brace => '}',
            Nest::QuotedBrace => '}',
            Nest::Double => '"',
            Nest::Tick => '`',
        }
    }
}

pub open spec fn char_at(s: Seq<char>, i: int) -> Option<char> {
    if 0 <= i < s.len() {
        Some(s[i])
    } else {
        None
    }
}

/// Just past `end`, or `end` itself at the end of `s`.
pub open spec fn past(s: Seq<char>, end: int) -> int {
    if end < s.len() {
        end + 1
    } else {
        end
    }
}

/// What `c`, and `next` after it, open in what is open already. The `$` of a
/// substitution opens it along with the bracket.
pub open spec fn opens(top: Nest, c: char, next: Option<char>) -> Option<Nest> {
    if top == Nest::Tick {
        None
    } else if c == '`' {
        Some(Nest::Tick)
    } else if c == '$' && next == Some('(') {
        Some(Nest::Paren)
    } else if c == '$' && next == Some('{') {
        if top == Nest::Double || top == Nest::QuotedBrace {
            Some(Nest::QuotedBrace)
        } else {
            Some(Nest::Brace)
        }
    } else if top == Nest::Double {
        None
    } else if c == '"' {
        Some(Nest::Double)
    } else if c == '(' && top == Nest::Paren {
        Some(Nest::Paren)
    } else if c == '{' && top != Nest::Paren {
        Some(top)
    } else {
        None
    }
}

/// Whether `c` after `before` starts a comment in what is open.
pub open spec fn comments(top: Nest, before: Option<char>, c: char) -> bool {
    top == Nest::Paren && c == '#' && (match before {
        Some(b) => white(b) || b == ';' || b == '&' || b == '|' || b == '(',
        None => true,
    })
}

/// Whether single quotes quote in what is open.
pub open spec fn single_quotes(top: Nest) -> bool {
    top == Nest::Paren || top == Nest::Brace
}

/// Where the text in `$'` quotes before `i` ends, `\\` in it escaping.
pub open spec fn escaped_end(s: Seq<char>, i: int) -> int
    decreases s.len() - i,
{
    if i < 0 || i >= s.len() {
        i
    } else if s[i] == '\\' {
        if i + 1 < s.len() {
            escaped_end(s, i + 2)
        } else {
            i + 1
        }
    } else if s[i] == '\'' {
        i + 1
    } else {
        escaped_end(s, i + 1)
    }
}

pub proof fn lemma_escaped_end(s: Seq<char>, i: int)
    requires
        0 <= i <= s.len(),
    ensures
        i <= escaped_end(s, i) <= s.len(),
    decreases s.len() - i,
{
    if i < s.len() {
        if s[i] == '\\' {
            if i + 1 < s.len() {
                lemma_escaped_end(s, i + 2);
            }
        } else if s[i] != '\'' {
            lemma_escaped_end(s, i + 1);
        }
    }
}

/// One step on from `i` towards where what is open is closed: how far that is,
/// and what is open there.
pub open spec fn close_step(s: Seq<char>, i: int, open: Seq<Nest>) -> (int, Seq<Nest>) {
    let top = open.last();
    let c = s[i];
    let next = char_at(s, i + 1);
    if c == '\\' {
        (past(s, i + 1), open)
    } else if c == top.closer() {
        (i + 1, open.drop_last())
    } else if single_quotes(top) && c == '$' && next == Some('\'') {
        (escaped_end(s, i + 2), open)
    } else if single_quotes(top) && c == '\'' {
        (past(s, run_end(s, Class::Not('\''), i + 1)), open)
    } else if comments(top, char_at(s, i - 1), c) {
        (run_end(s, Class::Not('\n'), i), open)
    } else {
        match opens(top, c, next) {
            Some(nest) => (
                if c == '$' {
                    i + 2
                } else {
                    i + 1
                },
                open.push(nest),
            ),
            None => (i + 1, open),
        }
    }
}

proof fn lemma_close_step(s: Seq<char>, i: int, open: Seq<Nest>)
    requires
        0 <= i < s.len(),
    ensures
        i < close_step(s, i, open).0 <= s.len(),
{
    broadcast use group_runs;

    if i + 2 <= s.len() {
        lemma_escaped_end(s, i + 2);
    }
    if s[i] == '#' {
        assert(Class::Not('\n').has(s[i]));
    }
}

/// Where all that is open at `i` is closed, quoted text and escapes passed
/// over.
pub open spec fn closed(s: Seq<char>, i: int, open: Seq<Nest>) -> int
    decreases s.len() - i,
    when 0 <= i <= s.len()
    via closed_advances
{
    if i >= s.len() || open.len() == 0 {
        i
    } else {
        let (next, open) = close_step(s, i, open);
        closed(s, next, open)
    }
}

#[via_fn]
proof fn closed_advances(s: Seq<char>, i: int, open: Seq<Nest>) {
    if i < s.len() {
        lemma_close_step(s, i, open);
    }
}

pub proof fn lemma_closed(s: Seq<char>, i: int, open: Seq<Nest>)
    requires
        0 <= i <= s.len(),
    ensures
        i <= closed(s, i, open) <= s.len(),
    decreases s.len() - i,
{
    if i < s.len() && open.len() > 0 {
        lemma_close_step(s, i, open);
        let (next, open) = close_step(s, i, open);
        lemma_closed(s, next, open);
    }
}

/// Just past `end`.
pub fn past_end(chars: &[char], end: usize) -> (r: usize)
    requires
        end <= chars@.len(),
    ensures
        r == past(chars@, end as int),
{
    if end < chars.len() {
        end + 1
    } else {
        end
    }
}

/// Where the text in `$'` quotes before `from` ends.
pub fn end_of_escaped(chars: &[char], from: usize) -> (i: usize)
    requires
        from <= chars@.len(),
    ensures
        i == escaped_end(chars@, from as int),
        from <= i <= chars@.len(),
{
    let mut i: usize = from;
    while i < chars.len()
        invariant
            from <= i <= chars@.len(),
            escaped_end(chars@, i as int) == escaped_end(chars@, from as int),
        decreases chars@.len() - i,
    {
        let c = chars[i];
        if c == '\\' {
            if i + 1 >= chars.len() {
                return i + 1;
            }
            i += 2;
        } else if c == '\'' {
            return i + 1;
        } else {
            i += 1;
        }
    }
    i
}

fn opened_by(top: Nest, c: char, next: Option<char>) -> (r: Option<Nest>)
    ensures
        r == opens(top, c, next),
{
    if top == Nest::Tick {
        None
    } else if c == '`' {
        Some(Nest::Tick)
    } else if c == '$' && next == Some('(') {
        Some(Nest::Paren)
    } else if c == '$' && next == Some('{') {
        if top == Nest::Double || top == Nest::QuotedBrace {
            Some(Nest::QuotedBrace)
        } else {
            Some(Nest::Brace)
        }
    } else if top == Nest::Double {
        None
    } else if c == '"' {
        Some(Nest::Double)
    } else if c == '(' && top == Nest::Paren {
        Some(Nest::Paren)
    } else if c == '{' && top != Nest::Paren {
        Some(top)
    } else {
        None
    }
}

fn starts_comment(chars: &[char], top: Nest, i: usize) -> (b: bool)
    requires
        i < chars@.len(),
    ensures
        b == comments(top, char_at(chars@, i - 1), chars@[i as int]),
{
    if top != Nest::Paren || chars[i] != '#' {
        return false;
    }
    if i == 0 {
        return true;
    }
    let before = chars[i - 1];
    is_white(before) || before == ';' || before == '&' || before == '|' || before == '('
}

/// Where what is opened just before `from` is closed.
pub fn end_of_nest(chars: &[char], from: usize, nest: Nest) -> (i: usize)
    requires
        from <= chars@.len(),
    ensures
        i == closed(chars@, from as int, seq![nest]),
        from <= i <= chars@.len(),
{
    let mut open: Vec<Nest> = Vec::new();
    open.push(nest);
    let mut i: usize = from;
    proof {
        assert(open@ =~= seq![nest]);
    }
    while i < chars.len() && open.len() > 0
        invariant
            from <= i <= chars@.len(),
            closed(chars@, i as int, open@) == closed(chars@, from as int, seq![nest]),
        decreases chars@.len() - i,
    {
        broadcast use group_runs;

        let ghost was = open@;
        let ghost at = i as int;
        proof {
            lemma_close_step(chars@, at, was);
        }
        let top = open[open.len() - 1];
        let c = chars[i];
        let next: Option<char> = if i + 1 < chars.len() {
            Some(chars[i + 1])
        } else {
            None
        };
        if c == '\\' {
            i = past_end(chars, i + 1);
        } else if c == top.closes() {
            let _ = open.pop();
            i += 1;
        } else if (top == Nest::Paren || top == Nest::Brace) && c == '$' && next == Some('\'') {
            i = end_of_escaped(chars, i + 2);
        } else if (top == Nest::Paren || top == Nest::Brace) && c == '\'' {
            i = past_end(chars, end_of_run(chars, Class::Not('\''), i + 1));
        } else if starts_comment(chars, top, i) {
            i = end_of_run(chars, Class::Not('\n'), i);
        } else {
            match opened_by(top, c, next) {
                Some(nest) => {
                    open.push(nest);
                    i += if c == '$' {
                        2
                    } else {
                        1
                    };
                },
                None => {
                    i += 1;
                },
            }
        }
        proof {
            assert(open@ =~= close_step(chars@, at, was).1);
            assert(i as int == close_step(chars@, at, was).0);
        }
    }
    i
}

// ---------------------------------------------------------------------------
// Here-documents
// ---------------------------------------------------------------------------

/// A here-document opened on a line, whose body follows the line.
pub struct Heredoc {
    pub delimiter: Vec<char>,
    /// Whether the tabs its lines start with are no part of them.
    pub strip_tabs: bool,
}

/// What a here-document's body ends at.
#[verifier::ext_equal]
pub struct HeredocView {
    pub delimiter: Seq<char>,
    pub strip_tabs: bool,
}

impl View for Heredoc {
    type V = HeredocView;

    open spec fn view(&self) -> HeredocView {
        HeredocView { delimiter: self.delimiter@, strip_tabs: self.strip_tabs }
    }
}

pub open spec fn heredoc_views(v: Seq<Heredoc>) -> Seq<HeredocView> {
    v.map_values(|h: Heredoc| h@)
}

/// Whether a line ends the here-document.
pub open spec fn closes(line: Seq<char>, heredoc: HeredocView) -> bool {
    heredoc.delimiter == if heredoc.strip_tabs {
        trim_start_of(line, Class::Is('\t'))
    } else {
        line
    }
}

/// Where the line starting at `i` ends, its line break included.
pub open spec fn next_line(s: Seq<char>, i: int) -> int {
    let end = run_end(s, Class::Not('\n'), i);
    if end < s.len() {
        end + 1
    } else {
        end
    }
}

/// Where the body of a here-document starting at `i` ends: after the first
/// line that closes it, or at the end.
pub open spec fn body_end(s: Seq<char>, i: int, heredoc: HeredocView) -> int
    decreases s.len() - i,
    when 0 <= i <= s.len()
    via body_end_advances
{
    if i >= s.len() {
        i
    } else if closes(s.subrange(i, run_end(s, Class::Not('\n'), i)), heredoc) {
        next_line(s, i)
    } else {
        body_end(s, next_line(s, i), heredoc)
    }
}

#[via_fn]
proof fn body_end_advances(s: Seq<char>, i: int, heredoc: HeredocView) {
    broadcast use group_runs;

}

/// Where the bodies of the here-documents, one after the other, end.
pub open spec fn bodies_end(s: Seq<char>, i: int, heredocs: Seq<HeredocView>) -> int
    decreases heredocs.len(),
{
    if heredocs.len() == 0 {
        i
    } else {
        bodies_end(s, body_end(s, i, heredocs[0]), heredocs.skip(1))
    }
}

pub proof fn lemma_body_end(s: Seq<char>, i: int, heredoc: HeredocView)
    requires
        0 <= i <= s.len(),
    ensures
        i <= body_end(s, i, heredoc) <= s.len(),
    decreases s.len() - i,
{
    broadcast use group_runs;

    if i < s.len() && !closes(s.subrange(i, run_end(s, Class::Not('\n'), i)), heredoc) {
        lemma_body_end(s, next_line(s, i), heredoc);
    }
}

pub proof fn lemma_bodies_end(s: Seq<char>, i: int, heredocs: Seq<HeredocView>)
    requires
        0 <= i <= s.len(),
    ensures
        i <= bodies_end(s, i, heredocs) <= s.len(),
    decreases heredocs.len(),
{
    if heredocs.len() > 0 {
        lemma_body_end(s, i, heredocs[0]);
        lemma_bodies_end(s, body_end(s, i, heredocs[0]), heredocs.skip(1));
    }
}

/// Whether a line ends the here-document.
pub fn is_closing(line: &[char], heredoc: &Heredoc) -> (b: bool)
    ensures
        b == closes(line@, heredoc@),
{
    let line = if heredoc.strip_tabs {
        trimmed_start_of(line, Class::Is('\t'))
    } else {
        let whole = piece(line, 0, line.len());
        proof {
            assert(whole@ =~= line@);
        }
        whole
    };
    let b = line.len() == heredoc.delimiter.len() && is_at(&line, &heredoc.delimiter, 0);
    proof {
        assert(line@.subrange(0, line@.len() as int) =~= line@);
    }
    b
}

/// Where the body of a here-document starting at `from` ends.
pub fn end_of_body(chars: &[char], from: usize, heredoc: &Heredoc) -> (i: usize)
    requires
        from <= chars@.len(),
    ensures
        i == body_end(chars@, from as int, heredoc@),
        from <= i <= chars@.len(),
{
    let mut i: usize = from;
    while i < chars.len()
        invariant
            from <= i <= chars@.len(),
            body_end(chars@, i as int, heredoc@) == body_end(chars@, from as int, heredoc@),
        decreases chars@.len() - i,
    {
        broadcast use group_runs;

        let end = end_of_run(chars, Class::Not('\n'), i);
        let line = piece(chars, i, end);
        let next: usize = if end < chars.len() {
            end + 1
        } else {
            end
        };
        if is_closing(&line, heredoc) {
            return next;
        }
        i = next;
    }
    i
}

/// Where the bodies of the here-documents end.
pub fn end_of_bodies(chars: &[char], from: usize, heredocs: &Vec<Heredoc>) -> (i: usize)
    requires
        from <= chars@.len(),
    ensures
        i == bodies_end(chars@, from as int, heredoc_views(heredocs@)),
        from <= i <= chars@.len(),
{
    let mut i: usize = from;
    let mut n: usize = 0;
    let ghost all = heredoc_views(heredocs@);
    proof {
        assert(all.skip(0) =~= all);
    }
    while n < heredocs.len()
        invariant
            from <= i <= chars@.len(),
            n <= heredocs@.len(),
            all == heredoc_views(heredocs@),
            bodies_end(chars@, i as int, all.skip(n as int)) == bodies_end(
                chars@,
                from as int,
                all,
            ),
        decreases heredocs@.len() - n,
    {
        proof {
            assert(all.skip(n as int)[0] == heredocs@[n as int]@);
            assert(all.skip(n as int).skip(1) =~= all.skip(n + 1));
        }
        i = end_of_body(chars, i, &heredocs[n]);
        n += 1;
    }
    i
}

} // verus!
