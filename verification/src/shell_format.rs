//! Shell commands laid out for reading: a command too long to follow on one
//! line is split at its top-level `&&`, `||`, `|` and `;`, each chained command
//! on a line of its own. Quoted text, substitutions, subshells, comments and
//! heredocs are left as they are.
use vstd::prelude::*;
use crate::shell::{bodies_end, body_end, closed, end_of_body, end_of_escaped, end_of_nest,
    escaped_end, heredoc_views, lemma_bodies_end, lemma_closed, lemma_escaped_end, past, past_end,
    Heredoc, HeredocView, Nest};
use crate::text::{chars_of, end_of_run, group_runs, is_white, piece, push_all, push_str, run_end, run_start,
    string_of, trim, trim_end, trim_end_of, trimmed, trimmed_end_of, white, Class};

verus! {

/// Commands this short, on one line, read fine as they are.
pub const ONE_LINE_CHARS: usize = 60;

/// Commands chained with `&&`, `||` or `|` are indented under the first.
pub const INDENT: &'static str = "  ";

// ---------------------------------------------------------------------------
// The layout
// ---------------------------------------------------------------------------

/// How far a layout has come.
#[verifier::ext_equal]
pub struct Laid {
    /// What of the command is laid out so far.
    pub i: int,
    pub out: Seq<char>,
    /// Nesting of `(`, `{` and `$(`: only operators outside them are split.
    pub depth: nat,
    /// Heredocs whose bodies start after the current line.
    pub heredocs: Seq<HeredocView>,
}

/// Where the quoted text whose quote is before `i` ends.
pub open spec fn quoted_end(s: Seq<char>, quote: char, i: int) -> int {
    if quote == '\'' {
        past(s, run_end(s, Class::Not('\''), i))
    } else if quote == '"' {
        closed(s, i, seq![Nest::Double])
    } else {
        closed(s, i, seq![Nest::Tick])
    }
}

/// Whether a `#` after `out` starts a comment.
pub open spec fn comment_may_follow(out: Seq<char>) -> bool {
    out.len() == 0 || white(out.last()) || out.last() == ';' || out.last() == '&' || out.last()
        == '|' || out.last() == '('
}

/// Whether a character ends a heredoc's delimiter wherever it stands.
pub open spec fn ends_delimiter(c: char) -> bool {
    c == ';' || c == '&' || c == '|' || c == '<' || c == '>' || c == '(' || c == ')'
}

/// Where the heredoc delimiter at `i` ends, `read` of it read so far, and what
/// it is without its quotes.
pub open spec fn delimiter_from(s: Seq<char>, i: int, read: Seq<char>) -> (int, Seq<char>)
    decreases s.len() - i,
{
    if i < 0 || i >= s.len() || (white(s[i]) && read.len() > 0) || ends_delimiter(s[i]) {
        (i, read)
    } else if s[i] == '\'' || s[i] == '"' || s[i] == '\\' || white(s[i]) {
        delimiter_from(s, i + 1, read)
    } else {
        delimiter_from(s, i + 1, read.push(s[i]))
    }
}

/// Where the spaces at `i`, and the line breaks that only continue the
/// command, end.
pub open spec fn blanks_end(s: Seq<char>, i: int) -> int
    decreases s.len() - i,
{
    if i < 0 || i >= s.len() {
        i
    } else if s[i] == ' ' || s[i] == '\t' || s[i] == '\n' {
        blanks_end(s, i + 1)
    } else if s[i] == '\\' && i + 1 < s.len() && s[i + 1] == '\n' {
        blanks_end(s, i + 2)
    } else {
        i
    }
}

/// `out` without the blanks, and any line continuations, ending its line.
pub open spec fn line_trimmed(out: Seq<char>) -> Seq<char>
    decreases out.len(),
    via line_trimmed_shortens
{
    let kept = trim_end_of(out, Class::Blank);
    if kept.len() >= 2 && kept[kept.len() - 2] == '\\' && kept.last() == '\n' {
        line_trimmed(kept.take(kept.len() - 2))
    } else {
        kept
    }
}

#[via_fn]
proof fn line_trimmed_shortens(out: Seq<char>) {
    broadcast use group_runs;

}

/// `out` with a new, indented line started with `operator`.
pub open spec fn broken(out: Seq<char>, operator: Seq<char>) -> Seq<char> {
    let kept = line_trimmed(out);
    (if kept.len() > 0 && kept.last() != '\n' {
        kept.push('\n')
    } else {
        kept
    }) + INDENT@ + operator + " "@
}

pub open spec fn at(s: Seq<char>, i: int) -> Option<char> {
    if 0 <= i < s.len() {
        Some(s[i])
    } else {
        None
    }
}

/// The layout with what is up to `end` copied as it is.
pub open spec fn copied(s: Seq<char>, laid: Laid, end: int) -> Laid {
    Laid { i: end, out: laid.out + s.subrange(laid.i, end), ..laid }
}

/// The layout with a line broken before `operator`.
pub open spec fn chained(s: Seq<char>, laid: Laid, operator: Seq<char>) -> Laid {
    Laid {
        i: blanks_end(s, laid.i + operator.len()),
        out: broken(laid.out, operator),
        ..laid
    }
}

/// The layout with the heredoc redirect and its delimiter copied.
pub open spec fn opened(s: Seq<char>, laid: Laid) -> Laid {
    let strip_tabs = at(s, laid.i + 2) == Some('-');
    let start = if strip_tabs {
        laid.i + 3
    } else {
        laid.i + 2
    };
    let (end, delimiter) = delimiter_from(s, start, seq![]);
    Laid {
        heredocs: if delimiter.len() > 0 {
            laid.heredocs.push(HeredocView { delimiter, strip_tabs })
        } else {
            laid.heredocs
        },
        ..copied(s, laid, end)
    }
}

/// The layout one step further.
pub open spec fn lay_next(s: Seq<char>, laid: Laid) -> Laid {
    let i = laid.i;
    let c = s[i];
    let next = at(s, i + 1);
    if c == '\\' {
        copied(
            s,
            laid,
            if next is Some {
                i + 2
            } else {
                i + 1
            },
        )
    } else if c == '\'' || c == '"' || c == '`' {
        copied(s, laid, quoted_end(s, c, i + 1))
    } else if c == '$' && next == Some('\'') {
        copied(s, laid, escaped_end(s, i + 2))
    } else if c == '#' && comment_may_follow(laid.out) {
        copied(s, laid, run_end(s, Class::Not('\n'), i))
    } else if c == '(' || c == '{' {
        Laid { depth: laid.depth + 1, ..copied(s, laid, i + 1) }
    } else if c == ')' || c == '}' {
        Laid {
            depth: if laid.depth > 0 {
                (laid.depth - 1) as nat
            } else {
                0
            },
            ..copied(s, laid, i + 1)
        }
    } else if c == '\n' {
        Laid {
            heredocs: seq![],
            ..copied(s, laid, bodies_end(s, i + 1, laid.heredocs))
        }
    } else if c == '<' && next == Some('<') && at(s, i + 2) == Some('<') {
        copied(s, laid, i + 3)
    } else if c == '<' && next == Some('<') {
        opened(s, laid)
    } else if laid.depth > 0 || laid.heredocs.len() > 0 {
        copied(s, laid, i + 1)
    } else if c == '&' && next == Some('&') {
        chained(s, laid, "&&"@)
    } else if c == '|' && next == Some('|') {
        chained(s, laid, "||"@)
    } else if c == '|' && next == Some('&') {
        chained(s, laid, "|&"@)
    } else if c == '|' {
        chained(s, laid, "|"@)
    } else if c == ';' && next == Some(';') {
        copied(s, laid, i + 2)
    } else if c == ';' {
        Laid { i: blanks_end(s, i + 1), out: line_trimmed(laid.out) + ";\n"@, ..laid }
    } else {
        copied(s, laid, i + 1)
    }
}

pub proof fn lemma_quoted_end(s: Seq<char>, quote: char, i: int)
    requires
        0 <= i <= s.len(),
    ensures
        i <= quoted_end(s, quote, i) <= s.len(),
{
    broadcast use group_runs;

    lemma_closed(s, i, seq![Nest::Double]);
    lemma_closed(s, i, seq![Nest::Tick]);
}

pub proof fn lemma_delimiter_from(s: Seq<char>, i: int, read: Seq<char>)
    requires
        0 <= i <= s.len(),
    ensures
        i <= delimiter_from(s, i, read).0 <= s.len(),
    decreases s.len() - i,
{
    if i < s.len() {
        lemma_delimiter_from(s, i + 1, read);
        lemma_delimiter_from(s, i + 1, read.push(s[i]));
    }
}

pub proof fn lemma_blanks_end(s: Seq<char>, i: int)
    requires
        0 <= i <= s.len(),
    ensures
        i <= blanks_end(s, i) <= s.len(),
    decreases s.len() - i,
{
    if i < s.len() {
        lemma_blanks_end(s, i + 1);
        if i + 1 < s.len() {
            lemma_blanks_end(s, i + 2);
        }
    }
}

pub proof fn lemma_operators()
    ensures
        "&&"@ == seq!['&', '&'],
        "||"@ == seq!['|', '|'],
        "|&"@ == seq!['|', '&'],
        "|"@ == seq!['|'],
        ";\n"@ == seq![';', '\n'],
        " "@ == seq![' '],
        INDENT@ == seq![' ', ' '],
{
    reveal_strlit("&&");
    reveal_strlit("||");
    reveal_strlit("|&");
    reveal_strlit("|");
    reveal_strlit(";\n");
    reveal_strlit(" ");
    reveal_strlit("  ");
    assert("&&"@ =~= seq!['&', '&']);
    assert("||"@ =~= seq!['|', '|']);
    assert("|&"@ =~= seq!['|', '&']);
    assert("|"@ =~= seq!['|']);
    assert(";\n"@ =~= seq![';', '\n']);
    assert(" "@ =~= seq![' ']);
    assert(INDENT@ =~= seq![' ', ' ']);
}

pub proof fn lemma_lay_next_advances(s: Seq<char>, laid: Laid)
    requires
        0 <= laid.i < s.len(),
    ensures
        laid.i < lay_next(s, laid).i <= s.len(),
        lay_next(s, laid).depth <= laid.depth + 1,
{
    broadcast use group_runs;

    let i = laid.i;
    let c = s[i];
    lemma_operators();
    lemma_quoted_end(s, c, i + 1);
    lemma_bodies_end(s, i + 1, laid.heredocs);
    lemma_blanks_end(s, i + 1);
    if i + 1 < s.len() {
        lemma_escaped_end(s, i + 2);
        lemma_blanks_end(s, i + 2);
        lemma_delimiter_from(s, i + 2, seq![]);
    }
    if i + 2 < s.len() {
        lemma_delimiter_from(s, i + 3, seq![]);
    }
    if c == '#' {
        assert(Class::Not('\n').has(s[i]));
        assert(run_end(s, Class::Not('\n'), i) > i);
    }
}

/// The layout to its end.
pub open spec fn lay_out(s: Seq<char>, laid: Laid) -> Seq<char>
    decreases s.len() - laid.i,
    when 0 <= laid.i <= s.len()
    via lay_out_advances
{
    if laid.i >= s.len() {
        laid.out
    } else {
        lay_out(s, lay_next(s, laid))
    }
}

#[via_fn]
proof fn lay_out_advances(s: Seq<char>, laid: Laid) {
    if laid.i < s.len() {
        lemma_lay_next_advances(s, laid);
    }
}

/// Whether a command reads fine on the line it is on.
pub open spec fn fits_one_line(s: Seq<char>) -> bool {
    !s.contains('\n') && s.len() <= ONE_LINE_CHARS
}

pub open spec fn start() -> Laid {
    Laid { i: 0, out: seq![], depth: 0, heredocs: seq![] }
}

/// A command laid out for reading.
pub open spec fn formatted(command: Seq<char>) -> Seq<char> {
    let s = trim(command);
    if fits_one_line(s) {
        s
    } else {
        trim_end(lay_out(s, start()))
    }
}

// ---------------------------------------------------------------------------
// Laying out
// ---------------------------------------------------------------------------

/// A command laid out for reading.
pub fn format_command(command: &str) -> (r: String)
    ensures
        r@ == formatted(command@),
{
    let chars = trimmed(&chars_of(command));
    let ghost s = chars@;
    let newline = end_of_run(&chars, Class::Not('\n'), 0);
    proof {
        broadcast use group_runs;

        if newline < s.len() {
            assert(s[newline as int] == '\n');
        } else if s.contains('\n') {
            let k = choose|k: int| 0 <= k < s.len() && s[k] == '\n';
            assert(Class::Not('\n').has(s[k]));
        }
        assert(s.contains('\n') == (newline < s.len()));
    }
    if newline == chars.len() && chars.len() <= ONE_LINE_CHARS {
        return string_of(&chars);
    }
    let mut out: Vec<char> = Vec::new();
    let mut depth: usize = 0;
    let mut heredocs: Vec<Heredoc> = Vec::new();
    let mut i: usize = 0;
    proof {
        assert(heredoc_views(heredocs@) =~= seq![]);
    }
    while i < chars.len()
        invariant
            i <= chars@.len(),
            s == chars@,
            depth <= i,
            lay_out(
                s,
                (Laid {
                    i: i as int,
                    out: out@,
                    depth: depth as nat,
                    heredocs: heredoc_views(heredocs@),
                }),
            ) == lay_out(s, start()),
        decreases chars@.len() - i,
    {
        broadcast use group_runs;

        let ghost laid = Laid {
            i: i as int,
            out: out@,
            depth: depth as nat,
            heredocs: heredoc_views(heredocs@),
        };
        proof {
            lemma_lay_next_advances(s, laid);
            lemma_operators();
        }
        let c = chars[i];
        let next: Option<char> = if i + 1 < chars.len() {
            Some(chars[i + 1])
        } else {
            None
        };
        let third: Option<char> = if next.is_some() && i + 2 < chars.len() {
            Some(chars[i + 2])
        } else {
            None
        };
        if c == '\\' {
            let end: usize = if next.is_some() {
                i + 2
            } else {
                i + 1
            };
            i = copy(&chars, i, end, &mut out);
        } else if c == '\'' || c == '"' || c == '`' {
            i = copy_quoted(&chars, i, &mut out);
        } else if c == '$' && next == Some('\'') {
            let end = end_of_escaped(&chars, i + 2);
            i = copy(&chars, i, end, &mut out);
        } else if c == '#' && (out.len() == 0 || is_white(out[out.len() - 1]) || out[out.len() - 1]
            == ';' || out[out.len() - 1] == '&' || out[out.len() - 1] == '|' || out[out.len() - 1]
            == '(') {
            let end = end_of_run(&chars, Class::Not('\n'), i);
            i = copy(&chars, i, end, &mut out);
        } else if c == '(' || c == '{' {
            depth += 1;
            let end: usize = i + 1;
            i = copy(&chars, i, end, &mut out);
        } else if c == ')' || c == '}' {
            if depth > 0 {
                depth -= 1;
            }
            let end: usize = i + 1;
            i = copy(&chars, i, end, &mut out);
        } else if c == '\n' {
            i = copy_bodies(&chars, i, &heredocs, &mut out);
            heredocs = Vec::new();
            proof {
                assert(heredoc_views(heredocs@) =~= seq![]);
            }
        } else if c == '<' && next == Some('<') && third == Some('<') {
            let end: usize = i + 3;
            i = copy(&chars, i, end, &mut out);
        } else if c == '<' && next == Some('<') {
            let strip_tabs = third == Some('-');
            let from: usize = if strip_tabs {
                i + 3
            } else {
                i + 2
            };
            let (end, delimiter) = read_delimiter(&chars, from);
            if delimiter.len() > 0 {
                let ghost before = heredoc_views(heredocs@);
                let heredoc = Heredoc { delimiter, strip_tabs };
                heredocs.push(heredoc);
                proof {
                    assert(heredoc_views(heredocs@) =~= before.push(heredoc@));
                }
            }
            i = copy(&chars, i, end, &mut out);
        } else if depth > 0 || heredocs.len() > 0 {
            // Splitting before a heredoc's body would read as if the body
            // belonged to the last chained command, so its line stays whole.
            let end: usize = i + 1;
            i = copy(&chars, i, end, &mut out);
        } else if c == '&' && next == Some('&') {
            i = break_line(&chars, i + 2, "&&", &mut out);
        } else if c == '|' && next == Some('|') {
            i = break_line(&chars, i + 2, "||", &mut out);
        } else if c == '|' && next == Some('&') {
            i = break_line(&chars, i + 2, "|&", &mut out);
        } else if c == '|' {
            i = break_line(&chars, i + 1, "|", &mut out);
        } else if c == ';' && next == Some(';') {
            let end: usize = i + 2;
            i = copy(&chars, i, end, &mut out);
        } else if c == ';' {
            trim_line_end(&mut out);
            push_str(&mut out, ";\n");
            i = skip_blanks(&chars, i + 1);
        } else {
            let end: usize = i + 1;
            i = copy(&chars, i, end, &mut out);
        }
        proof {
            let now = Laid {
                i: i as int,
                out: out@,
                depth: depth as nat,
                heredocs: heredoc_views(heredocs@),
            };
            assert(heredocs@.len() == heredoc_views(heredocs@).len());
            assert(now =~= lay_next(s, laid));
        }
    }
    string_of(&trimmed_end_of(&out, Class::White))
}

/// Copies what is from `from` up to `to` as it is, returning `to`.
fn copy(chars: &[char], from: usize, to: usize, out: &mut Vec<char>) -> (end: usize)
    requires
        from <= to <= chars@.len(),
    ensures
        end == to,
        final(out)@ == old(out)@ + chars@.subrange(from as int, to as int),
{
    push_all(out, &piece(chars, from, to));
    to
}

/// Copies the quoted text starting at `start`, returning the index after it.
pub fn copy_quoted(chars: &[char], start: usize, out: &mut Vec<char>) -> (end: usize)
    requires
        start < chars@.len(),
        chars@[start as int] == '\'' || chars@[start as int] == '"' || chars@[start as int] == '`',
    ensures
        end == quoted_end(chars@, chars@[start as int], start + 1),
        start < end <= chars@.len(),
        final(out)@ == old(out)@ + chars@.subrange(start as int, end as int),
{
    let quote = chars[start];
    let i = if quote == '\'' {
        past_end(chars, end_of_run(chars, Class::Not('\''), start + 1))
    } else if quote == '"' {
        end_of_nest(chars, start + 1, Nest::Double)
    } else {
        end_of_nest(chars, start + 1, Nest::Tick)
    };
    proof {
        lemma_quoted_end(chars@, quote, start + 1);
    }
    copy(chars, start, i, out)
}

/// Copies a heredoc's body, up to and including its closing delimiter line,
/// returning the index after it.
pub fn copy_heredoc_body(
    chars: &[char],
    i: usize,
    heredoc: &Heredoc,
    out: &mut Vec<char>,
) -> (end: usize)
    requires
        i <= chars@.len(),
    ensures
        end == body_end(chars@, i as int, heredoc@),
        i <= end <= chars@.len(),
        final(out)@ == old(out)@ + chars@.subrange(i as int, end as int),
{
    let end = end_of_body(chars, i, heredoc);
    copy(chars, i, end, out)
}

/// Copies a line break and the heredoc bodies after it, returning the index
/// after them.
fn copy_bodies(chars: &[char], i: usize, heredocs: &Vec<Heredoc>, out: &mut Vec<char>) -> (end:
    usize)
    requires
        i < chars@.len(),
    ensures
        end == bodies_end(chars@, i + 1, heredoc_views(heredocs@)),
        i < end <= chars@.len(),
        final(out)@ == old(out)@ + chars@.subrange(i as int, end as int),
{
    let ghost all = heredoc_views(heredocs@);
    out.push(chars[i]);
    let mut end: usize = i + 1;
    let mut n: usize = 0;
    proof {
        assert(all.skip(0) =~= all);
        assert(out@ =~= old(out)@ + chars@.subrange(i as int, end as int));
    }
    while n < heredocs.len()
        invariant
            i < end <= chars@.len(),
            n <= heredocs@.len(),
            all == heredoc_views(heredocs@),
            bodies_end(chars@, end as int, all.skip(n as int)) == bodies_end(chars@, i + 1, all),
            out@ == old(out)@ + chars@.subrange(i as int, end as int),
        decreases heredocs@.len() - n,
    {
        proof {
            assert(all.skip(n as int)[0] == heredocs@[n as int]@);
            assert(all.skip(n as int).skip(1) =~= all.skip(n + 1));
        }
        end = copy_heredoc_body(chars, end, &heredocs[n], out);
        n += 1;
        proof {
            assert(out@ =~= old(out)@ + chars@.subrange(i as int, end as int));
        }
    }
    end
}

/// The heredoc delimiter at `from`: where it ends, and what it is without its
/// quotes.
pub fn read_delimiter(chars: &[char], from: usize) -> (r: (usize, Vec<char>))
    requires
        from <= chars@.len(),
    ensures
        (r.0 as int, r.1@) == delimiter_from(chars@, from as int, seq![]),
        from <= r.0 <= chars@.len(),
{
    let mut i: usize = from;
    let mut read: Vec<char> = Vec::new();
    proof {
        assert(read@ =~= seq![]);
    }
    while i < chars.len()
        invariant
            from <= i <= chars@.len(),
            delimiter_from(chars@, i as int, read@) == delimiter_from(
                chars@,
                from as int,
                seq![],
            ),
        decreases chars@.len() - i,
    {
        let c = chars[i];
        if (is_white(c) && read.len() > 0) || c == ';' || c == '&' || c == '|' || c == '<' || c
            == '>' || c == '(' || c == ')' {
            return (i, read);
        }
        if !(c == '\'' || c == '"' || c == '\\' || is_white(c)) {
            read.push(c);
        }
        i += 1;
    }
    (i, read)
}

/// Starts a new, indented line with `operator`, returning the index of what
/// follows it.
pub fn break_line(chars: &[char], after: usize, operator: &str, out: &mut Vec<char>) -> (i: usize)
    requires
        after <= chars@.len(),
    ensures
        i == blanks_end(chars@, after as int),
        after <= i <= chars@.len(),
        final(out)@ == broken(old(out)@, operator@),
{
    trim_line_end(out);
    if out.len() > 0 && out[out.len() - 1] != '\n' {
        out.push('\n');
    }
    push_str(out, INDENT);
    push_str(out, operator);
    push_str(out, " ");
    skip_blanks(chars, after)
}

/// Skips spaces, and line breaks that only continued the command.
pub fn skip_blanks(chars: &[char], from: usize) -> (i: usize)
    requires
        from <= chars@.len(),
    ensures
        i == blanks_end(chars@, from as int),
        from <= i <= chars@.len(),
{
    let mut i: usize = from;
    while i < chars.len()
        invariant
            from <= i <= chars@.len(),
            blanks_end(chars@, i as int) == blanks_end(chars@, from as int),
        decreases chars@.len() - i,
    {
        let c = chars[i];
        if c == ' ' || c == '\t' || c == '\n' {
            i += 1;
        } else if c == '\\' && i + 1 < chars.len() && chars[i + 1] == '\n' {
            i += 2;
        } else {
            return i;
        }
    }
    i
}

/// Trims the blanks, and any line continuations, ending the current line.
pub fn trim_line_end(out: &mut Vec<char>)
    ensures
        final(out)@ == line_trimmed(old(out)@),
{
    loop
        invariant
            line_trimmed(out@) == line_trimmed(old(out)@),
        decreases out@.len(),
    {
        broadcast use group_runs;

        let ghost before = out@;
        let kept = trimmed_end_of(out, Class::Blank);
        *out = kept;
        let len = out.len();
        if !(len >= 2 && out[len - 2] == '\\' && out[len - 1] == '\n') {
            return;
        }
        out.pop();
        out.pop();
        proof {
            assert(out@ =~= trim_end_of(before, Class::Blank).take(len - 2));
        }
    }
}

// ---------------------------------------------------------------------------
// What laying out keeps
// ---------------------------------------------------------------------------

/// Whether a character is there to be read: neither white space nor the
/// backslash that continues a line.
pub open spec fn inked(c: char) -> bool {
    !white(c) && c != '\\'
}

/// What there is to read in some text.
pub open spec fn ink(s: Seq<char>) -> Seq<char>
    decreases s.len(),
{
    if s.len() == 0 {
        seq![]
    } else if inked(s.last()) {
        ink(s.drop_last()).push(s.last())
    } else {
        ink(s.drop_last())
    }
}

pub proof fn lemma_ink_add(a: Seq<char>, b: Seq<char>)
    ensures
        ink(a + b) == ink(a) + ink(b),
    decreases b.len(),
{
    if b.len() == 0 {
        assert(a + b =~= a);
        assert(ink(a) + ink(b) =~= ink(a));
    } else {
        assert((a + b).drop_last() =~= a + b.drop_last());
        lemma_ink_add(a, b.drop_last());
        assert((a + b).last() == b.last());
        if inked(b.last()) {
            assert((ink(a) + ink(b.drop_last())).push(b.last()) =~= ink(a) + ink(b.drop_last()).push(
                b.last(),
            ));
        }
    }
}

/// Text with no ink adds none.
pub proof fn lemma_no_ink(s: Seq<char>)
    requires
        forall|k: int| 0 <= k < s.len() ==> !inked(#[trigger] s[k]),
    ensures
        ink(s) == Seq::<char>::empty(),
    decreases s.len(),
{
    if s.len() > 0 {
        let rest = s.drop_last();
        assert forall|k: int| 0 <= k < rest.len() implies !inked(#[trigger] rest[k]) by {
            assert(rest[k] == s[k]);
        }
        lemma_no_ink(rest);
        assert(!inked(s[s.len() - 1]));
    }
}

/// Cutting off a tail with no ink keeps the ink.
proof fn lemma_ink_take(s: Seq<char>, n: int)
    requires
        0 <= n <= s.len(),
        forall|k: int| n <= k < s.len() ==> !inked(#[trigger] s[k]),
    ensures
        ink(s.take(n)) == ink(s),
{
    let tail = s.skip(n);
    assert forall|k: int| 0 <= k < tail.len() implies !inked(#[trigger] tail[k]) by {
        assert(tail[k] == s[n + k]);
    }
    lemma_no_ink(tail);
    assert(s =~= s.take(n) + tail);
    lemma_ink_add(s.take(n), tail);
    assert(ink(s.take(n)) + Seq::<char>::empty() =~= ink(s.take(n)));
}

pub proof fn lemma_ink_between(s: Seq<char>, i: int, j: int)
    requires
        0 <= i <= j <= s.len(),
    ensures
        ink(s.skip(i)) == ink(s.subrange(i, j)) + ink(s.skip(j)),
{
    assert(s.skip(i) =~= s.subrange(i, j) + s.skip(j));
    lemma_ink_add(s.subrange(i, j), s.skip(j));
}

pub proof fn lemma_blanks_have_no_ink(s: Seq<char>, i: int)
    requires
        0 <= i <= s.len(),
    ensures
        forall|k: int| i <= k < blanks_end(s, i) ==> !inked(#[trigger] s[k]),
    decreases s.len() - i,
{
    if i < s.len() {
        if s[i] == ' ' || s[i] == '\t' || s[i] == '\n' {
            lemma_blanks_have_no_ink(s, i + 1);
        } else if s[i] == '\\' && i + 1 < s.len() && s[i + 1] == '\n' {
            lemma_blanks_have_no_ink(s, i + 2);
        }
    }
}

pub proof fn lemma_line_trimmed_keeps_ink(out: Seq<char>)
    ensures
        ink(line_trimmed(out)) == ink(out),
    decreases out.len(),
{
    broadcast use group_runs;

    let kept = trim_end_of(out, Class::Blank);
    let n = run_start(out, Class::Blank, out.len() as int);
    assert forall|k: int| n <= k < out.len() implies !inked(#[trigger] out[k]) by {
        assert(Class::Blank.has(out[k]));
    }
    lemma_ink_take(out, n);
    if kept.len() >= 2 && kept[kept.len() - 2] == '\\' && kept.last() == '\n' {
        lemma_ink_take(kept, kept.len() - 2);
        lemma_line_trimmed_keeps_ink(kept.take(kept.len() - 2));
    }
}

proof fn lemma_broken_keeps_ink(out: Seq<char>, operator: Seq<char>)
    ensures
        ink(broken(out, operator)) == ink(out) + ink(operator),
{
    lemma_operators();
    let kept = line_trimmed(out);
    lemma_line_trimmed_keeps_ink(out);
    let line = if kept.len() > 0 && kept.last() != '\n' {
        kept.push('\n')
    } else {
        kept
    };
    lemma_ink_take(kept.push('\n'), kept.len() as int);
    assert(kept.push('\n').take(kept.len() as int) =~= kept);
    lemma_no_ink(INDENT@);
    lemma_no_ink(" "@);
    lemma_ink_add(line, INDENT@);
    lemma_ink_add(line + INDENT@, operator);
    lemma_ink_add(line + INDENT@ + operator, " "@);
    assert(ink(broken(out, operator)) =~= ink(out) + ink(operator));
}

proof fn lemma_copied_keeps_ink(s: Seq<char>, laid: Laid, end: int)
    requires
        0 <= laid.i <= end <= s.len(),
    ensures
        ink(copied(s, laid, end).out) + ink(s.skip(end)) == ink(laid.out) + ink(s.skip(laid.i)),
{
    lemma_ink_add(laid.out, s.subrange(laid.i, end));
    lemma_ink_between(s, laid.i, end);
    assert((ink(laid.out) + ink(s.subrange(laid.i, end))) + ink(s.skip(end)) =~= ink(laid.out) + (
    ink(s.subrange(laid.i, end)) + ink(s.skip(end))));
}

/// Skipping `operator` and the blanks after it, with `ink` of the operator
/// already written, leaves the same to read.
proof fn lemma_skipped_keeps_ink(s: Seq<char>, i: int, operator: Seq<char>)
    requires
        0 <= i,
        i + operator.len() <= s.len(),
        s.subrange(i, i + operator.len()) == operator,
    ensures
        ink(s.skip(i)) == ink(operator) + ink(s.skip(blanks_end(s, i + operator.len()))),
{
    let after = i + operator.len();
    let end = blanks_end(s, after);
    lemma_blanks_end(s, after);
    lemma_blanks_have_no_ink(s, after);
    lemma_ink_between(s, i, after);
    lemma_ink_between(s, after, end);
    let gap = s.subrange(after, end);
    assert forall|k: int| 0 <= k < gap.len() implies !inked(#[trigger] gap[k]) by {
        assert(gap[k] == s[after + k]);
    }
    lemma_no_ink(gap);
    assert(ink(s.skip(after)) =~= ink(s.skip(end)));
}

proof fn lemma_chained_keeps_ink(s: Seq<char>, laid: Laid, operator: Seq<char>)
    requires
        0 <= laid.i,
        laid.i + operator.len() <= s.len(),
        s.subrange(laid.i, laid.i + operator.len()) == operator,
    ensures
        ink(chained(s, laid, operator).out) + ink(s.skip(chained(s, laid, operator).i)) == ink(
            laid.out,
        ) + ink(s.skip(laid.i)),
{
    lemma_broken_keeps_ink(laid.out, operator);
    lemma_skipped_keeps_ink(s, laid.i, operator);
    let rest = ink(s.skip(chained(s, laid, operator).i));
    assert((ink(laid.out) + ink(operator)) + rest =~= ink(laid.out) + (ink(operator) + rest));
}

proof fn lemma_lay_next_keeps_ink(s: Seq<char>, laid: Laid)
    requires
        0 <= laid.i < s.len(),
    ensures
        ink(lay_next(s, laid).out) + ink(s.skip(lay_next(s, laid).i)) == ink(laid.out) + ink(
            s.skip(laid.i),
        ),
{
    lemma_lay_next_advances(s, laid);
    lemma_operators();
    let i = laid.i;
    let c = s[i];
    let next = at(s, i + 1);
    let now = lay_next(s, laid);
    if now.out == laid.out + s.subrange(i, now.i) {
        lemma_copied_keeps_ink(s, laid, now.i);
    } else if next is Some && now.out == broken(laid.out, seq![c, s[i + 1]]) {
        assert(s.subrange(i, i + 2) =~= seq![c, s[i + 1]]);
        lemma_chained_keeps_ink(s, laid, seq![c, s[i + 1]]);
    } else if c == '|' {
        assert(s.subrange(i, i + 1) =~= seq!['|']);
        lemma_chained_keeps_ink(s, laid, seq!['|']);
    } else {
        let kept = line_trimmed(laid.out);
        lemma_line_trimmed_keeps_ink(laid.out);
        lemma_ink_add(kept, ";\n"@);
        lemma_ink_take(";\n"@, 1);
        assert(";\n"@.take(1) =~= seq![';']);
        assert(s.subrange(i, i + 1) =~= seq![';']);
        lemma_skipped_keeps_ink(s, i, seq![';']);
        let rest = ink(s.skip(now.i));
        assert((ink(laid.out) + ink(seq![';'])) + rest =~= ink(laid.out) + (ink(seq![';']) + rest));
    }
}

pub proof fn lemma_lay_out_keeps_ink(s: Seq<char>, laid: Laid)
    requires
        0 <= laid.i <= s.len(),
    ensures
        ink(lay_out(s, laid)) == ink(laid.out) + ink(s.skip(laid.i)),
    decreases s.len() - laid.i,
{
    if laid.i >= s.len() {
        assert(s.skip(laid.i) =~= Seq::<char>::empty());
        assert(ink(laid.out) + ink(s.skip(laid.i)) =~= ink(laid.out));
    } else {
        lemma_lay_next_advances(s, laid);
        lemma_lay_next_keeps_ink(s, laid);
        lemma_lay_out_keeps_ink(s, lay_next(s, laid));
    }
}

proof fn lemma_trim_keeps_ink(s: Seq<char>)
    ensures
        ink(trim(s)) == ink(s),
        ink(trim_end(s)) == ink(s),
{
    broadcast use group_runs;

    let n = run_end(s, Class::White, 0);
    let head = s.subrange(0, n);
    assert forall|k: int| 0 <= k < head.len() implies !inked(#[trigger] head[k]) by {
        assert(Class::White.has(s[k]));
    }
    lemma_no_ink(head);
    lemma_ink_between(s, 0, n);
    assert(s.skip(0) =~= s);
    assert(ink(s) =~= ink(s.skip(n)));
    let rest = s.skip(n);
    lemma_trim_end_keeps_ink(rest);
    lemma_trim_end_keeps_ink(s);
}

proof fn lemma_trim_end_keeps_ink(s: Seq<char>)
    ensures
        ink(trim_end(s)) == ink(s),
{
    broadcast use group_runs;

    let n = run_start(s, Class::White, s.len() as int);
    assert forall|k: int| n <= k < s.len() implies !inked(#[trigger] s[k]) by {
        assert(Class::White.has(s[k]));
    }
    lemma_ink_take(s, n);
}

/// Laying a command out moves only white space and line continuations:
/// everything else in it is kept, in order.
pub proof fn layout_keeps_what_is_written(command: Seq<char>)
    ensures
        ink(formatted(command)) == ink(command),
{
    let s = trim(command);
    lemma_trim_keeps_ink(command);
    if !fits_one_line(s) {
        lemma_lay_out_keeps_ink(s, start());
        lemma_trim_end_keeps_ink(lay_out(s, start()));
        assert(s.skip(0) =~= s);
        assert(ink(start().out) + ink(s) =~= ink(s));
    }
}

// ---------------------------------------------------------------------------
// What is left as it is
// ---------------------------------------------------------------------------

/// The layout after so many steps.
pub open spec fn laid_after(s: Seq<char>, n: nat) -> Laid
    decreases n,
{
    if n == 0 {
        start()
    } else {
        let before = laid_after(s, (n - 1) as nat);
        if 0 <= before.i < s.len() {
            lay_next(s, before)
        } else {
            before
        }
    }
}

/// Whether the command is split where the layout has come to.
pub open spec fn splits(s: Seq<char>, laid: Laid) -> bool {
    let c = s[laid.i];
    let next = at(s, laid.i + 1);
    laid.depth == 0 && laid.heredocs.len() == 0 && (c == '|' || (c == '&' && next == Some('&')) || (c
        == ';' && next != Some(';')))
}

/// Whether nothing is taken off the end of a line that ends with a character.
pub open spec fn solid(c: char) -> bool {
    !white(c) && c != '\\'
}

/// Where it isn't split, a command is copied.
pub proof fn lemma_copies(s: Seq<char>, laid: Laid)
    requires
        0 <= laid.i < s.len(),
        !splits(s, laid),
    ensures
        lay_next(s, laid).out == laid.out + s.subrange(laid.i, lay_next(s, laid).i),
{
}

proof fn lemma_line_trimmed_keeps(out: Seq<char>, kept: Seq<char>)
    requires
        kept.len() > 0,
        solid(kept.last()),
        kept.is_prefix_of(out),
    ensures
        kept.is_prefix_of(line_trimmed(out)),
    decreases out.len(),
{
    broadcast use group_runs;

    let rest = trim_end_of(out, Class::Blank);
    let last = kept.len() - 1;
    assert(kept == out.take(kept.len() as int));
    assert(kept[last] == out[last]);
    if rest.len() < kept.len() {
        assert(Class::Blank.has(out[last]));
        assert(false);
    }
    assert(rest.take(kept.len() as int) =~= kept);
    if rest.len() >= 2 && rest[rest.len() - 2] == '\\' && rest.last() == '\n' {
        let less = rest.take(rest.len() - 2);
        if less.len() < kept.len() {
            assert(kept[last] == rest[last]);
            assert(false);
        }
        assert(less.take(kept.len() as int) =~= kept);
        lemma_line_trimmed_keeps(less, kept);
    }
}

/// What ends with a solid character stays once it is laid out.
pub proof fn lemma_stays(s: Seq<char>, laid: Laid, kept: Seq<char>)
    requires
        0 <= laid.i <= s.len(),
        kept.len() > 0,
        solid(kept.last()),
        kept.is_prefix_of(laid.out),
    ensures
        kept.is_prefix_of(lay_out(s, laid)),
    decreases s.len() - laid.i,
{
    if laid.i < s.len() {
        lemma_lay_next_advances(s, laid);
        let next = lay_next(s, laid);
        if splits(s, laid) {
            lemma_line_trimmed_keeps(laid.out, kept);
            let cut = line_trimmed(laid.out);
            assert(cut.is_prefix_of(next.out)) by {
                assert(next.out.take(cut.len() as int) =~= cut);
            }
            assert(kept =~= next.out.take(kept.len() as int));
        } else {
            lemma_copies(s, laid);
            assert(kept =~= next.out.take(kept.len() as int));
        }
        lemma_stays(s, next, kept);
    }
}

proof fn lemma_laid_after(s: Seq<char>, n: nat)
    ensures
        0 <= laid_after(s, n).i <= s.len(),
        lay_out(s, laid_after(s, n)) == lay_out(s, start()),
    decreases n,
{
    if n > 0 {
        let before = laid_after(s, (n - 1) as nat);
        lemma_laid_after(s, (n - 1) as nat);
        if before.i < s.len() {
            lemma_lay_next_advances(s, before);
        }
    }
}

proof fn lemma_copied_on(s: Seq<char>, n: nat, m: nat)
    requires
        n <= m,
        forall|k: nat|
            n <= k < m ==> (#[trigger] laid_after(s, k)).i < s.len() && !splits(
                s,
                laid_after(s, k),
            ),
    ensures
        laid_after(s, n).i <= laid_after(s, m).i <= s.len(),
        laid_after(s, m).out == laid_after(s, n).out + s.subrange(
            laid_after(s, n).i,
            laid_after(s, m).i,
        ),
    decreases m - n,
{
    lemma_laid_after(s, n);
    lemma_laid_after(s, m);
    let first = laid_after(s, n);
    if n < m {
        let k = (m - 1) as nat;
        lemma_copied_on(s, n, k);
        let before = laid_after(s, k);
        lemma_copies(s, before);
        lemma_lay_next_advances(s, before);
        let last = laid_after(s, m);
        assert(s.subrange(first.i, last.i) =~= s.subrange(first.i, before.i) + s.subrange(
            before.i,
            last.i,
        ));
        assert(last.out =~= first.out + s.subrange(first.i, last.i));
    } else {
        assert(first.out =~= first.out + s.subrange(first.i, first.i));
    }
}

/// A stretch of a command that isn't split is left as it is, to its last
/// character that isn't white space or a backslash.
pub proof fn what_is_not_split_is_left_as_it_is(command: Seq<char>, n: nat, m: nat)
    requires
        !fits_one_line(trim(command)),
        n <= m,
        forall|k: nat|
            n <= k < m ==> (#[trigger] laid_after(trim(command), k)).i < trim(command).len()
                && !splits(trim(command), laid_after(trim(command), k)),
        laid_after(trim(command), n).i < laid_after(trim(command), m).i,
        solid(trim(command)[laid_after(trim(command), m).i - 1]),
    ensures
        (laid_after(trim(command), n).out + trim(command).subrange(
            laid_after(trim(command), n).i,
            laid_after(trim(command), m).i,
        )).is_prefix_of(formatted(command)),
{
    broadcast use group_runs;

    let s = trim(command);
    let first = laid_after(s, n);
    let last = laid_after(s, m);
    lemma_copied_on(s, n, m);
    lemma_laid_after(s, n);
    lemma_laid_after(s, m);
    let kept = last.out;
    assert(kept.last() == s[last.i - 1]);
    assert(kept.is_prefix_of(last.out)) by {
        assert(last.out.take(kept.len() as int) =~= kept);
    }
    lemma_stays(s, last, kept);
    let out = lay_out(s, start());
    let end = kept.len() - 1;
    assert(kept[end] == out[end]);
    if trim_end(out).len() < kept.len() {
        assert(Class::White.has(out[end]));
        assert(false);
    }
    assert(trim_end(out).take(kept.len() as int) =~= kept);
}

/// Nothing in a subshell, a group or a substitution is split, nor anything on a
/// line that a heredoc's body follows, nor anything quoted, escaped or in a
/// comment.
pub proof fn what_is_nested_is_not_split(s: Seq<char>, laid: Laid)
    requires
        0 <= laid.i < s.len(),
        laid.depth > 0 || laid.heredocs.len() > 0 || s[laid.i] == '\'' || s[laid.i] == '"'
            || s[laid.i] == '`' || s[laid.i] == '\\' || s[laid.i] == '#' || s[laid.i] == '\n',
    ensures
        !splits(s, laid),
{
}

/// Quoted text is left as it is.
pub proof fn quoted_text_is_left_as_it_is(command: Seq<char>, n: nat)
    requires
        !fits_one_line(trim(command)),
        laid_after(trim(command), n).i < trim(command).len(),
        ({
            let s = trim(command);
            let i = laid_after(s, n).i;
            let end = quoted_end(s, s[i], i + 1);
            &&& s[i] == '\'' || s[i] == '"' || s[i] == '`'
            &&& end > i + 1 && s[end - 1] == s[i]
        }),
    ensures
        ({
            let s = trim(command);
            let laid = laid_after(s, n);
            (laid.out + s.subrange(laid.i, quoted_end(s, s[laid.i], laid.i + 1))).is_prefix_of(
                formatted(command),
            )
        }),
{
    let s = trim(command);
    let laid = laid_after(s, n);
    lemma_laid_after(s, n);
    lemma_quoted_end(s, s[laid.i], laid.i + 1);
    what_is_nested_is_not_split(s, laid);
    let m = (n + 1) as nat;
    assert(laid_after(s, m) == lay_next(s, laid));
    assert forall|k: nat| n <= k < m implies (#[trigger] laid_after(s, k)).i < s.len() && !splits(
        s,
        laid_after(s, k),
    ) by {
        assert(k == n);
    }
    what_is_not_split_is_left_as_it_is(command, n, m);
}

} // verus!
