//! What holds of commands laid out for reading, told of the text of the command and
//! the text laid out.
use vstd::prelude::*;
use crate::quoting_laws::{fits_double, fits_single, quoted_text_ends_at_its_quote};
use crate::shell::{bodies_end, escaped_end, lemma_bodies_end, lemma_escaped_end, HeredocView};
use crate::shell_format::{at, blanks_end, comment_may_follow, delimiter_from, fits_one_line,
    formatted, ink, lay_next, lay_out, lemma_blanks_end, lemma_blanks_have_no_ink, lemma_copies,
    lemma_delimiter_from, lemma_ink_add, lemma_ink_between, lemma_lay_next_advances,
    lemma_lay_out_keeps_ink, lemma_line_trimmed_keeps_ink, lemma_no_ink, lemma_operators,
    lemma_quoted_end, lemma_stays, line_trimmed, quoted_end, splits, start, Laid};
use crate::text::{group_runs, run_end, trim, trim_end, white, Class};

verus! {

// ---------------------------------------------------------------------------
// Reading a command
// ---------------------------------------------------------------------------

/// How far a command is read: how many brackets are open there, and the heredocs
/// whose bodies start after the line.
#[verifier::ext_equal]
pub struct Reading {
    pub i: int,
    pub open: nat,
    pub heredocs: Seq<HeredocView>,
}

/// Whether a `#` at `i` starts a comment.
pub open spec fn starts_comment(s: Seq<char>, i: int) -> bool {
    i == 0 || white(s[i - 1]) || s[i - 1] == ';' || s[i - 1] == '&' || s[i - 1] == '|' || s[i - 1]
        == '('
}

/// A command read on by one piece: what is escaped or quoted, a comment, a heredoc's
/// delimiter, or a character, with the heredocs' bodies after a line break.
pub open spec fn read_on(s: Seq<char>, r: Reading) -> Reading {
    let i = r.i;
    let c = s[i];
    let next = at(s, i + 1);
    if c == '\\' {
        Reading {
            i: if next is Some {
                i + 2
            } else {
                i + 1
            },
            ..r
        }
    } else if c == '\'' || c == '"' || c == '`' {
        Reading { i: quoted_end(s, c, i + 1), ..r }
    } else if c == '$' && next == Some('\'') {
        Reading { i: escaped_end(s, i + 2), ..r }
    } else if c == '#' && starts_comment(s, i) {
        Reading { i: run_end(s, Class::Not('\n'), i), ..r }
    } else if c == '(' || c == '{' {
        Reading { i: i + 1, open: r.open + 1, ..r }
    } else if c == ')' || c == '}' {
        Reading {
            i: i + 1,
            open: if r.open > 0 {
                (r.open - 1) as nat
            } else {
                0
            },
            ..r
        }
    } else if c == '\n' {
        Reading { i: bodies_end(s, i + 1, r.heredocs), heredocs: seq![], ..r }
    } else if c == '<' && next == Some('<') && at(s, i + 2) == Some('<') {
        Reading { i: i + 3, ..r }
    } else if c == '<' && next == Some('<') {
        let strip_tabs = at(s, i + 2) == Some('-');
        let (end, delimiter) = delimiter_from(
            s,
            if strip_tabs {
                i + 3
            } else {
                i + 2
            },
            seq![],
        );
        Reading {
            i: end,
            heredocs: if delimiter.len() > 0 {
                r.heredocs.push(HeredocView { delimiter, strip_tabs })
            } else {
                r.heredocs
            },
            ..r
        }
    } else {
        Reading { i: i + 1, ..r }
    }
}

/// A command read by so many pieces.
pub open spec fn read_after(s: Seq<char>, n: nat) -> Reading
    decreases n,
{
    if n == 0 {
        Reading { i: 0, open: 0, heredocs: seq![] }
    } else {
        let before = read_after(s, (n - 1) as nat);
        if 0 <= before.i < s.len() {
            read_on(s, before)
        } else {
            before
        }
    }
}

proof fn lemma_read_on(s: Seq<char>, r: Reading)
    requires
        0 <= r.i < s.len(),
    ensures
        r.i < read_on(s, r).i <= s.len(),
{
    broadcast use group_runs;

    let i = r.i;
    let c = s[i];
    lemma_quoted_end(s, c, i + 1);
    lemma_bodies_end(s, i + 1, r.heredocs);
    if i + 1 < s.len() {
        lemma_escaped_end(s, i + 2);
        lemma_delimiter_from(s, i + 2, seq![]);
    }
    if i + 2 < s.len() {
        lemma_delimiter_from(s, i + 3, seq![]);
    }
    if c == '#' {
        assert(Class::Not('\n').has(s[i]));
        assert(run_end(s, Class::Not('\n'), i) > i);
    }
}

pub proof fn lemma_read_after(s: Seq<char>, n: nat)
    ensures
        0 <= read_after(s, n).i <= s.len(),
    decreases n,
{
    if n > 0 {
        lemma_read_after(s, (n - 1) as nat);
        let before = read_after(s, (n - 1) as nat);
        if before.i < s.len() {
            lemma_read_on(s, before);
        }
    }
}

// ---------------------------------------------------------------------------
// The layout follows the reading
// ---------------------------------------------------------------------------

/// Whether a layout on its way to the end has come to where the command is read.
spec fn in_step(s: Seq<char>, laid: Laid, r: Reading) -> bool {
    &&& 0 <= laid.i <= s.len()
    &&& laid.i == r.i && laid.depth == r.open && laid.heredocs == r.heredocs
    &&& lay_out(s, laid) == lay_out(s, start())
    &&& comment_may_follow(laid.out) == starts_comment(s, laid.i)
}

/// How many characters the operator at `i` has.
spec fn operator_len(s: Seq<char>, i: int) -> int {
    if (s[i] == '&' || s[i] == '|') && (at(s, i + 1) == Some(s[i]) || (s[i] == '|' && at(s, i + 1)
        == Some('&'))) {
        2
    } else {
        1
    }
}

/// Whether two semicolons, which are copied at once, are where the layout is.
spec fn double(s: Seq<char>, laid: Laid) -> bool {
    laid.depth == 0 && laid.heredocs.len() == 0 && s[laid.i] == ';' && at(s, laid.i + 1)
        == Some(';')
}

/// Whether a layout is to go past where the command is read, in an operator or the
/// blanks after it.
spec fn ahead(s: Seq<char>, laid: Laid, r: Reading) -> bool {
    &&& 0 <= laid.i < r.i < lay_next(s, laid).i <= s.len()
    &&& lay_out(s, laid) == lay_out(s, start())
    &&& laid.depth == 0 && laid.heredocs.len() == 0
    &&& r.open == 0 && r.heredocs.len() == 0
    &&& splits(s, laid) || double(s, laid)
    &&& if double(s, laid) || (r.i == laid.i + 1 && operator_len(s, laid.i) == 2) {
        r.i == laid.i + 1 && (s[r.i] == ';' || s[r.i] == '&' || s[r.i] == '|')
    } else {
        r.i >= laid.i + operator_len(s, laid.i) && blanks_end(s, r.i) == lay_next(s, laid).i
    }
}

proof fn lemma_blanks_before(s: Seq<char>, i: int)
    requires
        0 <= i <= s.len(),
    ensures
        i <= blanks_end(s, i) <= s.len(),
        blanks_end(s, i) > i ==> white(s[blanks_end(s, i) - 1]),
    decreases s.len() - i,
{
    lemma_blanks_end(s, i);
    if i < s.len() {
        lemma_blanks_before(s, i + 1);
        if i + 1 < s.len() {
            lemma_blanks_before(s, i + 2);
        }
    }
}

/// Where the layout copies, it stays in step.
proof fn lemma_copy_step(s: Seq<char>, laid: Laid, r: Reading)
    requires
        in_step(s, laid, r),
        laid.i < s.len(),
        !splits(s, laid),
        !double(s, laid),
    ensures
        in_step(s, lay_next(s, laid), read_on(s, r)),
        lay_next(s, laid).out == laid.out + s.subrange(laid.i, read_on(s, r).i),
{
    lemma_lay_next_advances(s, laid);
    lemma_copies(s, laid);
    let next = lay_next(s, laid);
    assert(lay_out(s, laid) == lay_out(s, next));
    assert(next.i == read_on(s, r).i);
    assert(next.out.last() == s[next.i - 1]);
    assert(next.heredocs =~= read_on(s, r).heredocs);
}

/// A split comes to the end of what it passes over.
proof fn lemma_split_ends(s: Seq<char>, laid: Laid)
    requires
        0 <= laid.i < s.len(),
        splits(s, laid),
        lay_out(s, laid) == lay_out(s, start()),
    ensures
        ({
            let next = lay_next(s, laid);
            &&& next.i == blanks_end(s, laid.i + operator_len(s, laid.i))
            &&& laid.i + operator_len(s, laid.i) <= s.len()
            &&& in_step(s, next, Reading { i: next.i, open: 0, heredocs: laid.heredocs })
        }),
{
    lemma_operators();
    lemma_lay_next_advances(s, laid);
    let next = lay_next(s, laid);
    let j = laid.i + operator_len(s, laid.i);
    lemma_blanks_before(s, j);
    assert(lay_out(s, laid) == lay_out(s, next));
    assert(next.out.last() == ' ' || next.out.last() == '\n');
    if next.i == j {
        assert(s[j - 1] == '&' || s[j - 1] == '|' || s[j - 1] == ';');
    }
}

/// Wherever a command is read, the layout is there too, or about to go past it.
proof fn lemma_followed(s: Seq<char>, n: nat) -> (laid: Laid)
    ensures
        in_step(s, laid, read_after(s, n)) || ahead(s, laid, read_after(s, n)),
    decreases n,
{
    if n == 0 {
        start()
    } else {
        let laid = lemma_followed(s, (n - 1) as nat);
        let r = read_after(s, (n - 1) as nat);
        lemma_read_after(s, (n - 1) as nat);
        if r.i >= s.len() {
            laid
        } else {
            lemma_read_on(s, r);
            let now = read_on(s, r);
            let next = lay_next(s, laid);
            if in_step(s, laid, r) {
                lemma_lay_next_advances(s, laid);
                assert(lay_out(s, laid) == lay_out(s, next));
                if splits(s, laid) {
                    lemma_split_ends(s, laid);
                    assert(now.i == laid.i + 1);
                    if now.i == next.i {
                        assert(now =~= Reading { i: next.i, open: 0, heredocs: laid.heredocs });
                        next
                    } else {
                        laid
                    }
                } else if double(s, laid) {
                    laid
                } else {
                    lemma_copy_step(s, laid, r);
                    next
                }
            } else {
                assert(lay_out(s, laid) == lay_out(s, next));
                if double(s, laid) {
                    assert(next.i == laid.i + 2);
                    assert(now.i == next.i);
                    assert(next.out.last() == ';');
                    assert(now.heredocs =~= next.heredocs);
                    next
                } else {
                    lemma_split_ends(s, laid);
                    if r.i == laid.i + 1 && operator_len(s, laid.i) == 2 {
                        assert(now.i == laid.i + 2);
                    } else {
                        lemma_blanks_end(s, r.i);
                        assert(s[r.i] == ' ' || s[r.i] == '\t' || s[r.i] == '\n' || s[r.i] == '\\');
                        assert(blanks_end(s, now.i) == next.i);
                        lemma_blanks_end(s, now.i);
                    }
                    assert(now.open == 0 && now.heredocs.len() == 0);
                    if now.i == next.i {
                        assert(now.heredocs =~= laid.heredocs);
                        assert(now =~= Reading { i: next.i, open: 0, heredocs: laid.heredocs });
                        next
                    } else {
                        laid
                    }
                }
            }
        }
    }
}

/// Whether one text stands in another, as it is.
pub open spec fn stands_in(part: Seq<char>, s: Seq<char>) -> bool {
    exists|p: int|
        0 <= p && p + part.len() <= s.len() && #[trigger] s.subrange(p, p + part.len()) == part
}

proof fn lemma_within(s: Seq<char>, a: int, b: int)
    requires
        0 <= a <= b <= s.len(),
    ensures
        stands_in(s.subrange(a, b), s),
{
    assert(s.subrange(a, a + s.subrange(a, b).len()) == s.subrange(a, b));
}

/// What is copied, up to a character that isn't white space or a backslash, is in
/// what is laid out.
proof fn lemma_copied_stands(command: Seq<char>, laid: Laid, out: Seq<char>, part: Seq<char>)
    requires
        !fits_one_line(trim(command)),
        0 <= laid.i <= trim(command).len(),
        lay_out(trim(command), laid) == lay_out(trim(command), start()),
        laid.out == out + part,
        part.len() > 0,
        !white(part.last()),
        part.last() != '\\',
    ensures
        stands_in(part, formatted(command)),
        (out + part).is_prefix_of(formatted(command)),
{
    broadcast use group_runs;

    let s = trim(command);
    let kept = laid.out;
    assert(kept.last() == part.last());
    assert(kept.is_prefix_of(laid.out)) by {
        assert(laid.out.take(kept.len() as int) =~= kept);
    }
    lemma_stays(s, laid, kept);
    let all = lay_out(s, start());
    let end = kept.len() - 1;
    assert(kept[end] == all[end]);
    if trim_end(all).len() < kept.len() {
        assert(Class::White.has(all[end]));
        assert(false);
    }
    let shown = formatted(command);
    assert(shown.take(kept.len() as int) =~= kept);
    let p = out.len() as int;
    assert(shown.subrange(p, p + part.len()) =~= part) by {
        assert forall|k: int| 0 <= k < part.len() implies shown.subrange(p, p + part.len())[k]
            == part[k] by {
            assert(shown.take(kept.len() as int)[p + k] == kept[p + k]);
        }
    }
}

// ---------------------------------------------------------------------------
// What stays whole
// ---------------------------------------------------------------------------

/// Whether the layout copies all it reads from one reading to another: something is
/// open there, or a heredoc's body is to follow.
spec fn copied_on(s: Seq<char>, n: nat, m: nat) -> bool {
    forall|k: nat|
        n <= k < m ==> (#[trigger] read_after(s, k)).i < s.len() && (k > n ==> read_after(s, k).open
            > 0)
}

proof fn lemma_group_copied(s: Seq<char>, n: nat, m: nat, first: Laid) -> (laid: Laid)
    requires
        n < m,
        copied_on(s, n, m),
        in_step(s, first, read_after(s, n)),
        s[read_after(s, n).i] == '(' || s[read_after(s, n).i] == '{',
    ensures
        in_step(s, laid, read_after(s, m)),
        read_after(s, n).i < read_after(s, m).i,
        laid.out == first.out + s.subrange(read_after(s, n).i, read_after(s, m).i),
    decreases m - n,
{
    let a = read_after(s, n);
    let k = (m - 1) as nat;
    let r = read_after(s, k);
    assert(r.i < s.len());
    lemma_read_after(s, k);
    lemma_read_on(s, r);
    if k == n {
        lemma_copy_step(s, first, r);
        lay_next(s, first)
    } else {
        assert(copied_on(s, n, k));
        let before = lemma_group_copied(s, n, k, first);
        assert(r.open > 0);
        lemma_copy_step(s, before, r);
        let laid = lay_next(s, before);
        assert(s.subrange(a.i, r.i) + s.subrange(r.i, laid.i) =~= s.subrange(a.i, laid.i));
        assert(laid.out =~= first.out + s.subrange(a.i, laid.i));
        laid
    }
}

/// A subshell, a group or a substitution stays whole: from a `(` or a `{` that is
/// read as one, neither quoted, escaped nor in a comment or a heredoc, to the bracket
/// that matches it, a command is laid out as it is written.
pub proof fn what_is_in_brackets_stays_whole(command: Seq<char>, n: nat, m: nat)
    requires
        ({
            let s = trim(command);
            let from = read_after(s, n);
            let to = read_after(s, m);
            &&& n < m
            &&& from.i < s.len() && (s[from.i] == '(' || s[from.i] == '{')
            &&& forall|k: nat| n < k < m ==> (#[trigger] read_after(s, k)).open > from.open
            &&& to.open == from.open
        }),
    ensures
        stands_in(
            trim(command).subrange(
                read_after(trim(command), n).i,
                read_after(trim(command), m).i,
            ),
            formatted(command),
        ),
{
    let s = trim(command);
    let a = read_after(s, n);
    let b = read_after(s, m);
    lemma_read_after(s, n);
    lemma_read_after(s, m);
    lemma_closes(s, n, m);
    if fits_one_line(s) {
        lemma_within(s, a.i, b.i);
    } else {
        let first = lemma_followed(s, n);
        if ahead(s, first, a) && !in_step(s, first, a) {
            lemma_ahead_char(s, first, a);
        }
        let laid = lemma_group_copied(s, n, m, first);
        lemma_copied_stands(command, laid, first.out, s.subrange(a.i, b.i));
    }
}

/// Where the layout is about to go past, there is no bracket or quote.
proof fn lemma_ahead_char(s: Seq<char>, laid: Laid, r: Reading)
    requires
        ahead(s, laid, r),
    ensures
        ({
            let c = s[r.i];
            c == ';' || c == '&' || c == '|' || c == ' ' || c == '\t' || c == '\n' || (c == '\\'
                && at(s, r.i + 1) == Some('\n'))
        }),
{
    lemma_blanks_end(s, r.i);
}

/// What is open up to a bracket is closed by it.
proof fn lemma_closes(s: Seq<char>, n: nat, m: nat)
    requires
        n < m,
        read_after(s, n).i < s.len(),
        s[read_after(s, n).i] == '(' || s[read_after(s, n).i] == '{',
        forall|k: nat|
            n < k < m ==> (#[trigger] read_after(s, k)).open > read_after(s, n).open,
        read_after(s, m).open == read_after(s, n).open,
    ensures
        copied_on(s, n, m),
        read_after(s, n).i < read_after(s, m).i,
        s[read_after(s, m).i - 1] == ')' || s[read_after(s, m).i - 1] == '}',
{
    let a = read_after(s, n);
    lemma_read_after(s, n);
    let k = (m - 1) as nat;
    let r = read_after(s, k);
    lemma_read_after(s, k);
    if k == n {
        assert(read_after(s, m).open == a.open + 1);
        assert(false);
    }
    assert(r.open > a.open);
    if r.i >= s.len() {
        assert(read_after(s, m) == r);
        assert(false);
    }
    lemma_read_on(s, r);
    assert(read_after(s, m).i == r.i + 1);
    lemma_read_grows(s, n, k);
    assert forall|j: nat| n <= j < m implies (#[trigger] read_after(s, j)).i < s.len() && (j > n
        ==> read_after(s, j).open > 0) by {
        lemma_read_grows(s, j, k);
        lemma_read_after(s, j);
    }
}

proof fn lemma_read_grows(s: Seq<char>, n: nat, m: nat)
    requires
        n <= m,
    ensures
        read_after(s, n).i <= read_after(s, m).i,
    decreases m - n,
{
    if n < m {
        lemma_read_grows(s, n, (m - 1) as nat);
        let r = read_after(s, (m - 1) as nat);
        lemma_read_after(s, (m - 1) as nat);
        if r.i < s.len() {
            lemma_read_on(s, r);
        }
    }
}

/// A single piece of a command stays whole, but for the white space or backslashes
/// that end it: quoted or escaped text, a comment, a heredoc's delimiter, and a line
/// break with the bodies of the heredocs that follow it.
pub proof fn a_piece_stays_whole(command: Seq<char>, n: nat, end: int)
    requires
        ({
            let s = trim(command);
            let r = read_after(s, n);
            &&& r.i < s.len()
            &&& s[r.i] == '\'' || s[r.i] == '"' || s[r.i] == '`' || s[r.i] == '$' || (s[r.i] == '#'
                && starts_comment(s, r.i)) || s[r.i] == '<' || (s[r.i] == '\\' && at(s, r.i + 1)
                != Some('\n')) || (s[r.i] == '\n' && r.heredocs.len() > 0)
            &&& r.i < end <= read_after(s, n + 1).i
            &&& !white(s[end - 1]) && s[end - 1] != '\\'
        }),
    ensures
        stands_in(
            trim(command).subrange(read_after(trim(command), n).i, end),
            formatted(command),
        ),
{
    let s = trim(command);
    let r = read_after(s, n);
    lemma_read_after(s, n);
    lemma_read_on(s, r);
    let to = read_on(s, r).i;
    assert(read_after(s, n + 1) == read_on(s, r));
    if fits_one_line(s) {
        lemma_within(s, r.i, end);
    } else {
        let laid = lemma_followed(s, n);
        if ahead(s, laid, r) && !in_step(s, laid, r) {
            lemma_ahead_char(s, laid, r);
            assert(false);
        }
        assert(!splits(s, laid));
        lemma_copy_step(s, laid, r);
        let next = lay_next(s, laid);
        let part = s.subrange(r.i, end);
        assert(laid.out + s.subrange(r.i, to) =~= laid.out + part + s.subrange(end, to));
        lemma_part_stands(command, next, laid.out + part, s.subrange(end, to));
        let shown = formatted(command);
        let p = laid.out.len() as int;
        assert(shown.subrange(p, p + part.len()) =~= part) by {
            assert forall|k: int| 0 <= k < part.len() implies shown.subrange(p, p + part.len())[k]
                == part[k] by {
                assert(shown.take((laid.out + part).len() as int)[p + k] == (laid.out + part)[p
                    + k]);
            }
        }
    }
}

/// What is laid out up to a character that isn't white space or a backslash stays.
proof fn lemma_part_stands(command: Seq<char>, laid: Laid, kept: Seq<char>, rest: Seq<char>)
    requires
        !fits_one_line(trim(command)),
        0 <= laid.i <= trim(command).len(),
        lay_out(trim(command), laid) == lay_out(trim(command), start()),
        laid.out == kept + rest,
        kept.len() > 0,
        !white(kept.last()),
        kept.last() != '\\',
    ensures
        kept.is_prefix_of(formatted(command)),
{
    broadcast use group_runs;

    let s = trim(command);
    assert(kept.is_prefix_of(laid.out)) by {
        assert(laid.out.take(kept.len() as int) =~= kept);
    }
    lemma_stays(s, laid, kept);
    let all = lay_out(s, start());
    let end = kept.len() - 1;
    assert(kept[end] == all[end]);
    if trim_end(all).len() < kept.len() {
        assert(Class::White.has(all[end]));
        assert(false);
    }
    assert(formatted(command).take(kept.len() as int) =~= kept);
}

/// Whether what splits a command is where it is read: a `|`, a `&&` or a `;` with
/// nothing open.
pub open spec fn operator_at(s: Seq<char>, r: Reading) -> bool {
    r.open == 0 && r.heredocs.len() == 0 && (s[r.i] == '|' || (s[r.i] == '&' && at(s, r.i + 1)
        == Some('&')) || s[r.i] == ';')
}

proof fn lemma_plain_copied(s: Seq<char>, n: nat, m: nat, first: Laid) -> (laid: Laid)
    requires
        n < m,
        forall|k: nat|
            n <= k < m ==> (#[trigger] read_after(s, k)).i < s.len() && !operator_at(
                s,
                read_after(s, k),
            ),
        in_step(s, first, read_after(s, n)),
    ensures
        in_step(s, laid, read_after(s, m)),
        read_after(s, n).i < read_after(s, m).i,
        laid.out == first.out + s.subrange(read_after(s, n).i, read_after(s, m).i),
    decreases m - n,
{
    let a = read_after(s, n);
    let k = (m - 1) as nat;
    let r = read_after(s, k);
    assert(r.i < s.len() && !operator_at(s, r));
    lemma_read_after(s, k);
    lemma_read_on(s, r);
    if k == n {
        lemma_copy_step(s, first, r);
        lay_next(s, first)
    } else {
        let before = lemma_plain_copied(s, n, k, first);
        lemma_copy_step(s, before, r);
        let laid = lay_next(s, before);
        assert(s.subrange(a.i, r.i) + s.subrange(r.i, laid.i) =~= s.subrange(a.i, laid.i));
        assert(laid.out =~= first.out + s.subrange(a.i, laid.i));
        laid
    }
}

/// A stretch of a command with no operator to split it at is laid out as it is
/// written, from where something starts to where something ends.
pub proof fn what_has_no_operator_stays_whole(command: Seq<char>, n: nat, m: nat, end: int)
    requires
        ({
            let s = trim(command);
            let from = read_after(s, n);
            &&& n < m
            &&& forall|k: nat|
                n <= k < m ==> (#[trigger] read_after(s, k)).i < s.len() && !operator_at(
                    s,
                    read_after(s, k),
                )
            &&& from.i < end <= read_after(s, m).i
            &&& !white(s[from.i]) && s[from.i] != '\\' && s[from.i] != '&'
            &&& !white(s[end - 1]) && s[end - 1] != '\\'
        }),
    ensures
        stands_in(
            trim(command).subrange(read_after(trim(command), n).i, end),
            formatted(command),
        ),
{
    let s = trim(command);
    let a = read_after(s, n);
    let b = read_after(s, m);
    lemma_read_after(s, n);
    lemma_read_after(s, m);
    if fits_one_line(s) {
        lemma_within(s, a.i, end);
    } else {
        assert(!operator_at(s, a));
        let first = lemma_followed(s, n);
        if ahead(s, first, a) && !in_step(s, first, a) {
            lemma_ahead_char(s, first, a);
            assert(false);
        }
        let laid = lemma_plain_copied(s, n, m, first);
        let part = s.subrange(a.i, end);
        let rest = s.subrange(end, b.i);
        assert(first.out + s.subrange(a.i, b.i) =~= first.out + part + rest);
        lemma_part_stands(command, laid, first.out + part, rest);
        let shown = formatted(command);
        let p = first.out.len() as int;
        assert(shown.subrange(p, p + part.len()) =~= part) by {
            assert forall|k: int| 0 <= k < part.len() implies shown.subrange(p, p + part.len())[k]
                == part[k] by {
                assert(shown.take((first.out + part).len() as int)[p + k] == (first.out + part)[p
                    + k]);
            }
        }
    }
}

/// A command that reads fine on the line it is on stays on it.
pub proof fn a_short_command_stays_on_its_line(command: Seq<char>)
    requires
        trim(command).len() <= 60,
        forall|k: int| 0 <= k < trim(command).len() ==> #[trigger] trim(command)[k] != '\n',
    ensures
        formatted(command) == trim(command),
{
}

// ---------------------------------------------------------------------------
// What is split
// ---------------------------------------------------------------------------

proof fn lemma_same_start(a: Seq<char>, b: Seq<char>, c: Seq<char>)
    requires
        a + c == b + c,
    ensures
        a == b,
{
    let one = a + c;
    let other = b + c;
    assert(one.len() == a.len() + c.len() && other.len() == b.len() + c.len());
    assert(one.take(a.len() as int) =~= a);
    assert(other.take(b.len() as int) =~= b);
}

/// What is laid out so far has to read what is read so far of the command.
proof fn lemma_ink_so_far(s: Seq<char>, laid: Laid)
    requires
        0 <= laid.i <= s.len(),
        lay_out(s, laid) == lay_out(s, start()),
    ensures
        ink(laid.out) == ink(s.take(laid.i)),
{
    lemma_lay_out_keeps_ink(s, laid);
    lemma_lay_out_keeps_ink(s, start());
    assert(s.skip(0) =~= s);
    assert(ink(start().out) + ink(s) =~= ink(s));
    assert(s.take(laid.i) + s.skip(laid.i) =~= s);
    lemma_ink_add(s.take(laid.i), s.skip(laid.i));
    lemma_same_start(ink(laid.out), ink(s.take(laid.i)), ink(s.skip(laid.i)));
}

/// The operator that starts at `i`, as it is written.
pub open spec fn operator_read(s: Seq<char>, i: int) -> Seq<char> {
    if s[i] == '&' {
        seq!['&', '&']
    } else if at(s, i + 1) == Some('|') {
        seq!['|', '|']
    } else if at(s, i + 1) == Some('&') {
        seq!['|', '&']
    } else {
        seq!['|']
    }
}

/// Whether an operator starts where a command is read, with something before it and
/// nothing open.
pub open spec fn operator_starts(s: Seq<char>, r: Reading) -> bool {
    &&& 0 < r.i < s.len()
    &&& r.open == 0 && r.heredocs.len() == 0
    &&& s[r.i - 1] != '&' && s[r.i - 1] != '|' && s[r.i - 1] != ';'
    &&& ink(s.take(r.i)).len() > 0
}

proof fn lemma_operator_reached(s: Seq<char>, n: nat) -> (laid: Laid)
    requires
        operator_starts(s, read_after(s, n)),
        s[read_after(s, n).i] == '|' || s[read_after(s, n).i] == ';' || s[read_after(s, n).i]
            == '&',
    ensures
        in_step(s, laid, read_after(s, n)),
{
    let r = read_after(s, n);
    let laid = lemma_followed(s, n);
    if ahead(s, laid, r) && !in_step(s, laid, r) {
        lemma_blanks_end(s, r.i);
        assert(s[laid.i] == '&' || s[laid.i] == '|' || s[laid.i] == ';');
        assert(false);
    }
    laid
}

/// Each `&&`, `||`, `|` or `|&` with nothing open starts a line of its own, indented
/// and with a space after it, once a command is too long for one line. Returned is
/// all that is laid out before that line.
pub proof fn an_operator_starts_a_line(command: Seq<char>, n: nat) -> (before: Seq<char>)
    requires
        ({
            let s = trim(command);
            let r = read_after(s, n);
            &&& !fits_one_line(s)
            &&& operator_starts(s, r)
            &&& s[r.i] == '|' || (s[r.i] == '&' && at(s, r.i + 1) == Some('&'))
        }),
    ensures
        ({
            let s = trim(command);
            let r = read_after(s, n);
            &&& before.len() > 0 && before.last() == '\n'
            &&& ink(before) == ink(s.take(r.i))
            &&& (before + seq![' ', ' '] + operator_read(s, r.i)).is_prefix_of(formatted(command))
        }),
{
    lemma_operators();
    let s = trim(command);
    let r = read_after(s, n);
    let laid = lemma_operator_reached(s, n);
    lemma_ink_so_far(s, laid);
    lemma_line_trimmed_keeps_ink(laid.out);
    let kept = line_trimmed(laid.out);
    let op = operator_read(s, r.i);
    let before = if kept.last() != '\n' {
        kept.push('\n')
    } else {
        kept
    };
    if kept.last() != '\n' {
        lemma_ink_add(kept, seq!['\n']);
        lemma_no_ink(seq!['\n']);
        assert(kept.push('\n') =~= kept + seq!['\n']);
        assert(ink(kept) + Seq::<char>::empty() =~= ink(kept));
    }
    lemma_lay_next_advances(s, laid);
    let next = lay_next(s, laid);
    assert(lay_out(s, laid) == lay_out(s, next));
    let whole = before + seq![' ', ' '] + op;
    assert(next.out =~= whole + seq![' ']);
    lemma_part_stands(command, next, whole, seq![' ']);
    before
}

proof fn lemma_line_break_trimmed(out: Seq<char>, kept: Seq<char>)
    requires
        kept.len() >= 2,
        kept.last() == '\n',
        kept[kept.len() - 2] != '\\',
        kept.is_prefix_of(out),
    ensures
        kept.is_prefix_of(line_trimmed(out)),
    decreases out.len(),
{
    broadcast use group_runs;

    let rest = crate::text::trim_end_of(out, Class::Blank);
    let n = kept.len() as int;
    assert(kept == out.take(n));
    assert(kept[n - 1] == out[n - 1] && kept[n - 2] == out[n - 2]);
    if rest.len() < n {
        assert(Class::Blank.has(out[n - 1]));
        assert(false);
    }
    assert(rest.take(n) =~= kept);
    if rest.len() >= 2 && rest[rest.len() - 2] == '\\' && rest.last() == '\n' {
        assert(rest[n - 1] == '\n' && rest[n - 2] != '\\');
        let less = rest.take(rest.len() - 2);
        assert(less.take(n) =~= kept);
        lemma_line_break_trimmed(less, kept);
    }
}

proof fn lemma_line_break_stays(s: Seq<char>, laid: Laid, kept: Seq<char>)
    requires
        0 <= laid.i <= s.len(),
        kept.len() >= 2,
        kept.last() == '\n',
        kept[kept.len() - 2] != '\\',
        kept.is_prefix_of(laid.out),
    ensures
        kept.is_prefix_of(lay_out(s, laid)),
    decreases s.len() - laid.i,
{
    if laid.i < s.len() {
        lemma_lay_next_advances(s, laid);
        let next = lay_next(s, laid);
        if splits(s, laid) {
            lemma_line_break_trimmed(laid.out, kept);
            let cut = line_trimmed(laid.out);
            assert(cut.is_prefix_of(next.out)) by {
                assert(next.out.take(cut.len() as int) =~= cut);
            }
            assert(kept =~= next.out.take(kept.len() as int));
        } else {
            lemma_copies(s, laid);
            assert(kept =~= next.out.take(kept.len() as int));
        }
        lemma_line_break_stays(s, next, kept);
    }
}

/// A `;` with nothing open ends its line, and what comes after it starts the next,
/// once a command is too long for one line. Returned is all that is laid out before
/// it.
pub proof fn a_semicolon_ends_its_line(command: Seq<char>, n: nat) -> (before: Seq<char>)
    requires
        ({
            let s = trim(command);
            let r = read_after(s, n);
            &&& !fits_one_line(s)
            &&& operator_starts(s, r)
            &&& s[r.i] == ';' && at(s, r.i + 1) != Some(';')
            &&& ink(s.skip(r.i + 1)).len() > 0
        }),
    ensures
        ({
            let s = trim(command);
            let r = read_after(s, n);
            &&& ink(before) == ink(s.take(r.i))
            &&& (before + seq![';', '\n']).is_prefix_of(formatted(command))
        }),
{
    broadcast use group_runs;

    lemma_operators();
    let s = trim(command);
    let r = read_after(s, n);
    let laid = lemma_operator_reached(s, n);
    lemma_ink_so_far(s, laid);
    lemma_line_trimmed_keeps_ink(laid.out);
    let before = line_trimmed(laid.out);
    lemma_lay_next_advances(s, laid);
    let next = lay_next(s, laid);
    assert(lay_out(s, laid) == lay_out(s, next));
    let whole = before + seq![';', '\n'];
    assert(next.out =~= whole);
    assert(whole.is_prefix_of(next.out)) by {
        assert(next.out.take(whole.len() as int) =~= whole);
    }
    lemma_line_break_stays(s, next, whole);
    let all = lay_out(s, start());
    lemma_lay_out_keeps_ink(s, next);
    lemma_semicolon_ink(s, r.i, before, whole);
    lemma_ink_between(s, r.i + 1, next.i);
    let m = whole.len() as int;
    let rest = all.skip(m);
    assert(all =~= whole + rest);
    lemma_ink_add(whole, rest);
    lemma_blank_gap(s, r.i + 1);
    assert(ink(s.skip(r.i + 1)) =~= ink(s.skip(next.i)));
    assert(ink(rest).len() > 0);
    if trim_end(all).len() < m {
        let from = crate::text::run_start(all, Class::White, all.len() as int);
        assert forall|k: int| 0 <= k < rest.len() implies !crate::shell_format::inked(
            #[trigger] rest[k],
        ) by {
            assert(Class::White.has(all[m + k]));
        }
        lemma_no_ink(rest);
        assert(false);
    }
    assert(formatted(command).take(m) =~= whole);
    before
}

/// Blanks and line breaks have nothing to read.
proof fn lemma_blank_gap(s: Seq<char>, i: int)
    requires
        0 <= i <= s.len(),
    ensures
        i <= blanks_end(s, i) <= s.len(),
        ink(s.subrange(i, blanks_end(s, i))) == Seq::<char>::empty(),
{
    lemma_blanks_end(s, i);
    lemma_blanks_have_no_ink(s, i);
    let gap = s.subrange(i, blanks_end(s, i));
    assert forall|k: int| 0 <= k < gap.len() implies !crate::shell_format::inked(
        #[trigger] gap[k],
    ) by {
        assert(gap[k] == s[i + k]);
    }
    lemma_no_ink(gap);
}

proof fn lemma_semicolon_ink(s: Seq<char>, i: int, before: Seq<char>, whole: Seq<char>)
    requires
        whole == before + seq![';', '\n'],
    ensures
        ink(whole) == ink(before).push(';'),
{
    let mark = before.push(';');
    assert(whole.drop_last() =~= mark);
    assert(mark.drop_last() =~= before);
    reveal_with_fuel(ink, 3);
}

// ---------------------------------------------------------------------------
// Plain commands
// ---------------------------------------------------------------------------

/// Whether a character neither quotes, escapes, comments, nests nor splits anything,
/// and is no line break.
pub open spec fn ordinary(c: char) -> bool {
    c != '\\' && c != '\'' && c != '"' && c != '`' && c != '$' && c != '#' && c != '(' && c != ')'
        && c != '{' && c != '}' && c != '<' && c != '|' && c != '&' && c != ';' && c != '\n'
}

/// Whether a text is a plain command: ordinary all through, with no white space
/// around it.
pub open spec fn plain_command(s: Seq<char>) -> bool {
    &&& s.len() > 0
    &&& forall|k: int| 0 <= k < s.len() ==> ordinary(#[trigger] s[k])
    &&& !white(s[0]) && !white(s.last())
}

/// What chains one command to the one before it.
pub enum Chained {
    And,
    Or,
    Pipe,
    PipeBoth,
    Then,
}

impl Chained {
    /// How it is written.
    pub open spec fn written(self) -> Seq<char> {
        match self {
            Chained::And => " && "@,
            Chained::Or => " || "@,
            Chained::Pipe => " | "@,
            Chained::PipeBoth => " |& "@,
            Chained::Then => "; "@,
        }
    }

    /// How it is laid out: an operator starts a line, and a semicolon ends one.
    pub open spec fn laid_out(self) -> Seq<char> {
        match self {
            Chained::And => "\n  && "@,
            Chained::Or => "\n  || "@,
            Chained::Pipe => "\n  | "@,
            Chained::PipeBoth => "\n  |& "@,
            Chained::Then => ";\n"@,
        }
    }
}

/// Commands chained, as they are written.
pub open spec fn chain_written(links: Seq<(Chained, Seq<char>)>) -> Seq<char>
    decreases links.len(),
{
    if links.len() == 0 {
        seq![]
    } else {
        links[0].0.written() + links[0].1 + chain_written(links.skip(1))
    }
}

/// Commands chained, as they are laid out.
pub open spec fn chain_laid_out(links: Seq<(Chained, Seq<char>)>) -> Seq<char>
    decreases links.len(),
{
    if links.len() == 0 {
        seq![]
    } else {
        links[0].0.laid_out() + links[0].1 + chain_laid_out(links.skip(1))
    }
}

pub open spec fn all_plain(links: Seq<(Chained, Seq<char>)>) -> bool {
    forall|k: int| 0 <= k < links.len() ==> plain_command((#[trigger] links[k]).1)
}

proof fn lemma_chained_spelling()
    ensures
        " && "@ == seq![' ', '&', '&', ' '],
        " || "@ == seq![' ', '|', '|', ' '],
        " | "@ == seq![' ', '|', ' '],
        " |& "@ == seq![' ', '|', '&', ' '],
        "; "@ == seq![';', ' '],
        "\n  && "@ == seq!['\n', ' ', ' ', '&', '&', ' '],
        "\n  || "@ == seq!['\n', ' ', ' ', '|', '|', ' '],
        "\n  | "@ == seq!['\n', ' ', ' ', '|', ' '],
        "\n  |& "@ == seq!['\n', ' ', ' ', '|', '&', ' '],
        ";\n"@ == seq![';', '\n'],
{
    reveal_strlit(" && ");
    reveal_strlit(" || ");
    reveal_strlit(" | ");
    reveal_strlit(" |& ");
    reveal_strlit("; ");
    reveal_strlit("\n  && ");
    reveal_strlit("\n  || ");
    reveal_strlit("\n  | ");
    reveal_strlit("\n  |& ");
    reveal_strlit(";\n");
    assert(" && "@ =~= seq![' ', '&', '&', ' ']);
    assert(" || "@ =~= seq![' ', '|', '|', ' ']);
    assert(" | "@ =~= seq![' ', '|', ' ']);
    assert(" |& "@ =~= seq![' ', '|', '&', ' ']);
    assert("; "@ =~= seq![';', ' ']);
    assert("\n  && "@ =~= seq!['\n', ' ', ' ', '&', '&', ' ']);
    assert("\n  || "@ =~= seq!['\n', ' ', ' ', '|', '|', ' ']);
    assert("\n  | "@ =~= seq!['\n', ' ', ' ', '|', ' ']);
    assert("\n  |& "@ =~= seq!['\n', ' ', ' ', '|', '&', ' ']);
    assert(";\n"@ =~= seq![';', '\n']);
}

proof fn lemma_ordinary_laid(s: Seq<char>, laid: Laid, end: int)
    requires
        0 <= laid.i <= end <= s.len(),
        forall|k: int| laid.i <= k < end ==> ordinary(#[trigger] s[k]),
    ensures
        lay_out(s, laid) == lay_out(
            s,
            (Laid { i: end, out: laid.out + s.subrange(laid.i, end), ..laid }),
        ),
    decreases end - laid.i,
{
    if laid.i < end {
        assert(ordinary(s[laid.i]));
        let next = lay_next(s, laid);
        assert(next =~= Laid {
            i: laid.i + 1,
            out: laid.out + s.subrange(laid.i, laid.i + 1),
            ..laid
        });
        lemma_ordinary_laid(s, next, end);
        assert(next.out + s.subrange(laid.i + 1, end) =~= laid.out + s.subrange(laid.i, end));
    } else {
        assert(laid.out + s.subrange(laid.i, end) =~= laid.out);
    }
}

/// Nothing is trimmed off the end of what ends with an ordinary character.
proof fn lemma_ends_ordinary(out: Seq<char>)
    requires
        out.len() > 0,
        ordinary(out.last()),
        !white(out.last()),
    ensures
        line_trimmed(out) == out,
        line_trimmed(out.push(' ')) == out,
{
    broadcast use group_runs;

    let rest = crate::text::trim_end_of(out, Class::Blank);
    let n = out.len() as int;
    assert(crate::text::run_start(out, Class::Blank, n) == n);
    assert(rest =~= out);
    let more = out.push(' ');
    assert(more[n] == ' ' && more[n - 1] == out.last());
    assert(crate::text::run_start(more, Class::Blank, n + 1) == crate::text::run_start(
        more,
        Class::Blank,
        n,
    ));
    assert(crate::text::run_start(more, Class::Blank, n) == n);
    assert(crate::text::trim_end_of(more, Class::Blank) =~= out);
}

proof fn lemma_no_blanks(s: Seq<char>, i: int)
    requires
        0 <= i < s.len(),
        ordinary(s[i]),
        !white(s[i]),
    ensures
        blanks_end(s, i) == i,
        i > 0 && s[i - 1] == ' ' ==> blanks_end(s, i - 1) == i,
{
    reveal_with_fuel(blanks_end, 2);
}

/// What is laid out where an operator splits the command after `kept`.
proof fn lemma_operator_split(s: Seq<char>, laid: Laid, kept: Seq<char>, op: Seq<char>)
    requires
        0 <= laid.i,
        laid.depth == 0,
        laid.heredocs == Seq::<HeredocView>::empty(),
        line_trimmed(laid.out) == kept,
        kept.len() > 0,
        kept.last() != '\n',
        op == seq!['&', '&'] || op == seq!['|', '|'] || op == seq!['|', '&'] || op == seq!['|'],
        laid.i + op.len() + 1 < s.len(),
        s[laid.i] == op[0],
        op.len() == 2 ==> s[laid.i + 1] == op[1],
        s[laid.i + op.len()] == ' ',
        blanks_end(s, laid.i + op.len()) == laid.i + op.len() + 1,
    ensures
        lay_next(s, laid) == (Laid {
            i: laid.i + op.len() + 1,
            out: kept + (seq!['\n', ' ', ' '] + op + seq![' ']),
            ..laid
        }),
{
    lemma_operators();
    assert(at(s, laid.i + 1) == Some(s[laid.i + 1]));
    let next = lay_next(s, laid);
    assert(next.out =~= kept + (seq!['\n', ' ', ' '] + op + seq![' ']));
}

/// What is laid out where a semicolon splits the command after `kept`.
proof fn lemma_semicolon_split(s: Seq<char>, laid: Laid, kept: Seq<char>)
    requires
        0 <= laid.i,
        laid.depth == 0,
        laid.heredocs == Seq::<HeredocView>::empty(),
        line_trimmed(laid.out) == kept,
        laid.i + 2 < s.len(),
        s[laid.i] == ';',
        s[laid.i + 1] == ' ',
        blanks_end(s, laid.i + 1) == laid.i + 2,
    ensures
        lay_next(s, laid) == (Laid {
            i: laid.i + 2,
            out: kept + seq![';', '\n'],
            ..laid
        }),
{
    lemma_operators();
    assert(at(s, laid.i + 1) == Some(s[laid.i + 1]));
}

/// The layout past what chains a command on.
proof fn lemma_link_split(s: Seq<char>, laid: Laid, link: Chained)
    requires
        0 <= laid.i,
        laid.depth == 0,
        laid.heredocs == Seq::<HeredocView>::empty(),
        laid.i + link.written().len() < s.len(),
        forall|k: int|
            0 <= k < link.written().len() ==> s[laid.i + k] == #[trigger] link.written()[k],
        ordinary(s[laid.i + link.written().len()]),
        !white(s[laid.i + link.written().len()]),
        laid.out.len() > 0,
        ordinary(laid.out.last()),
        !white(laid.out.last()),
    ensures
        lay_out(s, laid) == lay_out(
            s,
            (Laid {
                i: laid.i + link.written().len(),
                out: laid.out + link.laid_out(),
                ..laid
            }),
        ),
{
    lemma_chained_spelling();
    let w = link.written();
    let i = laid.i;
    let n = w.len() as int;
    lemma_ends_ordinary(laid.out);
    lemma_no_blanks(s, i + n);
    assert(s[i + (n - 1)] == w[n - 1]);
    assert(s[i + 0] == w[0]);
    assert(s[i + 1] == w[1]);
    if link is Then {
        lemma_semicolon_split(s, laid, laid.out);
        assert(lay_out(s, laid) == lay_out(s, lay_next(s, laid)));
    } else {
        let spaced = Laid { i: i + 1, out: laid.out.push(' '), ..laid };
        assert(laid.out + s.subrange(i, i + 1) =~= laid.out.push(' '));
        assert(lay_next(s, laid) =~= spaced);
        assert(lay_out(s, laid) == lay_out(s, spaced));
        let op = w.subrange(1, n - 1);
        assert(s[i + 2] == w[2]);
        assert(op =~= match link {
            Chained::And => seq!['&', '&'],
            Chained::Or => seq!['|', '|'],
            Chained::PipeBoth => seq!['|', '&'],
            _ => seq!['|'],
        });
        lemma_operator_split(s, spaced, laid.out, op);
        assert(seq!['\n', ' ', ' '] + op + seq![' '] =~= link.laid_out());
        assert(lay_out(s, spaced) == lay_out(s, lay_next(s, spaced)));
    }
}

/// A command chained on is laid out on a line of its own.
proof fn lemma_link(s: Seq<char>, laid: Laid, link: (Chained, Seq<char>))
    requires
        0 <= laid.i,
        laid.depth == 0,
        laid.heredocs == Seq::<HeredocView>::empty(),
        plain_command(link.1),
        laid.i + link.0.written().len() + link.1.len() <= s.len(),
        s.subrange(laid.i, laid.i + link.0.written().len() + link.1.len()) == link.0.written()
            + link.1,
        laid.out.len() > 0,
        ordinary(laid.out.last()),
        !white(laid.out.last()),
    ensures
        lay_out(s, laid) == lay_out(
            s,
            (Laid {
                i: laid.i + link.0.written().len() + link.1.len(),
                out: laid.out + (link.0.laid_out() + link.1),
                ..laid
            }),
        ),
{
    let w = link.0.written();
    let part = link.1;
    let i = laid.i;
    let n = w.len() as int;
    let end = i + n + part.len();
    let piece = s.subrange(i, end);
    assert forall|k: int| 0 <= k < n implies s[i + k] == #[trigger] w[k] by {
        assert(piece[k] == (w + part)[k]);
    }
    assert forall|k: int| i + n <= k < end implies ordinary(#[trigger] s[k]) && s[k] == part[k - i
        - n] by {
        assert(piece[k - i] == (w + part)[k - i]);
        assert(ordinary(part[k - i - n]));
    }
    assert(s[i + n] == part[0]);
    lemma_link_split(s, laid, link.0);
    let split = Laid { i: i + n, out: laid.out + link.0.laid_out(), ..laid };
    lemma_ordinary_laid(s, split, end);
    assert(s.subrange(i + n, end) =~= part);
    assert(split.out + part =~= laid.out + (link.0.laid_out() + part));
}

proof fn lemma_chain(s: Seq<char>, laid: Laid, links: Seq<(Chained, Seq<char>)>)
    requires
        0 <= laid.i,
        laid.depth == 0,
        laid.heredocs == Seq::<HeredocView>::empty(),
        all_plain(links),
        laid.i + chain_written(links).len() == s.len(),
        s.skip(laid.i) == chain_written(links),
        laid.out.len() > 0,
        ordinary(laid.out.last()),
        !white(laid.out.last()),
    ensures
        lay_out(s, laid) == laid.out + chain_laid_out(links),
        (laid.out + chain_laid_out(links)).len() > 0,
        !white((laid.out + chain_laid_out(links)).last()),
    decreases links.len(),
{
    if links.len() == 0 {
        assert(laid.out + chain_laid_out(links) =~= laid.out);
    } else {
        let link = links[0];
        let rest = links.skip(1);
        assert(plain_command(link.1));
        let m = link.0.written().len() + link.1.len();
        let all = chain_written(links);
        assert(all.subrange(0, m as int) =~= link.0.written() + link.1);
        assert(s.subrange(laid.i, laid.i + m) =~= s.skip(laid.i).subrange(0, m as int));
        lemma_link(s, laid, link);
        let next = Laid {
            i: laid.i + m,
            out: laid.out + (link.0.laid_out() + link.1),
            ..laid
        };
        assert forall|k: int| 0 <= k < rest.len() implies plain_command((#[trigger] rest[k]).1) by {
            assert(rest[k] == links[k + 1]);
        }
        assert(s.skip(laid.i + m) =~= chain_written(rest)) by {
            assert(s.skip(laid.i + m) =~= s.skip(laid.i).skip(m as int));
            assert(all.skip(m as int) =~= chain_written(rest));
        }
        assert(next.out.last() == link.1.last());
        assert(ordinary(link.1[link.1.len() - 1]));
        lemma_chain(s, next, rest);
        assert(next.out + chain_laid_out(rest) =~= laid.out + chain_laid_out(links));
    }
}

/// Plain commands that are chained, too long for one line, get a line each: each
/// operator starts the line of the command after it, indented under the first, and
/// each semicolon ends the line of the command before it.
pub proof fn chained_commands_get_a_line_each(
    first: Seq<char>,
    links: Seq<(Chained, Seq<char>)>,
)
    requires
        plain_command(first),
        all_plain(links),
        (first + chain_written(links)).len() > 60,
    ensures
        formatted(first + chain_written(links)) == first + chain_laid_out(links),
{
    let s = first + chain_written(links);
    let n = first.len() as int;
    lemma_chain_ends(first, links);
    crate::text::lemma_trim_fixed(s);
    assert(!fits_one_line(s));
    assert forall|k: int| 0 <= k < n implies ordinary(#[trigger] s[k]) by {
        assert(s[k] == first[k]);
    }
    lemma_ordinary_laid(s, start(), n);
    let laid = Laid { i: n, out: start().out + s.subrange(0, n), ..start() };
    assert(laid.out =~= first);
    assert(s.skip(n) =~= chain_written(links));
    assert(ordinary(first[n - 1]));
    lemma_chain(s, laid, links);
    let out = first + chain_laid_out(links);
    lemma_not_trimmed(out);
}

proof fn lemma_not_trimmed(out: Seq<char>)
    requires
        out.len() > 0,
        !white(out.last()),
    ensures
        trim_end(out) == out,
{
    broadcast use group_runs;

    assert(trim_end(out) =~= out);
}

proof fn lemma_chain_ends(first: Seq<char>, links: Seq<(Chained, Seq<char>)>)
    requires
        first.len() > 0,
        !white(first[0]) && !white(first.last()),
        all_plain(links),
    ensures
        ({
            let s = first + chain_written(links);
            s.len() > 0 && !white(s[0]) && !white(s.last())
        }),
    decreases links.len(),
{
    let s = first + chain_written(links);
    assert(s[0] == first[0]);
    if links.len() == 0 {
        assert(s =~= first);
    } else {
        let link = links[0];
        let rest = links.skip(1);
        assert(plain_command(link.1));
        assert forall|k: int| 0 <= k < rest.len() implies plain_command((#[trigger] rest[k]).1) by {
            assert(rest[k] == links[k + 1]);
        }
        lemma_chain_ends(link.1, rest);
        let tail = link.1 + chain_written(rest);
        assert(s =~= first + link.0.written() + tail);
        assert(s.last() == tail.last());
    }
}

/// What is in brackets stays as it is written, with what chains commands outside of
/// them and all: of a command that is ordinary up to a bracket, what is in the
/// bracket and ordinary but for what chains commands is left whole.
pub proof fn a_plain_group_stays_whole(
    before: Seq<char>,
    inner: Seq<char>,
    rest: Seq<char>,
    open: char,
    close: char,
)
    requires
        (open == '{' && close == '}') || (open == '(' && close == ')'),
        before.len() > 0 ==> !white(before[0]),
        forall|k: int| 0 <= k < before.len() ==> ordinary(#[trigger] before[k]),
        forall|k: int|
            0 <= k < inner.len() ==> ordinary(#[trigger] inner[k]) || inner[k] == '|' || inner[k]
                == '&' || inner[k] == ';',
    ensures
        stands_in(
            seq![open] + inner + seq![close],
            formatted(before + (seq![open] + inner + seq![close]) + rest),
        ),
{
    let group = seq![open] + inner + seq![close];
    let command = before + group + rest;
    let s = trim(command);
    let n = before.len() as int;
    let g = group.len() as int;
    let known = before + group;
    assert(known[0] == if n > 0 {
        before[0]
    } else {
        open
    });
    assert(known.last() == close);
    lemma_starts_kept(known, rest);
    assert forall|k: int| 0 <= k < n implies #[trigger] s[k] == before[k] by {
        assert(s.take(known.len() as int)[k] == known[k]);
    }
    assert forall|k: int| 0 <= k < g implies #[trigger] s[n + k] == group[k] by {
        assert(s.take(known.len() as int)[n + k] == known[n + k]);
    }
    lemma_ordinary_read(s, n as nat, n);
    let from = n as nat;
    let to = (n + g) as nat;
    assert(s[n + 0] == group[0]);
    assert(s[n + (g - 1)] == group[g - 1]);
    assert forall|k: int| 0 <= k < inner.len() implies s[from + 1 + k] == #[trigger] inner[k] && (
    ordinary(inner[k]) || inner[k] == '|' || inner[k] == '&' || inner[k] == ';') by {
        assert(s[n + (k + 1)] == group[k + 1]);
    }
    lemma_group_closes(s, from, inner);
    what_is_in_brackets_stays_whole(command, from, to);
    assert(s.subrange(n, n + g) =~= group) by {
        assert forall|k: int| 0 <= k < g implies s.subrange(n, n + g)[k] == group[k] by {
            assert(s[n + k] == group[k]);
        }
    }
}

proof fn lemma_group_closes(s: Seq<char>, from: nat, inner: Seq<char>)
    requires
        from + 1 + inner.len() < s.len(),
        read_after(s, from) == (Reading { i: from as int, open: 0, heredocs: seq![] }),
        s[from as int] == '(' || s[from as int] == '{',
        s[from as int + 1 + inner.len()] == ')' || s[from as int + 1 + inner.len()] == '}',
        forall|k: int|
            0 <= k < inner.len() ==> s[from + 1 + k] == #[trigger] inner[k] && (ordinary(inner[k])
                || inner[k] == '|' || inner[k] == '&' || inner[k] == ';'),
    ensures
        ({
            let to = (from + 2 + inner.len()) as nat;
            &&& forall|k: nat| from < k < to ==> (#[trigger] read_after(s, k)).open > 0
            &&& read_after(s, to).open == 0
            &&& read_after(s, to).i == to
        }),
{
    let to = (from + 2 + inner.len()) as nat;
    assert forall|k: nat| from < k < to implies (#[trigger] read_after(s, k)).open > 0 by {
        lemma_group_read(s, from, inner, k - from - 1);
    }
    lemma_group_read(s, from, inner, inner.len() as int);
    let last = (to - 1) as nat;
    assert(read_after(s, to) == read_on(s, read_after(s, last)));
}

/// What starts and ends with something that is no white space starts a command
/// trimmed too.
proof fn lemma_starts_kept(known: Seq<char>, rest: Seq<char>)
    requires
        known.len() > 0,
        !white(known[0]),
        !white(known.last()),
    ensures
        trim(known + rest).len() >= known.len(),
        trim(known + rest).take(known.len() as int) == known,
{
    broadcast use group_runs;

    let all = known + rest;
    let n = known.len() as int;
    assert(all[0] == known[0] && all[n - 1] == known.last());
    crate::text::lemma_run_end_is(all, Class::White, 0, 0);
    let from = crate::text::trim_start_of(all, Class::White);
    assert(from =~= all);
    let end = crate::text::run_start(all, Class::White, all.len() as int);
    if end < n {
        assert(Class::White.has(all[n - 1]));
    }
    assert(trim(all) =~= all.take(end));
    assert(trim(all).take(n) =~= known);
}

proof fn lemma_ordinary_read(s: Seq<char>, n: nat, end: int)
    requires
        n <= end <= s.len(),
        forall|k: int| 0 <= k < end ==> ordinary(#[trigger] s[k]),
    ensures
        read_after(s, n) == (Reading { i: n as int, open: 0, heredocs: seq![] }),
    decreases n,
{
    if n > 0 {
        lemma_ordinary_read(s, (n - 1) as nat, end);
        assert(ordinary(s[n - 1]));
    }
}

proof fn lemma_group_read(s: Seq<char>, from: nat, inner: Seq<char>, j: int)
    requires
        0 <= j <= inner.len(),
        from + 1 + inner.len() < s.len(),
        read_after(s, from) == (Reading { i: from as int, open: 0, heredocs: seq![] }),
        s[from as int] == '(' || s[from as int] == '{',
        forall|k: int|
            0 <= k < inner.len() ==> s[from + 1 + k] == #[trigger] inner[k] && (ordinary(inner[k])
                || inner[k] == '|' || inner[k] == '&' || inner[k] == ';'),
    ensures
        read_after(s, (from + 1 + j) as nat) == (Reading {
            i: from + 1 + j,
            open: 1,
            heredocs: seq![],
        }),
    decreases j,
{
    if j > 0 {
        lemma_group_read(s, from, inner, j - 1);
        let k = (from + j) as nat;
        assert(s[from + 1 + (j - 1)] == inner[j - 1]);
        assert(read_after(s, (k + 1) as nat) == read_on(s, read_after(s, k)));
    } else {
        assert(read_after(s, (from + 1) as nat) == read_on(s, read_after(s, from)));
    }
}

// ---------------------------------------------------------------------------
// Groups of any text
// ---------------------------------------------------------------------------

/// A bit of a command.
pub enum Bit {
    /// Text that neither quotes, escapes, comments, redirects from here nor nests
    /// anything, operators and line breaks among it.
    Text(Seq<char>),
    /// Text in single quotes.
    Single(Seq<char>),
    /// Text in double quotes.
    Double(Seq<char>),
    /// A character with a backslash before it.
    Escaped(char),
    /// A bracket that opens a group or a subshell.
    Open(char),
    /// What opens a substitution.
    Substitution,
    /// A bracket that closes what is open.
    Close(char),
}

/// Whether every character of a text is ordinary, chains commands or breaks a line.
pub open spec fn all_simple(text: Seq<char>) -> bool {
    forall|k: int|
        0 <= k < text.len() ==> ordinary(#[trigger] text[k]) || text[k] == '|' || text[k] == '&'
            || text[k] == ';' || text[k] == '\n'
}

impl Bit {
    pub open spec fn written(self) -> Seq<char> {
        match self {
            Bit::Text(text) => text,
            Bit::Single(text) => seq!['\''] + text + seq!['\''],
            Bit::Double(text) => seq!['"'] + text + seq!['"'],
            Bit::Escaped(c) => seq!['\\', c],
            Bit::Open(c) => seq![c],
            Bit::Substitution => seq!['$', '('],
            Bit::Close(c) => seq![c],
        }
    }

    pub open spec fn proper(self) -> bool {
        match self {
            Bit::Text(text) => all_simple(text),
            Bit::Single(text) => fits_single(text),
            Bit::Double(text) => fits_double(text),
            Bit::Escaped(c) => true,
            Bit::Open(c) => c == '(' || c == '{',
            Bit::Substitution => true,
            Bit::Close(c) => c == ')' || c == '}',
        }
    }

    /// How many brackets more are open after it.
    pub open spec fn opens(self) -> int {
        match self {
            Bit::Open(c) => 1,
            Bit::Substitution => 1,
            Bit::Close(c) => -1,
            _ => 0,
        }
    }
}

pub open spec fn bits_written(bits: Seq<Bit>) -> Seq<char>
    decreases bits.len(),
{
    if bits.len() == 0 {
        seq![]
    } else {
        bits_written(bits.drop_last()) + bits.last().written()
    }
}

pub open spec fn bits_proper(bits: Seq<Bit>) -> bool {
    forall|k: int| 0 <= k < bits.len() ==> (#[trigger] bits[k]).proper()
}

/// How many more brackets open than close.
pub open spec fn level(bits: Seq<Bit>) -> int
    decreases bits.len(),
{
    if bits.len() == 0 {
        0
    } else {
        level(bits.drop_last()) + bits.last().opens()
    }
}

/// Whether no bracket closes anything that isn't opened here.
pub open spec fn closes_own(bits: Seq<Bit>) -> bool {
    forall|k: int| 0 <= k <= bits.len() ==> level(#[trigger] bits.take(k)) >= 0
}

/// Whether a command is read up to a place with so many brackets open, and no heredoc.
spec fn comes_to(s: Seq<char>, n: nat, i: int, open: int) -> bool {
    &&& read_after(s, n).i == i
    &&& read_after(s, n).open == open
    &&& read_after(s, n).heredocs == Seq::<HeredocView>::empty()
}

proof fn lemma_text_read(s: Seq<char>, n: nat, i: int, open: int, text: Seq<char>, j: int)
    requires
        0 <= i,
        0 <= j <= text.len(),
        i + text.len() <= s.len(),
        comes_to(s, n, i, open),
        all_simple(text),
        forall|k: int| 0 <= k < text.len() ==> s[i + k] == #[trigger] text[k],
    ensures
        comes_to(s, (n + j) as nat, i + j, open),
    decreases j,
{
    if j > 0 {
        lemma_text_read(s, n, i, open, text, j - 1);
        let k = (n + j - 1) as nat;
        let c = text[j - 1];
        assert(s[i + (j - 1)] == c);
        let r = read_after(s, k);
        assert(r.i == i + (j - 1));
        assert(bodies_end(s, r.i + 1, r.heredocs) == r.i + 1);
        assert(ordinary(c) || c == '|' || c == '&' || c == ';' || c == '\n');
        let next = read_on(s, r);
        assert(next.i == r.i + 1 && next.open == r.open);
        assert(next.heredocs =~= r.heredocs);
        assert(k + 1 == n + j);
        assert(read_after(s, (n + j) as nat) == next);
    }
}

proof fn lemma_bit_read(s: Seq<char>, n: nat, i: int, open: int, bit: Bit) -> (m: nat)
    requires
        0 <= i,
        i + bit.written().len() <= s.len(),
        s.subrange(i, i + bit.written().len()) == bit.written(),
        bit.proper(),
        comes_to(s, n, i, open),
        open + bit.opens() >= 0,
    ensures
        n <= m,
        comes_to(s, m, i + bit.written().len(), open + bit.opens()),
        forall|k: nat|
            n < k < m ==> (#[trigger] read_after(s, k)).open == open,
{
    let w = bit.written();
    let l = w.len() as int;
    assert forall|k: int| 0 <= k < l implies s[i + k] == #[trigger] w[k] by {
        assert(s.subrange(i, i + l)[k] == w[k]);
    }
    let r = read_after(s, n);
    let one = (n + 1) as nat;
    match bit {
        Bit::Text(text) => {
            lemma_text_read(s, n, i, open, text, l);
            assert forall|k: nat| n < k < n + l implies (#[trigger] read_after(s, k)).open
                == open by {
                lemma_text_read(s, n, i, open, text, k - n);
            }
            (n + l) as nat
        },
        Bit::Single(text) => {
            assert(s[i + 0] == w[0]);
            let before = s.take(i);
            let rest = s.skip(i + l);
            assert(s =~= before + seq!['\''] + text + seq!['\''] + rest) by {
                assert(s =~= before + s.subrange(i, i + l) + rest);
            }
            quoted_text_ends_at_its_quote(before, text, rest);
            assert(read_after(s, one) == read_on(s, r));
            one
        },
        Bit::Double(text) => {
            assert(s[i + 0] == w[0]);
            let before = s.take(i);
            let rest = s.skip(i + l);
            assert(s =~= before + seq!['"'] + text + seq!['"'] + rest) by {
                assert(s =~= before + s.subrange(i, i + l) + rest);
            }
            quoted_text_ends_at_its_quote(before, text, rest);
            assert(read_after(s, one) == read_on(s, r));
            one
        },
        Bit::Substitution => {
            assert(s[i + 0] == w[0] && s[i + 1] == w[1]);
            assert(at(s, i + 1) == Some('('));
            assert(read_after(s, one) == read_on(s, r));
            let next = read_after(s, one);
            assert(next.i == i + 1);
            let two = (n + 2) as nat;
            assert(read_after(s, two) == read_on(s, next));
            two
        },
        Bit::Escaped(c) => {
            assert(s[i + 0] == w[0] && s[i + 1] == w[1]);
            assert(at(s, i + 1) is Some);
            assert(read_after(s, one) == read_on(s, r));
            one
        },
        _ => {
            assert(s[i + 0] == w[0]);
            assert(read_after(s, one) == read_on(s, r));
            one
        },
    }
}

/// Bits are read one after the other, with never less open than before them.
proof fn lemma_bits_read(
    s: Seq<char>,
    n: nat,
    i: int,
    open: int,
    bits: Seq<Bit>,
) -> (m: nat)
    requires
        0 <= i,
        i + bits_written(bits).len() <= s.len(),
        s.subrange(i, i + bits_written(bits).len()) == bits_written(bits),
        bits_proper(bits),
        closes_own(bits),
        open >= 0,
        comes_to(s, n, i, open),
    ensures
        n <= m,
        comes_to(s, m, i + bits_written(bits).len(), open + level(bits)),
        forall|k: nat| n <= k <= m ==> (#[trigger] read_after(s, k)).open >= open,
        level(bits) >= 0,
    decreases bits.len(),
{
    assert(bits.take(bits.len() as int) =~= bits);
    if bits.len() == 0 {
        n
    } else {
        let rest = bits.drop_last();
        let last = bits[bits.len() - 1];
        let all = s.subrange(i, i + bits_written(bits).len());
        let p = bits_written(rest).len() as int;
        let q = bits_written(bits).len() as int;
        assert(s.subrange(i, i + p) =~= all.subrange(0, p));
        assert(all.subrange(0, p) =~= bits_written(rest));
        assert(s.subrange(i + p, i + q) =~= all.subrange(p, q));
        assert(all.subrange(p, q) =~= last.written());
        assert forall|k: int| 0 <= k < rest.len() implies (#[trigger] rest[k]).proper() by {
            assert(rest[k] == bits[k]);
        }
        assert forall|k: int| 0 <= k <= rest.len() implies level(#[trigger] rest.take(k)) >= 0 by {
            assert(rest.take(k) =~= bits.take(k));
        }
        let mid = lemma_bits_read(s, n, i, open, rest);
        let m = lemma_bit_read(s, mid, i + p, open + level(rest), last);
        assert forall|k: nat| n <= k <= m implies (#[trigger] read_after(s, k)).open >= open by {
            if k > mid && k < m {
                assert(read_after(s, k).open == open + level(rest));
            }
        }
        m
    }
}

/// Where a group and what comes before it are in a text that starts with them.
proof fn lemma_group_parts(
    s: Seq<char>,
    a: Seq<char>,
    opening: char,
    b: Seq<char>,
    closing: char,
)
    requires
        ({
            let known = a + (seq![opening] + b + seq![closing]);
            known.len() <= s.len() && s.take(known.len() as int) == known
        }),
    ensures
        ({
            let n = a.len() as int;
            let m = b.len() as int;
            &&& n + m + 2 <= s.len()
            &&& s.subrange(0, n) == a
            &&& s[n] == opening
            &&& s.subrange(n + 1, n + 1 + m) == b
            &&& s[n + 1 + m] == closing
            &&& s.subrange(n, n + m + 2) == seq![opening] + b + seq![closing]
        }),
{
    let group = seq![opening] + b + seq![closing];
    let known = a + group;
    let n = a.len() as int;
    let m = b.len() as int;
    assert forall|k: int| 0 <= k < known.len() implies #[trigger] s[k] == known[k] by {
        assert(s.take(known.len() as int)[k] == known[k]);
    }
    assert(s.subrange(0, n) =~= a);
    assert(s.subrange(n, n + m + 2) =~= group);
    assert(s.subrange(n + 1, n + 1 + m) =~= b);
}

/// From a bracket that opens a group, a subshell or a substitution to the one that
/// matches it, a command is laid out as it is written: whatever comes before, as long as
/// it closes nothing that isn't open, whatever comes after, and whatever is between,
/// quoted, escaped, nested, chained or on several lines.
pub proof fn a_group_stays_whole(
    before: Seq<Bit>,
    opening: char,
    inner: Seq<Bit>,
    closing: char,
    rest: Seq<char>,
)
    requires
        opening == '(' || opening == '{',
        closing == ')' || closing == '}',
        bits_proper(before),
        closes_own(before),
        bits_proper(inner),
        closes_own(inner),
        level(inner) == 0,
        bits_written(before).len() > 0 ==> !white(bits_written(before)[0]),
    ensures
        stands_in(
            seq![opening] + bits_written(inner) + seq![closing],
            formatted(
                bits_written(before) + (seq![opening] + bits_written(inner) + seq![closing])
                    + rest,
            ),
        ),
{
    let a = bits_written(before);
    let b = bits_written(inner);
    let group = seq![opening] + b + seq![closing];
    let command = a + group + rest;
    let s = trim(command);
    let n = a.len() as int;
    let g = group.len() as int;
    let known = a + group;
    assert(known[0] == if n > 0 {
        a[0]
    } else {
        opening
    });
    assert(known.last() == closing);
    lemma_starts_kept(known, rest);
    lemma_group_parts(s, a, opening, b, closing);
    assert(comes_to(s, 0, 0, 0));
    let from = lemma_bits_read(s, 0, 0, 0, before);
    let d = level(before);
    let inside = (from + 1) as nat;
    assert(read_after(s, inside) == read_on(s, read_after(s, from)));
    let end = lemma_bits_read(s, inside, n + 1, d + 1, inner);
    let to = (end + 1) as nat;
    assert(read_after(s, to) == read_on(s, read_after(s, end)));
    assert forall|k: nat| from < k < to implies (#[trigger] read_after(s, k)).open > read_after(
        s,
        from,
    ).open by {
        assert(inside <= k <= end);
    }
    what_is_in_brackets_stays_whole(command, from, to);
}

} // verus!
