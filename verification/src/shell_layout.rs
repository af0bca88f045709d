//! What holds of laying out twice: a command laid out stays as it is laid out.
use vstd::prelude::*;
use crate::shell::{bodies_end, body_end, char_at, close_step, closed, closes, escaped_end,
    lemma_bodies_end, lemma_body_end, lemma_escaped_end, next_line, HeredocView, Nest};
use crate::shell_format::{blanks_end, broken, comment_may_follow, delimiter_from, ends_delimiter,
    fits_one_line, formatted, lay_next, lay_out, lemma_copies, lemma_delimiter_from,
    lemma_lay_next_advances, lemma_operators, lemma_quoted_end, line_trimmed, quoted_end, splits,
    start, Laid};
use crate::shell_lines::{lemma_closed_shift, lemma_escaped_shift, lemma_step_advances};
use crate::text::{group_runs, lemma_run_end_is, lemma_trim_ends, lemma_trim_fixed, run_end,
    run_start, trim, trim_end, trim_end_of, white, Class};

verus! {

// ---------------------------------------------------------------------------
// Text without backslashes
// ---------------------------------------------------------------------------

/// Whether there is no backslash in a text.
pub open spec fn bare(s: Seq<char>) -> bool {
    forall|k: int| 0 <= k < s.len() ==> #[trigger] s[k] != '\\'
}

spec fn blank(c: char) -> bool {
    c == ' ' || c == '\t'
}

/// A text without the blanks that end it.
spec fn unblanked(s: Seq<char>) -> Seq<char> {
    trim_end_of(s, Class::Blank)
}

/// What laying out is shown for.
spec fn sound(s: Seq<char>) -> bool {
    bare(s) && s.len() > 0 && !white(s.last())
}

/// What holds of a layout on its way.
spec fn fair(s: Seq<char>, laid: Laid) -> bool {
    0 <= laid.i <= s.len() && bare(laid.out)
}

proof fn lemma_bare_add(a: Seq<char>, b: Seq<char>)
    requires
        bare(a),
        bare(b),
    ensures
        bare(a + b),
{
    let s = a + b;
    assert forall|k: int| 0 <= k < s.len() implies #[trigger] s[k] != '\\' by {
        if k < a.len() {
            assert(s[k] == a[k]);
        } else {
            assert(s[k] == b[k - a.len()]);
        }
    }
}

proof fn lemma_bare_part(s: Seq<char>, i: int, j: int)
    requires
        bare(s),
        0 <= i <= j <= s.len(),
    ensures
        bare(s.subrange(i, j)),
{
    let part = s.subrange(i, j);
    assert forall|k: int| 0 <= k < part.len() implies #[trigger] part[k] != '\\' by {
        assert(part[k] == s[i + k]);
    }
}

proof fn lemma_unblanked(s: Seq<char>)
    ensures
        unblanked(s).is_prefix_of(s),
        unblanked(s).len() > 0 ==> !blank(unblanked(s).last()),
        s.len() > 0 && !blank(s.last()) ==> unblanked(s) == s,
        bare(s) ==> bare(unblanked(s)),
        forall|k: int| unblanked(s).len() <= k < s.len() ==> blank(#[trigger] s[k]),
{
    broadcast use group_runs;

    let n = run_start(s, Class::Blank, s.len() as int);
    assert(unblanked(s) =~= s.take(n));
    assert forall|k: int| n <= k < s.len() implies blank(#[trigger] s[k]) by {
        assert(Class::Blank.has(s[k]));
    }
    if s.len() > 0 && !blank(s.last()) {
        assert(n == s.len());
        assert(unblanked(s) =~= s);
    }
    if bare(s) {
        lemma_bare_part(s, 0, n);
        assert(s.take(n) =~= s.subrange(0, n));
    }
}

/// What ends with no blank is what is left of it with blanks behind it.
proof fn lemma_unblanked_is(s: Seq<char>, kept: Seq<char>)
    requires
        kept.is_prefix_of(s),
        kept.len() > 0,
        !blank(kept.last()),
        forall|k: int| kept.len() <= k < s.len() ==> blank(#[trigger] s[k]),
    ensures
        unblanked(s) == kept,
{
    broadcast use group_runs;

    let n = run_start(s, Class::Blank, s.len() as int);
    let last = kept.len() - 1;
    assert(kept[last] == s[last]);
    if n <= last {
        assert(Class::Blank.has(s[last]));
    }
    if n > kept.len() {
        assert(blank(s[n - 1]));
    }
    assert(unblanked(s) =~= kept);
}

proof fn lemma_line_trimmed(out: Seq<char>)
    requires
        bare(out),
    ensures
        line_trimmed(out) == unblanked(out),
{
    lemma_unblanked(out);
    let kept = unblanked(out);
    if kept.len() >= 2 {
        assert(kept[kept.len() - 2] != '\\');
    }
}

// ---------------------------------------------------------------------------
// Steps
// ---------------------------------------------------------------------------

/// The operator a command is split at.
spec fn operator(s: Seq<char>, i: int) -> Seq<char> {
    if s[i] == '&' {
        seq!['&', '&']
    } else if char_at(s, i + 1) == Some('|') {
        seq!['|', '|']
    } else if char_at(s, i + 1) == Some('&') {
        seq!['|', '&']
    } else {
        seq!['|']
    }
}

/// A text with its line ended.
spec fn ended(s: Seq<char>) -> Seq<char> {
    if s.len() > 0 && s.last() != '\n' {
        s.push('\n')
    } else {
        s
    }
}

/// What is laid out once the command is split after `kept`.
spec fn split_out(s: Seq<char>, i: int, kept: Seq<char>) -> Seq<char> {
    if s[i] == ';' {
        kept + seq![';', '\n']
    } else {
        ended(kept) + seq![' ', ' '] + operator(s, i) + seq![' ']
    }
}

/// Where what the command is split at ends.
spec fn split_end(s: Seq<char>, i: int) -> int {
    if s[i] == ';' {
        i + 1
    } else {
        i + operator(s, i).len()
    }
}

proof fn lemma_split_step(s: Seq<char>, laid: Laid)
    requires
        0 <= laid.i < s.len(),
        bare(laid.out),
        splits(s, laid),
    ensures
        lay_next(s, laid) == (Laid {
            i: blanks_end(s, split_end(s, laid.i)),
            out: split_out(s, laid.i, unblanked(laid.out)),
            ..laid
        }),
        split_end(s, laid.i) <= s.len(),
{
    lemma_operators();
    lemma_line_trimmed(laid.out);
    let kept = unblanked(laid.out);
    let c = s[laid.i];
    if c != ';' {
        let op = operator(s, laid.i);
        assert(broken(laid.out, op) =~= ended(kept) + seq![' ', ' '] + op + seq![' ']);
    }
}

proof fn lemma_fair_next(s: Seq<char>, laid: Laid)
    requires
        bare(s),
        fair(s, laid),
        laid.i < s.len(),
    ensures
        fair(s, lay_next(s, laid)),
        laid.i < lay_next(s, laid).i,
{
    lemma_lay_next_advances(s, laid);
    let next = lay_next(s, laid);
    if splits(s, laid) {
        lemma_split_step(s, laid);
        lemma_unblanked(laid.out);
        let kept = unblanked(laid.out);
        if s[laid.i] == ';' {
            lemma_bare_add(kept, seq![';', '\n']);
        } else {
            lemma_bare_add(ended(kept), seq![' ', ' ']);
            lemma_bare_add(ended(kept) + seq![' ', ' '], operator(s, laid.i));
            lemma_bare_add(ended(kept) + seq![' ', ' '] + operator(s, laid.i), seq![' ']);
        }
    } else {
        lemma_copies(s, laid);
        lemma_bare_part(s, laid.i, next.i);
        lemma_bare_add(laid.out, s.subrange(laid.i, next.i));
    }
}

proof fn lemma_blank_step(s: Seq<char>, laid: Laid)
    requires
        0 <= laid.i < s.len(),
        blank(s[laid.i]),
    ensures
        lay_next(s, laid) == (Laid { i: laid.i + 1, out: laid.out.push(s[laid.i]), ..laid }),
        !splits(s, laid),
{
    assert(laid.out + s.subrange(laid.i, laid.i + 1) =~= laid.out.push(s[laid.i]));
}

/// Whether what is laid out so far is not to lose the blanks that end it: what
/// comes next is copied.
spec fn stays(s: Seq<char>, laid: Laid) -> bool {
    let n = run_end(s, Class::Blank, laid.i);
    n < s.len() && !splits(s, Laid { i: n, ..laid })
}

/// What of the layout is there for good.
spec fn firm(s: Seq<char>, laid: Laid) -> Seq<char> {
    if stays(s, laid) {
        laid.out
    } else {
        unblanked(laid.out)
    }
}

proof fn lemma_stays_blank(s: Seq<char>, laid: Laid)
    requires
        0 <= laid.i < s.len(),
        blank(s[laid.i]),
    ensures
        stays(s, lay_next(s, laid)) == stays(s, laid),
{
    lemma_blank_step(s, laid);
    let next = lay_next(s, laid);
    let n = run_end(s, Class::Blank, laid.i);
    assert(run_end(s, Class::Blank, laid.i + 1) == n);
    assert(splits(s, Laid { i: n, ..laid }) == splits(s, Laid { i: n, ..next }));
}

/// What is there for good is in the end.
proof fn lemma_firm(s: Seq<char>, laid: Laid)
    requires
        sound(s),
        fair(s, laid),
        laid.i < s.len(),
        laid.out.len() > 0 ==> !white(laid.out[0]),
    ensures
        firm(s, laid).is_prefix_of(trim_end(lay_out(s, laid))),
    decreases s.len() - laid.i,
{
    broadcast use group_runs;

    lemma_fair_next(s, laid);
    let next = lay_next(s, laid);
    let out = lay_out(s, laid);
    assert(out == lay_out(s, next));
    if next.i == s.len() {
        assert(out == next.out);
    }
    lemma_unblanked(laid.out);
    let kept = unblanked(laid.out);
    if splits(s, laid) {
        lemma_split_step(s, laid);
        lemma_run_end_is(s, Class::Blank, laid.i, laid.i);
        assert(!stays(s, laid));
        lemma_split_last(s, laid.i, kept);
        let cut = next.out.drop_last();
        if next.i == s.len() {
            lemma_trimmed_to(next.out, cut);
            assert(kept.is_prefix_of(cut)) by {
                assert(cut.take(kept.len() as int) =~= kept);
            }
        } else {
            assert(next.out[0] == if kept.len() > 0 {
                kept[0]
            } else {
                next.out[0]
            });
            if kept.len() > 0 {
                assert(kept[0] == laid.out[0]);
                lemma_firm(s, next);
            }
            lemma_unblanked(next.out);
            lemma_cut_stays(next.out);
            assert(kept.is_prefix_of(firm(s, next))) by {
                assert(cut.is_prefix_of(firm(s, next)));
                assert(firm(s, next).take(kept.len() as int) =~= kept);
            }
            if kept.len() == 0 {
                assert(kept =~= seq![]);
                assert(trim_end(out).take(0) =~= kept);
            } else {
                lemma_prefix_of_prefix(kept, firm(s, next), trim_end(out));
            }
        }
    } else {
        lemma_copies(s, laid);
        let part = s.subrange(laid.i, next.i);
        assert(next.out == laid.out + part);
        assert(part[0] == s[laid.i]);
        assert(laid.out.is_prefix_of(next.out)) by {
            assert(next.out.take(laid.out.len() as int) =~= laid.out);
        }
        assert(firm(s, laid).is_prefix_of(laid.out)) by {
            assert(laid.out.take(laid.out.len() as int) =~= laid.out);
        }
        if next.i == s.len() {
            assert(next.out.last() == s.last());
            assert(trim_end(next.out) =~= next.out);
            lemma_prefix_of_prefix(firm(s, laid), laid.out, next.out);
        } else {
            if laid.out.len() > 0 {
                assert(next.out[0] == laid.out[0]);
            } else {
                assert(next.out[0] == s[laid.i]);
            }
            lemma_unblanked(next.out);
            if laid.out.len() > 0 || !white(s[laid.i]) {
                lemma_firm(s, next);
                if blank(s[laid.i]) {
                    lemma_blank_step(s, laid);
                    lemma_stays_blank(s, laid);
                    if !stays(s, laid) {
                        lemma_unblanked_pushed(laid.out, s[laid.i]);
                    } else {
                        assert(firm(s, laid).is_prefix_of(firm(s, next)));
                    }
                } else {
                    let at = laid.out.len() as int;
                    assert(next.out[at] == s[laid.i]);
                    assert(unblanked(next.out).len() > at);
                    assert(laid.out.is_prefix_of(unblanked(next.out))) by {
                        assert(unblanked(next.out).take(at) =~= laid.out);
                    }
                    lemma_prefix_of_prefix(firm(s, laid), laid.out, unblanked(next.out));
                    lemma_prefix_of_prefix(firm(s, laid), laid.out, next.out);
                    assert(firm(s, laid).is_prefix_of(firm(s, next)));
                }
                lemma_prefix_of_prefix(firm(s, laid), firm(s, next), trim_end(out));
            } else {
                assert(firm(s, laid).len() == 0);
                assert(trim_end(out).take(0) =~= firm(s, laid));
            }
        }
    }
}

proof fn lemma_prefix_of_prefix(a: Seq<char>, b: Seq<char>, c: Seq<char>)
    requires
        a.is_prefix_of(b),
        b.is_prefix_of(c),
    ensures
        a.is_prefix_of(c),
{
    assert(c.take(a.len() as int) =~= a) by {
        assert forall|k: int| 0 <= k < a.len() implies c.take(a.len() as int)[k] == a[k] by {
            assert(b.take(a.len() as int)[k] == a[k]);
            assert(c.take(b.len() as int)[k] == b[k]);
        }
    }
}

proof fn lemma_unblanked_pushed(out: Seq<char>, c: char)
    requires
        blank(c),
    ensures
        unblanked(out.push(c)) == unblanked(out),
{
    broadcast use group_runs;

    let more = out.push(c);
    let n = out.len() as int;
    assert(Class::Blank.has(more[n]));
    assert(run_start(more, Class::Blank, n + 1) == run_start(more, Class::Blank, n));
    lemma_run_start_same(out, c, n);
    assert(unblanked(more) =~= unblanked(out));
}

proof fn lemma_run_start_same(out: Seq<char>, c: char, i: int)
    requires
        0 <= i <= out.len(),
    ensures
        run_start(out.push(c), Class::Blank, i) == run_start(out, Class::Blank, i),
    decreases i,
{
    if i > 0 {
        assert(out.push(c)[i - 1] == out[i - 1]);
        lemma_run_start_same(out, c, i - 1);
    }
}

/// What a split lays out ends with a blank or a line break, after something that
/// is neither.
proof fn lemma_split_last(s: Seq<char>, i: int, kept: Seq<char>)
    requires
        0 <= i < s.len(),
        s[i] == ';' || s[i] == '|' || s[i] == '&',
    ensures
        ({
            let out = split_out(s, i, kept);
            &&& out.len() >= kept.len() + 2
            &&& out.last() == ' ' || out.last() == '\n'
            &&& !white(out[out.len() - 2])
            &&& out[out.len() - 2] != '\\'
            &&& kept.is_prefix_of(out.drop_last())
        }),
{
    let out = split_out(s, i, kept);
    assert(out.drop_last().take(kept.len() as int) =~= kept);
}

/// Trimmed, what ends with one character of white space loses that.
proof fn lemma_trimmed_to(out: Seq<char>, cut: Seq<char>)
    requires
        out.len() >= 2,
        cut == out.drop_last(),
        white(out.last()),
        !white(cut.last()),
    ensures
        trim_end(out) == cut,
{
    broadcast use group_runs;

    let n = run_start(out, Class::White, out.len() as int);
    let end = out.len() - 1;
    assert(out[end - 1] == cut.last());
    if n < end {
        assert(Class::White.has(out[end - 1]));
    }
    if n > end {
        assert(!Class::White.has(out[n - 1]));
    }
    assert(trim_end(out) =~= cut);
}

/// What comes before the last character stays, where it ends with no blank.
proof fn lemma_cut_stays(out: Seq<char>)
    requires
        out.len() >= 2,
        !blank(out[out.len() - 2]),
    ensures
        out.drop_last().is_prefix_of(unblanked(out)),
        out.drop_last().is_prefix_of(out),
{
    lemma_unblanked(out);
    let cut = out.drop_last();
    let kept = unblanked(out);
    if kept.len() < cut.len() {
        assert(blank(out[out.len() - 2]));
    }
    assert(kept.take(cut.len() as int) =~= cut);
    assert(out.take(cut.len() as int) =~= cut);
}

// ---------------------------------------------------------------------------
// Quoted text, read again
// ---------------------------------------------------------------------------

/// Where all that is open at `i` is closed, if it is.
spec fn closes_at(s: Seq<char>, i: int, open: Seq<Nest>) -> Option<int>
    decreases s.len() - i,
    when 0 <= i <= s.len()
    via closes_at_advances
{
    if open.len() == 0 {
        Some(i)
    } else if i >= s.len() {
        None
    } else {
        let (next, open) = close_step(s, i, open);
        closes_at(s, next, open)
    }
}

#[via_fn]
proof fn closes_at_advances(s: Seq<char>, i: int, open: Seq<Nest>) {
    if i < s.len() {
        lemma_step_advances(s, i, open);
    }
}

proof fn lemma_closes_at(s: Seq<char>, i: int, open: Seq<Nest>)
    requires
        0 <= i <= s.len(),
    ensures
        closed(s, i, open) == (match closes_at(s, i, open) {
            Some(end) => end,
            None => s.len() as int,
        }),
        closes_at(s, i, open) is Some ==> i <= closes_at(s, i, open)->0 <= s.len() && (open.len()
            > 0 ==> i < closes_at(s, i, open)->0),
    decreases s.len() - i,
{
    if open.len() > 0 && i < s.len() {
        lemma_step_advances(s, i, open);
        let (next, now) = close_step(s, i, open);
        lemma_closes_at(s, next, now);
    }
}

/// Whether a stretch of one text, and what is just before it, stands in another,
/// so far on.
spec fn alike(s: Seq<char>, t: Seq<char>, from: int, to: int, on: int) -> bool {
    &&& 0 <= from <= to <= s.len()
    &&& 0 <= from + on
    &&& to + on <= t.len()
    &&& forall|k: int| from <= k < to ==> #[trigger] t[k + on] == s[k]
}

proof fn lemma_run_alike(s: Seq<char>, t: Seq<char>, class: Class, i: int, end: int, on: int)
    requires
        alike(s, t, i, end, on),
        run_end(s, class, i) < end,
    ensures
        run_end(t, class, i + on) == run_end(s, class, i) + on,
{
    broadcast use group_runs;

    let n = run_end(s, class, i);
    assert forall|k: int| i + on <= k < n + on implies class.has(#[trigger] t[k]) by {
        assert(t[(k - on) + on] == s[k - on]);
    }
    assert(t[n + on] == s[n]);
    lemma_run_end_is(t, class, i + on, n + on);
}

proof fn lemma_escaped_alike(s: Seq<char>, t: Seq<char>, i: int, end: int, on: int)
    requires
        alike(s, t, i, end, on),
        bare(s),
        escaped_end(s, i) <= end,
        i < escaped_end(s, i),
        s[escaped_end(s, i) - 1] == '\'',
    ensures
        escaped_end(t, i + on) == escaped_end(s, i) + on,
    decreases s.len() - i,
{
    assert(t[i + on] == s[i]);
    if s[i] != '\'' {
        lemma_escaped_end(s, i + 1);
        if escaped_end(s, i + 1) == i + 1 {
            assert(s[i] == '\'');
        }
        lemma_escaped_alike(s, t, i + 1, end, on);
    }
}

proof fn lemma_escaped_terminated(s: Seq<char>, i: int)
    requires
        0 <= i <= s.len(),
        bare(s),
        escaped_end(s, i) < s.len(),
    ensures
        i < escaped_end(s, i),
        s[escaped_end(s, i) - 1] == '\'',
    decreases s.len() - i,
{
    if s[i] != '\'' {
        lemma_escaped_terminated(s, i + 1);
    }
}

/// What is closed in one text is closed in the other.
proof fn lemma_closes_alike(
    s: Seq<char>,
    t: Seq<char>,
    i: int,
    open: Seq<Nest>,
    end: int,
    on: int,
)
    requires
        bare(s),
        1 <= i <= end,
        alike(s, t, i - 1, end, on),
        closes_at(s, i, open) == Some(end),
    ensures
        closes_at(t, i + on, open) == Some(end + on),
    decreases s.len() - i,
{
    broadcast use group_runs;

    lemma_closes_at(s, i, open);
    if open.len() > 0 {
        assert(i < end);
        lemma_step_advances(s, i, open);
        let (next, now) = close_step(s, i, open);
        lemma_closes_at(s, next, now);
        assert(t[i + on] == s[i]);
        assert(t[(i - 1) + on] == s[i - 1]);
        let top = open.last();
        let c = s[i];
        if c != top.closer() {
            assert(now.len() > 0);
            assert(next < end);
            assert(t[(i + 1) + on] == s[i + 1]);
            if crate::shell::single_quotes(top) && c == '$' && s[i + 1] == '\'' {
                lemma_escaped_terminated(s, i + 2);
                lemma_escaped_alike(s, t, i + 2, end, on);
            } else if crate::shell::single_quotes(top) && c == '\'' {
                lemma_run_alike(s, t, Class::Not('\''), i + 1, end, on);
            } else if crate::shell::comments(top, char_at(s, i - 1), c) {
                lemma_run_alike(s, t, Class::Not('\n'), i, end, on);
            }
        }
        assert(close_step(t, i + on, open) == (next + on, now));
        lemma_closes_alike(s, t, next, now, end, on);
    }
}

// ---------------------------------------------------------------------------
// A step, taken again
// ---------------------------------------------------------------------------

/// A layout that goes on at the end of what is laid out.
spec fn come_to(laid: Laid) -> Laid {
    Laid { i: laid.out.len() as int, ..laid }
}

/// What a layout comes to outside of all that nests, with no heredoc to read.
spec fn plain(out: Seq<char>) -> Laid {
    Laid { i: out.len() as int, out, depth: 0, heredocs: seq![] }
}

/// Whether what follows in a text laid out reads like what follows in the
/// command: the same, or what a split puts there.
spec fn follows(s: Seq<char>, i: int, f: Seq<char>, j: int) -> bool {
    char_at(f, j) == char_at(s, i) || (char_at(f, j) == Some('\n') || char_at(f, j) == Some(';')
        || char_at(f, j) == Some(' '))
}

/// Whether a heredoc is opened at `i`.
spec fn here(s: Seq<char>, i: int) -> bool {
    s[i] == '<' && char_at(s, i + 1) == Some('<') && char_at(s, i + 2) != Some('<')
}

/// Where the delimiter of the heredoc opened at `i` starts.
spec fn delimiter_start(s: Seq<char>, i: int) -> int {
    if char_at(s, i + 2) == Some('-') {
        i + 3
    } else {
        i + 2
    }
}

/// Whether a heredoc is opened at `i` without a delimiter.
spec fn unnamed(s: Seq<char>, i: int) -> bool {
    here(s, i) && delimiter_from(s, delimiter_start(s, i), seq![]).1.len() == 0
}

/// Whether a character is no part of a heredoc's delimiter, and doesn't end it.
spec fn passed_over(c: char) -> bool {
    white(c) || c == '\'' || c == '"' || c == '\\'
}

/// What is behind a heredoc's delimiter.
proof fn lemma_delimiter_stop(s: Seq<char>, i: int, read: Seq<char>)
    requires
        0 <= i <= s.len(),
        read.len() > 0 ==> i > 0 && !white(s[i - 1]),
    ensures
        ({
            let (end, delimiter) = delimiter_from(s, i, read);
            &&& i <= end <= s.len()
            &&& read.len() > 0 ==> delimiter.len() > 0
            &&& delimiter.len() > 0 ==> end > 0 && !white(s[end - 1])
            &&& delimiter.len() > 0 && end < s.len() ==> white(s[end]) || ends_delimiter(s[end])
            &&& delimiter.len() == 0 && end < s.len() ==> ends_delimiter(s[end])
            &&& delimiter.len() == 0 ==> forall|k: int|
                i <= k < end ==> passed_over(#[trigger] s[k])
        }),
    decreases s.len() - i,
{
    if i < s.len() && !(white(s[i]) && read.len() > 0) && !ends_delimiter(s[i]) {
        if passed_over(s[i]) {
            lemma_delimiter_stop(s, i + 1, read);
        } else {
            lemma_delimiter_stop(s, i + 1, read.push(s[i]));
        }
    }
}

proof fn lemma_delimiter_alike(
    s: Seq<char>,
    t: Seq<char>,
    i: int,
    read: Seq<char>,
    end: int,
    on: int,
)
    requires
        alike(s, t, i, end, on),
        delimiter_from(s, i, read).0 == end,
        end < t.len() - on ==> ({
            let c = t[end + on];
            ends_delimiter(c) || (white(c) && delimiter_from(s, i, read).1.len() > 0)
        }),
    ensures
        delimiter_from(t, i + on, read) == (end + on, delimiter_from(s, i, read).1),
    decreases s.len() - i,
{
    lemma_delimiter_from(s, i, read);
    if i < s.len() && !(white(s[i]) && read.len() > 0) && !ends_delimiter(s[i]) {
        lemma_delimiter_from(s, i + 1, read);
        lemma_delimiter_from(s, i + 1, read.push(s[i]));
        assert(t[i + on] == s[i]);
        if passed_over(s[i]) {
            lemma_delimiter_alike(s, t, i + 1, read, end, on);
        } else {
            lemma_delimiter_alike(s, t, i + 1, read.push(s[i]), end, on);
        }
    } else {
        assert(i == end);
    }
}

/// A heredoc without a delimiter, up to what ends it.
proof fn lemma_no_delimiter(s: Seq<char>, i: int, end: int)
    requires
        0 <= i <= end < s.len(),
        forall|k: int| i <= k < end ==> passed_over(#[trigger] s[k]),
        ends_delimiter(s[end]),
    ensures
        delimiter_from(s, i, seq![]) == (end, Seq::<char>::empty()),
    decreases end - i,
{
    if i < end {
        assert(passed_over(s[i]));
        lemma_no_delimiter(s, i + 1, end);
    }
}

proof fn lemma_body_alike(
    s: Seq<char>,
    t: Seq<char>,
    i: int,
    heredoc: HeredocView,
    end: int,
    on: int,
)
    requires
        alike(s, t, i, end, on),
        body_end(s, i, heredoc) <= end,
        end == s.len() ==> t.len() == end + on,
    ensures
        body_end(t, i + on, heredoc) == body_end(s, i, heredoc) + on,
    decreases s.len() - i,
{
    broadcast use group_runs;

    lemma_body_end(s, i, heredoc);
    if i < s.len() {
        let n = run_end(s, Class::Not('\n'), i);
        let line = s.subrange(i, n);
        if !closes(line, heredoc) {
            lemma_body_end(s, next_line(s, i), heredoc);
        }
        if n < s.len() {
            lemma_run_alike(s, t, Class::Not('\n'), i, end, on);
        } else {
            assert forall|k: int| i + on <= k < t.len() implies Class::Not('\n').has(
                #[trigger] t[k],
            ) by {
                assert(t[(k - on) + on] == s[k - on]);
            }
            lemma_run_end_is(t, Class::Not('\n'), i + on, t.len() as int);
        }
        assert(t.subrange(i + on, n + on) =~= line) by {
            assert forall|k: int| 0 <= k < n - i implies t.subrange(i + on, n + on)[k]
                == #[trigger] line[k] by {
                assert(t[(i + k) + on] == s[i + k]);
            }
        }
        assert(next_line(t, i + on) == next_line(s, i) + on);
        if !closes(line, heredoc) {
            lemma_body_alike(s, t, next_line(s, i), heredoc, end, on);
        }
    } else {
        assert(i + on == t.len());
    }
}

/// The bodies of the heredocs are read again.
proof fn lemma_bodies_alike(
    s: Seq<char>,
    t: Seq<char>,
    i: int,
    heredocs: Seq<HeredocView>,
    end: int,
    on: int,
)
    requires
        alike(s, t, i, end, on),
        bodies_end(s, i, heredocs) == end,
        end == s.len() ==> t.len() == end + on,
    ensures
        bodies_end(t, i + on, heredocs) == end + on,
    decreases heredocs.len(),
{
    if heredocs.len() > 0 {
        let then_at = body_end(s, i, heredocs[0]);
        lemma_body_end(s, i, heredocs[0]);
        lemma_bodies_end(s, then_at, heredocs.skip(1));
        lemma_body_alike(s, t, i, heredocs[0], end, on);
        lemma_bodies_alike(s, t, then_at, heredocs.skip(1), end, on);
    }
}

/// What is read of heredocs ends with a line.
proof fn lemma_body_last(s: Seq<char>, i: int, heredoc: HeredocView)
    requires
        0 < i <= s.len(),
        s[i - 1] == '\n',
        body_end(s, i, heredoc) < s.len(),
    ensures
        i <= body_end(s, i, heredoc),
        s[body_end(s, i, heredoc) - 1] == '\n',
    decreases s.len() - i,
{
    broadcast use group_runs;

    lemma_body_end(s, i, heredoc);
    if i < s.len() && !closes(s.subrange(i, run_end(s, Class::Not('\n'), i)), heredoc) {
        lemma_body_end(s, next_line(s, i), heredoc);
        lemma_body_last(s, next_line(s, i), heredoc);
    }
}

proof fn lemma_bodies_last(s: Seq<char>, i: int, heredocs: Seq<HeredocView>)
    requires
        0 < i <= s.len(),
        s[i - 1] == '\n',
        bodies_end(s, i, heredocs) < s.len(),
    ensures
        i <= bodies_end(s, i, heredocs),
        s[bodies_end(s, i, heredocs) - 1] == '\n',
    decreases heredocs.len(),
{
    if heredocs.len() > 0 {
        let end = body_end(s, i, heredocs[0]);
        lemma_body_end(s, i, heredocs[0]);
        lemma_bodies_end(s, end, heredocs.skip(1));
        lemma_body_last(s, i, heredocs[0]);
        lemma_bodies_last(s, end, heredocs.skip(1));
    }
}

/// What is copied of the command is copied of what is laid out.
proof fn lemma_same_step(s: Seq<char>, laid: Laid, f: Seq<char>)
    requires
        sound(s),
        fair(s, laid),
        laid.i < s.len(),
        !splits(s, laid),
        !blank(s[laid.i]),
        lay_next(s, laid).out.is_prefix_of(f),
        lay_next(s, laid).i == s.len() ==> f == lay_next(s, laid).out,
        lay_next(s, laid).i < s.len() ==> follows(
            s,
            lay_next(s, laid).i,
            f,
            lay_next(s, laid).out.len() as int,
        ),
        lay_next(s, laid).i < s.len() && s[lay_next(s, laid).i] == '\n' ==> char_at(
            f,
            lay_next(s, laid).out.len() as int,
        ) == Some('\n'),
        lay_next(s, laid).i < s.len() && unnamed(s, laid.i) ==> char_at(
            f,
            lay_next(s, laid).out.len() as int,
        ) == Some(s[lay_next(s, laid).i]),
    ensures
        lay_next(f, come_to(laid)) == come_to(lay_next(s, laid)),
{
    broadcast use group_runs;

    let next = lay_next(s, laid);
    let i = laid.i;
    let j = laid.out.len() as int;
    let on = j - i;
    let c = s[i];
    lemma_lay_next_advances(s, laid);
    lemma_copies(s, laid);
    let part = s.subrange(i, next.i);
    let m = next.out.len() as int;
    assert(m == next.i + on);
    assert forall|k: int| i <= k < next.i implies #[trigger] f[k + on] == s[k] by {
        assert(f.take(m)[k + on] == next.out[k + on]);
        assert(next.out[k + on] == part[k - i]);
    }
    assert(alike(s, f, i, next.i, on));
    assert(f[i + on] == c);
    let at = come_to(laid);
    assert(f.subrange(j, m) =~= part) by {
        assert forall|k: int| 0 <= k < part.len() implies f.subrange(j, m)[k] == part[k] by {
            assert(f[(i + k) + on] == s[i + k]);
        }
    }
    assert(laid.out + f.subrange(j, m) == next.out);
    if c == '\'' || c == '"' || c == '`' {
        lemma_same_quote(s, laid, f);
        assert(lay_next(f, at) =~= come_to(next));
    } else if c == '$' && char_at(s, i + 1) == Some('\'') {
        lemma_escaped_end(s, i + 2);
        assert(f[(i + 1) + on] == s[i + 1]);
        if next.i < s.len() {
            lemma_escaped_terminated(s, i + 2);
            lemma_escaped_alike(s, f, i + 2, next.i, on);
        } else {
            let rest = s.skip(i);
            assert(s.take(i) + rest =~= s);
            assert(f =~= laid.out + rest);
            lemma_escaped_shift(s.take(i), rest, 2);
            lemma_escaped_shift(laid.out, rest, 2);
        }
        assert(lay_next(f, at) =~= come_to(next));
    } else if c == '#' && comment_may_follow(laid.out) {
        if next.i < s.len() {
            assert(s[next.i] == '\n');
            assert forall|k: int| j <= k < m implies Class::Not('\n').has(#[trigger] f[k]) by {
                assert(f[(k - on) + on] == s[k - on]);
            }
            lemma_run_end_is(f, Class::Not('\n'), j, m);
        } else {
            assert forall|k: int| j <= k < m implies Class::Not('\n').has(#[trigger] f[k]) by {
                assert(f[(k - on) + on] == s[k - on]);
            }
            lemma_run_end_is(f, Class::Not('\n'), j, m);
        }
        assert(lay_next(f, at) =~= come_to(next));
    } else if c == '\n' {
        lemma_bodies_end(s, i + 1, laid.heredocs);
        lemma_bodies_alike(s, f, i + 1, laid.heredocs, next.i, on);
        assert(lay_next(f, at) =~= come_to(next));
    } else if here(s, i) {
        let begin = delimiter_start(s, i);
        lemma_delimiter_from(s, begin, seq![]);
        assert(f[(i + 1) + on] == s[i + 1]);
        if i + 2 < next.i {
            assert(f[(i + 2) + on] == s[i + 2]);
        }
        assert(delimiter_start(f, j) == begin + on);
        lemma_delimiter_stop(s, begin, seq![]);
        lemma_delimiter_alike(s, f, begin, seq![], next.i, on);
        assert(lay_next(f, at) =~= come_to(next));
    } else if c == '<' && char_at(s, i + 1) == Some('<') {
        assert(f[(i + 1) + on] == s[i + 1]);
        assert(f[(i + 2) + on] == s[i + 2]);
        assert(lay_next(f, at) =~= come_to(next));
    } else if c == ';' && char_at(s, i + 1) == Some(';') && laid.depth == 0
        && laid.heredocs.len() == 0 {
        assert(next.i == i + 2);
        assert(f[(i + 1) + on] == s[i + 1]);
        assert(lay_next(f, at) =~= come_to(next));
    } else {
        assert(next.i == i + 1);
        assert(char_at(f, j + 1) == char_at(s, i + 1) || char_at(f, j + 1) == Some('\n') || char_at(
            f,
            j + 1,
        ) == Some(';') || char_at(f, j + 1) == Some(' '));
        assert(crate::shell_format::at(f, j + 1) == char_at(f, j + 1));
        assert(crate::shell_format::at(s, i + 1) == char_at(s, i + 1));
        assert(lay_next(f, at) =~= come_to(next));
    }
}

proof fn lemma_same_quote(s: Seq<char>, laid: Laid, f: Seq<char>)
    requires
        sound(s),
        fair(s, laid),
        laid.i < s.len(),
        s[laid.i] == '\'' || s[laid.i] == '"' || s[laid.i] == '`',
        ({
            let end = quoted_end(s, s[laid.i], laid.i + 1);
            let on = laid.out.len() - laid.i;
            &&& alike(s, f, laid.i, end, on)
            &&& end == s.len() ==> f.len() == end + on
            &&& end == s.len() ==> laid.out.is_prefix_of(f)
        }),
    ensures
        quoted_end(f, s[laid.i], laid.out.len() as int + 1) == quoted_end(s, s[laid.i], laid.i + 1)
            + laid.out.len() - laid.i,
{
    broadcast use group_runs;

    let i = laid.i;
    let c = s[i];
    let j = laid.out.len() as int;
    let on = j - i;
    let end = quoted_end(s, c, i + 1);
    lemma_quoted_end(s, c, i + 1);
    if c == '\'' {
        let n = run_end(s, Class::Not('\''), i + 1);
        if n < s.len() {
            lemma_run_alike(s, f, Class::Not('\''), i + 1, end, on);
        } else {
            assert forall|k: int| j + 1 <= k < f.len() implies Class::Not('\'').has(
                #[trigger] f[k],
            ) by {
                assert(f[(k - on) + on] == s[k - on]);
            }
            lemma_run_end_is(f, Class::Not('\''), j + 1, f.len() as int);
        }
    } else {
        let open = if c == '"' {
            seq![Nest::Double]
        } else {
            seq![Nest::Tick]
        };
        lemma_closes_at(s, i + 1, open);
        lemma_closes_at(f, j + 1, open);
        if closes_at(s, i + 1, open) is Some {
            lemma_closes_alike(s, f, i + 1, open, end, on);
        } else {
            let rest = s.skip(i);
            assert(s.take(i) + rest =~= s);
            assert(f =~= laid.out + rest) by {
                assert forall|k: int| 0 <= k < f.len() implies #[trigger] f[k] == (laid.out
                    + rest)[k] by {
                    if k < j {
                        assert(f.take(j)[k] == laid.out[k]);
                    } else {
                        assert(f[(k - on) + on] == s[k - on]);
                    }
                }
            }
            lemma_closed_shift(s.take(i), rest, 1, open);
            lemma_closed_shift(laid.out, rest, 1, open);
        }
    }
}

// ---------------------------------------------------------------------------
// What comes next
// ---------------------------------------------------------------------------

proof fn lemma_skip(s: Seq<char>, laid: Laid)
    requires
        0 <= laid.i <= s.len(),
    ensures
        ({
            let n = run_end(s, Class::Blank, laid.i);
            lay_out(s, laid) == lay_out(
                s,
                (Laid { i: n, out: laid.out + s.subrange(laid.i, n), ..laid }),
            )
        }),
    decreases s.len() - laid.i,
{
    broadcast use group_runs;

    let n = run_end(s, Class::Blank, laid.i);
    if laid.i < s.len() && blank(s[laid.i]) {
        lemma_blank_step(s, laid);
        let next = lay_next(s, laid);
        lemma_skip(s, next);
        assert(laid.out.push(s[laid.i]) + s.subrange(laid.i + 1, n) =~= laid.out + s.subrange(
            laid.i,
            n,
        ));
    } else {
        assert(laid.out + s.subrange(laid.i, laid.i) =~= laid.out);
    }
}

proof fn lemma_blanks_stop(s: Seq<char>, i: int)
    requires
        bare(s),
        0 <= i <= s.len(),
    ensures
        i <= blanks_end(s, i) <= s.len(),
        blanks_end(s, i) < s.len() ==> !blank(s[blanks_end(s, i)]) && s[blanks_end(s, i)] != '\n',
    decreases s.len() - i,
{
    if i < s.len() && (blank(s[i]) || s[i] == '\n') {
        lemma_blanks_stop(s, i + 1);
    }
}

proof fn lemma_blanks_over(s: Seq<char>, i: int, n: int)
    requires
        bare(s),
        0 <= i <= n <= s.len(),
        forall|k: int| i <= k < n ==> blank(#[trigger] s[k]) || s[k] == '\n',
        n < s.len() ==> !blank(s[n]) && s[n] != '\n',
    ensures
        blanks_end(s, i) == n,
    decreases n - i,
{
    if i < n {
        assert(blank(s[i]) || s[i] == '\n');
        lemma_blanks_over(s, i + 1, n);
    }
}

proof fn lemma_char_of_prefix(a: Seq<char>, f: Seq<char>, k: int)
    requires
        a.is_prefix_of(f),
        0 <= k < a.len(),
    ensures
        char_at(f, k) == Some(a[k]),
        f[k] == a[k],
        k < f.len(),
{
    assert(f.take(a.len() as int)[k] == a[k]);
}

/// What a split lays out, but for its last character, is in the end.
proof fn lemma_cut_in(s: Seq<char>, laid: Laid, f: Seq<char>)
    requires
        sound(s),
        fair(s, laid),
        laid.i < s.len(),
        splits(s, laid),
        unblanked(laid.out).len() > 0,
        !white(unblanked(laid.out)[0]),
        f == trim_end(lay_out(s, laid)),
    ensures
        lay_next(s, laid).out.drop_last().is_prefix_of(f),
        lay_next(s, laid).i == s.len() ==> f == lay_next(s, laid).out.drop_last(),
{
    let next = lay_next(s, laid);
    let kept = unblanked(laid.out);
    lemma_fair_next(s, laid);
    lemma_split_step(s, laid);
    lemma_split_last(s, laid.i, kept);
    let cut = next.out.drop_last();
    assert(lay_out(s, laid) == lay_out(s, next));
    if next.i == s.len() {
        assert(lay_out(s, next) == next.out);
        lemma_trimmed_to(next.out, cut);
        assert(f.take(cut.len() as int) =~= cut);
    } else {
        lemma_char_of_prefix(kept, cut, 0);
        assert(next.out[0] == kept[0]);
        lemma_firm(s, next);
        lemma_cut_stays(next.out);
        lemma_prefix_of_prefix(cut, firm(s, next), f);
    }
}

/// What comes after a layout that stays.
proof fn lemma_next_in(s: Seq<char>, laid: Laid, f: Seq<char>)
    requires
        sound(s),
        fair(s, laid),
        laid.i < s.len(),
        stays(s, laid),
        laid.out.len() > 0,
        !white(laid.out[0]),
        f == trim_end(lay_out(s, laid)),
    ensures
        laid.out.is_prefix_of(f),
        char_at(f, laid.out.len() as int) == Some(s[laid.i]),
{
    broadcast use group_runs;

    lemma_firm(s, laid);
    lemma_fair_next(s, laid);
    let next = lay_next(s, laid);
    let j = laid.out.len() as int;
    assert(lay_out(s, laid) == lay_out(s, next));
    if !blank(s[laid.i]) {
        lemma_run_end_is(s, Class::Blank, laid.i, laid.i);
        assert(!splits(s, laid)) by {
            assert(Laid { i: laid.i, ..laid } == laid);
        }
    } else {
        lemma_blank_step(s, laid);
    }
    lemma_copies(s, laid);
    assert(next.out[j] == s[laid.i]);
    assert(next.out[0] == laid.out[0]);
    if next.i == s.len() {
        assert(next.out.last() == s.last());
        assert(trim_end(next.out) =~= next.out);
    } else {
        lemma_firm(s, next);
        lemma_unblanked(next.out);
        if blank(s[laid.i]) {
            lemma_stays_blank(s, laid);
        }
        assert(firm(s, next).len() > j);
        assert(firm(s, next)[j] == next.out[j]);
        lemma_char_of_prefix(firm(s, next), f, j);
    }
}

/// What comes after a split.
proof fn lemma_split_in(s: Seq<char>, laid: Laid, f: Seq<char>)
    requires
        sound(s),
        fair(s, laid),
        laid.i < s.len(),
        splits(s, laid),
        unblanked(laid.out).len() > 0,
        !white(unblanked(laid.out)[0]),
        f == trim_end(lay_out(s, laid)),
    ensures
        ({
            let next = lay_next(s, laid);
            let cut = next.out.drop_last();
            let rest = char_at(f, cut.len() as int);
            &&& cut.is_prefix_of(f)
            &&& next.i == s.len() ==> f == cut
            &&& next.i < s.len() ==> !blank(s[next.i]) && s[next.i] != '\n'
            &&& next.i < s.len() && stays(s, next) ==> next.out.is_prefix_of(f) && char_at(
                f,
                next.out.len() as int,
            ) == Some(s[next.i])
            &&& next.i < s.len() && !stays(s, next) ==> splits(s, next)
            &&& next.out.last() == '\n' ==> rest is None || rest == Some('\n')
            &&& rest is None || rest == Some(' ') || rest == Some('\n') || rest == Some(';')
            &&& next.out[0] == unblanked(laid.out)[0]
        }),
{
    broadcast use group_runs;

    let next = lay_next(s, laid);
    let kept = unblanked(laid.out);
    lemma_fair_next(s, laid);
    lemma_split_step(s, laid);
    lemma_split_last(s, laid.i, kept);
    lemma_cut_in(s, laid, f);
    lemma_blanks_stop(s, split_end(s, laid.i));
    let cut = next.out.drop_last();
    let m = cut.len() as int;
    assert(lay_out(s, laid) == lay_out(s, next));
    lemma_char_of_prefix(kept, cut, 0);
    assert(next.out[0] == kept[0]);
    if next.i < s.len() {
        lemma_run_end_is(s, Class::Blank, next.i, next.i);
        assert(Laid { i: next.i, ..next } == next);
        if stays(s, next) {
            lemma_next_in(s, next, f);
            lemma_char_of_prefix(next.out, f, m);
        } else {
            lemma_unblanked(next.out);
            if next.out.last() == '\n' {
                lemma_firm(s, next);
                lemma_char_of_prefix(next.out, f, m);
            } else {
                assert(cut.is_prefix_of(next.out)) by {
                    assert(next.out.take(m) =~= cut);
                }
                assert forall|k: int| m <= k < next.out.len() implies blank(
                    #[trigger] next.out[k],
                ) by {
                    assert(next.out[k] == next.out.last());
                }
                lemma_unblanked_is(next.out, cut);
                lemma_cut_in(s, next, f);
                lemma_split_step(s, next);
                let more = lay_next(s, next).out;
                assert(more == split_out(s, next.i, cut));
                lemma_split_last(s, next.i, cut);
                let rest = more.drop_last();
                assert(cut.last() != '\n');
                assert(rest[m] == ';' || rest[m] == '\n');
                lemma_char_of_prefix(rest, f, m);
            }
        }
    }
}

/// A closed nest ends with what closes it.
proof fn lemma_closes_last(s: Seq<char>, i: int, open: Seq<Nest>)
    requires
        bare(s),
        0 <= i <= s.len(),
        open.len() > 0,
        closes_at(s, i, open) is Some,
    ensures
        ({
            let last = s[closes_at(s, i, open)->0 - 1];
            last == ')' || last == '}' || last == '"' || last == '`'
        }),
    decreases s.len() - i,
{
    lemma_step_advances(s, i, open);
    let (next, now) = close_step(s, i, open);
    if now.len() > 0 {
        lemma_closes_last(s, next, now);
    }
}

/// What is copied at once ends with no blank, unless a line break follows.
proof fn lemma_part_last(s: Seq<char>, laid: Laid)
    requires
        sound(s),
        fair(s, laid),
        laid.i < s.len(),
        !splits(s, laid),
        !blank(s[laid.i]),
        lay_next(s, laid).i < s.len(),
    ensures
        !blank(lay_next(s, laid).out.last()) || s[lay_next(s, laid).i] == '\n' || unnamed(
            s,
            laid.i,
        ),
        unnamed(s, laid.i) ==> ends_delimiter(s[lay_next(s, laid).i]),
{
    broadcast use group_runs;

    let next = lay_next(s, laid);
    let i = laid.i;
    let c = s[i];
    lemma_lay_next_advances(s, laid);
    lemma_copies(s, laid);
    assert(next.out.last() == s[next.i - 1]);
    assert(crate::shell_format::at(s, i + 1) == char_at(s, i + 1));
    assert(crate::shell_format::at(s, i + 2) == char_at(s, i + 2));
    if c == '"' {
        lemma_closes_at(s, i + 1, seq![Nest::Double]);
        lemma_closes_last(s, i + 1, seq![Nest::Double]);
    } else if c == '`' {
        lemma_closes_at(s, i + 1, seq![Nest::Tick]);
        lemma_closes_last(s, i + 1, seq![Nest::Tick]);
    } else if c == '$' && char_at(s, i + 1) == Some('\'') {
        lemma_escaped_terminated(s, i + 2);
    } else if c == '\n' {
        lemma_bodies_last(s, i + 1, laid.heredocs);
    } else if here(s, i) {
        lemma_delimiter_stop(s, delimiter_start(s, i), seq![]);
    }
}

// ---------------------------------------------------------------------------
// Laying out again
// ---------------------------------------------------------------------------

/// What a layout comes to after a split, of what is laid out.
spec fn after_split(out: Seq<char>, f: Seq<char>) -> Laid {
    Laid { i: blanks_end(f, out.len() - 1), out, depth: 0, heredocs: seq![] }
}

/// Where the command was split, what is laid out is split again, alike.
proof fn lemma_split_again(s: Seq<char>, laid: Laid, f: Seq<char>, again: Laid)
    requires
        sound(s),
        fair(s, laid),
        laid.i < s.len(),
        splits(s, laid),
        unblanked(laid.out).len() > 0,
        !white(unblanked(laid.out)[0]),
        f == trim_end(lay_out(s, laid)),
        bare(f),
        bare(again.out),
        again.depth == 0,
        again.heredocs == Seq::<HeredocView>::empty(),
        again.i == lay_next(s, laid).out.len() - 1 - (split_end(s, laid.i) - laid.i),
        s[laid.i] == ';' ==> unblanked(again.out) == unblanked(laid.out),
        s[laid.i] != ';' ==> ended(unblanked(again.out)) == ended(unblanked(laid.out)),
    ensures
        again.i < f.len(),
        lay_out(f, again) == lay_out(f, after_split(lay_next(s, laid).out, f)),
{
    lemma_split_in(s, laid, f);
    lemma_split_step(s, laid);
    let kept = unblanked(laid.out);
    lemma_split_last(s, laid.i, kept);
    let next = lay_next(s, laid);
    let cut = next.out.drop_last();
    let m = cut.len() as int;
    let j = again.i;
    let wide = split_end(s, laid.i) - laid.i;
    assert(j == m - wide);
    assert(wide == 1 || wide == 2);
    lemma_char_of_prefix(cut, f, j);
    if wide == 2 {
        lemma_char_of_prefix(cut, f, j + 1);
    }
    if s[laid.i] == ';' {
        assert(cut[j] == ';');
    } else {
        let op = operator(s, laid.i);
        assert(cut[j] == op[0]);
        if wide == 2 {
            assert(cut[j + 1] == op[1]);
        }
        assert(operator(f, j) =~= op);
    }
    assert(char_at(f, j + 1) == crate::shell_format::at(f, j + 1));
    assert(splits(f, again));
    lemma_split_step(f, again);
    assert(split_out(f, j, unblanked(again.out)) == next.out);
    assert(lay_next(f, again) =~= after_split(next.out, f));
    lemma_lay_next_advances(f, again);
}

/// From a layout that stays, what is laid out is laid out as it is.
proof fn lemma_again_from(s: Seq<char>, laid: Laid, f: Seq<char>)
    requires
        sound(s),
        fair(s, laid),
        laid.i < s.len(),
        stays(s, laid),
        laid.out.len() > 0 ==> !white(laid.out[0]),
        laid.out.len() == 0 ==> !white(s[laid.i]),
        f == trim_end(lay_out(s, laid)),
        bare(f),
    ensures
        laid.out.len() <= f.len(),
        trim_end(lay_out(f, come_to(laid))) == f,
    decreases s.len() - laid.i, 1int,
{
    broadcast use group_runs;

    lemma_fair_next(s, laid);
    let next = lay_next(s, laid);
    assert(lay_out(s, laid) == lay_out(s, next));
    let at = come_to(laid);
    let j = laid.out.len() as int;
    lemma_firm(s, laid);
    if blank(s[laid.i]) {
        lemma_next_in(s, laid, f);
        lemma_blank_step(s, laid);
        lemma_stays_blank(s, laid);
        lemma_blank_step(f, at);
        assert(lay_next(f, at) =~= come_to(next));
        assert(next.i < s.len());
        assert(next.out[0] == laid.out[0]);
        lemma_again_from(s, next, f);
    } else {
        lemma_run_end_is(s, Class::Blank, laid.i, laid.i);
        assert(Laid { i: laid.i, ..laid } == laid);
        lemma_copies(s, laid);
        assert(next.out[0] == if j > 0 {
            laid.out[0]
        } else {
            s[laid.i]
        });
        if next.i == s.len() {
            assert(next.out.last() == s.last());
            assert(trim_end(next.out) =~= next.out);
            assert(f == next.out);
            assert(next.out.is_prefix_of(f)) by {
                assert(f.take(next.out.len() as int) =~= next.out);
            }
            lemma_same_step(s, laid, f);
            assert(lay_out(f, come_to(next)) == next.out);
            assert(lay_out(f, at) == next.out);
        } else {
            lemma_part_last(s, laid);
            if s[next.i] == '\n' {
                lemma_run_end_is(s, Class::Blank, next.i, next.i);
                assert(Laid { i: next.i, ..next } == next);
                assert(stays(s, next));
            }
            if stays(s, next) {
                lemma_next_in(s, next, f);
                lemma_same_step(s, laid, f);
                lemma_again_from(s, next, f);
            } else if unnamed(s, laid.i) {
                lemma_run_end_is(s, Class::Blank, next.i, next.i);
                assert(Laid { i: next.i, ..next } == next);
                lemma_again_unnamed(s, laid, f);
            } else {
                lemma_then_split(s, next, f);
                lemma_same_step(s, laid, f);
                lemma_again_split(s, next, f);
            }
            if stays(s, next) || !unnamed(s, laid.i) {
                lemma_char_of_prefix(next.out, f, next.out.len() - 1);
                assert(lay_out(f, at) == lay_out(f, lay_next(f, at)));
            }
        }
    }
}

/// What is left of a heredoc without a delimiter is one.
proof fn lemma_unnamed_kept(s: Seq<char>, laid: Laid, kept: Seq<char>, out: Seq<char>)
    requires
        0 <= laid.i,
        lay_next(s, laid).i <= s.len(),
        lay_next(s, laid).out == laid.out + s.subrange(laid.i, lay_next(s, laid).i),
        unnamed(s, laid.i),
        kept.is_prefix_of(lay_next(s, laid).out),
        kept.is_prefix_of(out),
        delimiter_start(s, laid.i) + laid.out.len() - laid.i <= kept.len(),
        delimiter_from(s, delimiter_start(s, laid.i), seq![]).0 == lay_next(s, laid).i,
        forall|k: int| kept.len() <= k < out.len() ==> #[trigger] out[k] == '\n' || out[k] == ' ',
    ensures
        ({
            let j = laid.out.len() as int;
            let begin = delimiter_start(s, laid.i) + j - laid.i;
            &&& laid.out.is_prefix_of(out)
            &&& j + 2 <= begin <= j + 3
            &&& begin <= out.len()
            &&& out[j] == '<'
            &&& out[j + 1] == '<'
            &&& begin == j + 3 <==> j + 2 < out.len() && out[j + 2] == '-'
            &&& j + 2 < out.len() ==> out[j + 2] != '<'
            &&& forall|k: int| begin <= k < out.len() ==> passed_over(#[trigger] out[k])
        }),
{
    let i = laid.i;
    let next = lay_next(s, laid);
    let j = laid.out.len() as int;
    let on = j - i;
    let m = kept.len() as int;
    let n = out.len() as int;
    let start = delimiter_start(s, i);
    let begin = start + on;
    lemma_delimiter_stop(s, start, seq![]);
    assert forall|k: int| 0 <= k < m implies #[trigger] out[k] == next.out[k] by {
        lemma_char_of_prefix(kept, next.out, k);
        lemma_char_of_prefix(kept, out, k);
    }
    assert forall|k: int| j <= k < m implies #[trigger] out[k] == s[k - on] by {
        assert(out[k] == next.out[k]);
    }
    assert(out.take(j) =~= laid.out) by {
        assert forall|k: int| 0 <= k < j implies out.take(j)[k] == laid.out[k] by {
            assert(out[k] == next.out[k]);
        }
    }
    assert forall|k: int| begin <= k < n implies passed_over(#[trigger] out[k]) by {
        if k < m {
            assert(out[k] == s[k - on]);
            assert(passed_over(s[k - on]));
        } else {
            assert(out[k] == '\n' || out[k] == ' ');
        }
    }
    assert(out[j] == s[i]);
    assert(out[j + 1] == s[i + 1]);
    if j + 2 < m {
        assert(out[j + 2] == s[i + 2]);
    }
}

/// A heredoc without a delimiter is copied up to what ends it.
proof fn lemma_unnamed_step(laid: Laid, f: Seq<char>, out: Seq<char>, begin: int)
    requires
        out.len() < f.len(),
        forall|k: int| 0 <= k < out.len() ==> #[trigger] f[k] == out[k],
        ends_delimiter(f[out.len() as int]),
        f[out.len() as int] != '<',
        laid.out.is_prefix_of(out),
        laid.out.len() + 2 <= begin <= laid.out.len() + 3,
        begin <= out.len(),
        out[laid.out.len() as int] == '<',
        out[laid.out.len() as int + 1] == '<',
        begin == laid.out.len() + 3 <==> laid.out.len() + 2 < out.len() && out[laid.out.len() as int
            + 2] == '-',
        laid.out.len() + 2 < out.len() ==> out[laid.out.len() as int + 2] != '<',
        forall|k: int| begin <= k < out.len() ==> passed_over(#[trigger] out[k]),
    ensures
        lay_next(f, come_to(laid)) == (Laid { i: out.len() as int, out, ..laid }),
{
    let j = laid.out.len() as int;
    let n = out.len() as int;
    let at = come_to(laid);
    assert forall|k: int| begin <= k < n implies passed_over(#[trigger] f[k]) by {
        assert(f[k] == out[k]);
    }
    lemma_no_delimiter(f, begin, n);
    assert(f[j] == '<' && f[j + 1] == '<');
    if j + 2 < n {
        assert(f[j + 2] == out[j + 2]);
    }
    assert(laid.out + f.subrange(j, n) =~= out) by {
        assert forall|k: int| 0 <= k < n implies (laid.out + f.subrange(j, n))[k]
            == #[trigger] out[k] by {
            assert(f[k] == out[k]);
            if k < j {
                lemma_char_of_prefix(laid.out, out, k);
            }
        }
    }
    assert(lay_next(f, at) == crate::shell_format::opened(f, at));
}

/// What is laid out before what the command is split at.
spec fn before_split(s: Seq<char>, laid: Laid) -> Seq<char> {
    if s[laid.i] == ';' {
        unblanked(laid.out)
    } else {
        ended(unblanked(laid.out)) + seq![' ', ' ']
    }
}

proof fn lemma_before_split(s: Seq<char>, laid: Laid, f: Seq<char>)
    requires
        0 <= laid.i < s.len(),
        bare(laid.out),
        splits(s, laid),
        unblanked(laid.out).len() > 0,
        lay_next(s, laid).out.drop_last().is_prefix_of(f),
    ensures
        ({
            let kept = unblanked(laid.out);
            let out = before_split(s, laid);
            let n = out.len() as int;
            &&& n < f.len()
            &&& forall|k: int| 0 <= k < n ==> #[trigger] f[k] == out[k]
            &&& ends_delimiter(f[n])
            &&& f[n] != '<'
            &&& kept.is_prefix_of(out)
            &&& forall|k: int| kept.len() <= k < n ==> #[trigger] out[k] == '\n' || out[k] == ' '
            &&& bare(out)
            &&& n == lay_next(s, laid).out.len() - 1 - (split_end(s, laid.i) - laid.i)
            &&& s[laid.i] == ';' ==> unblanked(out) == kept
            &&& s[laid.i] != ';' ==> ended(unblanked(out)) == ended(kept)
        }),
{
    lemma_unblanked(laid.out);
    lemma_split_step(s, laid);
    let kept = unblanked(laid.out);
    let out = before_split(s, laid);
    let n = out.len() as int;
    let cut = lay_next(s, laid).out.drop_last();
    if s[laid.i] == ';' {
        assert(cut =~= out.push(';'));
        lemma_unblanked(kept);
    } else {
        assert(cut =~= out + operator(s, laid.i));
        let over = ended(kept);
        assert(over.is_prefix_of(out)) by {
            assert(out.take(over.len() as int) =~= over);
        }
        assert(!blank(over.last()));
        assert forall|k: int| over.len() <= k < n implies blank(#[trigger] out[k]) by {}
        lemma_unblanked_is(out, over);
    }
    assert(ends_delimiter(cut[n]) && cut[n] != '<');
    lemma_char_of_prefix(cut, f, n);
    assert forall|k: int| 0 <= k < n implies #[trigger] f[k] == out[k] by {
        lemma_char_of_prefix(cut, f, k);
    }
    assert(kept.is_prefix_of(out)) by {
        assert(out.take(kept.len() as int) =~= kept);
    }
    assert forall|k: int| 0 <= k < n implies #[trigger] out[k] != '\\' by {
        if k < kept.len() {
            assert(out[k] == kept[k]);
        }
    }
}

/// What is left of a heredoc without a delimiter that the command is split after.
proof fn lemma_unnamed_next(s: Seq<char>, laid: Laid)
    requires
        sound(s),
        fair(s, laid),
        laid.i < s.len(),
        !splits(s, laid),
        unnamed(s, laid.i),
        laid.out.len() > 0 ==> !white(laid.out[0]),
        lay_next(s, laid).i < s.len(),
        splits(s, lay_next(s, laid)),
    ensures
        ({
            let next = lay_next(s, laid);
            let kept = unblanked(next.out);
            &&& fair(s, next)
            &&& laid.i < next.i
            &&& next.out == laid.out + s.subrange(laid.i, next.i)
            &&& laid.depth == 0
            &&& laid.heredocs.len() == 0
            &&& delimiter_from(s, delimiter_start(s, laid.i), seq![]).0 == next.i
            &&& kept.is_prefix_of(next.out)
            &&& delimiter_start(s, laid.i) + laid.out.len() - laid.i <= kept.len()
            &&& kept.len() > 0
            &&& !white(kept[0])
        }),
{
    let i = laid.i;
    let j = laid.out.len() as int;
    let next = lay_next(s, laid);
    lemma_fair_next(s, laid);
    lemma_copies(s, laid);
    assert(crate::shell_format::at(s, i + 1) == char_at(s, i + 1));
    assert(crate::shell_format::at(s, i + 2) == char_at(s, i + 2));
    let begin = delimiter_start(s, i);
    lemma_delimiter_stop(s, begin, seq![]);
    lemma_unblanked(next.out);
    let kept = unblanked(next.out);
    assert(next.out[j] == '<' && next.out[j + 1] == '<');
    if begin == i + 3 {
        assert(next.out[j + 2] == '-');
    }
    lemma_char_of_prefix(kept, next.out, 0);
    if j > 0 {
        assert(next.out[0] == laid.out[0]);
    }
}

/// From a heredoc without a delimiter that the command is split after, what is
/// laid out is laid out as it is.
proof fn lemma_again_unnamed(s: Seq<char>, laid: Laid, f: Seq<char>)
    requires
        sound(s),
        fair(s, laid),
        laid.i < s.len(),
        !splits(s, laid),
        unnamed(s, laid.i),
        laid.out.len() > 0 ==> !white(laid.out[0]),
        lay_next(s, laid).i < s.len(),
        splits(s, lay_next(s, laid)),
        f == trim_end(lay_out(s, laid)),
        bare(f),
    ensures
        laid.out.len() < f.len(),
        trim_end(lay_out(f, come_to(laid))) == f,
    decreases s.len() - laid.i, 0int,
{
    let at = come_to(laid);
    let next = lay_next(s, laid);
    lemma_unnamed_next(s, laid);
    assert(lay_out(s, laid) == lay_out(s, next));
    lemma_cut_in(s, next, f);
    lemma_again_after(s, next, f);
    lemma_before_split(s, next, f);
    let out = before_split(s, next);
    lemma_unnamed_kept(s, laid, unblanked(next.out), out);
    lemma_unnamed_step(laid, f, out, delimiter_start(s, laid.i) + laid.out.len() - laid.i);
    let done = Laid { i: out.len() as int, out, ..laid };
    assert(lay_out(f, at) == lay_out(f, done));
    assert(done.heredocs =~= seq![]);
    lemma_split_again(s, next, f, done);
}

/// The state the command is split in, past the blanks before it.
spec fn at_split(s: Seq<char>, laid: Laid) -> Laid {
    let n = run_end(s, Class::Blank, laid.i);
    Laid { i: n, out: laid.out + s.subrange(laid.i, n), ..laid }
}

proof fn lemma_at_split(s: Seq<char>, laid: Laid)
    requires
        sound(s),
        fair(s, laid),
        laid.i < s.len(),
        !stays(s, laid),
        laid.out.len() > 0,
        !blank(laid.out.last()),
    ensures
        ({
            let split = at_split(s, laid);
            &&& fair(s, split)
            &&& laid.i <= split.i < s.len()
            &&& splits(s, split)
            &&& unblanked(split.out) == laid.out
            &&& lay_out(s, split) == lay_out(s, laid)
            &&& laid.depth == 0
            &&& laid.heredocs.len() == 0
        }),
{
    broadcast use group_runs;

    let n = run_end(s, Class::Blank, laid.i);
    let split = at_split(s, laid);
    if n == s.len() {
        assert(Class::Blank.has(s[s.len() - 1]));
    }
    lemma_skip(s, laid);
    lemma_bare_part(s, laid.i, n);
    lemma_bare_add(laid.out, s.subrange(laid.i, n));
    assert(laid.out.is_prefix_of(split.out)) by {
        assert(split.out.take(laid.out.len() as int) =~= laid.out);
    }
    assert forall|k: int| laid.out.len() <= k < split.out.len() implies blank(
        #[trigger] split.out[k],
    ) by {
        assert(split.out[k] == s[laid.i + k - laid.out.len()]);
        assert(Class::Blank.has(s[laid.i + k - laid.out.len()]));
    }
    lemma_unblanked_is(split.out, laid.out);
    assert(splits(s, Laid { i: n, ..laid }));
}

/// What comes after a layout that is split next.
proof fn lemma_then_split(s: Seq<char>, laid: Laid, f: Seq<char>)
    requires
        sound(s),
        fair(s, laid),
        laid.i < s.len(),
        !stays(s, laid),
        laid.out.len() > 0,
        !white(laid.out[0]),
        !blank(laid.out.last()),
        f == trim_end(lay_out(s, laid)),
    ensures
        laid.out.is_prefix_of(f),
        follows(s, laid.i, f, laid.out.len() as int),
        char_at(f, laid.out.len() as int) is Some,
{
    lemma_firm(s, laid);
    lemma_unblanked(laid.out);
    lemma_at_split(s, laid);
    let split = at_split(s, laid);
    lemma_cut_in(s, split, f);
    lemma_split_step(s, split);
    lemma_split_last(s, split.i, laid.out);
    let cut = lay_next(s, split).out.drop_last();
    let j = laid.out.len() as int;
    assert(cut[j] == ';' || cut[j] == '\n' || cut[j] == ' ');
    lemma_char_of_prefix(cut, f, j);
}

/// From a layout that is split next, what is laid out is laid out as it is.
proof fn lemma_again_split(s: Seq<char>, laid: Laid, f: Seq<char>)
    requires
        sound(s),
        fair(s, laid),
        laid.i < s.len(),
        !stays(s, laid),
        laid.out.len() > 0,
        !white(laid.out[0]),
        !blank(laid.out.last()),
        f == trim_end(lay_out(s, laid)),
        bare(f),
    ensures
        laid.out.len() <= f.len(),
        trim_end(lay_out(f, come_to(laid))) == f,
    decreases s.len() - laid.i, 1int,
{
    lemma_then_split(s, laid, f);
    lemma_at_split(s, laid);
    let split = at_split(s, laid);
    lemma_split_in(s, split, f);
    lemma_split_step(s, split);
    lemma_split_last(s, split.i, laid.out);
    let next = lay_next(s, split);
    let cut = next.out.drop_last();
    lemma_again_after(s, split, f);
    lemma_unblanked(laid.out);
    let at = plain(laid.out);
    assert(at =~= come_to(laid));
    if s[split.i] == ';' {
        lemma_split_again(s, split, f, at);
    } else {
        let over = ended(laid.out);
        let two = over + seq![' ', ' '];
        assert(cut =~= two + operator(s, split.i));
        let line = plain(over);
        if laid.out.last() != '\n' {
            assert(cut[laid.out.len() as int] == '\n');
            lemma_char_of_prefix(cut, f, laid.out.len() as int);
            let end = laid.out.len() as int;
            assert(laid.out + f.subrange(end, end + 1) =~= over);
            assert(lay_next(f, at) =~= line);
            assert(lay_out(f, at) == lay_out(f, line));
        }
        let n = over.len() as int;
        assert(cut[n] == ' ' && cut[n + 1] == ' ');
        lemma_char_of_prefix(cut, f, n);
        lemma_char_of_prefix(cut, f, n + 1);
        let one = plain(over.push(' '));
        lemma_blank_step(f, line);
        assert(lay_next(f, line) =~= one);
        lemma_blank_step(f, one);
        assert(over.push(' ').push(' ') =~= two);
        let done = plain(two);
        assert(lay_next(f, one) =~= done);
        assert(lay_out(f, line) == lay_out(f, one));
        assert(lay_out(f, one) == lay_out(f, done));
        assert(over.is_prefix_of(two)) by {
            assert(two.take(n) =~= over);
        }
        assert(!blank(over.last()));
        assert forall|k: int| n <= k < two.len() implies blank(#[trigger] two[k]) by {}
        lemma_unblanked_is(two, over);
        assert(bare(over)) by {
            assert forall|k: int| 0 <= k < over.len() implies #[trigger] over[k] != '\\' by {
                if k < laid.out.len() {
                    assert(over[k] == laid.out[k]);
                }
            }
        }
        lemma_bare_add(over, seq![' ', ' ']);
        lemma_split_again(s, split, f, done);
    }
}

/// After a split, what is laid out is laid out as it is.
proof fn lemma_again_after(s: Seq<char>, laid: Laid, f: Seq<char>)
    requires
        sound(s),
        fair(s, laid),
        laid.i < s.len(),
        splits(s, laid),
        unblanked(laid.out).len() > 0,
        !white(unblanked(laid.out)[0]),
        f == trim_end(lay_out(s, laid)),
        bare(f),
    ensures
        trim_end(lay_out(f, after_split(lay_next(s, laid).out, f))) == f,
    decreases s.len() - laid.i, 0int,
{
    lemma_fair_next(s, laid);
    lemma_split_in(s, laid, f);
    lemma_split_step(s, laid);
    lemma_split_last(s, laid.i, unblanked(laid.out));
    let next = lay_next(s, laid);
    let cut = next.out.drop_last();
    let m = cut.len() as int;
    let at = after_split(next.out, f);
    assert(lay_out(s, laid) == lay_out(s, next));
    assert(next.depth == 0);
    assert(next.heredocs =~= seq![]);
    if next.i == s.len() {
        lemma_blanks_over(f, m, m);
        assert(lay_out(f, at) == next.out);
        lemma_trimmed_to(next.out, cut);
    } else if stays(s, next) {
        lemma_char_of_prefix(next.out, f, m);
        lemma_blanks_over(f, m, m + 1);
        assert(at =~= come_to(next));
        lemma_again_from(s, next, f);
    } else {
        // Split again at once.
        lemma_unblanked(next.out);
        lemma_next_split(s, next, f, cut);
        lemma_again_after(s, next, f);
        lemma_split_again(s, next, f, at);
    }
}

/// Where a split follows a split at once.
proof fn lemma_next_split(s: Seq<char>, next: Laid, f: Seq<char>, cut: Seq<char>)
    requires
        sound(s),
        fair(s, next),
        next.i < s.len(),
        splits(s, next),
        next.out.len() >= 2,
        cut == next.out.drop_last(),
        next.out.last() == ' ' || next.out.last() == '\n',
        !white(cut.last()),
        !white(next.out[0]),
        f == trim_end(lay_out(s, next)),
        bare(f),
    ensures
        unblanked(next.out).len() > 0,
        unblanked(next.out)[0] == next.out[0],
        blanks_end(f, cut.len() as int) == lay_next(s, next).out.len() - 1 - (split_end(s, next.i)
            - next.i),
{
    let m = cut.len() as int;
    lemma_unblanked(next.out);
    let kept = unblanked(next.out);
    assert(cut.is_prefix_of(next.out)) by {
        assert(next.out.take(m) =~= cut);
    }
    assert(cut.last() == next.out[m - 1]);
    if next.out.last() == ' ' {
        assert forall|k: int| m <= k < next.out.len() implies blank(#[trigger] next.out[k]) by {
            assert(next.out[k] == next.out.last());
        }
        lemma_unblanked_is(next.out, cut);
    } else {
        assert(kept == next.out);
    }
    lemma_char_of_prefix(kept, next.out, 0);
    lemma_split_step(s, next);
    lemma_split_last(s, next.i, kept);
    lemma_cut_in(s, next, f);
    let rest = lay_next(s, next).out.drop_last();
    let wide = split_end(s, next.i) - next.i;
    let j = rest.len() - wide;
    if s[next.i] == ';' {
        assert(rest =~= kept.push(';'));
        lemma_char_of_prefix(rest, f, j);
        assert(j == kept.len());
        assert forall|k: int| m <= k < j implies blank(#[trigger] f[k]) || f[k] == '\n' by {
            lemma_char_of_prefix(rest, f, k);
            assert(rest[k] == kept[k]);
            assert(k == m);
        }
        lemma_blanks_over(f, m, j);
    } else {
        let over = ended(kept);
        let op = operator(s, next.i);
        assert(rest =~= over + seq![' ', ' '] + op);
        assert(j == over.len() + 2);
        lemma_char_of_prefix(rest, f, j);
        assert(rest[j] == op[0]);
        assert forall|k: int| m <= k < j implies blank(#[trigger] f[k]) || f[k] == '\n' by {
            lemma_char_of_prefix(rest, f, k);
            if k < over.len() {
                assert(rest[k] == over[k]);
                assert(over.len() == m + 1);
                assert(over[m] == '\n');
            } else {
                assert(rest[k] == ' ');
            }
        }
        lemma_blanks_over(f, m, j);
    }
}

proof fn lemma_out_bare(s: Seq<char>, laid: Laid)
    requires
        bare(s),
        fair(s, laid),
    ensures
        bare(lay_out(s, laid)),
    decreases s.len() - laid.i,
{
    if laid.i < s.len() {
        lemma_fair_next(s, laid);
        lemma_out_bare(s, lay_next(s, laid));
    }
}

proof fn lemma_trim_end_fixed(s: Seq<char>)
    ensures
        trim_end(s).len() > 0 ==> !white(trim_end(s).last()),
        bare(s) ==> bare(trim_end(s)),
{
    broadcast use group_runs;

    let n = run_start(s, Class::White, s.len() as int);
    if bare(s) {
        lemma_bare_part(s, 0, n);
        assert(s.take(n) =~= s.subrange(0, n));
    }
}

/// Laying out what is laid out changes nothing, of a command that neither holds a
/// backslash nor starts with an operator.
pub proof fn laying_out_twice_is_once(command: Seq<char>)
    requires
        bare(command),
        trim(command).len() > 0 ==> trim(command)[0] != '&' && trim(command)[0] != '|' && trim(
            command,
        )[0] != ';',
    ensures
        formatted(formatted(command)) == formatted(command),
{
    broadcast use group_runs;

    let s = trim(command);
    lemma_trim_ends(command);
    lemma_trim_fixed(s);
    if !fits_one_line(s) {
        let from = run_end(command, Class::White, 0);
        assert forall|k: int| 0 <= k < s.len() implies #[trigger] s[k] == command[from + k] by {}
        assert forall|k: int| 0 <= k < s.len() implies #[trigger] s[k] != '\\' by {
            assert(s[k] == command[from + k]);
        }
        if s.len() == 0 {
            assert(!s.contains('\n'));
        }
        assert(sound(s));
        let first = start();
        let f = formatted(command);
        lemma_out_bare(s, first);
        lemma_trim_end_fixed(lay_out(s, first));
        lemma_run_end_is(s, Class::Blank, 0, 0);
        assert(Laid { i: 0, ..first } == first);
        assert(stays(s, first));
        lemma_again_from(s, first, f);
        assert(come_to(first) =~= first);
        lemma_starts(s, f);
        lemma_trim_fixed(f);
    }
}

/// What is laid out starts as the command does.
proof fn lemma_starts(s: Seq<char>, f: Seq<char>)
    requires
        sound(s),
        !white(s[0]),
        stays(s, start()),
        f == trim_end(lay_out(s, start())),
    ensures
        f.len() > 0,
        f[0] == s[0],
{
    broadcast use group_runs;

    let first = start();
    lemma_run_end_is(s, Class::Blank, 0, 0);
    assert(Laid { i: 0, ..first } == first);
    lemma_fair_next(s, first);
    let next = lay_next(s, first);
    lemma_copies(s, first);
    assert(next.out[0] == s[0]);
    assert(lay_out(s, first) == lay_out(s, next));
    if next.i == s.len() {
        assert(next.out.last() == s.last());
        assert(trim_end(next.out) =~= next.out);
    } else {
        lemma_firm(s, next);
        lemma_unblanked(next.out);
        assert(unblanked(next.out).len() > 0);
        assert(firm(s, next)[0] == next.out[0]);
        lemma_char_of_prefix(firm(s, next), f, 0);
    }
}

} // verus!
