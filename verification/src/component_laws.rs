//! What holds of the components written into a spec: what was typed is there to be
//! read back.
use vstd::prelude::*;
use crate::spec_components::{chars_escaped, dashed, declared_in, folder_for, lemma_chars_escaped, lemma_concat_push,
    lemma_lines_unbroken, lemma_opening_stays, lemma_openings, lemma_prose_lines,
    lemma_scope_concat, line_escaped, opens_syntax, prose_line, prose_lines, prose_of,
    reads_as_syntax, sentence, unbroken, uncommented, uses_of, ComponentKind, RequestView};
use crate::text::{concat, find_from, join, lemma_join_first, lemma_split_first, lines, repeat, split,
    stands_at, trim, trim_end};

verus! {

// ---------------------------------------------------------------------------
// Reading back
// ---------------------------------------------------------------------------

/// Whether a line belongs to the value of a key indented by four: it is blank, or
/// indented by eight.
pub open spec fn in_value(line: Seq<char>) -> bool {
    line.len() == 0 || (line.len() >= 8 && forall|k: int| 0 <= k < 8 ==> #[trigger] line[k] == ' ')
}

/// Where the value that starts at `i` ends.
pub open spec fn value_end(pieces: Seq<Seq<char>>, i: int) -> int
    decreases pieces.len() - i,
{
    if 0 <= i < pieces.len() && in_value(pieces[i]) {
        value_end(pieces, i + 1)
    } else {
        i
    }
}

/// Lines without the blank ones after them.
pub open spec fn without_last_blanks(pieces: Seq<Seq<char>>) -> Seq<Seq<char>>
    decreases pieces.len(),
{
    if pieces.len() > 0 && pieces.last().len() == 0 {
        without_last_blanks(pieces.drop_last())
    } else {
        pieces
    }
}

/// Text without the backslashes that keep it from reading as an interpolation or
/// a key.
pub open spec fn chars_read(s: Seq<char>) -> Seq<char>
    decreases s.len(),
{
    if s.len() == 0 {
        seq![]
    } else if (s.last() == '{' || s.last() == '}' || s.last() == ':') && s.len() >= 2 && s[s.len()
        - 2] == '\\' {
        chars_read(s.take(s.len() - 2)).push(s.last())
    } else {
        chars_read(s.drop_last()).push(s.last())
    }
}

/// Whether text starts as a list item, a comment or a fence does.
pub open spec fn starts_block(s: Seq<char>) -> bool {
    ||| s.len() >= 1 && s[0] == '-'
    ||| s.len() >= 2 && s[0] == '/' && s[1] == '/'
    ||| s.len() >= 3 && s[0] == '`' && s[1] == '`' && s[2] == '`'
    ||| s.len() >= 3 && s[0] == '~' && s[1] == '~' && s[2] == '~'
}

/// A line of a value as it was meant: without its indent, and without the
/// backslashes that keep it from reading as anything but text.
pub open spec fn line_read(line: Seq<char>) -> Seq<char> {
    if line.len() < 8 {
        seq![]
    } else {
        let text = line.skip(8);
        if text.len() > 0 && text[0] == '\\' && starts_block(text.skip(1)) {
            chars_read(text.skip(1))
        } else {
            chars_read(text)
        }
    }
}

/// The value that starts some text, line by line, as it was meant.
pub open spec fn value_read(s: Seq<char>) -> Seq<Seq<char>> {
    let pieces = split(s, '\n');
    without_last_blanks(pieces.take(value_end(pieces, 0))).map_values(
        |line: Seq<char>| line_read(line),
    )
}

/// Lines trimmed, with a run of blank ones made one, and none first.
pub open spec fn blanks_folded(all: Seq<Seq<char>>) -> Seq<Seq<char>>
    decreases all.len(),
{
    if all.len() == 0 {
        seq![]
    } else {
        let before = blanks_folded(all.drop_last());
        let line = trim(all.last());
        if line.len() == 0 && (before.len() == 0 || before.last().len() == 0) {
            before
        } else {
            before.push(line)
        }
    }
}

/// What was typed, line by line, with only runs of blank lines folded.
pub open spec fn typed_lines(text: Seq<char>) -> Seq<Seq<char>> {
    without_last_blanks(blanks_folded(lines(trim(text))))
}

/// Whether no line that was typed starts with a backslash before what would start
/// a list item, a comment or a fence: such a line reads as if the backslash were
/// not there.
pub open spec fn readable(text: Seq<char>) -> bool {
    forall|k: int|
        0 <= k < lines(trim(text)).len() ==> !{
            let line = trim(#[trigger] lines(trim(text))[k]);
            line.len() > 0 && line[0] == '\\' && starts_block(line.skip(1))
        }
}

// ---------------------------------------------------------------------------
// Lines
// ---------------------------------------------------------------------------

proof fn lemma_starts_block(s: Seq<char>)
    ensures
        starts_block(s) == opens_syntax(s),
{
    lemma_openings();
    if "-"@.is_prefix_of(s) {
        assert(s.subrange(0, 1)[0] == '-');
    }
    if "//"@.is_prefix_of(s) {
        assert(s.subrange(0, 2)[0] == '/' && s.subrange(0, 2)[1] == '/');
    }
    if "```"@.is_prefix_of(s) {
        assert(s.subrange(0, 3)[0] == '`' && s.subrange(0, 3)[1] == '`' && s.subrange(0, 3)[2]
            == '`');
    }
    if "~~~"@.is_prefix_of(s) {
        assert(s.subrange(0, 3)[0] == '~' && s.subrange(0, 3)[1] == '~' && s.subrange(0, 3)[2]
            == '~');
    }
    if s.len() >= 1 && s[0] == '-' {
        assert(s.subrange(0, 1) =~= "-"@);
    }
    if s.len() >= 2 && s[0] == '/' && s[1] == '/' {
        assert(s.subrange(0, 2) =~= "//"@);
    }
    if s.len() >= 3 && s[0] == '`' && s[1] == '`' && s[2] == '`' {
        assert(s.subrange(0, 3) =~= "```"@);
    }
    if s.len() >= 3 && s[0] == '~' && s[1] == '~' && s[2] == '~' {
        assert(s.subrange(0, 3) =~= "~~~"@);
    }
}

proof fn lemma_chars_read(s: Seq<char>)
    ensures
        chars_read(chars_escaped(s)) == s,
    decreases s.len(),
{
    if s.len() > 0 {
        let rest = s.drop_last();
        lemma_chars_read(rest);
        let before = chars_escaped(rest);
        let now = chars_escaped(s);
        if reads_as_syntax(s.last()) {
            assert(now.take(now.len() - 2) =~= before);
        } else {
            assert(now.drop_last() =~= before);
        }
        assert(rest.push(s.last()) =~= s);
    }
}

/// Escaping goes on from what is escaped.
proof fn lemma_escaped_add(a: Seq<char>, b: Seq<char>)
    ensures
        chars_escaped(a + b) == chars_escaped(a) + chars_escaped(b),
    decreases b.len(),
{
    if b.len() == 0 {
        assert(a + b =~= a);
        assert(chars_escaped(a) + chars_escaped(b) =~= chars_escaped(a));
    } else {
        lemma_escaped_add(a, b.drop_last());
        assert((a + b).drop_last() =~= a + b.drop_last());
        assert(chars_escaped(a + b) =~= chars_escaped(a) + chars_escaped(b));
    }
}

/// What has nothing to escape stays as it is.
proof fn lemma_nothing_escaped(s: Seq<char>)
    requires
        forall|k: int| 0 <= k < s.len() ==> !reads_as_syntax(#[trigger] s[k]),
    ensures
        chars_escaped(s) == s,
    decreases s.len(),
{
    if s.len() > 0 {
        let rest = s.drop_last();
        assert forall|k: int| 0 <= k < rest.len() implies !reads_as_syntax(#[trigger] rest[k]) by {
            assert(rest[k] == s[k]);
        }
        lemma_nothing_escaped(rest);
        assert(!reads_as_syntax(s[s.len() - 1]));
        assert(rest.push(s.last()) =~= s);
    } else {
        assert(chars_escaped(s) =~= s);
    }
}

/// What starts a block starts one escaped.
proof fn lemma_block_escaped(line: Seq<char>)
    requires
        starts_block(line),
    ensures
        starts_block(chars_escaped(line)),
{
    let n: int = if line[0] == '-' {
        1
    } else if line[0] == '/' {
        2
    } else {
        3
    };
    let start = line.take(n);
    lemma_nothing_escaped(start);
    lemma_escaped_add(start, line.skip(n));
    assert(start + line.skip(n) =~= line);
    let now = chars_escaped(line);
    assert forall|k: int| 0 <= k < n implies #[trigger] now[k] == line[k] by {
        assert(now[k] == start[k]);
    }
}

proof fn lemma_line_read(line: Seq<char>)
    requires
        line.len() > 0,
        !(line[0] == '\\' && starts_block(line.skip(1))),
    ensures
        line_read(repeat(' ', 8) + line_escaped(line)) == line,
{
    let shown = repeat(' ', 8) + line_escaped(line);
    let text = line_escaped(line);
    assert(shown.skip(8) =~= text);
    lemma_chars_read(line);
    lemma_starts_block(line);
    lemma_chars_escaped(line);
    if opens_syntax(line) {
        lemma_block_escaped(line);
        assert(text.skip(1) =~= chars_escaped(line));
        assert(text[0] == '\\');
    } else {
        assert(text =~= chars_escaped(line));
        if text[0] == '\\' && starts_block(text.skip(1)) {
            let first = seq![line[0]];
            let rest = line.skip(1);
            lemma_escaped_add(first, rest);
            assert(first + rest =~= line);
            reveal_with_fuel(chars_escaped, 2);
            assert(first.drop_last() =~= Seq::<char>::empty());
            if reads_as_syntax(line[0]) {
                assert(chars_escaped(first) =~= seq!['\\', line[0]]);
                assert(text.skip(1)[0] == line[0]);
            } else {
                assert(chars_escaped(first) =~= first);
                assert(text.skip(1) =~= chars_escaped(rest));
                lemma_starts_block(chars_escaped(rest));
                lemma_block_stays(rest);
            }
        }
    }
}

/// What starts a block escaped starts one.
proof fn lemma_block_stays(line: Seq<char>)
    requires
        opens_syntax(chars_escaped(line)),
    ensures
        starts_block(line),
{
    lemma_openings();
    lemma_starts_block(line);
    if "-"@.is_prefix_of(chars_escaped(line)) {
        lemma_opening_stays(line, "-"@);
    } else if "//"@.is_prefix_of(chars_escaped(line)) {
        lemma_opening_stays(line, "//"@);
    } else if "```"@.is_prefix_of(chars_escaped(line)) {
        lemma_opening_stays(line, "```"@);
    } else {
        lemma_opening_stays(line, "~~~"@);
    }
}

/// Prose is what was typed, line by line.
proof fn lemma_prose_typed(all: Seq<Seq<char>>)
    requires
        forall|k: int|
            0 <= k < all.len() ==> !{
                let line = trim(#[trigger] all[k]);
                line.len() > 0 && line[0] == '\\' && starts_block(line.skip(1))
            },
    ensures
        prose_lines(all, 8).len() == blanks_folded(all).len(),
        forall|k: int|
            0 <= k < blanks_folded(all).len() ==> {
                &&& line_read(#[trigger] prose_lines(all, 8)[k]) == blanks_folded(all)[k]
                &&& (prose_lines(all, 8)[k].len() == 0) == (blanks_folded(all)[k].len() == 0)
                &&& in_value(prose_lines(all, 8)[k])
            },
    decreases all.len(),
{
    if all.len() > 0 {
        let rest = all.drop_last();
        assert forall|k: int| 0 <= k < rest.len() implies !{
            let line = trim(#[trigger] rest[k]);
            line.len() > 0 && line[0] == '\\' && starts_block(line.skip(1))
        } by {
            assert(rest[k] == all[k]);
        }
        lemma_prose_typed(rest);
        let line = trim(all[all.len() - 1]);
        let before = prose_lines(rest, 8);
        let folded = blanks_folded(rest);
        if before.len() > 0 {
            assert(before.last() == before[before.len() - 1]);
            assert(folded.last() == folded[before.len() - 1]);
        }
        if line.len() > 0 {
            lemma_line_read(line);
            let shown = repeat(' ', 8) + line_escaped(line);
            assert(in_value(shown));
        }
        assert(prose_lines(all, 8) == crate::spec_components::with_line(before, all.last(), 8));
        assert(line_read(Seq::<char>::empty()) =~= Seq::<char>::empty());
        let now = prose_lines(all, 8);
        assert forall|k: int| 0 <= k < blanks_folded(all).len() implies {
            &&& line_read(#[trigger] now[k]) == blanks_folded(all)[k]
            &&& (now[k].len() == 0) == (blanks_folded(all)[k].len() == 0)
            &&& in_value(now[k])
        } by {
            if k < before.len() {
                assert(now[k] == before[k]);
                assert(blanks_folded(all)[k] == folded[k]);
            }
        }
    }
}

proof fn lemma_blanks_dropped(a: Seq<Seq<char>>, b: Seq<Seq<char>>)
    requires
        forall|k: int| 0 <= k < b.len() ==> (#[trigger] b[k]).len() == 0,
    ensures
        without_last_blanks(a + b) == without_last_blanks(a),
    decreases b.len(),
{
    if b.len() == 0 {
        assert(a + b =~= a);
    } else {
        let rest = b.drop_last();
        assert forall|k: int| 0 <= k < rest.len() implies (#[trigger] rest[k]).len() == 0 by {
            assert(rest[k] == b[k]);
        }
        lemma_blanks_dropped(a, rest);
        assert(b[b.len() - 1].len() == 0);
        assert((a + b).last() == b.last());
        assert((a + b).drop_last() =~= a + rest);
    }
}

proof fn lemma_read_each(written: Seq<Seq<char>>, typed: Seq<Seq<char>>)
    requires
        written.len() == typed.len(),
        forall|k: int|
            0 <= k < typed.len() ==> line_read(#[trigger] written[k]) == typed[k] && (
            written[k].len() == 0) == (typed[k].len() == 0),
    ensures
        without_last_blanks(written).map_values(|line: Seq<char>| line_read(line))
            == without_last_blanks(typed),
    decreases written.len(),
{
    let f = |line: Seq<char>| line_read(line);
    if written.len() > 0 {
        let last = written.len() - 1;
        assert((written[last].len() == 0) == (typed[last].len() == 0));
        if written.last().len() == 0 {
            let a = written.drop_last();
            let b = typed.drop_last();
            assert forall|k: int| 0 <= k < b.len() implies line_read(#[trigger] a[k]) == b[k] && (
            a[k].len() == 0) == (b[k].len() == 0) by {
                assert(a[k] == written[k]);
            }
            lemma_read_each(a, b);
        } else {
            assert(written.map_values(f) =~= typed);
        }
    } else {
        assert(written.map_values(f) =~= typed);
    }
}

/// Lines written one after the other, and what follows them, split back into
/// themselves.
proof fn lemma_split_block(block: Seq<Seq<char>>, rest: Seq<char>)
    requires
        forall|k: int| 0 <= k < block.len() ==> unbroken(#[trigger] block[k]),
    ensures
        split(join(block, seq!['\n']) + seq!['\n'] + rest, '\n') == (if block.len() == 0 {
            seq![Seq::<char>::empty()]
        } else {
            block
        }) + split(rest, '\n'),
    decreases block.len(),
{
    let nl = seq!['\n'];
    let s = join(block, nl) + nl + rest;
    if block.len() == 0 {
        let none = Seq::<char>::empty();
        assert(s =~= none.push('\n') + rest);
        lemma_split_first(none, '\n', rest);
    } else if block.len() == 1 {
        assert(unbroken(block[0]));
        assert(!block[0].contains('\n'));
        assert(s =~= block[0].push('\n') + rest);
        lemma_split_first(block[0], '\n', rest);
        assert(seq![block[0]] =~= block);
    } else {
        let less = block.skip(1);
        assert(unbroken(block[0]));
        assert(!block[0].contains('\n'));
        assert forall|k: int| 0 <= k < less.len() implies unbroken(#[trigger] less[k]) by {
            assert(less[k] == block[k + 1]);
        }
        lemma_split_block(less, rest);
        lemma_join_first(block, nl);
        let more = join(less, nl) + nl + rest;
        assert(s =~= block[0].push('\n') + more);
        lemma_split_first(block[0], '\n', more);
        assert(seq![block[0]] + (less + split(rest, '\n')) =~= block + split(rest, '\n'));
    }
}

proof fn lemma_value_end_is(pieces: Seq<Seq<char>>, i: int, end: int)
    requires
        0 <= i <= end <= pieces.len(),
        forall|k: int| i <= k < end ==> in_value(#[trigger] pieces[k]),
        end < pieces.len() ==> !in_value(pieces[end]),
    ensures
        value_end(pieces, i) == end,
    decreases end - i,
{
    if i < end {
        assert(in_value(pieces[i]));
        lemma_value_end_is(pieces, i + 1, end);
    }
}

/// Prose with what follows it reads back as what was typed, as long as what
/// follows is blank up to a line that is no part of it.
proof fn lemma_prose_read(text: Seq<char>, rest: Seq<char>, m: int)
    requires
        readable(text),
        0 <= m <= split(rest, '\n').len(),
        forall|k: int| 0 <= k < m ==> (#[trigger] split(rest, '\n')[k]).len() == 0,
        m < split(rest, '\n').len() ==> !in_value(split(rest, '\n')[m]),
    ensures
        value_read(prose_of(text, 8) + seq!['\n'] + rest) == typed_lines(text),
{
    lemma_openings();
    let all = lines(trim(text));
    let block = prose_lines(all, 8);
    let typed = blanks_folded(all);
    lemma_lines_unbroken(trim(text), 0);
    lemma_prose_lines(all, 8);
    assert forall|k: int| 0 <= k < block.len() implies unbroken(#[trigger] block[k]) by {
        assert(prose_line(block[k]));
    }
    lemma_split_block(block, rest);
    lemma_prose_typed(all);
    let tail = split(rest, '\n');
    let head = if block.len() == 0 {
        seq![Seq::<char>::empty()]
    } else {
        block
    };
    let pieces = head + tail;
    let n = head.len() + m;
    assert forall|k: int| 0 <= k < n implies in_value(#[trigger] pieces[k]) by {
        if k < head.len() {
            assert(pieces[k] == head[k]);
            if block.len() > 0 {
                assert(in_value(block[k]));
            }
        } else {
            assert(pieces[k] == tail[k - head.len()]);
        }
    }
    if n < pieces.len() {
        assert(pieces[n] == tail[m]);
    }
    lemma_value_end_is(pieces, 0, n);
    let blanks = tail.take(m);
    assert(pieces.take(n) =~= head + blanks);
    assert forall|k: int| 0 <= k < blanks.len() implies (#[trigger] blanks[k]).len() == 0 by {
        assert(blanks[k] == tail[k]);
    }
    lemma_blanks_dropped(head, blanks);
    if block.len() == 0 {
        let none = Seq::<Seq<char>>::empty();
        lemma_blanks_dropped(none, head);
        assert(none + head =~= head);
        assert(block =~= none);
    }
    assert(without_last_blanks(pieces.take(n)) == without_last_blanks(block));
    lemma_read_each(block, typed);
}

/// What follows prose at the end of a component.
proof fn lemma_ends(rest: Seq<char>)
    requires
        rest.len() == 0,
    ensures
        split(rest, '\n') == seq![Seq::<char>::empty()],
{
    crate::text::lemma_split_whole(rest, '\n');
    assert(rest =~= Seq::<char>::empty());
}

/// What follows prose before the shape a concept has.
proof fn lemma_shape_follows(more: Seq<char>)
    ensures
        ({
            let rest = seq!['\n'] + "    shape: {"@ + more;
            &&& split(rest, '\n').len() >= 2
            &&& split(rest, '\n')[0].len() == 0
            &&& !in_value(split(rest, '\n')[1])
        }),
{
    reveal_strlit("    shape: {");
    let rest = seq!['\n'] + "    shape: {"@ + more;
    let line = "    shape: {"@ + more;
    let none = Seq::<char>::empty();
    assert(rest =~= none.push('\n') + line);
    lemma_split_first(none, '\n', line);
    let first = split(line, '\n')[0];
    let n = crate::text::run_end(line, crate::text::Class::Not('\n'), 0);
    lemma_line_starts(line);
    assert(split(rest, '\n')[1] == first);
    assert(first[4] == 's');
}

/// A first piece starts as its text does, up to the first line break.
proof fn lemma_line_starts(line: Seq<char>)
    requires
        line.len() >= 5,
        forall|k: int| 0 <= k < 5 ==> #[trigger] line[k] != '\n',
    ensures
        split(line, '\n').len() >= 1,
        split(line, '\n')[0].len() >= 5,
        split(line, '\n')[0][4] == line[4],
{
    broadcast use crate::text::group_runs;

    let n = crate::text::run_end(line, crate::text::Class::Not('\n'), 0);
    if n < 5 {
        assert(line[n] != '\n');
    }
}

// ---------------------------------------------------------------------------
// What is written
// ---------------------------------------------------------------------------

proof fn lemma_written(
    a: Seq<char>,
    b: Seq<char>,
    c: Seq<char>,
    d: Seq<char>,
    e: Seq<char>,
    f: Seq<char>,
    g: Seq<char>,
    h: Seq<char>,
)
    ensures
        concat(seq![a, b, c, d, e, f, g]) == (a + b + c + d + e) + (f + g),
        concat(seq![a, b, c, d, e, f, g, h]) == (a + b + c + d + e) + (f + (g + h)),
{
    let none = Seq::<Seq<char>>::empty();
    let five = none.push(a).push(b).push(c).push(d).push(e);
    lemma_concat_push(none, a);
    lemma_concat_push(none.push(a), b);
    lemma_concat_push(none.push(a).push(b), c);
    lemma_concat_push(none.push(a).push(b).push(c), d);
    lemma_concat_push(none.push(a).push(b).push(c).push(d), e);
    lemma_concat_push(five, f);
    lemma_concat_push(five.push(f), g);
    lemma_concat_push(five.push(f).push(g), h);
    assert(seq![a, b, c, d, e, f, g] =~= five.push(f).push(g));
    assert(seq![a, b, c, d, e, f, g, h] =~= five.push(f).push(g).push(h));
    assert(concat(none) + a =~= a);
    assert(a + b + c + d + e + f + g =~= (a + b + c + d + e) + (f + g));
    assert(a + b + c + d + e + f + g + h =~= (a + b + c + d + e) + (f + (g + h)));
}

/// A concept's text declares it and has the whole of its description as its pitch,
/// to be read back line for line, and then the shape it has, if any.
pub proof fn a_concept_has_its_whole_description(request: RequestView)
    requires
        request.kind == ComponentKind::Concept,
        readable(request.description),
    ensures
        ({
            let text = request.anchor();
            let start = "concept"@ + " "@ + request.name + ":\n"@ + "    pitch:\n"@;
            &&& start.is_prefix_of(text)
            &&& value_read(text.skip(start.len() as int)) == typed_lines(request.description)
            &&& match request.shape {
                Some(shape) => ("\n\n    shape: {"@ + shape + "}"@ + "\n"@).is_suffix_of(text),
                None => "\n"@.is_suffix_of(text),
            }
        }),
{
    lemma_openings();
    reveal_strlit("\n\n    shape: {");
    reveal_strlit("    shape: {");
    reveal_strlit("");
    let text = request.anchor();
    let start = "concept"@ + " "@ + request.name + ":\n"@ + "    pitch:\n"@;
    let prose = prose_of(request.description, 8);
    let line = request.shape_line();
    lemma_written(
        "concept"@,
        " "@,
        request.name,
        ":\n"@,
        "    pitch:\n"@,
        prose,
        line,
        "\n"@,
    );
    let value = prose + (line + "\n"@);
    assert(text == start + value);
    assert(text.subrange(0, start.len() as int) =~= start);
    assert(text.skip(start.len() as int) =~= value);
    match request.shape {
        Some(shape) => {
            let opening = "\n\n    shape: {"@;
            crate::spec_components::lemma_three_parts(opening, shape, "}"@);
            assert(opening =~= seq!['\n'] + (seq!['\n'] + "    shape: {"@));
            let more = shape + "}"@ + "\n"@;
            let rest = seq!['\n'] + "    shape: {"@ + more;
            lemma_shape_follows(more);
            assert(value =~= prose + seq!['\n'] + rest);
            lemma_prose_read(request.description, rest, 1);
            let end = opening + shape + "}"@ + "\n"@;
            assert(text.subrange(text.len() - end.len(), text.len() as int) =~= end);
        },
        None => {
            let rest = Seq::<char>::empty();
            lemma_ends(rest);
            assert(line =~= rest);
            assert(value =~= prose + seq!['\n'] + rest);
            lemma_prose_read(request.description, rest, 1);
            assert(text.subrange(text.len() - 1, text.len() as int) =~= "\n"@);
        },
    }
}

/// A shape's text declares it and has the whole of its description, to be read back
/// line for line.
pub proof fn a_shape_has_its_whole_description(request: RequestView)
    requires
        request.kind == ComponentKind::Shape,
        readable(request.description),
    ensures
        ({
            let text = request.anchor();
            let start = "shape"@ + " "@ + request.name + ":\n"@ + "    description:\n"@;
            &&& start.is_prefix_of(text)
            &&& value_read(text.skip(start.len() as int)) == typed_lines(request.description)
        }),
{
    lemma_openings();
    let text = request.anchor();
    let start = "shape"@ + " "@ + request.name + ":\n"@ + "    description:\n"@;
    let prose = prose_of(request.description, 8);
    lemma_written(
        "shape"@,
        " "@,
        request.name,
        ":\n"@,
        "    description:\n"@,
        prose,
        "\n"@,
        seq![],
    );
    let value = prose + "\n"@;
    assert(text == start + value);
    assert(text.subrange(0, start.len() as int) =~= start);
    assert(text.skip(start.len() as int) =~= value);
    let rest = Seq::<char>::empty();
    lemma_ends(rest);
    assert(value =~= prose + seq!['\n'] + rest);
    lemma_prose_read(request.description, rest, 1);
}

/// A new scope's text exports it with its keyword, and names its concept, whose
/// pitch is the whole of the description, and its shape, whose description is the
/// first sentence. Returned are what comes between the two, and what comes last.
pub proof fn a_scope_has_its_whole_description(request: RequestView) -> (r: (Seq<char>, Seq<char>))
    requires
        request.kind == ComponentKind::Scope,
        readable(request.description),
    ensures
        ({
            let stem = request.stem();
            let start = (if request.keyword == "ui-component"@ {
                "use /lib\nuse /ui\n"@
            } else {
                "use /lib\n"@
            }) + "\nexport "@ + request.keyword + " "@ + request.name + ":\n    concept: {"@ + stem
                + "Concept}\n\nconcept "@ + stem + "Concept:\n    pitch:\n"@;
            let middle = "\n\n    shape: {"@ + stem + "Shape}\n\nshape "@ + stem
                + "Shape:\n    description:\n"@;
            &&& request.scope() == start + (r.0 + middle + r.1)
            &&& value_read(r.0 + middle + r.1) == typed_lines(request.description)
            &&& readable(sentence(request.description)) ==> value_read(r.1) == typed_lines(
                sentence(request.description),
            )
        }),
{
    lemma_openings();
    reveal_strlit("\n\n    shape: {");
    reveal_strlit("    shape: {");
    lemma_scope_concat(request);
    let stem = request.stem();
    let prose = prose_of(request.description, 8);
    let brief = prose_of(sentence(request.description), 8);
    let a = uses_of(request);
    let b = "\nexport "@;
    let c = request.keyword;
    let d = " "@;
    let e = request.name;
    let f = ":\n    concept: {"@;
    let g = "Concept}\n\nconcept "@;
    let h = "Concept:\n    pitch:\n"@;
    let i = "\n\n    shape: {"@;
    let j = "Shape}\n\nshape "@;
    let k = "Shape:\n    description:\n"@;
    let z = "\n"@;
    let last = brief + z;
    let start = a + b + c + d + e + f + stem + g + stem + h;
    let middle = i + stem + j + stem + k;
    lemma_scope_parts(start, prose, i, stem, j, k, brief, z);
    let more = stem + j + stem + k + last;
    let rest = seq!['\n'] + "    shape: {"@ + more;
    assert(i =~= seq!['\n'] + (seq!['\n'] + "    shape: {"@));
    lemma_shape_follows(more);
    assert(prose + middle + last =~= prose + seq!['\n'] + rest);
    lemma_prose_read(request.description, rest, 1);
    let none = Seq::<char>::empty();
    lemma_ends(none);
    assert(last =~= brief + seq!['\n'] + none);
    if readable(sentence(request.description)) {
        lemma_prose_read(sentence(request.description), none, 1);
    }
    (prose, last)
}

proof fn lemma_scope_parts(
    start: Seq<char>,
    prose: Seq<char>,
    i: Seq<char>,
    stem: Seq<char>,
    j: Seq<char>,
    k: Seq<char>,
    brief: Seq<char>,
    z: Seq<char>,
)
    ensures
        start + prose + i + stem + j + stem + k + brief + z == start + (prose + (i + stem + j + stem
            + k) + (brief + z)),
{
    assert(start + prose + i + stem + j + stem + k + brief + z =~= start + (prose + (i + stem + j
        + stem + k) + (brief + z)));
}

/// A description's first sentence starts its first line, and goes on to the first
/// full stop that a space follows, or to the end of the line.
pub proof fn a_sentence_ends_at_its_full_stop(text: Seq<char>)
    requires
        lines(trim(text)).len() > 0,
    ensures
        ({
            let line = lines(trim(text))[0];
            let said = sentence(text);
            &&& said.is_prefix_of(line)
            &&& said.len() < line.len() ==> said.len() > 0 && said.last() == '.' && line[said.len() as int]
                == ' '
            &&& forall|k: int|
                0 <= k < said.len() - 1 ==> !(#[trigger] line[k] == '.' && line[k + 1] == ' ')
        }),
{
    reveal_strlit(". ");
    let line = lines(trim(text))[0];
    let mark = ". "@;
    assert(mark =~= seq!['.', ' ']);
    let end = find_from(line, mark, 0);
    lemma_found(line, mark, 0);
    let said = sentence(text);
    if end < line.len() {
        assert(line.subrange(end, end + 2)[0] == '.' && line.subrange(end, end + 2)[1] == ' ');
        assert(line.subrange(0, end + 1) =~= said);
    } else {
        assert(line.subrange(0, line.len() as int) =~= line);
    }
    assert forall|k: int| 0 <= k < said.len() - 1 implies !(#[trigger] line[k] == '.' && line[k + 1]
        == ' ') by {
        if line[k] == '.' && line[k + 1] == ' ' {
            assert(line.subrange(k, k + 2) =~= mark);
            assert(stands_at(line, mark, k));
        }
    }
}

proof fn lemma_found(s: Seq<char>, pattern: Seq<char>, i: int)
    requires
        0 <= i <= s.len(),
        pattern.len() > 0,
    ensures
        i <= find_from(s, pattern, i) <= s.len(),
        find_from(s, pattern, i) < s.len() ==> stands_at(s, pattern, find_from(s, pattern, i)),
        forall|k: int| i <= k < find_from(s, pattern, i) ==> !stands_at(s, pattern, k),
    decreases s.len() - i,
{
    if i < s.len() && !stands_at(s, pattern, i) {
        lemma_found(s, pattern, i + 1);
    }
}

/// What is added to a file comes last, and all that was there before stays before
/// it, but for the line breaks that ended it, which are made a blank line.
pub proof fn what_is_added_comes_last(request: RequestView, existing: Seq<char>)
    ensures
        ({
            let text = request.appended(existing);
            let own = request.anchor();
            let before = text.take(text.len() - own.len());
            &&& own.is_suffix_of(text)
            &&& (forall|k: int| 0 <= k < existing.len() ==> #[trigger] existing[k] == '\n')
                ==> before.len() == 0
            &&& (exists|k: int| 0 <= k < existing.len() && #[trigger] existing[k] != '\n') ==> {
                let kept = before.take(before.len() - 2);
                &&& before.len() > 2
                &&& before[before.len() - 1] == '\n' && before[before.len() - 2] == '\n'
                &&& kept.last() != '\n'
                &&& kept.is_prefix_of(existing)
                &&& forall|k: int| kept.len() <= k < existing.len() ==> #[trigger] existing[k]
                    == '\n'
            }
        }),
{
    broadcast use crate::text::group_runs;

    reveal_strlit("\n\n");
    let text = request.appended(existing);
    let own = request.anchor();
    let kept = crate::text::trim_end_of(existing, crate::text::Class::Is('\n'));
    let n = crate::text::run_start(existing, crate::text::Class::Is('\n'), existing.len() as int);
    assert(kept =~= existing.take(n));
    let before = text.take(text.len() - own.len());
    assert(text.subrange(text.len() - own.len(), text.len() as int) =~= own);
    if kept.len() > 0 {
        assert(before =~= kept + "\n\n"@);
        assert(before.take(before.len() - 2) =~= kept);
        assert(existing.subrange(0, n) =~= kept);
        assert(existing[n - 1] != '\n');
    } else {
        assert(before =~= kept);
    }
    assert forall|k: int| n <= k < existing.len() implies #[trigger] existing[k] == '\n' by {
        assert(crate::text::Class::Is('\n').has(existing[k]));
    }
}

// ---------------------------------------------------------------------------
// Names
// ---------------------------------------------------------------------------

/// Whether a text is a word of a name: a capital, and no other after it.
pub open spec fn name_word(s: Seq<char>) -> bool {
    &&& s.len() > 0
    &&& 'A' <= s[0] <= 'Z'
    &&& forall|k: int| 0 < k < s.len() ==> !('A' <= #[trigger] s[k] <= 'Z')
}

/// A word with its first letter in lower case.
pub open spec fn lowered(s: Seq<char>) -> Seq<char> {
    s.update(0, (s[0] as u8 + 32) as char)
}

proof fn lemma_dashed_word(before: Seq<char>, word: Seq<char>, n: int)
    requires
        name_word(word),
        0 < n <= word.len(),
    ensures
        dashed(before + word.take(n)) == dashed(before) + (if before.len() > 0 {
            seq!['-']
        } else {
            seq![]
        }) + lowered(word).take(n),
    decreases n,
{
    let now = before + word.take(n);
    let c = word[n - 1];
    assert(now.last() == c);
    assert(now.drop_last() =~= before + word.take(n - 1));
    let mark = if before.len() > 0 {
        seq!['-']
    } else {
        Seq::<char>::empty()
    };
    if n == 1 {
        assert(before + word.take(0) =~= before);
        assert(dashed(now) =~= dashed(before) + mark + lowered(word).take(1));
    } else {
        lemma_dashed_word(before, word, n - 1);
        assert(!('A' <= word[n - 1] <= 'Z'));
        assert(lowered(word).take(n) =~= lowered(word).take(n - 1).push(c));
        assert(dashed(now) =~= dashed(before) + mark + lowered(word).take(n));
    }
}

/// A name of several words is written with dashes between them, all in lower case.
pub proof fn a_name_is_dashed_between_its_words(words: Seq<Seq<char>>)
    requires
        words.len() > 0,
        forall|k: int| 0 <= k < words.len() ==> name_word(#[trigger] words[k]),
    ensures
        dashed(words.flatten()) == join(words.map_values(|w: Seq<char>| lowered(w)), "-"@),
        words.flatten().len() > 0,
    decreases words.len(),
{
    lemma_openings();
    let f = |w: Seq<char>| lowered(w);
    let last = words[words.len() - 1];
    let rest = words.drop_last();
    assert(name_word(last));
    assert(rest.push(last) =~= words);
    rest.lemma_flatten_push(last);
    let before = rest.flatten();
    lemma_dashed_word(before, last, last.len() as int);
    assert(last.take(last.len() as int) =~= last);
    assert(lowered(last).take(last.len() as int) =~= lowered(last));
    let all = words.map_values(f);
    assert(all.drop_last() =~= rest.map_values(f));
    assert(all.last() == lowered(last));
    if words.len() == 1 {
        assert(rest =~= Seq::<Seq<char>>::empty());
        assert(before =~= Seq::<char>::empty());
        assert(dashed(before) =~= Seq::<char>::empty());
        assert(dashed(words.flatten()) =~= lowered(last));
        assert(join(all, "-"@) == all[0]);
    } else {
        assert forall|k: int| 0 <= k < rest.len() implies name_word(#[trigger] rest[k]) by {
            assert(rest[k] == words[k]);
        }
        a_name_is_dashed_between_its_words(rest);
    }
}

/// The folder a scope goes in until one is typed is that of its words, under the
/// folder for its keyword.
pub proof fn a_scope_goes_in_a_folder_of_its_words(words: Seq<Seq<char>>, keyword: Seq<char>)
    requires
        words.len() > 0,
        forall|k: int| 0 <= k < words.len() ==> name_word(#[trigger] words[k]),
    ensures
        folder_for(words.flatten() + "Scope"@, keyword) == (if keyword == "ui-component"@ {
            "ui/components/"@
        } else {
            "scope/"@
        }) + join(words.map_values(|w: Seq<char>| lowered(w)), "-"@),
{
    a_name_is_dashed_between_its_words(words);
    let name = words.flatten() + "Scope"@;
    let n = words.flatten().len() as int;
    assert(name.subrange(n, name.len() as int) =~= "Scope"@);
    assert(name.take(n) =~= words.flatten());
    lemma_dashed_not_empty(words.flatten());
}

proof fn lemma_dashed_not_empty(s: Seq<char>)
    requires
        s.len() > 0,
    ensures
        dashed(s).len() > 0,
{
}

// ---------------------------------------------------------------------------
// Declarations
// ---------------------------------------------------------------------------

/// A comment after a line makes no difference to what it declares.
pub proof fn a_comment_declares_nothing(code: Seq<char>, comment: Seq<char>)
    requires
        code.len() > 0,
        forall|k: int| 0 <= k < code.len() ==> #[trigger] code[k] != '/',
    ensures
        declared_in(code + "//"@ + comment) == declared_in(code),
        declared_in(code + " //"@ + comment) == declared_in(code),
{
    lemma_openings();
    reveal_strlit(" //");
    assert(" //"@ =~= seq![' ', '/', '/']);
    lemma_uncommented(code, "//"@ + comment);
    assert(code + "//"@ + comment =~= code + ("//"@ + comment));
    let spaced = code.push(' ');
    assert forall|k: int| 0 <= k < spaced.len() implies #[trigger] spaced[k] != '/' by {
        if k < code.len() {
            assert(spaced[k] == code[k]);
        }
    }
    lemma_uncommented(spaced, "//"@ + comment);
    assert(code + " //"@ + comment =~= spaced + ("//"@ + comment));
    lemma_plain_line(code);
    lemma_trimmed_blank(code);
    assert((code + "//"@ + comment)[0] == code[0]);
    assert((code + " //"@ + comment)[0] == code[0]);
}

proof fn lemma_uncommented(code: Seq<char>, rest: Seq<char>)
    requires
        forall|k: int| 0 <= k < code.len() ==> #[trigger] code[k] != '/',
        rest.len() >= 2,
        rest[0] == '/' && rest[1] == '/',
    ensures
        uncommented(code + rest) == trim_end(code),
{
    lemma_openings();
    let line = code + rest;
    let n = code.len() as int;
    let mark = "//"@;
    assert(line.subrange(n, n + 2) =~= mark);
    lemma_first_mark(line, mark, 0, n);
    assert(line.take(n) =~= code);
}

proof fn lemma_first_mark(line: Seq<char>, mark: Seq<char>, i: int, n: int)
    requires
        0 <= i <= n < line.len(),
        stands_at(line, mark, n),
        mark.len() > 0,
        mark[0] == '/',
        forall|k: int| i <= k < n ==> #[trigger] line[k] != '/',
    ensures
        find_from(line, mark, i) == n,
    decreases n - i,
{
    if i < n {
        if stands_at(line, mark, i) {
            assert(line.subrange(i, i + mark.len())[0] == '/');
            assert(line[i] == '/');
        }
        lemma_first_mark(line, mark, i + 1, n);
    }
}

proof fn lemma_plain_line(code: Seq<char>)
    requires
        forall|k: int| 0 <= k < code.len() ==> #[trigger] code[k] != '/',
    ensures
        uncommented(code) == trim_end(code),
{
    lemma_openings();
    let mark = "//"@;
    assert forall|k: int| 0 <= k < code.len() implies !stands_at(code, mark, k) by {
        if stands_at(code, mark, k) {
            assert(code.subrange(k, k + 2)[0] == '/');
            assert(code[k] == '/');
        }
    }
    crate::text::lemma_find_none(code, mark, 0);
    assert(code.take(code.len() as int) =~= code);
}

proof fn lemma_trimmed_blank(code: Seq<char>)
    ensures
        trim_end(code.push(' ')) == trim_end(code),
{
    broadcast use crate::text::group_runs;

    let more = code.push(' ');
    let n = code.len() as int;
    let white = crate::text::Class::White;
    assert(white.has(more[n]));
    assert(crate::text::run_start(more, white, n + 1) == crate::text::run_start(more, white, n));
    lemma_run_start_blank(code, n);
    assert(trim_end(more) =~= trim_end(code));
}

proof fn lemma_run_start_blank(code: Seq<char>, i: int)
    requires
        0 <= i <= code.len(),
    ensures
        crate::text::run_start(code.push(' '), crate::text::Class::White, i)
            == crate::text::run_start(code, crate::text::Class::White, i),
    decreases i,
{
    if i > 0 {
        assert(code.push(' ')[i - 1] == code[i - 1]);
        lemma_run_start_blank(code, i - 1);
    }
}

/// Only a line that starts at its margin, and ends with a colon, declares anything.
pub proof fn a_declaration_starts_at_the_margin(line: Seq<char>)
    requires
        declared_in(line) is Some,
        forall|k: int| 0 <= k < line.len() ==> #[trigger] line[k] != '/',
    ensures
        line.len() > 0,
        !crate::text::white(line[0]),
        trim_end(line).len() > 0 && trim_end(line).last() == ':',
{
    broadcast use crate::text::group_runs;

    lemma_plain_line(line);
}

// ---------------------------------------------------------------------------
// What a skill is told
// ---------------------------------------------------------------------------

proof fn lemma_join_has(parts: Seq<Seq<char>>, between: Seq<char>, k: int) -> (at: int)
    requires
        0 <= k < parts.len(),
    ensures
        stands_at(join(parts, between), parts[k], at),
    decreases parts.len(),
{
    let all = join(parts, between);
    if parts.len() == 1 {
        assert(all.subrange(0, all.len() as int) =~= parts[0]);
        0
    } else if k == parts.len() - 1 {
        let at = all.len() - parts[k].len();
        assert(all.subrange(at, at + parts[k].len()) =~= parts[k]);
        at
    } else {
        let rest = parts.drop_last();
        assert(rest[k] == parts[k]);
        let at = lemma_join_has(rest, between, k);
        let before = join(rest, between);
        assert(all.subrange(at, at + parts[k].len()) =~= before.subrange(at, at + parts[k].len()));
        at
    }
}

/// What is told of a component to a skill that is to create it: its name, and what its
/// kind has besides.
pub open spec fn told_of(request: RequestView) -> Seq<Seq<char>> {
    match request.kind {
        ComponentKind::Scope => seq![
            "Name: "@ + request.name,
            "Kind: "@ + request.keyword,
            "Folder: "@ + trim(request.folder),
        ],
        ComponentKind::Concept => seq![
            "Name: "@ + request.name,
            "File: "@ + request.file,
            "Shape: "@ + (if request.shape is Some {
                request.shape->0
            } else {
                "None"@
            }),
        ],
        ComponentKind::Shape => seq!["Name: "@ + request.name, "File: "@ + request.file],
    }
}

/// The prompt to a skill starts with the skill and what it is to create, tells it each
/// thing there is to tell of the component, and ends with the whole description, if
/// there is one.
pub proof fn a_skill_is_told_everything(request: RequestView, skill: Seq<char>, k: int) -> (at: int)
    requires
        0 <= k < told_of(request).len(),
    ensures
        ({
            let prompt = request.prompt(skill);
            let start = "/"@ + skill + " Create a new "@ + (match request.kind {
                ComponentKind::Scope => "scope"@,
                ComponentKind::Concept => "concept"@,
                ComponentKind::Shape => "shape"@,
            }) + " named "@ + request.name + ".\n\n"@;
            &&& start.is_prefix_of(prompt)
            &&& stands_at(prompt, told_of(request)[k], at)
            &&& !crate::text::all_white(request.description) ==> ("\n\n"@ + trim(
                request.description,
            )).is_suffix_of(prompt)
        }),
{
    let prompt = request.prompt(skill);
    let noun = request.kind.noun_text();
    let fields = join(request.fields(), "\n"@);
    let tail = if crate::text::all_white(request.description) {
        ""@
    } else {
        "\n\n"@ + trim(request.description)
    };
    lemma_nine(
        "/"@,
        skill,
        " Create a new "@,
        noun,
        " named "@,
        request.name,
        ".\n\n"@,
        fields,
        tail,
    );
    let start = "/"@ + skill + " Create a new "@ + noun + " named "@ + request.name + ".\n\n"@;
    assert(prompt == start + fields + tail);
    assert(prompt.subrange(0, start.len() as int) =~= start);
    let n = prompt.len() as int;
    assert(prompt.subrange(n - tail.len(), n) =~= tail);
    assert(request.fields() =~= told_of(request));
    let at = lemma_join_has(request.fields(), "\n"@, k);
    let m = start.len() as int;
    let part = told_of(request)[k];
    assert(prompt.subrange(m + at, m + at + part.len()) =~= fields.subrange(at, at + part.len()));
    m + at
}

proof fn lemma_nine(
    a: Seq<char>,
    b: Seq<char>,
    c: Seq<char>,
    d: Seq<char>,
    e: Seq<char>,
    f: Seq<char>,
    g: Seq<char>,
    h: Seq<char>,
    i: Seq<char>,
)
    ensures
        concat(seq![a, b, c, d, e, f, g, h, i]) == a + b + c + d + e + f + g + h + i,
{
    let none = Seq::<Seq<char>>::empty();
    let four = none.push(a).push(b).push(c).push(d);
    let eight = four.push(e).push(f).push(g).push(h);
    lemma_concat_push(none, a);
    lemma_concat_push(none.push(a), b);
    lemma_concat_push(none.push(a).push(b), c);
    lemma_concat_push(none.push(a).push(b).push(c), d);
    lemma_concat_push(four, e);
    lemma_concat_push(four.push(e), f);
    lemma_concat_push(four.push(e).push(f), g);
    lemma_concat_push(four.push(e).push(f).push(g), h);
    lemma_concat_push(eight, i);
    assert(seq![a, b, c, d, e, f, g, h, i] =~= eight.push(i));
    assert(concat(none) + a =~= a);
}

} // verus!
