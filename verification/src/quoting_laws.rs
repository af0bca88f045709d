//! What holds of where quoted text and substitutions end, told of the text they are
//! written of.
use vstd::prelude::*;
use crate::shell::{char_at, close_step, closed, Nest};
use crate::shell_format::quoted_end;
use crate::shell_words::substitution_end;
use crate::text::{group_runs, lemma_run_end_is, Class};

verus! {

/// Something written in a command substitution.
pub enum Item {
    /// Text that neither quotes, escapes, comments nor nests anything.
    Text(Seq<char>),
    /// Text in single quotes.
    Single(Seq<char>),
    /// Text in double quotes.
    Double(Seq<char>),
    /// A character with a backslash before it.
    Escaped(char),
}

/// Whether a character is only itself in a substitution.
pub open spec fn only_itself(c: char) -> bool {
    c != '\\' && c != '\'' && c != '"' && c != '`' && c != '$' && c != '(' && c != ')' && c != '{'
        && c != '}' && c != '#'
}

/// Whether text is only itself in double quotes.
pub open spec fn fits_double(text: Seq<char>) -> bool {
    forall|k: int|
        0 <= k < text.len() ==> {
            &&& #[trigger] text[k] != '"'
            &&& text[k] != '\\'
            &&& text[k] != '$'
            &&& text[k] != '`'
        }
}

/// Whether text is only itself in single quotes.
pub open spec fn fits_single(text: Seq<char>) -> bool {
    forall|k: int| 0 <= k < text.len() ==> #[trigger] text[k] != '\''
}

impl Item {
    pub open spec fn written(self) -> Seq<char> {
        match self {
            Item::Text(text) => text,
            Item::Single(text) => seq!['\''] + text + seq!['\''],
            Item::Double(text) => seq!['"'] + text + seq!['"'],
            Item::Escaped(c) => seq!['\\', c],
        }
    }

    pub open spec fn proper(self) -> bool {
        match self {
            Item::Text(text) => forall|k: int|
                0 <= k < text.len() ==> only_itself(#[trigger] text[k]),
            Item::Single(text) => fits_single(text),
            Item::Double(text) => fits_double(text),
            Item::Escaped(c) => true,
        }
    }
}

pub open spec fn written(items: Seq<Item>) -> Seq<char>
    decreases items.len(),
{
    if items.len() == 0 {
        seq![]
    } else {
        items[0].written() + written(items.skip(1))
    }
}

pub open spec fn all_proper(items: Seq<Item>) -> bool {
    forall|k: int| 0 <= k < items.len() ==> (#[trigger] items[k]).proper()
}

proof fn lemma_text_passed(s: Seq<char>, i: int, end: int, open: Seq<Nest>)
    requires
        0 <= i <= end <= s.len(),
        open.len() > 0,
        open.last() == Nest::Paren,
        forall|k: int| i <= k < end ==> only_itself(#[trigger] s[k]),
    ensures
        closed(s, i, open) == closed(s, end, open),
    decreases end - i,
{
    if i < end {
        assert(only_itself(s[i]));
        lemma_text_passed(s, i + 1, end, open);
        assert(close_step(s, i, open) == (i + 1, open));
    }
}

proof fn lemma_double_passed(s: Seq<char>, i: int, end: int, open: Seq<Nest>)
    requires
        0 <= i <= end < s.len(),
        open.len() > 0,
        open.last() == Nest::Double,
        forall|k: int|
            i <= k < end ==> {
                &&& #[trigger] s[k] != '"'
                &&& s[k] != '\\'
                &&& s[k] != '$'
                &&& s[k] != '`'
            },
        s[end] == '"',
    ensures
        closed(s, i, open) == closed(s, end + 1, open.drop_last()),
    decreases end - i,
{
    if i < end {
        assert(s[i] != '"');
        lemma_double_passed(s, i + 1, end, open);
        assert(close_step(s, i, open) == (i + 1, open));
    } else {
        assert(close_step(s, i, open) == (i + 1, open.drop_last()));
    }
}

proof fn lemma_item_passed(s: Seq<char>, i: int, item: Item, open: Seq<Nest>)
    requires
        0 <= i,
        i + item.written().len() <= s.len(),
        s.subrange(i, i + item.written().len()) == item.written(),
        item.proper(),
        open.len() > 0,
        open.last() == Nest::Paren,
    ensures
        closed(s, i, open) == closed(s, i + item.written().len(), open),
{
    broadcast use group_runs;

    let w = item.written();
    let n = w.len() as int;
    assert forall|k: int| 0 <= k < n implies #[trigger] s[i + k] == w[k] by {
        assert(s.subrange(i, i + n)[k] == w[k]);
    }
    match item {
        Item::Text(text) => {
            assert forall|k: int| i <= k < i + n implies only_itself(#[trigger] s[k]) by {
                assert(s[i + (k - i)] == text[k - i]);
            }
            lemma_text_passed(s, i, i + n, open);
        },
        Item::Single(text) => {
            assert(s[i + 0] == '\'' && s[i + (n - 1)] == '\'');
            assert forall|k: int| i + 1 <= k < i + n - 1 implies Class::Not('\'').has(
                #[trigger] s[k],
            ) by {
                assert(s[i + (k - i)] == w[k - i]);
                assert(w[k - i] == text[k - i - 1]);
            }
            lemma_run_end_is(s, Class::Not('\''), i + 1, i + n - 1);
            assert(close_step(s, i, open) == (i + n, open));
        },
        Item::Double(text) => {
            assert(s[i + 0] == '"' && s[i + (n - 1)] == '"');
            let more = open.push(Nest::Double);
            assert(close_step(s, i, open) == (i + 1, more));
            assert forall|k: int| i + 1 <= k < i + n - 1 implies {
                &&& #[trigger] s[k] != '"'
                &&& s[k] != '\\'
                &&& s[k] != '$'
                &&& s[k] != '`'
            } by {
                assert(s[i + (k - i)] == w[k - i]);
                assert(w[k - i] == text[k - i - 1]);
                assert(text[k - i - 1] != '"');
            }
            lemma_double_passed(s, i + 1, i + n - 1, more);
            assert(more.drop_last() =~= open);
        },
        Item::Escaped(c) => {
            assert(s[i + 0] == '\\');
            assert(close_step(s, i, open) == (i + 2, open));
        },
    }
}

proof fn lemma_items_passed(s: Seq<char>, i: int, items: Seq<Item>, open: Seq<Nest>)
    requires
        0 <= i,
        i + written(items).len() <= s.len(),
        s.subrange(i, i + written(items).len()) == written(items),
        all_proper(items),
        open.len() > 0,
        open.last() == Nest::Paren,
    ensures
        closed(s, i, open) == closed(s, i + written(items).len(), open),
    decreases items.len(),
{
    if items.len() > 0 {
        let first = items[0];
        let rest = items.skip(1);
        assert(first.proper());
        assert forall|k: int| 0 <= k < rest.len() implies (#[trigger] rest[k]).proper() by {
            assert(rest[k] == items[k + 1]);
        }
        let n = first.written().len() as int;
        let m = written(items).len() as int;
        let all = s.subrange(i, i + m);
        assert(s.subrange(i, i + n) =~= all.subrange(0, n));
        assert(all.subrange(0, n) =~= first.written());
        lemma_item_passed(s, i, first, open);
        assert(s.subrange(i + n, i + m) =~= all.subrange(n, m));
        assert(all.subrange(n, m) =~= written(rest));
        lemma_items_passed(s, i + n, rest, open);
    }
}

/// A command substitution ends at its own bracket, whatever is quoted or escaped in it.
pub proof fn a_substitution_ends_at_its_own_bracket(items: Seq<Item>, rest: Seq<char>)
    requires
        all_proper(items),
    ensures
        substitution_end(seq!['$', '('] + written(items) + seq![')'] + rest, 0) == written(
            items,
        ).len() + 3,
{
    let inner = written(items);
    let s = seq!['$', '('] + inner + seq![')'] + rest;
    let n = inner.len() as int;
    assert(s[0] == '$' && s[1] == '(' && s[2 + n] == ')');
    assert(s.subrange(2, 2 + n) =~= inner);
    let open = seq![Nest::Paren];
    lemma_items_passed(s, 2, items, open);
    assert(close_step(s, 2 + n, open) == (3 + n, open.drop_last()));
    assert(open.drop_last() =~= Seq::<Nest>::empty());
    assert(closed(s, 3 + n, open.drop_last()) == 3 + n);
    assert(char_at(s, 1) == Some('('));
}

/// Quoted text ends at the next quote of its kind, where nothing in it escapes or
/// substitutes anything.
pub proof fn quoted_text_ends_at_its_quote(before: Seq<char>, text: Seq<char>, rest: Seq<char>)
    ensures
        fits_single(text) ==> quoted_end(
            before + seq!['\''] + text + seq!['\''] + rest,
            '\'',
            before.len() as int + 1,
        ) == before.len() + text.len() + 2,
        fits_double(text) ==> quoted_end(
            before + seq!['"'] + text + seq!['"'] + rest,
            '"',
            before.len() as int + 1,
        ) == before.len() + text.len() + 2,
{
    broadcast use group_runs;

    let b = before.len() as int;
    let n = text.len() as int;
    if fits_single(text) {
        let s = before + seq!['\''] + text + seq!['\''] + rest;
        assert(s[b + 1 + n] == '\'');
        assert forall|k: int| b + 1 <= k < b + 1 + n implies Class::Not('\'').has(
            #[trigger] s[k],
        ) by {
            assert(s[k] == text[k - b - 1]);
        }
        lemma_run_end_is(s, Class::Not('\''), b + 1, b + 1 + n);
    }
    if fits_double(text) {
        let s = before + seq!['"'] + text + seq!['"'] + rest;
        assert(s[b + 1 + n] == '"');
        assert forall|k: int| b + 1 <= k < b + 1 + n implies {
            &&& #[trigger] s[k] != '"'
            &&& s[k] != '\\'
            &&& s[k] != '$'
            &&& s[k] != '`'
        } by {
            assert(s[k] == text[k - b - 1]);
            assert(text[k - b - 1] != '"');
        }
        let open = seq![Nest::Double];
        lemma_double_passed(s, b + 1, b + 1 + n, open);
        assert(open.drop_last() =~= Seq::<Nest>::empty());
    }
}

} // verus!
