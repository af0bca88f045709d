//! What holds of templates filled in, told of the text they are written of: plain
//! text, and what stands for something else.
use vstd::prelude::*;
use crate::system_prompts::{filled, without_paragraph, CODE_LOCATION, HARNESS_DIRECTORY,
    PITON_FLUENCY, SPEC_LOCATION, SPEC_READING};
use crate::text::{all_white, replace, stands_at, trim_end};

verus! {

// ---------------------------------------------------------------------------
// Templates
// ---------------------------------------------------------------------------

/// A piece of a template.
pub enum Piece {
    /// Text with no dollar sign in it.
    Text(Seq<char>),
    Code,
    Spec,
    Harness,
    Reading,
    Fluency,
}

/// Whether there is no dollar sign in a text.
pub open spec fn undollared(s: Seq<char>) -> bool {
    forall|k: int| 0 <= k < s.len() ==> #[trigger] s[k] != '$'
}

impl Piece {
    /// How it is written in a template.
    pub open spec fn written(self) -> Seq<char> {
        match self {
            Piece::Text(text) => text,
            Piece::Code => "${CODE_LOCATION}"@,
            Piece::Spec => "${SPEC_LOCATION}"@,
            Piece::Harness => "${HARNESS_DIRECTORY}"@,
            Piece::Reading => "${SPEC_READING}"@,
            Piece::Fluency => "${PITON_FLUENCY}"@,
        }
    }

    pub open spec fn proper(self) -> bool {
        self is Text ==> undollared(self->Text_0)
    }
}

/// A template, as it is written.
pub open spec fn written(pieces: Seq<Piece>) -> Seq<char>
    decreases pieces.len(),
{
    if pieces.len() == 0 {
        seq![]
    } else {
        pieces[0].written() + written(pieces.skip(1))
    }
}

pub open spec fn all_proper(pieces: Seq<Piece>) -> bool {
    forall|k: int| 0 <= k < pieces.len() ==> (#[trigger] pieces[k]).proper()
}

/// What fills a template in.
pub struct Values {
    pub code: Seq<char>,
    pub spec: Seq<char>,
    pub harness: Seq<char>,
    pub reading: Seq<char>,
    pub fluency: Seq<char>,
}

impl Values {
    /// What a piece of a template means.
    pub open spec fn meant(self, piece: Piece) -> Seq<char> {
        match piece {
            Piece::Text(text) => text,
            Piece::Code => self.code,
            Piece::Spec => self.spec,
            Piece::Harness => self.harness,
            Piece::Reading => trim_end(self.reading),
            Piece::Fluency => trim_end(self.fluency),
        }
    }

    /// Whether nothing that fills a template in has anything in it to fill in.
    pub open spec fn plain(self) -> bool {
        undollared(self.code) && undollared(self.spec) && undollared(self.harness) && undollared(
            self.reading,
        ) && undollared(self.fluency)
    }
}

/// A template with every piece as it is meant.
pub open spec fn meant_all(pieces: Seq<Piece>, values: Values) -> Seq<char>
    decreases pieces.len(),
{
    if pieces.len() == 0 {
        seq![]
    } else {
        values.meant(pieces[0]) + meant_all(pieces.skip(1), values)
    }
}

// ---------------------------------------------------------------------------
// Replacing
// ---------------------------------------------------------------------------

/// What starts with no dollar sign is no start of a placeholder.
proof fn lemma_text_kept(text: Seq<char>, rest: Seq<char>, pattern: Seq<char>, with: Seq<char>)
    requires
        undollared(text),
        pattern.len() > 0,
        pattern[0] == '$',
    ensures
        replace(text + rest, pattern, with) == text + replace(rest, pattern, with),
    decreases text.len(),
{
    let s = text + rest;
    if text.len() == 0 {
        assert(s =~= rest);
        assert(text + replace(rest, pattern, with) =~= replace(rest, pattern, with));
    } else {
        let less = text.skip(1);
        assert forall|k: int| 0 <= k < less.len() implies #[trigger] less[k] != '$' by {
            assert(less[k] == text[k + 1]);
        }
        lemma_text_kept(less, rest, pattern, with);
        assert(s[0] == text[0]);
        assert(s.skip(1) =~= less + rest);
        if stands_at(s, pattern, 0) {
            assert(s.subrange(0, pattern.len() as int)[0] == pattern[0]);
        }
        if s.len() < pattern.len() {
            assert(replace(rest, pattern, with) == rest);
        } else {
            assert(seq![text[0]] + (less + replace(rest, pattern, with)) =~= text + replace(
                rest,
                pattern,
                with,
            ));
        }
    }
}

/// A placeholder of another kind is left as it is.
proof fn lemma_other_kept(
    other: Seq<char>,
    rest: Seq<char>,
    pattern: Seq<char>,
    with: Seq<char>,
    at: int,
)
    requires
        other.len() > 0,
        pattern.len() > 0,
        pattern[0] == '$',
        undollared(other.skip(1)),
        0 <= at < other.len(),
        at < pattern.len(),
        other[at] != pattern[at],
    ensures
        replace(other + rest, pattern, with) == other + replace(rest, pattern, with),
{
    let s = other + rest;
    let less = other.skip(1);
    lemma_text_kept(less, rest, pattern, with);
    assert(s.skip(1) =~= less + rest);
    if stands_at(s, pattern, 0) {
        assert(s.subrange(0, pattern.len() as int)[at] == pattern[at]);
        assert(s[at] == other[at]);
    }
    if s.len() < pattern.len() {
        assert(replace(rest, pattern, with) == rest);
    } else {
        assert(s[0] == other[0]);
        assert(seq![other[0]] + (less + replace(rest, pattern, with)) =~= other + replace(
            rest,
            pattern,
            with,
        ));
    }
}

/// A placeholder is filled in.
proof fn lemma_own_filled(pattern: Seq<char>, rest: Seq<char>, with: Seq<char>)
    requires
        pattern.len() > 0,
    ensures
        replace(pattern + rest, pattern, with) == with + replace(rest, pattern, with),
{
    let s = pattern + rest;
    assert(s.subrange(0, pattern.len() as int) =~= pattern);
    assert(s.skip(pattern.len() as int) =~= rest);
}

proof fn lemma_placeholder_spelling()
    ensures
        CODE_LOCATION@ == "${CODE_LOCATION}"@,
        SPEC_LOCATION@ == "${SPEC_LOCATION}"@,
        HARNESS_DIRECTORY@ == "${HARNESS_DIRECTORY}"@,
        SPEC_READING@ == "${SPEC_READING}"@,
        PITON_FLUENCY@ == "${PITON_FLUENCY}"@,
        "${CODE_LOCATION}"@.len() == 16 && "${CODE_LOCATION}"@[0] == '$' && "${CODE_LOCATION}"@[2]
            == 'C',
        "${SPEC_LOCATION}"@.len() == 16 && "${SPEC_LOCATION}"@[0] == '$' && "${SPEC_LOCATION}"@[2]
            == 'S' && "${SPEC_LOCATION}"@[7] == 'L',
        "${HARNESS_DIRECTORY}"@.len() == 20 && "${HARNESS_DIRECTORY}"@[0] == '$'
            && "${HARNESS_DIRECTORY}"@[2] == 'H',
        "${SPEC_READING}"@.len() == 15 && "${SPEC_READING}"@[0] == '$' && "${SPEC_READING}"@[2]
            == 'S' && "${SPEC_READING}"@[7] == 'R',
        "${PITON_FLUENCY}"@.len() == 16 && "${PITON_FLUENCY}"@[0] == '$' && "${PITON_FLUENCY}"@[2]
            == 'P',
        undollared("${CODE_LOCATION}"@.skip(1)),
        undollared("${SPEC_LOCATION}"@.skip(1)),
        undollared("${HARNESS_DIRECTORY}"@.skip(1)),
        undollared("${SPEC_READING}"@.skip(1)),
        undollared("${PITON_FLUENCY}"@.skip(1)),
{
    reveal_strlit("${CODE_LOCATION}");
    reveal_strlit("${SPEC_LOCATION}");
    reveal_strlit("${HARNESS_DIRECTORY}");
    reveal_strlit("${SPEC_READING}");
    reveal_strlit("${PITON_FLUENCY}");
}

/// Whether two pieces are of the same kind.
spec fn alike(a: Piece, b: Piece) -> bool {
    match a {
        Piece::Text(_) => b is Text,
        Piece::Code => b is Code,
        Piece::Spec => b is Spec,
        Piece::Harness => b is Harness,
        Piece::Reading => b is Reading,
        Piece::Fluency => b is Fluency,
    }
}

/// Pieces with those of a kind made text.
spec fn with_text(pieces: Seq<Piece>, kind: Piece, text: Seq<char>) -> Seq<Piece> {
    pieces.map_values(
        |piece: Piece|
            if alike(piece, kind) {
                Piece::Text(text)
            } else {
                piece
            },
    )
}

proof fn lemma_kind_replaced(pieces: Seq<Piece>, kind: Piece, text: Seq<char>)
    requires
        all_proper(pieces),
        !(kind is Text),
    ensures
        replace(written(pieces), kind.written(), text) == written(with_text(pieces, kind, text)),
    decreases pieces.len(),
{
    lemma_placeholder_spelling();
    let pattern = kind.written();
    if pieces.len() > 0 {
        let first = pieces[0];
        let rest = pieces.skip(1);
        assert(first.proper());
        assert forall|k: int| 0 <= k < rest.len() implies (#[trigger] rest[k]).proper() by {
            assert(rest[k] == pieces[k + 1]);
        }
        lemma_kind_replaced(rest, kind, text);
        assert(with_text(pieces, kind, text).skip(1) =~= with_text(rest, kind, text));
        let tail = written(rest);
        if alike(first, kind) {
            lemma_own_filled(pattern, tail, text);
        } else if first is Text {
            lemma_text_kept(first->Text_0, tail, pattern, text);
        } else if (first is Spec && kind is Reading) || (first is Reading && kind is Spec) {
            lemma_other_kept(first.written(), tail, pattern, text, 7);
        } else {
            lemma_other_kept(first.written(), tail, pattern, text, 2);
        }
    }
}

proof fn lemma_with_text_proper(pieces: Seq<Piece>, kind: Piece, text: Seq<char>)
    requires
        all_proper(pieces),
        undollared(text),
    ensures
        all_proper(with_text(pieces, kind, text)),
{
    let now = with_text(pieces, kind, text);
    assert forall|k: int| 0 <= k < now.len() implies (#[trigger] now[k]).proper() by {
        assert(pieces[k].proper());
    }
}

proof fn lemma_trimmed_undollared(s: Seq<char>)
    requires
        undollared(s),
    ensures
        undollared(trim_end(s)),
{
    broadcast use crate::text::group_runs;

    let t = trim_end(s);
    assert forall|k: int| 0 <= k < t.len() implies #[trigger] t[k] != '$' by {
        assert(t[k] == s[k]);
    }
}

proof fn lemma_meant(pieces: Seq<Piece>, values: Values, now: Seq<Piece>)
    requires
        now.len() == pieces.len(),
        forall|k: int|
            0 <= k < pieces.len() ==> #[trigger] now[k] == Piece::Text(values.meant(pieces[k])),
    ensures
        written(now) == meant_all(pieces, values),
    decreases pieces.len(),
{
    if pieces.len() > 0 {
        let rest = pieces.skip(1);
        let less = now.skip(1);
        assert forall|k: int| 0 <= k < rest.len() implies #[trigger] less[k] == Piece::Text(
            values.meant(rest[k]),
        ) by {
            assert(less[k] == now[k + 1]);
            assert(rest[k] == pieces[k + 1]);
        }
        lemma_meant(rest, values, less);
        assert(now[0] == Piece::Text(values.meant(pieces[0])));
    }
}

/// Every placeholder of a template, wherever it stands and however often, is filled in
/// with what it stands for, and all else of the template is left as it is, but for
/// white space after it.
pub proof fn a_template_is_filled_in(pieces: Seq<Piece>, values: Values)
    requires
        all_proper(pieces),
        values.plain(),
        !all_white(values.reading),
        !all_white(values.fluency),
    ensures
        filled(
            written(pieces),
            values.code,
            values.spec,
            values.reading,
            values.fluency,
            values.harness,
        ) == trim_end(meant_all(pieces, values)),
{
    lemma_placeholder_spelling();
    let reading = trim_end(values.reading);
    let fluency = trim_end(values.fluency);
    lemma_trimmed_undollared(values.reading);
    lemma_trimmed_undollared(values.fluency);
    let a = with_text(pieces, Piece::Reading, reading);
    lemma_kind_replaced(pieces, Piece::Reading, reading);
    lemma_with_text_proper(pieces, Piece::Reading, reading);
    let b = with_text(a, Piece::Code, values.code);
    lemma_kind_replaced(a, Piece::Code, values.code);
    lemma_with_text_proper(a, Piece::Code, values.code);
    let c = with_text(b, Piece::Spec, values.spec);
    lemma_kind_replaced(b, Piece::Spec, values.spec);
    lemma_with_text_proper(b, Piece::Spec, values.spec);
    let d = with_text(c, Piece::Harness, values.harness);
    lemma_kind_replaced(c, Piece::Harness, values.harness);
    lemma_with_text_proper(c, Piece::Harness, values.harness);
    let e = with_text(d, Piece::Fluency, fluency);
    lemma_kind_replaced(d, Piece::Fluency, fluency);
    assert forall|k: int| 0 <= k < pieces.len() implies #[trigger] e[k] == Piece::Text(
        values.meant(pieces[k]),
    ) by {
        assert(e.len() == pieces.len());
    }
    lemma_meant(pieces, values, e);
}

/// A paragraph for the spec reading goes where there is none to inject, with the line
/// breaks before it, and what is around it is left as it is.
pub proof fn a_blank_reading_leaves_no_paragraph(
    before: Seq<char>,
    rest: Seq<char>,
    values: Values,
)
    requires
        undollared(before),
        undollared(rest),
        before.len() > 0,
        values.plain(),
        all_white(values.reading),
    ensures
        filled(
            before + "\n\n"@ + "${SPEC_READING}"@ + rest,
            values.code,
            values.spec,
            values.reading,
            values.fluency,
            values.harness,
        ) == trim_end(before + rest),
{
    lemma_placeholder_spelling();
    reveal_strlit("\n\n");
    let mark = "${SPEC_READING}"@;
    let paragraph = "\n\n"@ + mark;
    let template = before + "\n\n"@ + mark + rest;
    assert(template =~= before + (paragraph + rest));
    lemma_before_paragraph(before, rest, paragraph);
    let less = before + rest;
    assert forall|k: int| 0 <= k < less.len() implies #[trigger] less[k] != '$' by {
        if k < before.len() {
            assert(less[k] == before[k]);
        } else {
            assert(less[k] == rest[k - before.len()]);
        }
    }
    let first = mark + "\n\n"@;
    if first.is_prefix_of(less) {
        assert(less.subrange(0, first.len() as int)[0] == '$');
        assert(less[0] == '$');
    }
    assert(without_paragraph(template, mark) == less);
    lemma_undollared_kept(less, mark, trim_end(values.reading));
    lemma_undollared_kept(less, "${CODE_LOCATION}"@, values.code);
    lemma_undollared_kept(less, "${SPEC_LOCATION}"@, values.spec);
    lemma_undollared_kept(less, "${HARNESS_DIRECTORY}"@, values.harness);
    lemma_undollared_kept(less, "${PITON_FLUENCY}"@, trim_end(values.fluency));
    lemma_no_paragraph(less, "${PITON_FLUENCY}"@);
}

proof fn lemma_undollared_kept(s: Seq<char>, pattern: Seq<char>, with: Seq<char>)
    requires
        undollared(s),
        pattern.len() > 0,
        pattern[0] == '$',
    ensures
        replace(s, pattern, with) == s,
{
    let none = Seq::<char>::empty();
    lemma_text_kept(s, none, pattern, with);
    assert(s + none =~= s);
    assert(replace(none, pattern, with) == none);
}

/// What has no dollar sign has no paragraph to leave out.
proof fn lemma_no_paragraph(s: Seq<char>, mark: Seq<char>)
    requires
        undollared(s),
        mark.len() > 0,
        mark[0] == '$',
    ensures
        without_paragraph(s, mark) == s,
{
    reveal_strlit("\n\n");
    let paragraph = "\n\n"@ + mark;
    lemma_without(s, paragraph, 2);
    let first = mark + "\n\n"@;
    if first.is_prefix_of(s) {
        assert(s.subrange(0, first.len() as int)[0] == '$');
        assert(s[0] == '$');
    }
}

proof fn lemma_without(s: Seq<char>, pattern: Seq<char>, at: int)
    requires
        undollared(s),
        0 <= at < pattern.len(),
        pattern[at] == '$',
    ensures
        replace(s, pattern, seq![]) == s,
    decreases s.len(),
{
    if s.len() >= pattern.len() {
        if stands_at(s, pattern, 0) {
            assert(s.subrange(0, pattern.len() as int)[at] == '$');
            assert(s[at] == '$');
        }
        let less = s.skip(1);
        assert forall|k: int| 0 <= k < less.len() implies #[trigger] less[k] != '$' by {
            assert(less[k] == s[k + 1]);
        }
        lemma_without(less, pattern, at);
        assert(seq![s[0]] + less =~= s);
    }
}

/// A paragraph is found where it first stands.
proof fn lemma_before_paragraph(before: Seq<char>, rest: Seq<char>, paragraph: Seq<char>)
    requires
        undollared(before),
        undollared(rest),
        paragraph.len() > 3,
        paragraph[2] == '$',
        paragraph[0] == '\n' && paragraph[1] == '\n',
    ensures
        replace(before + (paragraph + rest), paragraph, seq![]) == before + rest,
    decreases before.len(),
{
    let s = before + (paragraph + rest);
    if before.len() == 0 {
        assert(s =~= paragraph + rest);
        lemma_own_filled(paragraph, rest, seq![]);
        lemma_without(rest, paragraph, 2);
        assert(before + rest =~= Seq::<char>::empty() + rest);
    } else {
        let less = before.skip(1);
        assert forall|k: int| 0 <= k < less.len() implies #[trigger] less[k] != '$' by {
            assert(less[k] == before[k + 1]);
        }
        lemma_before_paragraph(less, rest, paragraph);
        assert(s.skip(1) =~= less + (paragraph + rest));
        if stands_at(s, paragraph, 0) {
            assert(s.subrange(0, paragraph.len() as int)[2] == '$');
            assert(s[2] == '$');
            let n = before.len() as int;
            if n > 2 {
                assert(s[2] == before[2]);
            } else if n == 2 {
                assert(s[2] == paragraph[0]);
            } else {
                assert(s[2] == paragraph[1]);
            }
        }
        assert(s[0] == before[0]);
        assert(seq![before[0]] + (less + rest) =~= before + rest);
    }
}

} // verus!
