//! What holds of concepts ranked and of the prompt made of them, told of the concepts
//! themselves.
use vstd::prelude::*;
use crate::rescope::{concept_text, concepts_text, place_text, places_text, ranking,
    ranking_orders_the_named_concepts, refactor_text, with_bounded_worth, with_names, ConceptView,
    PlaceView, Texts};
use crate::text::{all_white, comes_before, concat, replace, stands_at, white};

verus! {

// ---------------------------------------------------------------------------
// Ranking
// ---------------------------------------------------------------------------

/// Whether a name has anything in it but white space.
pub open spec fn is_named(concept: ConceptView) -> bool {
    exists|k: int| 0 <= k < concept.name.len() && !white(#[trigger] concept.name[k])
}

/// The concepts ranked come with the most worth first; of those worth the same, those
/// with the most places; and of those with as many, by their names.
pub proof fn the_worthiest_come_first(concepts: Seq<ConceptView>, i: int, j: int)
    requires
        0 <= i < j < ranking(concepts).len(),
    ensures
        ({
            let a = ranking(concepts)[i];
            let b = ranking(concepts)[j];
            &&& a.worth >= b.worth
            &&& a.worth == b.worth ==> a.places.len() >= b.places.len()
            &&& a.worth == b.worth && a.places.len() == b.places.len() ==> !comes_before(
                b.name,
                a.name,
            )
        }),
{
    ranking_orders_the_named_concepts(concepts);
    let all = ranking(concepts);
    assert(!crate::rescope::ranks_before(all[j], all[i]));
}

proof fn lemma_with_names_has(concepts: Seq<ConceptView>, k: int)
    requires
        0 <= k < concepts.len(),
        !all_white(concepts[k].name),
    ensures
        with_names(concepts).contains(with_bounded_worth(concepts[k])),
    decreases concepts.len(),
{
    let now = with_names(concepts);
    if k == concepts.len() - 1 {
        assert(now[now.len() - 1] == with_bounded_worth(concepts[k]));
    } else {
        let rest = concepts.drop_last();
        assert(rest[k] == concepts[k]);
        lemma_with_names_has(rest, k);
        let before = with_names(rest);
        let j = choose|j: int| 0 <= j < before.len() && before[j] == with_bounded_worth(concepts[k]);
        assert(now[j] == before[j]);
    }
}

proof fn lemma_with_names_from(concepts: Seq<ConceptView>, j: int) -> (k: int)
    requires
        0 <= j < with_names(concepts).len(),
    ensures
        0 <= k < concepts.len(),
        with_names(concepts)[j] == with_bounded_worth(concepts[k]),
        !all_white(concepts[k].name),
    decreases concepts.len(),
{
    let rest = concepts.drop_last();
    let before = with_names(rest);
    if j < before.len() {
        let k = lemma_with_names_from(rest, j);
        assert(rest[k] == concepts[k]);
        k
    } else {
        concepts.len() - 1
    }
}

/// Every concept with a name is ranked, as it is but for its worth, which is kept from
/// 0 to 1; and none without a name is.
pub proof fn every_named_concept_is_ranked(concepts: Seq<ConceptView>, k: int, j: int)
    requires
        0 <= k < concepts.len(),
        is_named(concepts[k]),
        0 <= j < ranking(concepts).len(),
    ensures
        ranking(concepts).contains(
            ConceptView {
                worth: if concepts[k].worth > 0x3F80_0000 {
                    0x3F80_0000
                } else if concepts[k].worth < -1 {
                    0
                } else {
                    concepts[k].worth
                },
                ..concepts[k]
            },
        ),
        is_named(ranking(concepts)[j]),
        -1 <= ranking(concepts)[j].worth <= 0x3F80_0000,
{
    broadcast use vstd::seq_lib::group_to_multiset_ensures;

    ranking_orders_the_named_concepts(concepts);
    let c = concepts[k];
    let at = choose|at: int| 0 <= at < c.name.len() && !white(#[trigger] c.name[at]);
    assert(!all_white(c.name)) by {
        assert(!white(c.name[at]));
    }
    lemma_with_names_has(concepts, k);
    let named = with_names(concepts);
    let ranked = ranking(concepts);
    let own = with_bounded_worth(c);
    assert(named.to_multiset().count(own) > 0);
    assert(ranked.to_multiset().count(own) > 0);
    assert(ranked.contains(own));
    let other = ranked[j];
    assert(ranked.contains(other));
    assert(ranked.to_multiset().count(other) > 0);
    assert(named.to_multiset().count(other) > 0);
    assert(named.contains(other));
    let n = choose|n: int| 0 <= n < named.len() && named[n] == other;
    let from = lemma_with_names_from(concepts, n);
    let name = concepts[from].name;
    assert(!all_white(name));
    let w = choose|w: int| 0 <= w < name.len() && !white(#[trigger] name[w]);
    assert(!white(other.name[w]));
}

// ---------------------------------------------------------------------------
// The prompt to refactor
// ---------------------------------------------------------------------------

/// A text on one line: its line breaks made spaces.
pub open spec fn on_one_line(text: Seq<char>) -> Seq<char> {
    text.map_values(
        |c: char|
            if c == '\n' {
                ' '
            } else {
                c
            },
    )
}

proof fn lemma_on_one_line(text: Seq<char>)
    ensures
        replace(text, "\n"@, " "@) == on_one_line(text),
    decreases text.len(),
{
    reveal_strlit("\n");
    reveal_strlit(" ");
    let mark = "\n"@;
    if text.len() > 0 {
        let rest = text.skip(1);
        lemma_on_one_line(rest);
        if text[0] == '\n' {
            assert(text.subrange(0, 1) =~= mark);
        } else if stands_at(text, mark, 0) {
            assert(text.subrange(0, 1)[0] == '\n');
        }
        assert(replace(text, mark, " "@) =~= on_one_line(text));
    } else {
        assert(replace(text, mark, " "@) =~= on_one_line(text));
    }
}

proof fn lemma_seven(
    a: Seq<char>,
    b: Seq<char>,
    c: Seq<char>,
    d: Seq<char>,
    e: Seq<char>,
    f: Seq<char>,
    g: Seq<char>,
)
    ensures
        concat(seq![a, b, c, d, e, f, g]) == a + b + c + d + e + f + g,
        concat(seq![a, b, c, d, e]) == a + b + c + d + e,
{
    reveal_with_fuel(concat, 8);
    let all = seq![a, b, c, d, e, f, g];
    assert(all.drop_last() =~= seq![a, b, c, d, e, f]);
    assert(seq![a, b, c, d, e, f].drop_last() =~= seq![a, b, c, d, e]);
    assert(seq![a, b, c, d, e].drop_last() =~= seq![a, b, c, d]);
    assert(seq![a, b, c, d].drop_last() =~= seq![a, b, c]);
    assert(seq![a, b, c].drop_last() =~= seq![a, b]);
    assert(seq![a, b].drop_last() =~= seq![a]);
    assert(seq![a].drop_last() =~= Seq::<Seq<char>>::empty());
    assert(Seq::<char>::empty() + a =~= a);
}

proof fn lemma_places_have(places: Seq<PlaceView>, k: int) -> (at: int)
    requires
        0 <= k < places.len(),
    ensures
        stands_at(places_text(places), place_text(places[k]), at),
    decreases places.len(),
{
    let rest = places.drop_last();
    let before = places_text(rest);
    let all = places_text(places);
    if k == places.len() - 1 {
        let part = place_text(places[k]);
        let at = before.len() as int;
        assert(all.subrange(at, at + part.len()) =~= part);
        at
    } else {
        assert(rest[k] == places[k]);
        let at = lemma_places_have(rest, k);
        let part = place_text(places[k]);
        assert(all.subrange(at, at + part.len()) =~= before.subrange(at, at + part.len()));
        at
    }
}

proof fn lemma_concepts_have(concepts: Seq<ConceptView>, k: int) -> (at: int)
    requires
        0 <= k < concepts.len(),
    ensures
        stands_at(concepts_text(concepts), concept_text(concepts[k]), at),
    decreases concepts.len(),
{
    let rest = concepts.drop_last();
    let before = concepts_text(rest);
    let all = concepts_text(concepts);
    if k == concepts.len() - 1 {
        let part = concept_text(concepts[k]);
        let at = before.len() as int;
        assert(all.subrange(at, at + part.len()) =~= part);
        at
    } else {
        assert(rest[k] == concepts[k]);
        let at = lemma_concepts_have(rest, k);
        let part = concept_text(concepts[k]);
        assert(all.subrange(at, at + part.len()) =~= before.subrange(at, at + part.len()));
        at
    }
}

/// What stands in what stands in a text stands in the text.
proof fn lemma_stands_through(s: Seq<char>, mid: Seq<char>, at: int, part: Seq<char>, k: int)
    requires
        stands_at(s, mid, at),
        stands_at(mid, part, k),
    ensures
        stands_at(s, part, at + k),
{
    assert(s.subrange(at + k, at + k + part.len()) =~= part) by {
        assert forall|j: int| 0 <= j < part.len() implies s.subrange(
            at + k,
            at + k + part.len(),
        )[j] == part[j] by {
            assert(s.subrange(at, at + mid.len())[k + j] == mid[k + j]);
            assert(mid.subrange(k, k + part.len())[j] == part[j]);
        }
    }
}

/// The prompt to refactor names every concept, with what it is, and every place it is
/// described in, each on a line of its own.
pub proof fn a_refactor_names_every_place(
    texts: Texts,
    concepts: Seq<ConceptView>,
    k: int,
    j: int,
) -> (at: (int, int))
    requires
        0 <= k < concepts.len(),
        0 <= j < concepts[k].places.len(),
    ensures
        ({
            let concept = concepts[k];
            let place = concept.places[j];
            let prompt = refactor_text(texts, concepts);
            &&& stands_at(
                prompt,
                "\n\n"@ + concept.name + ": "@ + concept.concept + "\n"@,
                at.0,
            )
            &&& stands_at(
                prompt,
                "- "@ + place.scope + " in "@ + place.file + ": "@ + on_one_line(place.excerpt)
                    + "\n"@,
                at.1,
            )
            &&& at.0 < at.1
            &&& texts.refactor@.is_prefix_of(prompt)
        }),
{
    let concept = concepts[k];
    let place = concept.places[j];
    let opening = concat(seq![texts.refactor@, "\n\n"@, texts.concepts@, ":"@]);
    let all = concepts_text(concepts);
    let prompt = refactor_text(texts, concepts);
    let n = opening.len() as int;
    assert(prompt.subrange(n, n + all.len()) =~= all);
    let p = lemma_concepts_have(concepts, k);
    let own = concept_text(concept);
    lemma_stands_through(prompt, all, n, own, p);
    let head = concat(seq!["\n\n"@, concept.name, ": "@, concept.concept, "\n"@]);
    lemma_seven(
        "\n\n"@,
        concept.name,
        ": "@,
        concept.concept,
        "\n"@,
        seq![],
        seq![],
    );
    reveal_strlit("\n\n");
    assert(own.subrange(0, head.len() as int) =~= head);
    lemma_stands_through(prompt, own, n + p, head, 0);
    let places = places_text(concept.places);
    let m = head.len() as int;
    assert(own.subrange(m, m + places.len()) =~= places);
    lemma_stands_through(prompt, own, n + p, places, m);
    let q = lemma_places_have(concept.places, j);
    lemma_stands_through(prompt, places, n + p + m, place_text(place), q);
    lemma_on_one_line(place.excerpt);
    lemma_seven(
        "- "@,
        place.scope,
        " in "@,
        place.file,
        ": "@,
        on_one_line(place.excerpt),
        "\n"@,
    );
    lemma_opening(texts.refactor@, "\n\n"@, texts.concepts@, ":"@);
    assert(prompt.subrange(0, texts.refactor@.len() as int) =~= texts.refactor@);
    (n + p, n + p + m + q)
}

proof fn lemma_opening(a: Seq<char>, b: Seq<char>, c: Seq<char>, d: Seq<char>)
    ensures
        concat(seq![a, b, c, d]) == a + b + c + d,
{
    reveal_with_fuel(concat, 5);
    assert(seq![a, b, c, d].drop_last() =~= seq![a, b, c]);
    assert(seq![a, b, c].drop_last() =~= seq![a, b]);
    assert(seq![a, b].drop_last() =~= seq![a]);
    assert(seq![a].drop_last() =~= Seq::<Seq<char>>::empty());
    assert(Seq::<char>::empty() + a =~= a);
}

} // verus!
