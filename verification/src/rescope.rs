//! Rescoping: has the harness find concepts the spec describes over and over
//! that would be better as scopes of their own, ranks them, and builds the
//! prompt asking the harness to refactor the spec around those chosen.
use vstd::prelude::*;
use crate::text::{all_white, chars_of, comes_before, concat, concat_of, end_of_run, group_runs,
    is_all_white, is_before, join, joined, lemma_before_total, lemma_before_transitive, piece,
    push_str, replace, replaced, run_end, run_start, same, start_of_run, string_of, views, Class};

verus! {

// ---------------------------------------------------------------------------
// Concepts
// ---------------------------------------------------------------------------

/// A place the spec describes a concept.
pub struct Place {
    pub file: String,
    pub scope: String,
    pub excerpt: String,
}

#[verifier::ext_equal]
pub struct PlaceView {
    pub file: Seq<char>,
    pub scope: Seq<char>,
    pub excerpt: Seq<char>,
}

impl View for Place {
    type V = PlaceView;

    open spec fn view(&self) -> PlaceView {
        PlaceView { file: self.file@, scope: self.scope@, excerpt: self.excerpt@ }
    }
}

pub open spec fn place_views(v: Seq<Place>) -> Seq<PlaceView> {
    v.map_values(|p: Place| p@)
}

/// A concept the spec repeats, proposed as a scope of its own.
pub struct Concept {
    /// The proposed scope's name.
    pub name: String,
    /// What the concept is.
    pub concept: String,
    /// How much extracting it is worth, from 0 to 1, as where that number stands
    /// among the single-precision numbers in their total order: its bits, when
    /// it isn't negative.
    pub worth: i32,
    pub why: String,
    pub places: Vec<Place>,
}

#[verifier::ext_equal]
pub struct ConceptView {
    pub name: Seq<char>,
    pub concept: Seq<char>,
    pub worth: int,
    pub why: Seq<char>,
    pub places: Seq<PlaceView>,
}

impl View for Concept {
    type V = ConceptView;

    open spec fn view(&self) -> ConceptView {
        ConceptView {
            name: self.name@,
            concept: self.concept@,
            worth: self.worth as int,
            why: self.why@,
            places: place_views(self.places@),
        }
    }
}

pub open spec fn concept_views(v: Seq<Concept>) -> Seq<ConceptView> {
    v.map_values(|c: Concept| c@)
}

/// The scopes some places are in.
pub open spec fn scopes_of(places: Seq<PlaceView>) -> Set<Seq<char>>
    decreases places.len(),
{
    if places.len() == 0 {
        Set::empty()
    } else {
        scopes_of(places.drop_last()).insert(places.last().scope)
    }
}

proof fn lemma_scopes_of(places: Seq<PlaceView>)
    ensures
        scopes_of(places).finite(),
        scopes_of(places).len() <= places.len(),
        forall|s: Seq<char>| #[trigger]
            scopes_of(places).contains(s) <==> exists|k: int|
                0 <= k < places.len() && (#[trigger] places[k]).scope == s,
    decreases places.len(),
{
    if places.len() > 0 {
        let rest = places.drop_last();
        lemma_scopes_of(rest);
        assert forall|s: Seq<char>| #[trigger] scopes_of(places).contains(s) implies exists|k: int|
            0 <= k < places.len() && (#[trigger] places[k]).scope == s by {
            if scopes_of(rest).contains(s) {
                let k = choose|k: int| 0 <= k < rest.len() && (#[trigger] rest[k]).scope == s;
                assert(places[k].scope == s);
            } else {
                assert(places[places.len() - 1].scope == s);
            }
        }
        assert forall|s: Seq<char>|
            (exists|k: int| 0 <= k < places.len() && (#[trigger] places[k]).scope
                == s) implies #[trigger] scopes_of(places).contains(s) by {
            let k = choose|k: int| 0 <= k < places.len() && (#[trigger] places[k]).scope == s;
            if k < rest.len() {
                assert(rest[k].scope == s);
            }
        }
    }
}

impl Concept {
    /// How many different scopes describe it.
    pub fn scope_count(&self) -> (r: usize)
        ensures
            r == scopes_of(self@.places).len(),
    {
        let ghost all = place_views(self.places@);
        let mut count: usize = 0;
        let mut i: usize = 0;
        while i < self.places.len()
            invariant
                i <= self.places@.len(),
                all == place_views(self.places@),
                count <= i,
                count == scopes_of(all.take(i as int)).len(),
            decreases self.places@.len() - i,
        {
            let mut seen = false;
            let mut k: usize = 0;
            while k < i && !seen
                invariant
                    k <= i < self.places@.len(),
                    all == place_views(self.places@),
                    seen ==> exists|j: int|
                        0 <= j < i && (#[trigger] all[j]).scope == all[i as int].scope,
                    !seen ==> forall|j: int|
                        0 <= j < k ==> (#[trigger] all[j]).scope != all[i as int].scope,
                decreases i - k,
            {
                proof {
                    assert(all[k as int] == self.places@[k as int]@);
                    assert(all[i as int] == self.places@[i as int]@);
                }
                if same(&self.places[k].scope, &self.places[i].scope) {
                    seen = true;
                }
                k += 1;
            }
            proof {
                let part = all.take(i as int);
                lemma_scopes_of(part);
                assert(all.take(i + 1).drop_last() =~= part);
                assert(all.take(i + 1).last() == all[i as int]);
                if seen {
                    let j = choose|j: int|
                        0 <= j < i && (#[trigger] all[j]).scope == all[i as int].scope;
                    assert(part[j] == all[j]);
                } else {
                    assert forall|j: int| 0 <= j < part.len() implies (#[trigger] part[j]).scope
                        != all[i as int].scope by {
                        assert(part[j] == all[j]);
                    }
                }
            }
            if !seen {
                count += 1;
            }
            i += 1;
        }
        proof {
            assert(all.take(all.len() as int) =~= all);
        }
        count
    }
}

// ---------------------------------------------------------------------------
// Reading the reply
// ---------------------------------------------------------------------------

/// Where the JSON in a reply starts: at its first brace.
pub open spec fn json_start(text: Seq<char>) -> int {
    run_end(text, Class::Not('{'), 0)
}

/// Where the JSON in a reply ends: after its last brace.
pub open spec fn json_end(text: Seq<char>) -> int {
    run_start(text, Class::Not('}'), text.len() as int)
}

/// Whether a reply has JSON in it: a brace that closes after one that opens.
pub open spec fn has_json(text: Seq<char>) -> bool {
    json_start(text) < json_end(text)
}

/// The JSON in what the harness replied, which may have a little around it.
pub fn json_in(text: &str) -> (r: Result<String, &'static str>)
    ensures
        match r {
            Ok(json) => has_json(text@) && json@ == text@.subrange(
                json_start(text@),
                json_end(text@),
            ),
            Err(e) => !has_json(text@) && e@ == "the reply has no JSON in it"@,
        },
{
    broadcast use group_runs;

    let v = chars_of(text);
    let start = end_of_run(&v, Class::Not('{'), 0);
    let end = start_of_run(&v, Class::Not('}'), v.len());
    if start >= end {
        return Err("the reply has no JSON in it");
    }
    Ok(string_of(&piece(&v, start, end)))
}

// ---------------------------------------------------------------------------
// Ranking
// ---------------------------------------------------------------------------

/// Whether a concept is ranked before another: worth more, or as much with more
/// places, or with as many, by name.
pub open spec fn ranks_before(a: ConceptView, b: ConceptView) -> bool {
    if a.worth != b.worth {
        a.worth > b.worth
    } else if a.places.len() != b.places.len() {
        a.places.len() > b.places.len()
    } else {
        comes_before(a.name, b.name)
    }
}

/// Where 0 stands among the single-precision numbers; one less is where the 0
/// below it does.
pub const NO_WORTH: i32 = 0;

/// Where 1 stands among the single-precision numbers.
pub const FULL_WORTH: i32 = 0x3F80_0000;

/// A worth kept from 0 to 1.
pub open spec fn bounded(worth: int) -> int {
    if worth < NO_WORTH - 1 {
        NO_WORTH as int
    } else if worth > FULL_WORTH {
        FULL_WORTH as int
    } else {
        worth
    }
}

/// A concept put among those ranked, after those it isn't ranked before.
pub open spec fn insert_ranked(ranked: Seq<ConceptView>, concept: ConceptView) -> Seq<ConceptView>
    decreases ranked.len(),
{
    if ranked.len() > 0 && ranks_before(concept, ranked.last()) {
        insert_ranked(ranked.drop_last(), concept).push(ranked.last())
    } else {
        ranked.push(concept)
    }
}

/// A concept with its worth kept from 0 to 1.
pub open spec fn with_bounded_worth(concept: ConceptView) -> ConceptView {
    ConceptView { worth: bounded(concept.worth), ..concept }
}

/// The concepts with a name, their worth kept from 0 to 1, ranked: most worth
/// first, then those with the most places.
pub open spec fn ranking(concepts: Seq<ConceptView>) -> Seq<ConceptView>
    decreases concepts.len(),
{
    if concepts.len() == 0 {
        seq![]
    } else if all_white(concepts.last().name) {
        ranking(concepts.drop_last())
    } else {
        insert_ranked(ranking(concepts.drop_last()), with_bounded_worth(concepts.last()))
    }
}

fn is_ranked_before(a: &Concept, b: &Concept) -> (r: bool)
    ensures
        r == ranks_before(a@, b@),
{
    if a.worth != b.worth {
        a.worth > b.worth
    } else if a.places.len() != b.places.len() {
        a.places.len() > b.places.len()
    } else {
        is_before(&chars_of(&a.name), &chars_of(&b.name))
    }
}

fn insert(ranked: &mut Vec<Concept>, concept: Concept)
    ensures
        concept_views(final(ranked)@) == insert_ranked(concept_views(old(ranked)@), concept@),
{
    let ghost all = concept_views(ranked@);
    let mut at: usize = ranked.len();
    proof {
        assert(all.take(at as int) =~= all);
        assert(insert_ranked(all.take(at as int), concept@) + all.skip(at as int)
            =~= insert_ranked(all, concept@));
    }
    while at > 0 && is_ranked_before(&concept, &ranked[at - 1])
        invariant
            at <= ranked@.len(),
            ranked@ == old(ranked)@,
            all == concept_views(ranked@),
            insert_ranked(all.take(at as int), concept@) + all.skip(at as int) == insert_ranked(
                all,
                concept@,
            ),
        decreases at,
    {
        proof {
            let part = all.take(at as int);
            assert(part.last() == ranked@[at - 1]@);
            assert(part.drop_last() =~= all.take(at - 1));
            assert(insert_ranked(part.drop_last(), concept@).push(part.last()) + all.skip(
                at as int,
            ) =~= insert_ranked(part.drop_last(), concept@) + all.skip(at - 1));
        }
        at -= 1;
    }
    proof {
        let part = all.take(at as int);
        if at > 0 {
            assert(part.last() == ranked@[at - 1]@);
        }
    }
    ranked.insert(at, concept);
    proof {
        assert(concept_views(ranked@) =~= all.take(at as int).push(concept@) + all.skip(
            at as int,
        ));
    }
}

/// The concepts of a reply, their worth kept from 0 to 1, ranked: most worth
/// first, then those with the most places. One without a name is left out.
pub fn rank(concepts: Vec<Concept>) -> (r: Vec<Concept>)
    ensures
        concept_views(r@) == ranking(concept_views(concepts@)),
{
    let mut concepts = concepts;
    let ghost all = concept_views(concepts@);
    let mut ranked: Vec<Concept> = Vec::new();
    proof {
        assert(concept_views(ranked@) =~= ranking(all.take(0)));
        assert(concept_views(concepts@) =~= all.skip(0));
    }
    let ghost mut n: int = 0;
    while concepts.len() > 0
        invariant
            0 <= n <= all.len(),
            concept_views(concepts@) == all.skip(n),
            concept_views(ranked@) == ranking(all.take(n)),
        decreases concepts@.len(),
    {
        let ghost before = concepts@;
        let concept = concepts.remove(0);
        proof {
            assert(concept_views(before).len() == before.len());
            assert(all.skip(n)[0] == before[0]@);
            assert(all.take(n + 1).drop_last() =~= all.take(n));
            assert(all.take(n + 1).last() == concept@);
            assert(concept_views(concepts@) =~= concept_views(before).skip(1));
            assert(all.skip(n).skip(1) =~= all.skip(n + 1));
            n = n + 1;
        }
        if !is_all_white(&chars_of(&concept.name)) {
            let ghost given = concept@;
            let mut concept = concept;
            if concept.worth < NO_WORTH - 1 {
                concept.worth = NO_WORTH;
            } else if concept.worth > FULL_WORTH {
                concept.worth = FULL_WORTH;
            }
            proof {
                assert(concept@ =~= with_bounded_worth(given));
            }
            insert(&mut ranked, concept);
        }
    }
    proof {
        assert(concept_views(concepts@).len() == 0);
        assert(all.take(n) =~= all);
    }
    ranked
}

// ---------------------------------------------------------------------------
// Prompts
// ---------------------------------------------------------------------------

/// The texts the prompts are put together from, as the application is built
/// with them.
pub struct Texts {
    /// What is looked for, with `spec_root_mark` standing for where the spec is.
    pub intro: String,
    pub spec_root_mark: String,
    pub task: String,
    pub reply_format: String,
    /// What heads the list of files.
    pub files: String,
    pub refactor: String,
    /// What heads the list of concepts.
    pub concepts: String,
}

pub open spec fn search_text(
    texts: Texts,
    spec_root: Seq<char>,
    files: Seq<Seq<char>>,
) -> Seq<char> {
    concat(
        seq![
            replace(texts.intro@, texts.spec_root_mark@, spec_root),
            "\n\n"@,
            texts.task@,
            "\n\n"@,
            texts.reply_format@,
            "\n\n"@,
            texts.files@,
            ":\n"@,
            join(files, "\n"@),
            "\n"@,
        ],
    )
}

/// The prompt looking for repeated concepts in `files`, the spec's files
/// within `spec_root`.
pub fn search_prompt(texts: &Texts, spec_root: &str, files: &Vec<String>) -> (r: String)
    ensures
        r@ == search_text(*texts, spec_root@, views(files@)),
{
    let mut listed: Vec<Vec<char>> = Vec::new();
    let mut i: usize = 0;
    while i < files.len()
        invariant
            i <= files@.len(),
            views(listed@) == views(files@).take(i as int),
        decreases files@.len() - i,
    {
        let ghost before = views(listed@);
        listed.push(chars_of(&files[i]));
        proof {
            assert(views(listed@) =~= before.push(files@[i as int]@));
            assert(views(files@).take(i + 1) =~= views(files@).take(i as int).push(
                files@[i as int]@,
            ));
        }
        i += 1;
    }
    proof {
        assert(views(files@).take(files@.len() as int) =~= views(files@));
    }
    let mark = chars_of(&texts.spec_root_mark);
    let intro = if mark.len() > 0 {
        string_of(&replaced(&chars_of(&texts.intro), &mark, &chars_of(spec_root)))
    } else {
        texts.intro.clone()
    };
    let list = string_of(&joined(&listed, "\n"));
    let parts: Vec<&str> = vec![
        &intro,
        "\n\n",
        &texts.task,
        "\n\n",
        &texts.reply_format,
        "\n\n",
        &texts.files,
        ":\n",
        &list,
        "\n",
    ];
    proof {
        assert(views(parts@) =~= seq![
            intro@,
            "\n\n"@,
            texts.task@,
            "\n\n"@,
            texts.reply_format@,
            "\n\n"@,
            texts.files@,
            ":\n"@,
            list@,
            "\n"@,
        ]);
    }
    concat_of(parts)
}

pub open spec fn place_text(place: PlaceView) -> Seq<char> {
    concat(
        seq![
            "- "@,
            place.scope,
            " in "@,
            place.file,
            ": "@,
            replace(place.excerpt, "\n"@, " "@),
            "\n"@,
        ],
    )
}

pub open spec fn places_text(places: Seq<PlaceView>) -> Seq<char>
    decreases places.len(),
{
    if places.len() == 0 {
        seq![]
    } else {
        places_text(places.drop_last()) + place_text(places.last())
    }
}

pub open spec fn concept_text(concept: ConceptView) -> Seq<char> {
    concat(seq!["\n\n"@, concept.name, ": "@, concept.concept, "\n"@]) + places_text(
        concept.places,
    )
}

pub open spec fn concepts_text(concepts: Seq<ConceptView>) -> Seq<char>
    decreases concepts.len(),
{
    if concepts.len() == 0 {
        seq![]
    } else {
        concepts_text(concepts.drop_last()) + concept_text(concepts.last())
    }
}

pub open spec fn refactor_text(texts: Texts, concepts: Seq<ConceptView>) -> Seq<char> {
    concat(seq![texts.refactor@, "\n\n"@, texts.concepts@, ":"@]) + concepts_text(concepts)
}

fn place_line(place: &Place) -> (r: String)
    ensures
        r@ == place_text(place@),
{
    proof {
        reveal_strlit("\n");
    }
    let excerpt = string_of(
        &replaced(&chars_of(&place.excerpt), &chars_of("\n"), &chars_of(" ")),
    );
    let parts: Vec<&str> = vec!["- ", &place.scope, " in ", &place.file, ": ", &excerpt, "\n"];
    proof {
        assert(views(parts@) =~= seq![
            "- "@,
            place.scope@,
            " in "@,
            place.file@,
            ": "@,
            excerpt@,
            "\n"@,
        ]);
    }
    concat_of(parts)
}

fn push_concept(prompt: &mut Vec<char>, concept: &Concept)
    ensures
        final(prompt)@ == old(prompt)@ + concept_text(concept@),
{
    let parts: Vec<&str> = vec!["\n\n", &concept.name, ": ", &concept.concept, "\n"];
    proof {
        assert(views(parts@) =~= seq!["\n\n"@, concept.name@, ": "@, concept.concept@, "\n"@]);
    }
    let heading = concat_of(parts);
    push_str(prompt, &heading);
    let ghost all = place_views(concept.places@);
    let mut i: usize = 0;
    proof {
        assert(prompt@ =~= old(prompt)@ + (heading@ + places_text(all.take(0))));
    }
    while i < concept.places.len()
        invariant
            i <= concept.places@.len(),
            all == place_views(concept.places@),
            prompt@ == old(prompt)@ + (heading@ + places_text(all.take(i as int))),
        decreases concept.places@.len() - i,
    {
        let line = place_line(&concept.places[i]);
        push_str(prompt, &line);
        i += 1;
        proof {
            assert(all.take(i as int).drop_last() =~= all.take(i - 1));
            assert(all.take(i as int).last() == concept.places@[i - 1]@);
            assert(prompt@ =~= old(prompt)@ + (heading@ + places_text(all.take(i as int))));
        }
    }
    proof {
        assert(all.take(all.len() as int) =~= all);
    }
}

/// The prompt asking for `concepts` to be refactored into scopes of their own.
pub fn refactor_prompt(texts: &Texts, concepts: &Vec<Concept>) -> (r: String)
    ensures
        r@ == refactor_text(*texts, concept_views(concepts@)),
{
    let parts: Vec<&str> = vec![&texts.refactor, "\n\n", &texts.concepts, ":"];
    proof {
        assert(views(parts@) =~= seq![texts.refactor@, "\n\n"@, texts.concepts@, ":"@]);
    }
    let heading = concat_of(parts);
    let mut prompt = chars_of(&heading);
    let ghost all = concept_views(concepts@);
    let mut i: usize = 0;
    proof {
        assert(prompt@ =~= heading@ + concepts_text(all.take(0)));
    }
    while i < concepts.len()
        invariant
            i <= concepts@.len(),
            all == concept_views(concepts@),
            prompt@ == heading@ + concepts_text(all.take(i as int)),
        decreases concepts@.len() - i,
    {
        push_concept(&mut prompt, &concepts[i]);
        i += 1;
        proof {
            assert(all.take(i as int).drop_last() =~= all.take(i - 1));
            assert(all.take(i as int).last() == concepts@[i - 1]@);
            assert(prompt@ =~= heading@ + concepts_text(all.take(i as int)));
        }
    }
    proof {
        assert(all.take(all.len() as int) =~= all);
    }
    string_of(&prompt)
}

// ---------------------------------------------------------------------------
// What holds of the ranking
// ---------------------------------------------------------------------------

/// Whether concepts are in the order of their ranks.
pub open spec fn in_rank_order(concepts: Seq<ConceptView>) -> bool {
    forall|i: int, j: int|
        0 <= i < j < concepts.len() ==> !ranks_before(
            #[trigger] concepts[j],
            #[trigger] concepts[i],
        )
}

proof fn lemma_ranks(a: ConceptView, b: ConceptView)
    ensures
        ranks_before(a, b) ==> !ranks_before(b, a),
{
    lemma_before_total(a.name, b.name);
}

proof fn lemma_ranks_through(a: ConceptView, b: ConceptView, c: ConceptView)
    requires
        ranks_before(a, c),
        !ranks_before(a, b),
    ensures
        ranks_before(b, c),
{
    lemma_before_total(a.name, b.name);
    if a.worth == b.worth && b.worth == c.worth && a.places.len() == b.places.len()
        && b.places.len() == c.places.len() && a.name != b.name {
        lemma_before_transitive(b.name, a.name, c.name);
    }
}

proof fn lemma_insert_ranked(ranked: Seq<ConceptView>, concept: ConceptView)
    requires
        in_rank_order(ranked),
    ensures
        in_rank_order(insert_ranked(ranked, concept)),
        insert_ranked(ranked, concept).to_multiset() == ranked.to_multiset().insert(concept),
    decreases ranked.len(),
{
    broadcast use vstd::seq_lib::group_to_multiset_ensures;

    let now = insert_ranked(ranked, concept);
    if ranked.len() > 0 && ranks_before(concept, ranked.last()) {
        let rest = ranked.drop_last();
        let last = ranked.last();
        assert forall|i: int, j: int| 0 <= i < j < rest.len() implies !ranks_before(
            #[trigger] rest[j],
            #[trigger] rest[i],
        ) by {
            assert(rest[i] == ranked[i] && rest[j] == ranked[j]);
        }
        lemma_insert_ranked(rest, concept);
        let before = insert_ranked(rest, concept);
        assert(rest.push(last) =~= ranked);
        assert(ranked.to_multiset() =~= rest.to_multiset().insert(last));
        assert(now.to_multiset() =~= before.to_multiset().insert(last));
        assert(now.to_multiset() =~= ranked.to_multiset().insert(concept));
        assert forall|i: int, j: int| 0 <= i < j < now.len() implies !ranks_before(
            #[trigger] now[j],
            #[trigger] now[i],
        ) by {
            if j < before.len() {
                assert(now[i] == before[i] && now[j] == before[j]);
            } else {
                assert(now[i] == before[i]);
                assert(before.contains(before[i]));
                assert(before.to_multiset().count(before[i]) > 0);
                if before[i] == concept {
                    lemma_ranks(concept, last);
                } else {
                    assert(rest.to_multiset().count(before[i]) > 0);
                    assert(rest.contains(before[i]));
                    let k = choose|k: int| 0 <= k < rest.len() && rest[k] == before[i];
                    assert(ranked[k] == before[i]);
                    assert(ranked[ranked.len() - 1] == last);
                }
            }
        }
    } else {
        assert forall|i: int, j: int| 0 <= i < j < now.len() implies !ranks_before(
            #[trigger] now[j],
            #[trigger] now[i],
        ) by {
            if j < ranked.len() {
                assert(now[i] == ranked[i] && now[j] == ranked[j]);
            } else {
                assert(now[i] == ranked[i]);
                let last = ranked[ranked.len() - 1];
                if ranks_before(concept, ranked[i]) {
                    lemma_ranks_through(concept, last, ranked[i]);
                    if i < ranked.len() - 1 {
                        assert(!ranks_before(ranked[ranked.len() - 1], ranked[i]));
                    }
                }
            }
        }
    }
}

/// The concepts with a name among some, their worth kept from 0 to 1.
pub open spec fn with_names(concepts: Seq<ConceptView>) -> Seq<ConceptView>
    decreases concepts.len(),
{
    if concepts.len() == 0 {
        seq![]
    } else if all_white(concepts.last().name) {
        with_names(concepts.drop_last())
    } else {
        with_names(concepts.drop_last()).push(with_bounded_worth(concepts.last()))
    }
}

/// Ranking puts the concepts that have a name in the order of their ranks, and
/// neither adds nor loses any; it only keeps their worth from 0 to 1.
pub proof fn ranking_orders_the_named_concepts(concepts: Seq<ConceptView>)
    ensures
        in_rank_order(ranking(concepts)),
        ranking(concepts).to_multiset() == with_names(concepts).to_multiset(),
    decreases concepts.len(),
{
    broadcast use vstd::seq_lib::group_to_multiset_ensures;

    if concepts.len() > 0 {
        ranking_orders_the_named_concepts(concepts.drop_last());
        if !all_white(concepts.last().name) {
            lemma_insert_ranked(ranking(concepts.drop_last()), with_bounded_worth(concepts.last()));
            assert(with_names(concepts).to_multiset() =~= with_names(
                concepts.drop_last(),
            ).to_multiset().insert(with_bounded_worth(concepts.last())));
        }
    }
}

} // verus!
