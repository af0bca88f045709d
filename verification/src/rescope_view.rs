//! The Rescope panel: has the harness look through the spec for concepts it
//! repeats while its output shows, then lists them ranked, each with every
//! place the spec describes it, to check the ones to refactor into scopes of
//! their own and send that to the harness.
use vstd::prelude::*;
use serde_json::Value;
use crate::harness::{json_members, json_of, text_members, HarnessEvent};
use crate::paths::text_of;
use crate::reply::{error_told, PartView, Reply, ReplyView};
use crate::rescope::{concept_views, in_rank_order, place_views, ranks_before, refactor_prompt,
    refactor_text, scopes_of, Concept, ConceptView, Place, Texts};
use crate::text::{concat, concat_of, decimal, decimal_of, string_of, views};

verus! {

/// How much a concept has to be worth to start checked: where a half stands
/// among the single-precision numbers.
pub const CHECKED_WORTH: i32 = 0x3F00_0000;

/// How a step is going.
pub enum StepState {
    Pending,
    Running,
    Done,
    Failed(String),
}

impl StepState {
    /// What is said beneath the step.
    pub fn problem(&self) -> (r: Option<String>)
        ensures
            text_of(r) == (match *self {
                StepState::Failed(why) => Some(why@),
                _ => None,
            }),
    {
        match self {
            StepState::Failed(why) => Some(why.clone()),
            _ => None,
        }
    }
}

/// The panel's state.
pub struct RescopeView {
    /// How reading the spec is going.
    pub reading: StepState,
    /// How looking through it is going.
    pub looking: StepState,
    pub reply: Reply,
    pub output_locked: bool,
    /// The concepts found, once looked for.
    pub concepts: Option<Vec<Concept>>,
    /// Those checked, by index, in order.
    pub checked: Vec<usize>,
    /// The one selected, by index.
    pub selected: Option<usize>,
}

/// Whether indices are in order, each once.
pub open spec fn in_order(indices: Seq<usize>) -> bool {
    forall|i: int, j: int| 0 <= i < j < indices.len() ==> indices[i] < indices[j]
}

/// A reply once an event is folded into it, with the error it told, if any.
pub open spec fn folded(reply: ReplyView, event: HarnessEvent) -> ReplyView {
    match error_told(event) {
        Some(error) => reply.applied(event).with_part(PartView::Error(error)),
        None => reply.applied(event),
    }
}

pub open spec fn folded_each(reply: ReplyView, events: Seq<HarnessEvent>) -> ReplyView
    decreases events.len(),
{
    if events.len() == 0 {
        reply
    } else {
        folded(folded_each(reply, events.drop_last()), events.last())
    }
}

/// The indices below `n` of the concepts worth being checked.
pub open spec fn worth_checking(concepts: Seq<ConceptView>, n: int) -> Seq<usize>
    decreases n,
{
    if n <= 0 {
        seq![]
    } else if concepts[n - 1].worth >= CHECKED_WORTH {
        worth_checking(concepts, n - 1).push((n - 1) as usize)
    } else {
        worth_checking(concepts, n - 1)
    }
}

/// The concepts at indices, where there are such.
pub open spec fn chosen(concepts: Seq<ConceptView>, indices: Seq<usize>) -> Seq<ConceptView>
    decreases indices.len(),
{
    if indices.len() == 0 {
        seq![]
    } else {
        let before = chosen(concepts, indices.drop_last());
        if indices.last() < concepts.len() {
            before.push(concepts[indices.last() as int])
        } else {
            before
        }
    }
}

fn fold(reply: &mut Reply, event: &HarnessEvent)
    requires
        old(reply).wf(),
    ensures
        final(reply).wf(),
        final(reply)@ == folded(old(reply)@, *event),
{
    if let Some(error) = reply.apply(event) {
        reply.push_error(error);
    }
}

fn copied(concept: &Concept) -> (r: Concept)
    ensures
        r@ == concept@,
{
    let mut places: Vec<Place> = Vec::new();
    let mut i: usize = 0;
    while i < concept.places.len()
        invariant
            i <= concept.places@.len(),
            place_views(places@) =~= place_views(concept.places@.take(i as int)),
        decreases concept.places@.len() - i,
    {
        let place = &concept.places[i];
        let ghost before = places@;
        places.push(
            Place {
                file: place.file.clone(),
                scope: place.scope.clone(),
                excerpt: place.excerpt.clone(),
            },
        );
        i += 1;
        proof {
            assert(places@.last()@ =~= place@);
            let part = concept.places@.take(i as int);
            assert(part =~= concept.places@.take(i - 1).push(*place));
            assert(place_views(places@) =~= place_views(before).push(place@));
            assert(place_views(part) =~= place_views(concept.places@.take(i - 1)).push(place@));
        }
    }
    proof {
        assert(concept.places@.take(concept.places@.len() as int) =~= concept.places@);
    }
    let r = Concept {
        name: concept.name.clone(),
        concept: concept.concept.clone(),
        worth: concept.worth,
        why: concept.why.clone(),
        places,
    };
    proof {
        assert(r@ =~= concept@);
    }
    r
}

/// What a concept's row says of where the spec describes it.
pub fn places_label(concept: &Concept) -> (r: String)
    ensures
        r@ == concat(
            seq![
                decimal(concept@.places.len()),
                " places · "@,
                decimal(scopes_of(concept@.places).len()),
                " scopes"@,
            ],
        ),
{
    let places = string_of(&decimal_of(concept.places.len() as u128));
    let scopes = string_of(&decimal_of(concept.scope_count() as u128));
    let parts: Vec<&str> = vec![&places, " places · ", &scopes, " scopes"];
    proof {
        assert(concept@.places.len() == concept.places@.len());
        assert(views(parts@) =~= seq![places@, " places · "@, scopes@, " scopes"@]);
    }
    concat_of(parts)
}

/// Whether a line as the harness streams it brings these events: those `parse`
/// gives for the JSON it is, or none where it is no JSON.
pub open spec fn brings<P: Fn(&Value) -> Vec<HarnessEvent>>(
    line: Seq<char>,
    parse: P,
    events: Seq<HarnessEvent>,
) -> bool {
    match json_members(line) {
        None => events.len() == 0,
        Some(members) => exists|value: Value, told: Vec<HarnessEvent>|
            {
                &&& text_members(value) == members
                &&& #[trigger] parse.ensures((&value,), told)
                &&& events == told@
            },
    }
}

/// Whether lines bring these events, each its own.
pub open spec fn bring<P: Fn(&Value) -> Vec<HarnessEvent>>(
    lines: Seq<String>,
    parse: P,
    events: Seq<Seq<HarnessEvent>>,
) -> bool {
    events.len() == lines.len() && forall|k: int|
        0 <= k < lines.len() ==> brings(lines[k]@, parse, #[trigger] events[k])
}

/// A reply with lines folded in, each as its raw output and then the events it
/// brings.
pub open spec fn streamed(
    reply: ReplyView,
    lines: Seq<String>,
    events: Seq<Seq<HarnessEvent>>,
) -> ReplyView
    decreases lines.len(),
{
    if lines.len() == 0 {
        reply
    } else {
        folded_each(
            folded(
                streamed(reply, lines.drop_last(), events.drop_last()),
                HarnessEvent::Output(lines.last()),
            ),
            events.last(),
        )
    }
}

impl RescopeView {
    pub open spec fn wf(self) -> bool {
        self.reply.wf() && in_order(self.checked@)
    }

    /// Whether nothing came of looking yet.
    pub open spec fn afresh(self) -> bool {
        &&& self.wf()
        &&& self.reading is Running
        &&& self.looking is Pending
        &&& self.output_locked
        &&& self.concepts is None
        &&& self.checked@.len() == 0
        &&& self.selected is None
    }

    /// A panel that starts to look, `uid` telling its output apart.
    pub fn new(uid: u64) -> (r: RescopeView)
        ensures
            r.afresh(),
            r.reply@ == ReplyView::empty(uid),
    {
        RescopeView {
            reading: StepState::Running,
            looking: StepState::Pending,
            reply: Reply::new(uid),
            output_locked: true,
            concepts: None,
            checked: Vec::new(),
            selected: None,
        }
    }

    /// Looks through the spec afresh.
    pub fn look(&mut self, uid: u64)
        ensures
            final(self).afresh(),
            final(self).reply@ == ReplyView::empty(uid),
    {
        *self = RescopeView::new(uid);
    }

    pub open spec fn running(self) -> bool {
        !(self.reading is Failed) && !(self.looking is Failed) && !(self.reading is Done
            && self.looking is Done)
    }

    /// Whether it is still looking.
    pub fn is_running(&self) -> (b: bool)
        ensures
            b == self.running(),
    {
        match (&self.reading, &self.looking) {
            (StepState::Failed(_), _) => false,
            (_, StepState::Failed(_)) => false,
            (StepState::Done, StepState::Done) => false,
            _ => true,
        }
    }

    /// Whether looking through the spec failed.
    pub fn step_failed(&self) -> (b: bool)
        ensures
            b == (self.looking is Failed),
    {
        match &self.looking {
            StepState::Failed(_) => true,
            _ => false,
        }
    }

    /// The spec's files were listed, or why they couldn't be.
    pub fn listed(&mut self, problem: Option<String>)
        ensures
            match problem {
                Some(why) => *final(self) == (RescopeView {
                    reading: StepState::Failed(why),
                    ..*old(self)
                }),
                None => *final(self) == (RescopeView {
                    reading: StepState::Done,
                    looking: StepState::Running,
                    ..*old(self)
                }),
            },
    {
        match problem {
            Some(why) => {
                self.reading = StepState::Failed(why);
            },
            None => {
                self.reading = StepState::Done;
                self.looking = StepState::Running;
            },
        }
    }

    /// Folds a line the harness streamed, and the events read from it, into its
    /// reply.
    pub fn stream_line(&mut self, line: String, events: &Vec<HarnessEvent>)
        requires
            old(self).wf(),
        ensures
            final(self).wf(),
            final(self).reply@ == folded_each(
                folded(old(self).reply@, HarnessEvent::Output(line)),
                events@,
            ),
            *final(self) == (RescopeView { reply: final(self).reply, ..*old(self) }),
    {
        let output = HarnessEvent::Output(line);
        fold(&mut self.reply, &output);
        let ghost start = self.reply@;
        let mut i: usize = 0;
        proof {
            assert(events@.take(0) =~= seq![]);
        }
        while i < events.len()
            invariant
                i <= events@.len(),
                self.wf(),
                self.reply@ == folded_each(start, events@.take(i as int)),
                *self == (RescopeView { reply: self.reply, ..*old(self) }),
            decreases events@.len() - i,
        {
            fold(&mut self.reply, &events[i]);
            i += 1;
            proof {
                assert(events@.take(i as int).drop_last() =~= events@.take(i - 1));
                assert(events@.take(i as int).last() == events@[i - 1]);
            }
        }
        proof {
            assert(events@.take(events@.len() as int) =~= events@);
        }
    }

    /// Folds a line as the harness streamed it into its reply, `parse` giving the
    /// events of the JSON it is. A line that is no JSON brings only its raw
    /// output.
    pub fn stream_raw<P: Fn(&Value) -> Vec<HarnessEvent>>(&mut self, line: String, parse: &P)
        requires
            old(self).wf(),
            forall|value: &Value| #[trigger] parse.requires((value,)),
        ensures
            final(self).wf(),
            match json_members(line@) {
                None => final(self).reply@ == folded(old(self).reply@, HarnessEvent::Output(line)),
                Some(members) => exists|value: Value, events: Vec<HarnessEvent>|
                    {
                        &&& text_members(value) == members
                        &&& #[trigger] parse.ensures((&value,), events)
                        &&& final(self).reply@ == folded_each(
                            folded(old(self).reply@, HarnessEvent::Output(line)),
                            events@,
                        )
                    },
            },
            *final(self) == (RescopeView { reply: final(self).reply, ..*old(self) }),
    {
        match json_of(&line) {
            Some(value) => {
                let events = parse(&value);
                self.stream_line(line, &events);
            },
            None => {
                self.stream_line(line, &Vec::new());
            },
        }
    }

    /// Folds lines the harness streamed into its reply, in turn, `parse` giving
    /// the events of the JSON that a line is.
    pub fn stream_lines<P: Fn(&Value) -> Vec<HarnessEvent>>(
        &mut self,
        lines: Vec<String>,
        parse: &P,
    )
        requires
            old(self).wf(),
            forall|value: &Value| #[trigger] parse.requires((value,)),
        ensures
            final(self).wf(),
            exists|events: Seq<Seq<HarnessEvent>>|
                {
                    &&& #[trigger] bring(lines@, *parse, events)
                    &&& final(self).reply@ == streamed(old(self).reply@, lines@, events)
                },
            *final(self) == (RescopeView { reply: final(self).reply, ..*old(self) }),
    {
        let ghost all = lines@;
        let mut lines = lines;
        let ghost mut n: int = 0;
        let ghost mut events: Seq<Seq<HarnessEvent>> = seq![];
        proof {
            assert(all.skip(0) =~= all);
            assert(all.take(0) =~= seq![]);
        }
        while lines.len() > 0
            invariant
                0 <= n <= all.len(),
                lines@ == all.skip(n),
                self.wf(),
                forall|value: &Value| #[trigger] parse.requires((value,)),
                bring(all.take(n), *parse, events),
                self.reply@ == streamed(old(self).reply@, all.take(n), events),
                *self == (RescopeView { reply: self.reply, ..*old(self) }),
            decreases lines@.len(),
        {
            let line = lines.remove(0);
            let ghost before = self.reply@;
            let ghost had = events;
            self.stream_raw(line, parse);
            proof {
                assert(line == all[n]);
                let told: Seq<HarnessEvent> = if json_members(line@) is Some {
                    let (value, more) = choose|value: Value, more: Vec<HarnessEvent>|
                        {
                            &&& text_members(value) == json_members(line@)->0
                            &&& #[trigger] parse.ensures((&value,), more)
                            &&& self.reply@ == folded_each(
                                folded(before, HarnessEvent::Output(line)),
                                more@,
                            )
                        };
                    more@
                } else {
                    seq![]
                };
                assert(brings(line@, *parse, told));
                events = had.push(told);
                assert(all.take(n + 1) =~= all.take(n).push(line));
                assert(bring(all.take(n + 1), *parse, events));
                assert(all.take(n + 1).drop_last() =~= all.take(n));
                assert(events.drop_last() =~= had);
                n = n + 1;
                assert(lines@ =~= all.skip(n));
            }
        }
        proof {
            assert(all.take(n) =~= all);
        }
    }

    /// What came of looking: the concepts, ranked, with those worth half or
    /// more checked and the first selected, or why there are none.
    pub fn found(&mut self, found: Result<Vec<Concept>, String>)
        requires
            old(self).wf(),
        ensures
            final(self).wf(),
            match found {
                Ok(concepts) => *final(self) == (RescopeView {
                    looking: StepState::Done,
                    checked: final(self).checked,
                    selected: if concepts@.len() > 0 {
                        Some(0usize)
                    } else {
                        None
                    },
                    concepts: Some(concepts),
                    ..*old(self)
                }) && final(self).checked@ == worth_checking(
                    concept_views(concepts@),
                    concepts@.len() as int,
                ),
                Err(why) => {
                    &&& final(self).looking is Failed
                    &&& final(self).looking->Failed_0@ == why@
                    &&& final(self).reply@ == (if old(self).reply@.done {
                        old(self).reply@
                    } else {
                        folded(old(self).reply@, HarnessEvent::Failed(why))
                    })
                    &&& *final(self) == (RescopeView {
                        looking: final(self).looking,
                        reply: final(self).reply,
                        ..*old(self)
                    })
                },
            },
    {
        match found {
            Ok(concepts) => {
                let mut checked: Vec<usize> = Vec::new();
                let mut i: usize = 0;
                let ghost all = concept_views(concepts@);
                while i < concepts.len()
                    invariant
                        i <= concepts@.len(),
                        all == concept_views(concepts@),
                        checked@ == worth_checking(all, i as int),
                        in_order(checked@),
                        forall|k: int| 0 <= k < checked@.len() ==> checked@[k] < i,
                    decreases concepts@.len() - i,
                {
                    proof {
                        assert(all[i as int] == concepts@[i as int]@);
                    }
                    if concepts[i].worth >= CHECKED_WORTH {
                        checked.push(i);
                    }
                    i += 1;
                }
                self.looking = StepState::Done;
                self.checked = checked;
                self.selected = if concepts.len() > 0 {
                    Some(0)
                } else {
                    None
                };
                self.concepts = Some(concepts);
            },
            Err(why) => {
                let event = HarnessEvent::Failed(why);
                if !self.reply.is_done() {
                    fold(&mut self.reply, &event);
                }
                if let HarnessEvent::Failed(why) = event {
                    self.looking = StepState::Failed(why);
                }
            },
        }
    }

    pub fn select(&mut self, ix: usize)
        ensures
            *final(self) == (RescopeView { selected: Some(ix), ..*old(self) }),
    {
        self.selected = Some(ix);
    }

    /// The concept whose places are shown, by index.
    pub fn detailed(&self) -> (r: Option<usize>)
        ensures
            r == (match (self.selected, self.concepts) {
                (Some(ix), Some(concepts)) => if ix < concepts@.len() {
                    Some(ix)
                } else {
                    None
                },
                _ => None,
            }),
    {
        match (&self.selected, &self.concepts) {
            (Some(ix), Some(concepts)) => if *ix < concepts.len() {
                Some(*ix)
            } else {
                None
            },
            _ => None,
        }
    }

    pub fn is_checked(&self, ix: usize) -> (b: bool)
        ensures
            b == self.checked@.contains(ix),
    {
        let mut i: usize = 0;
        while i < self.checked.len()
            invariant
                i <= self.checked@.len(),
                forall|k: int| 0 <= k < i ==> self.checked@[k] != ix,
            decreases self.checked@.len() - i,
        {
            if self.checked[i] == ix {
                return true;
            }
            i += 1;
        }
        false
    }

    pub fn set_checked(&mut self, ix: usize, checked: bool)
        requires
            old(self).wf(),
        ensures
            final(self).wf(),
            forall|k: usize| #[trigger]
                final(self).checked@.contains(k) == (if k == ix {
                    checked
                } else {
                    old(self).checked@.contains(k)
                }),
            *final(self) == (RescopeView { checked: final(self).checked, ..*old(self) }),
    {
        let ghost before = self.checked@;
        let mut at: usize = 0;
        while at < self.checked.len() && self.checked[at] < ix
            invariant
                at <= self.checked@.len(),
                *self == *old(self),
                self.checked@ == before,
                forall|k: int| 0 <= k < at ==> self.checked@[k] < ix,
            decreases self.checked@.len() - at,
        {
            at += 1;
        }
        let there = at < self.checked.len() && self.checked[at] == ix;
        proof {
            if !there && before.contains(ix) {
                let k = choose|k: int| 0 <= k < before.len() && before[k] == ix;
                assert(at < before.len() && before[at as int] > ix);
                assert(k > at);
                assert(before[at as int] < before[k]);
            }
            if there {
                assert(before.contains(ix));
            }
        }
        if checked && !there {
            self.checked.insert(at, ix);
            proof {
                let now = self.checked@;
                assert forall|k: usize| #[trigger] now.contains(k) == (k == ix || before.contains(
                    k,
                )) by {
                    assert(now[at as int] == ix);
                    if before.contains(k) {
                        let m = choose|m: int| 0 <= m < before.len() && before[m] == k;
                        assert(now[if m < at {
                            m
                        } else {
                            m + 1
                        }] == k);
                    }
                    if now.contains(k) && k != ix {
                        let m = choose|m: int| 0 <= m < now.len() && now[m] == k;
                        assert(before[if m < at {
                            m
                        } else {
                            m - 1
                        }] == k);
                    }
                }
            }
        } else if !checked && there {
            self.checked.remove(at);
            proof {
                let now = self.checked@;
                assert forall|k: usize| #[trigger] now.contains(k) == (k != ix && before.contains(
                    k,
                )) by {
                    if before.contains(k) && k != ix {
                        let m = choose|m: int| 0 <= m < before.len() && before[m] == k;
                        assert(now[if m < at {
                            m
                        } else {
                            m - 1
                        }] == k);
                    }
                    if now.contains(k) {
                        let m = choose|m: int| 0 <= m < now.len() && now[m] == k;
                        let n = if m < at {
                            m
                        } else {
                            m + 1
                        };
                        assert(before[n] == k);
                        if m < at {
                            assert(before[n] < before[at as int]);
                        } else {
                            assert(before[at as int] < before[n]);
                        }
                    }
                }
            }
        }
    }

    /// Locks the output to its end, or lets go of it.
    pub fn set_output_lock(&mut self, locked: bool)
        ensures
            *final(self) == (RescopeView { output_locked: locked, ..*old(self) }),
    {
        self.output_locked = locked;
    }

    /// The prompt refactoring the checked concepts, to be sent, when any are.
    pub fn refactor(&self, texts: &Texts) -> (r: Option<String>)
        ensures
            text_of(r) == (match self.concepts {
                Some(concepts) => {
                    let refactored = chosen(concept_views(concepts@), self.checked@);
                    if refactored.len() > 0 {
                        Some(refactor_text(*texts, refactored))
                    } else {
                        None
                    }
                },
                None => None,
            }),
    {
        match &self.concepts {
            None => None,
            Some(concepts) => {
                let ghost all = concept_views(concepts@);
                let mut picked: Vec<Concept> = Vec::new();
                let mut i: usize = 0;
                proof {
                    assert(concept_views(picked@) =~= chosen(all, self.checked@.take(0)));
                }
                while i < self.checked.len()
                    invariant
                        i <= self.checked@.len(),
                        all == concept_views(concepts@),
                        concept_views(picked@) == chosen(all, self.checked@.take(i as int)),
                    decreases self.checked@.len() - i,
                {
                    let ix = self.checked[i];
                    proof {
                        let part = self.checked@.take(i + 1);
                        assert(part.drop_last() =~= self.checked@.take(i as int));
                        assert(part.last() == ix);
                    }
                    if ix < concepts.len() {
                        let ghost before = picked@;
                        picked.push(copied(&concepts[ix]));
                        proof {
                            assert(concept_views(picked@) =~= concept_views(before).push(
                                all[ix as int],
                            ));
                        }
                    }
                    i += 1;
                }
                proof {
                    assert(self.checked@.take(self.checked@.len() as int) =~= self.checked@);
                    assert(concept_views(picked@).len() == picked@.len());
                }
                if picked.len() > 0 {
                    Some(refactor_prompt(texts, &picked))
                } else {
                    None
                }
            },
        }
    }

    /// What the footer says of the concepts checked.
    pub fn checked_label(&self) -> (r: String)
        ensures
            r@ == (if self.checked@.len() == 0 {
                "No concepts checked"@
            } else if self.checked@.len() == 1 {
                "1 concept checked"@
            } else {
                concat(seq![decimal(self.checked@.len()), " concepts checked"@])
            }),
    {
        let count = self.checked.len();
        if count == 0 {
            return "No concepts checked".to_owned();
        }
        if count == 1 {
            return "1 concept checked".to_owned();
        }
        let digits = string_of(&decimal_of(count as u128));
        let parts: Vec<&str> = vec![&digits, " concepts checked"];
        proof {
            assert(views(parts@) =~= seq![digits@, " concepts checked"@]);
        }
        concat_of(parts)
    }
}

// ---------------------------------------------------------------------------
// What holds of the concepts checked
// ---------------------------------------------------------------------------

proof fn lemma_worth_checking(concepts: Seq<ConceptView>, n: int, ix: usize)
    requires
        0 <= n <= concepts.len() <= usize::MAX,
    ensures
        worth_checking(concepts, n).contains(ix) == (ix < n && concepts[ix as int].worth
            >= CHECKED_WORTH),
    decreases n,
{
    if n > 0 {
        lemma_worth_checking(concepts, n - 1, ix);
        let before = worth_checking(concepts, n - 1);
        let now = worth_checking(concepts, n);
        if before.contains(ix) {
            let k = choose|k: int| 0 <= k < before.len() && before[k] == ix;
            assert(now[k] == ix);
        }
        if now.contains(ix) {
            let k = choose|k: int| 0 <= k < now.len() && now[k] == ix;
            if k < before.len() {
                assert(before[k] == ix);
            }
        }
        if concepts[n - 1].worth >= CHECKED_WORTH {
            assert(now[before.len() as int] == (n - 1) as usize);
        }
    }
}

/// The concepts that start checked are those worth half or more, and of the
/// concepts ranked they are the first.
pub proof fn the_first_ranked_start_checked(concepts: Seq<ConceptView>, ix: usize, below: usize)
    requires
        concepts.len() <= usize::MAX,
        in_rank_order(concepts),
        below < ix < concepts.len(),
    ensures
        worth_checking(concepts, concepts.len() as int).contains(ix) == (concepts[ix as int].worth
            >= CHECKED_WORTH),
        worth_checking(concepts, concepts.len() as int).contains(ix) ==> worth_checking(
            concepts,
            concepts.len() as int,
        ).contains(below),
{
    lemma_worth_checking(concepts, concepts.len() as int, ix);
    lemma_worth_checking(concepts, concepts.len() as int, below);
    assert(!ranks_before(concepts[ix as int], concepts[below as int]));
}

} // verus!
