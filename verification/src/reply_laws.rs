//! What holds of a reply as a run's events come in, told of the events and what
//! the reply holds before and after them.
use vstd::prelude::*;
use crate::harness::HarnessEvent;
use crate::reply::{error_told, kept_rows, lemma_refreshed_keeps, lemma_touch_running_parts,
    part_rows, PartView, ReplyView, RowView, RAW_LINE_CHARS, RAW_TAIL_LINES};
use crate::task::{TaskStatus, TaskView};
use crate::text::white;
use crate::tools::{ToolCallView, ToolState};

verus! {

// ---------------------------------------------------------------------------
// Text
// ---------------------------------------------------------------------------

/// A reply once some events came, one after the other.
pub open spec fn after_events(reply: ReplyView, events: Seq<HarnessEvent>) -> ReplyView {
    events.fold_left(reply, |r: ReplyView, event: HarnessEvent| r.applied(event))
}

/// Pieces of text as they stream in.
pub open spec fn as_deltas(pieces: Seq<String>) -> Seq<HarnessEvent> {
    pieces.map_values(|piece: String| HarnessEvent::TextDelta(piece))
}

/// The text a reply ends with, if it ends with text.
pub open spec fn text_at_end(parts: Seq<PartView>) -> Option<Seq<char>> {
    if parts.len() > 0 {
        match parts.last() {
            PartView::Text(text) => Some(text),
            _ => None,
        }
    } else {
        None
    }
}

proof fn lemma_delta(reply: ReplyView, piece: String)
    ensures
        ({
            let after = reply.applied(HarnessEvent::TextDelta(piece));
            match text_at_end(reply.parts) {
                Some(text) => after.parts == reply.parts.drop_last().push(
                    PartView::Text(text + piece@),
                ),
                None => after.parts == reply.parts.push(PartView::Text(piece@)),
            }
        }),
{
    let after = reply.applied(HarnessEvent::TextDelta(piece));
    let last = reply.parts.len() - 1;
    match text_at_end(reply.parts) {
        Some(text) => {
            let now = reply.parts.update(last, PartView::Text(text + piece@));
            lemma_refreshed_keeps(
                ReplyView { parts: now, ..reply },
                crate::reply::settled(reply.parts.len()),
            );
            assert(now =~= reply.parts.drop_last().push(PartView::Text(text + piece@)));
        },
        None => {
            lemma_refreshed_keeps(
                ReplyView { parts: reply.parts.push(PartView::Text(piece@)), ..reply },
                crate::reply::settled(reply.parts.len()),
            );
        },
    }
}

/// Text that streams in adds up, piece after piece in the order they came: it goes
/// on from the text the reply ends with, or is a part of its own after anything
/// else, and nothing before it changes.
pub proof fn streamed_text_adds_up(reply: ReplyView, pieces: Seq<String>)
    requires
        pieces.len() > 0,
    ensures
        ({
            let after = after_events(reply, as_deltas(pieces));
            let said = pieces.map_values(|piece: String| piece@).flatten();
            match text_at_end(reply.parts) {
                Some(text) => after.parts == reply.parts.drop_last().push(
                    PartView::Text(text + said),
                ),
                None => after.parts == reply.parts.push(PartView::Text(said)),
            }
        }),
    decreases pieces.len(),
{
    let rest = pieces.drop_last();
    let last = pieces.last();
    let said = pieces.map_values(|piece: String| piece@);
    let before = rest.map_values(|piece: String| piece@);
    assert(said =~= before.push(last@));
    before.lemma_flatten_push(last@);
    assert(as_deltas(pieces).drop_last() =~= as_deltas(rest));
    let mid = after_events(reply, as_deltas(rest));
    assert(after_events(reply, as_deltas(pieces)) == mid.applied(HarnessEvent::TextDelta(last)));
    lemma_delta(mid, last);
    if rest.len() == 0 {
        assert(mid == reply);
        assert(before =~= Seq::<Seq<char>>::empty());
        assert(before.flatten() =~= Seq::<char>::empty());
        assert(before.flatten() + last@ =~= last@);
    } else {
        streamed_text_adds_up(reply, rest);
        let told = before.flatten();
        match text_at_end(reply.parts) {
            Some(text) => {
                assert(mid.parts.drop_last() =~= reply.parts.drop_last());
                assert((text + told) + last@ =~= text + (told + last@));
            },
            None => {
                assert(mid.parts.drop_last() =~= reply.parts);
            },
        }
    }
}

/// Text started is a part of its own: what streams in next goes into it, and not
/// into any text before it.
pub proof fn text_started_is_text_of_its_own(reply: ReplyView, pieces: Seq<String>)
    requires
        pieces.len() > 0,
    ensures
        after_events(reply.applied(HarnessEvent::TextStarted), as_deltas(pieces)).parts
            == reply.parts.push(
            PartView::Text(pieces.map_values(|piece: String| piece@).flatten()),
        ),
{
    let started = reply.applied(HarnessEvent::TextStarted);
    lemma_refreshed_keeps(
        ReplyView { parts: reply.parts.push(PartView::Text(seq![])), ..reply },
        crate::reply::settled(reply.parts.len()),
    );
    streamed_text_adds_up(started, pieces);
    let said = pieces.map_values(|piece: String| piece@).flatten();
    assert(started.parts.drop_last() =~= reply.parts);
    assert(Seq::<char>::empty() + said =~= said);
}

// ---------------------------------------------------------------------------
// Tool calls
// ---------------------------------------------------------------------------

/// Whether a part is the call with an id that was made last.
pub open spec fn is_latest_call(parts: Seq<PartView>, id: Seq<char>, k: int) -> bool {
    &&& 0 <= k < parts.len()
    &&& parts[k] is Tool && parts[k]->Tool_0.id == id
    &&& forall|j: int|
        k < j < parts.len() ==> !((#[trigger] parts[j]) is Tool && parts[j]->Tool_0.id == id)
}

proof fn lemma_latest(reply: ReplyView, id: Seq<char>, n: int)
    requires
        0 <= n <= reply.parts.len(),
    ensures
        match reply.tool_from(id, n) {
            Some(k) => is_latest_call(reply.parts.take(n), id, k) && 0 <= k < n,
            None => forall|k: int|
                0 <= k < n ==> !((#[trigger] reply.parts[k]) is Tool && reply.parts[k]->Tool_0.id
                    == id),
        },
    decreases n,
{
    if n > 0 {
        lemma_latest(reply, id, n - 1);
        let part = reply.parts[n - 1];
        if part is Tool && part->Tool_0.id == id {
        } else {
            match reply.tool_from(id, n) {
                Some(k) => {
                    let all = reply.parts.take(n);
                    let less = reply.parts.take(n - 1);
                    assert(all[k] == less[k]);
                    assert forall|j: int| k < j < all.len() implies !((#[trigger] all[j]) is Tool
                        && all[j]->Tool_0.id == id) by {
                        if j < less.len() {
                            assert(all[j] == less[j]);
                        }
                    }
                },
                None => {},
            }
        }
    }
}

/// A call that starts is added at the end, running and with no summary yet.
pub proof fn a_call_starts_running(reply: ReplyView, id: String, name: String)
    ensures
        ({
            let after = reply.applied(HarnessEvent::ToolStarted { id, name });
            &&& after.parts.len() == reply.parts.len() + 1
            &&& after.parts.drop_last() == reply.parts
            &&& after.parts.last() is Tool
            &&& after.parts.last()->Tool_0.id == id@
            &&& after.parts.last()->Tool_0.name == name@
            &&& after.parts.last()->Tool_0.summary is None
            &&& after.parts.last()->Tool_0.state == ToolState::Running
        }),
{
    let call = ToolCallView { id: id@, name: name@, summary: None, state: ToolState::Running };
    let now = reply.parts.push(PartView::Tool(call));
    lemma_refreshed_keeps(
        ReplyView { parts: now, ..reply },
        crate::reply::settled(reply.parts.len()),
    );
    assert(now.drop_last() =~= reply.parts);
}

proof fn lemma_with_call(reply: ReplyView, part: int, call: ToolCallView)
    ensures
        reply.with_call(part, call).parts == reply.parts.update(part, PartView::Tool(call)),
{
    let now = ReplyView {
        parts: reply.parts.update(part, PartView::Tool(call)),
        ..reply
    }.touch_part(reply.rows(), part);
    lemma_refreshed_keeps(now, crate::reply::settled(reply.parts.len()));
}

/// A call's input is its summary, and what it ended in its state: each goes to the
/// latest call with its id, and to nothing else.
pub proof fn what_is_told_of_a_call_is_its_own(
    reply: ReplyView,
    id: String,
    summary: String,
    is_error: bool,
    k: int,
)
    requires
        0 <= k < reply.parts.len(),
    ensures
        ({
            let given = reply.applied(HarnessEvent::ToolInput { id, summary });
            let over = reply.applied(HarnessEvent::ToolFinished { id, is_error });
            let call = reply.parts[k]->Tool_0;
            &&& given.parts.len() == reply.parts.len()
            &&& over.parts.len() == reply.parts.len()
            &&& given.parts[k] == (if is_latest_call(reply.parts, id@, k) {
                PartView::Tool(
                    ToolCallView {
                        id: call.id,
                        name: call.name,
                        summary: Some(summary@),
                        state: call.state,
                    },
                )
            } else {
                reply.parts[k]
            })
            &&& over.parts[k] == (if is_latest_call(reply.parts, id@, k) {
                PartView::Tool(
                    ToolCallView {
                        id: call.id,
                        name: call.name,
                        summary: call.summary,
                        state: if is_error {
                            ToolState::Failed
                        } else {
                            ToolState::Done
                        },
                    },
                )
            } else {
                reply.parts[k]
            })
        }),
{
    let n = reply.parts.len() as int;
    lemma_latest(reply, id@, n);
    assert(reply.parts.take(n) =~= reply.parts);
    lemma_refreshed_keeps(reply, crate::reply::settled(reply.parts.len()));
    match reply.tool(id@) {
        Some(part) => {
            let call = reply.parts[part]->Tool_0;
            lemma_with_call(reply, part, ToolCallView { summary: Some(summary@), ..call });
            lemma_with_call(
                reply,
                part,
                ToolCallView { state: crate::reply::end_state(is_error), ..call },
            );
            if is_latest_call(reply.parts, id@, k) && k != part {
                assert(k < part ==> !(reply.parts[part] is Tool && reply.parts[part]->Tool_0.id
                    == id@));
                assert(part < k ==> !(reply.parts[k] is Tool && reply.parts[k]->Tool_0.id == id@));
            }
        },
        None => {},
    }
}

// ---------------------------------------------------------------------------
// The end of a run
// ---------------------------------------------------------------------------

/// Whether a reply has said anything: some text with more than white space in it.
pub open spec fn has_said(parts: Seq<PartView>) -> bool {
    exists|k: int, j: int|
        0 <= k < parts.len() && (#[trigger] parts[k]) is Text && 0 <= j < parts[k]->Text_0.len()
            && !white(#[trigger] parts[k]->Text_0[j])
}

/// What a part is once its run is over, having gone well or not: a call still
/// running ended as the run did, and nothing else changed.
pub open spec fn part_over(part: PartView, well: bool) -> PartView {
    match part {
        PartView::Tool(call) => PartView::Tool(
            ToolCallView {
                id: call.id,
                name: call.name,
                summary: call.summary,
                state: if call.state != ToolState::Running {
                    call.state
                } else if well {
                    ToolState::Done
                } else {
                    ToolState::Failed
                },
            },
        ),
        _ => part,
    }
}

proof fn lemma_ended(reply: ReplyView, state: ToolState)
    ensures
        reply.ended(state).parts == crate::reply::ended_parts(reply.parts, state),
        reply.ended(state).done,
        reply.stopped(state).parts == crate::reply::ended_parts(reply.parts, state),
        reply.stopped(state).done,
        reply.ended(state).said() == has_said(reply.parts),
{
    lemma_touch_running_parts(reply, reply.rows(), reply.parts.len() as int);
    lemma_refreshed_keeps(reply.ended(state), crate::reply::settled(reply.parts.len()));
    let now = reply.ended(state).parts;
    assert forall|k: int| 0 <= k < now.len() implies #[trigger] now[k] == crate::reply::ended_part(
        reply.parts[k],
        state,
    ) by {}
    if reply.ended(state).said() {
        let k = choose|k: int|
            0 <= k < now.len() && (#[trigger] now[k]) is Text && !crate::reply::blank(now[k]);
        let text = reply.parts[k]->Text_0;
        assert(now[k] == reply.parts[k]);
        assert(!crate::text::all_white(text));
        let j = choose|j: int| 0 <= j < text.len() && !white(#[trigger] text[j]);
        assert(reply.parts[k] is Text && !white(reply.parts[k]->Text_0[j]));
        assert(has_said(reply.parts));
    }
    if has_said(reply.parts) {
        let (k, j) = choose|k: int, j: int|
            0 <= k < reply.parts.len() && (#[trigger] reply.parts[k]) is Text && 0 <= j
                < reply.parts[k]->Text_0.len() && !white(#[trigger] reply.parts[k]->Text_0[j]);
        assert(now[k] == reply.parts[k]);
        assert(!crate::text::all_white(now[k]->Text_0)) by {
            assert(!white(now[k]->Text_0[j]));
        }
        assert(now[k] is Text && !crate::reply::blank(now[k]));
    }
}

/// A run that finishes leaves every part as it was, but for the calls still
/// running, which ended as it did. Its result is shown as text only where it went
/// well and nothing was said.
pub proof fn a_finished_run_settles_its_calls(reply: ReplyView, is_error: bool, result: String)
    ensures
        ({
            let after = reply.applied(HarnessEvent::Finished { is_error, result });
            let shown = !is_error && result@.len() > 0 && !has_said(reply.parts);
            &&& after.done
            &&& after.parts.len() == reply.parts.len() + if shown {
                1int
            } else {
                0int
            }
            &&& shown ==> after.parts.last() == PartView::Text(result@)
            &&& forall|k: int|
                0 <= k < reply.parts.len() ==> #[trigger] after.parts[k] == part_over(
                    reply.parts[k],
                    !is_error,
                )
        }),
{
    let state = crate::reply::end_state(is_error);
    lemma_ended(reply, state);
    let ended = reply.ended(state);
    lemma_refreshed_keeps(
        ReplyView { parts: ended.parts.push(PartView::Text(result@)), ..ended },
        crate::reply::settled(ended.parts.len()),
    );
    let after = reply.applied(HarnessEvent::Finished { is_error, result });
    assert forall|k: int| 0 <= k < reply.parts.len() implies #[trigger] after.parts[k] == part_over(
        reply.parts[k],
        !is_error,
    ) by {
        assert(crate::reply::ended_parts(reply.parts, state)[k] == crate::reply::ended_part(
            reply.parts[k],
            state,
        ));
    }
}

/// A run that fails, or that is stopped, fails the calls still running and leaves
/// every other part as it was.
pub proof fn a_failed_run_fails_its_calls(reply: ReplyView, error: String)
    ensures
        ({
            let after = reply.applied(HarnessEvent::Failed(error));
            let stopped = reply.stopped(ToolState::Failed);
            &&& after.done && stopped.done
            &&& after.parts.len() == reply.parts.len()
            &&& stopped.parts == after.parts
            &&& forall|k: int|
                0 <= k < reply.parts.len() ==> #[trigger] after.parts[k] == part_over(
                    reply.parts[k],
                    false,
                )
        }),
{
    lemma_ended(reply, ToolState::Failed);
    let after = reply.applied(HarnessEvent::Failed(error));
    assert forall|k: int| 0 <= k < reply.parts.len() implies #[trigger] after.parts[k] == part_over(
        reply.parts[k],
        false,
    ) by {
        assert(crate::reply::ended_parts(reply.parts, ToolState::Failed)[k]
            == crate::reply::ended_part(reply.parts[k], ToolState::Failed));
    }
}

/// An error is told of exactly when the run failed, in the harness's own words
/// where it gave any.
pub proof fn an_error_is_told_when_a_run_fails(event: HarnessEvent)
    ensures
        error_told(event) is Some == ((event is Finished && event->Finished_is_error)
            || event is Failed),
        event is Failed ==> error_told(event) == Some(event->Failed_0@),
        event is Finished && event->Finished_is_error && event->Finished_result@.len() > 0
            ==> error_told(event) == Some(event->Finished_result@),
        event is Finished && event->Finished_is_error && event->Finished_result@.len() == 0
            ==> error_told(event) == Some("The harness reported an error."@),
{
}

// ---------------------------------------------------------------------------
// What stays
// ---------------------------------------------------------------------------

/// Whether a part is what another has become: text only grows at its end, a call
/// keeps its id and name, and an error stays.
pub open spec fn goes_on(before: PartView, after: PartView) -> bool {
    match before {
        PartView::Text(text) => after is Text && text.is_prefix_of(after->Text_0),
        PartView::Tool(call) => after is Tool && after->Tool_0.id == call.id
            && after->Tool_0.name == call.name,
        PartView::Error(error) => after == before,
    }
}

/// Whatever comes, the parts of a reply keep their places and go on as what they
/// are, at most one is added, and only the last text can grow.
pub proof fn parts_keep_their_places(reply: ReplyView, event: HarnessEvent)
    ensures
        ({
            let after = reply.applied(event);
            &&& reply.parts.len() <= after.parts.len() <= reply.parts.len() + 1
            &&& forall|k: int|
                0 <= k < reply.parts.len() ==> goes_on(reply.parts[k], #[trigger] after.parts[k])
            &&& forall|k: int|
                0 <= k < reply.parts.len() && reply.parts[k] is Text && (k < reply.parts.len() - 1
                    || !(event is TextDelta)) ==> #[trigger] after.parts[k] == reply.parts[k]
            &&& reply.done ==> after.done
            &&& after.uid == reply.uid
        }),
{
    let after = reply.applied(event);
    lemma_refreshed_keeps(reply, crate::reply::settled(reply.parts.len()));
    match event {
        HarnessEvent::TextDelta(piece) => {
            lemma_delta(reply, piece);
            lemma_kept_by_delta(reply, piece);
            match text_at_end(reply.parts) {
                Some(text) => {
                    assert((text + piece@).take(text.len() as int) =~= text);
                },
                None => {},
            }
        },
        HarnessEvent::TextStarted => {
            lemma_refreshed_keeps(
                ReplyView { parts: reply.parts.push(PartView::Text(seq![])), ..reply },
                crate::reply::settled(reply.parts.len()),
            );
        },
        HarnessEvent::ToolStarted { id, name } => {
            a_call_starts_running(reply, id, name);
            let call = ToolCallView {
                id: id@,
                name: name@,
                summary: None,
                state: ToolState::Running,
            };
            lemma_refreshed_keeps(
                ReplyView { parts: reply.parts.push(PartView::Tool(call)), ..reply },
                crate::reply::settled(reply.parts.len()),
            );
        },
        HarnessEvent::ToolInput { id, summary } => {
            lemma_call_kept(reply, id@);
            match reply.tool(id@) {
                Some(part) => {
                    let call = reply.parts[part]->Tool_0;
                    lemma_with_call(reply, part, ToolCallView { summary: Some(summary@), ..call });
                },
                None => {},
            }
            lemma_told_keeps(reply, event);
        },
        HarnessEvent::ToolFinished { id, is_error } => {
            lemma_call_kept(reply, id@);
            match reply.tool(id@) {
                Some(part) => {
                    let call = reply.parts[part]->Tool_0;
                    lemma_with_call(
                        reply,
                        part,
                        ToolCallView { state: crate::reply::end_state(is_error), ..call },
                    );
                },
                None => {},
            }
            lemma_told_keeps(reply, event);
        },
        HarnessEvent::Finished { is_error, result } => {
            a_finished_run_settles_its_calls(reply, is_error, result);
            lemma_told_keeps(reply, event);
        },
        HarnessEvent::Failed(error) => {
            a_failed_run_fails_its_calls(reply, error);
            lemma_told_keeps(reply, event);
        },
        _ => {},
    }
    assert forall|k: int| 0 <= k < reply.parts.len() implies goes_on(
        reply.parts[k],
        #[trigger] after.parts[k],
    ) by {
        match reply.parts[k] {
            PartView::Text(text) => {
                assert(text.take(text.len() as int) =~= text);
            },
            _ => {},
        }
    }
}

proof fn lemma_kept_by_delta(reply: ReplyView, piece: String)
    ensures
        reply.applied(HarnessEvent::TextDelta(piece)).done == reply.done,
        reply.applied(HarnessEvent::TextDelta(piece)).uid == reply.uid,
{
    let last = reply.parts.len() - 1;
    let s = crate::reply::settled(reply.parts.len());
    lemma_refreshed_keeps(
        ReplyView { parts: reply.parts.push(PartView::Text(piece@)), ..reply },
        s,
    );
    lemma_refreshed_keeps(
        ReplyView {
            parts: reply.parts.update(
                last,
                PartView::Text(reply.parts[last]->Text_0 + piece@),
            ),
            ..reply
        },
        s,
    );
}

proof fn lemma_call_kept(reply: ReplyView, id: Seq<char>)
    ensures
        reply.tool(id) is Some ==> 0 <= reply.tool(id)->0 < reply.parts.len()
            && reply.parts[reply.tool(id)->0] is Tool,
{
    let n = reply.parts.len() as int;
    lemma_latest(reply, id, n);
    assert(reply.parts.take(n) =~= reply.parts);
}

proof fn lemma_told_keeps(reply: ReplyView, event: HarnessEvent)
    requires
        event is ToolInput || event is ToolFinished || event is Finished || event is Failed,
    ensures
        reply.done ==> reply.applied(event).done,
        reply.applied(event).uid == reply.uid,
        reply.applied(event).raw_tail == reply.raw_tail,
{
    let s = crate::reply::settled(reply.parts.len());
    lemma_refreshed_keeps(reply, s);
    match event {
        HarnessEvent::ToolInput { id, summary } => match reply.tool(id@) {
            Some(part) => {
                let call = ToolCallView { summary: Some(summary@), ..reply.parts[part]->Tool_0 };
                lemma_refreshed_keeps(
                    ReplyView {
                        parts: reply.parts.update(part, PartView::Tool(call)),
                        ..reply
                    }.touch_part(reply.rows(), part),
                    s,
                );
            },
            None => {},
        },
        HarnessEvent::ToolFinished { id, is_error } => match reply.tool(id@) {
            Some(part) => {
                let call = ToolCallView {
                    state: crate::reply::end_state(is_error),
                    ..reply.parts[part]->Tool_0
                };
                lemma_refreshed_keeps(
                    ReplyView {
                        parts: reply.parts.update(part, PartView::Tool(call)),
                        ..reply
                    }.touch_part(reply.rows(), part),
                    s,
                );
            },
            None => {},
        },
        HarnessEvent::Finished { is_error, result } => {
            let ended = reply.ended(crate::reply::end_state(is_error));
            lemma_touch_running_parts(reply, reply.rows(), reply.parts.len() as int);
            lemma_refreshed_keeps(ended, s);
            lemma_refreshed_keeps(
                ReplyView { parts: ended.parts.push(PartView::Text(result@)), ..ended },
                crate::reply::settled(ended.parts.len()),
            );
        },
        _ => {
            let ended = reply.ended(ToolState::Failed);
            lemma_touch_running_parts(reply, reply.rows(), reply.parts.len() as int);
            lemma_refreshed_keeps(ended, s);
        },
    }
}

/// What only says something of the conversation or of files changes nothing of the
/// reply, and a raw line is only put at the end of the raw tail, cut to its
/// start, the oldest line giving way once there are as many as are kept.
pub proof fn raw_lines_are_kept_apart(reply: ReplyView, event: HarnessEvent)
    requires
        reply.raw_tail.len() <= RAW_TAIL_LINES,
    ensures
        event is Session || event is ToolCalled || event is ToolOutput ==> reply.applied(event)
            == reply,
        !(event is Output) ==> reply.applied(event).raw_tail == reply.raw_tail,
        event is Output ==> {
            let after = reply.applied(event);
            let line = event->Output_0@;
            let kept = reply.raw_tail + seq![after.raw_tail.last()];
            &&& after == (ReplyView { raw_tail: after.raw_tail, ..reply })
            &&& after.raw_tail.len() > 0
            &&& after.raw_tail.last().is_prefix_of(line)
            &&& after.raw_tail.last().len() == if line.len() < RAW_LINE_CHARS {
                line.len() as int
            } else {
                RAW_LINE_CHARS as int
            }
            &&& after.raw_tail.is_suffix_of(kept)
            &&& after.raw_tail.len() == if kept.len() < RAW_TAIL_LINES {
                kept.len() as int
            } else {
                RAW_TAIL_LINES as int
            }
        },
{
    let after = reply.applied(event);
    let s = crate::reply::settled(reply.parts.len());
    match event {
        HarnessEvent::Output(line) => {
            let kept = reply.raw_tail + seq![after.raw_tail.last()];
            let n = kept.len() as int;
            assert(line@.take(after.raw_tail.last().len() as int) =~= after.raw_tail.last());
            assert(kept.subrange(n - after.raw_tail.len(), n) =~= after.raw_tail);
        },
        HarnessEvent::TextDelta(piece) => {
            let last = reply.parts.len() - 1;
            lemma_refreshed_keeps(
                ReplyView { parts: reply.parts.push(PartView::Text(piece@)), ..reply },
                s,
            );
            lemma_refreshed_keeps(
                ReplyView {
                    parts: reply.parts.update(
                        last,
                        PartView::Text(reply.parts[last]->Text_0 + piece@),
                    ),
                    ..reply
                },
                s,
            );
        },
        HarnessEvent::TextStarted => {
            lemma_refreshed_keeps(
                ReplyView { parts: reply.parts.push(PartView::Text(seq![])), ..reply },
                s,
            );
        },
        HarnessEvent::ToolStarted { id, name } => {
            let call = ToolCallView {
                id: id@,
                name: name@,
                summary: None,
                state: ToolState::Running,
            };
            lemma_refreshed_keeps(
                ReplyView { parts: reply.parts.push(PartView::Tool(call)), ..reply },
                s,
            );
        },
        HarnessEvent::ToolInput { id, summary } => lemma_told_keeps(reply, event),
        HarnessEvent::ToolFinished { id, is_error } => lemma_told_keeps(reply, event),
        HarnessEvent::Finished { is_error, result } => lemma_told_keeps(reply, event),
        HarnessEvent::Failed(error) => lemma_told_keeps(reply, event),
        _ => {},
    }
}

// ---------------------------------------------------------------------------
// Rows
// ---------------------------------------------------------------------------

/// Whether a part has something in it to show.
pub open spec fn shows_something(part: PartView) -> bool {
    part is Text ==> exists|j: int|
        0 <= j < part->Text_0.len() && !white(#[trigger] part->Text_0[j])
}

proof fn lemma_kept_has(parts: Seq<PartView>, n: int, k: int)
    requires
        0 <= k < n <= parts.len(),
        !crate::reply::blank(parts[k]),
    ensures
        kept_rows(parts, n).contains(Some(k)),
    decreases n,
{
    let now = kept_rows(parts, n);
    if k == n - 1 {
        assert(now[now.len() - 1] == Some(k));
    } else {
        lemma_kept_has(parts, n - 1, k);
        let before = kept_rows(parts, n - 1);
        let j = choose|j: int| 0 <= j < before.len() && before[j] == Some(k);
        assert(now[j] == Some(k));
    }
}

/// Everything in a reply that has something in it has a row, which shows just
/// that, and while the reply streams so has the last thing in it.
pub proof fn every_part_has_a_row(reply: ReplyView, k: int)
    requires
        0 <= k < reply.parts.len(),
        shows_something(reply.parts[k]) || (!reply.done && k == reply.parts.len() - 1),
    ensures
        exists|ix: int|
            0 <= ix < reply.rows().len() && #[trigger] reply.row(ix) == (match reply.parts[k] {
                PartView::Text(text) => RowView::Text(text),
                PartView::Tool(call) => RowView::Tool(call),
                PartView::Error(error) => RowView::Error(error),
            }),
{
    let part = reply.parts[k];
    if shows_something(part) && part is Text {
        let j = choose|j: int| 0 <= j < part->Text_0.len() && !white(#[trigger] part->Text_0[j]);
        assert(!white(part->Text_0[j]));
        assert(!crate::reply::blank(part));
    }
    let last = reply.parts.len() - 1;
    let base = part_rows(reply.parts, reply.done);
    let rows = reply.rows();
    let ix = if k == last {
        let ix = base.len() - 1;
        assert(base[ix] == Some(k));
        ix
    } else {
        lemma_kept_has(reply.parts, last, k);
        let kept = kept_rows(reply.parts, last);
        let ix = choose|j: int| 0 <= j < kept.len() && kept[j] == Some(k);
        assert(base[ix] == Some(k));
        ix
    };
    assert(rows[ix] == Some(k));
    assert(reply.row(ix) == crate::reply::row_of_source(reply.parts, rows[ix]));
}

proof fn lemma_kept_show(parts: Seq<PartView>, n: int)
    requires
        0 <= n <= parts.len(),
    ensures
        forall|j: int|
            0 <= j < kept_rows(parts, n).len() ==> (#[trigger] kept_rows(parts, n)[j]) is Some && 0
                <= kept_rows(parts, n)[j]->0 < n && !crate::reply::blank(
                parts[kept_rows(parts, n)[j]->0],
            ),
    decreases n,
{
    if n > 0 {
        lemma_kept_show(parts, n - 1);
        let before = kept_rows(parts, n - 1);
        let now = kept_rows(parts, n);
        assert forall|j: int| 0 <= j < now.len() implies (#[trigger] now[j]) is Some && 0
            <= now[j]->0 < n && !crate::reply::blank(parts[now[j]->0]) by {
            if j < before.len() {
                assert(now[j] == before[j]);
            }
        }
    }
}

/// A row has something in it, or is the last of a reply still streaming: text that has
/// none yet, or a row of nothing yet known.
pub proof fn only_the_last_row_can_be_empty(reply: ReplyView, ix: int)
    requires
        0 <= ix < reply.rows().len(),
        reply.done || ix < reply.rows().len() - 2,
    ensures
        !(reply.row(ix) is Pending),
        reply.row(ix) is Text ==> exists|j: int|
            0 <= j < reply.row(ix)->Text_0.len() && !white(#[trigger] reply.row(ix)->Text_0[j]),
{
    let last = reply.parts.len() - 1;
    let base = part_rows(reply.parts, reply.done);
    let rows = reply.rows();
    if last < 0 {
        assert(base.len() == 0);
        assert(rows.len() <= 1);
        assert(reply.done ==> rows.len() == 0);
    } else {
        lemma_kept_show(reply.parts, last);
        let kept = kept_rows(reply.parts, last);
        assert(ix < base.len());
        assert(rows[ix] == base[ix]);
        let part = if ix < kept.len() {
            assert(base[ix] == kept[ix]);
            reply.parts[kept[ix]->0]
        } else {
            reply.parts[last]
        };
        assert(!crate::reply::blank(part));
        assert(reply.row(ix) == crate::reply::row_of_source(reply.parts, rows[ix]));
        if part is Text {
            let text = part->Text_0;
            assert(reply.row(ix) == RowView::Text(text));
            assert(!crate::text::all_white(text));
            let j = choose|j: int| 0 <= j < text.len() && !white(#[trigger] text[j]);
            assert(!white(reply.row(ix)->Text_0[j]));
        }
    }
}

// ---------------------------------------------------------------------------
// Tasks
// ---------------------------------------------------------------------------

/// A reply is done once its run has finished or failed, and not before.
pub proof fn only_the_end_of_a_run_ends_its_reply(reply: ReplyView, event: HarnessEvent)
    ensures
        reply.applied(event).done == (reply.done || event is Finished || event is Failed),
{
    let s = crate::reply::settled(reply.parts.len());
    lemma_refreshed_keeps(reply, s);
    match event {
        HarnessEvent::TextDelta(piece) => lemma_kept_by_delta(reply, piece),
        HarnessEvent::TextStarted => {
            lemma_refreshed_keeps(
                ReplyView { parts: reply.parts.push(PartView::Text(seq![])), ..reply },
                s,
            );
        },
        HarnessEvent::ToolStarted { id, name } => {
            let call = ToolCallView {
                id: id@,
                name: name@,
                summary: None,
                state: ToolState::Running,
            };
            lemma_refreshed_keeps(
                ReplyView { parts: reply.parts.push(PartView::Tool(call)), ..reply },
                s,
            );
        },
        HarnessEvent::ToolInput { id, summary } => match reply.tool(id@) {
            Some(part) => {
                let call = ToolCallView { summary: Some(summary@), ..reply.parts[part]->Tool_0 };
                lemma_refreshed_keeps(
                    ReplyView {
                        parts: reply.parts.update(part, PartView::Tool(call)),
                        ..reply
                    }.touch_part(reply.rows(), part),
                    s,
                );
            },
            None => {},
        },
        HarnessEvent::ToolFinished { id, is_error } => match reply.tool(id@) {
            Some(part) => {
                let call = ToolCallView {
                    state: crate::reply::end_state(is_error),
                    ..reply.parts[part]->Tool_0
                };
                lemma_refreshed_keeps(
                    ReplyView {
                        parts: reply.parts.update(part, PartView::Tool(call)),
                        ..reply
                    }.touch_part(reply.rows(), part),
                    s,
                );
            },
            None => {},
        },
        HarnessEvent::Finished { is_error, result } => {
            a_finished_run_settles_its_calls(reply, is_error, result);
        },
        HarnessEvent::Failed(error) => a_failed_run_fails_its_calls(reply, error),
        _ => {},
    }
}

proof fn lemma_part_added(reply: ReplyView, part: PartView)
    ensures
        reply.with_part(part).parts == reply.parts.push(part),
        reply.with_part(part).done == reply.done,
{
    lemma_refreshed_keeps(
        ReplyView { parts: reply.parts.push(part), ..reply },
        crate::reply::settled(reply.parts.len()),
    );
}

/// A running task is done once its run finishes without error, and failed, showing
/// why at its end, once it finishes with one or fails; nothing else ends it. What it
/// was sent as stays.
pub proof fn a_task_ends_as_its_run_did(task: TaskView, event: HarnessEvent)
    requires
        task.status == TaskStatus::Running,
        !task.reply.done,
    ensures
        ({
            let after = task.applied(event);
            let well = event is Finished && !event->Finished_is_error;
            let badly = event is Failed || (event is Finished && event->Finished_is_error);
            &&& after.status == if well {
                TaskStatus::Done
            } else if badly {
                TaskStatus::Failed
            } else {
                TaskStatus::Running
            }
            &&& after.reply.done == (well || badly)
            &&& badly ==> after.reply.parts.len() > 0 && after.reply.parts.last()
                == PartView::Error(error_told(event)->0)
            &&& !badly ==> after.reply == task.reply.applied(event)
            &&& after.text == task.text && after.compiled == task.compiled && after.mode
                == task.mode
        }),
{
    only_the_end_of_a_run_ends_its_reply(task.reply, event);
    an_error_is_told_when_a_run_fails(event);
    if error_told(event) is Some {
        lemma_part_added(task.reply.applied(event), PartView::Error(error_told(event)->0));
    }
}

/// A run that is over with no result fails its task, which then says so at its end,
/// unless it had failed already. One that had its result stays as it is.
pub proof fn a_task_without_a_result_fails(task: TaskView)
    ensures
        task.reply.done ==> task.ended() == task,
        !task.reply.done ==> {
            let after = task.ended();
            &&& after.status == TaskStatus::Failed
            &&& after.reply.done
            &&& task.status != TaskStatus::Failed ==> after.reply.parts.len()
                == task.reply.parts.len() + 1 && after.reply.parts.last() == PartView::Error(
                "The harness stopped without a result."@,
            )
            &&& task.status == TaskStatus::Failed ==> after.reply.parts.len()
                == task.reply.parts.len()
            &&& forall|k: int|
                0 <= k < task.reply.parts.len() ==> #[trigger] after.reply.parts[k] == part_over(
                    task.reply.parts[k],
                    false,
                )
            &&& after.text == task.text && after.compiled == task.compiled && after.mode
                == task.mode
        },
{
    let stopped = task.reply.stopped(ToolState::Failed);
    lemma_ended(task.reply, ToolState::Failed);
    lemma_part_added(stopped, PartView::Error(crate::task::STOPPED@));
    assert forall|k: int| 0 <= k < task.reply.parts.len() implies #[trigger] stopped.parts[k]
        == part_over(task.reply.parts[k], false) by {
        assert(crate::reply::ended_parts(task.reply.parts, ToolState::Failed)[k]
            == crate::reply::ended_part(task.reply.parts[k], ToolState::Failed));
    }
    let after = task.ended();
    if !task.reply.done {
        assert forall|k: int| 0 <= k < task.reply.parts.len() implies #[trigger] after.reply.parts[k]
            == part_over(task.reply.parts[k], false) by {
            assert(after.reply.parts[k] == stopped.parts[k]);
        }
    }
}

} // verus!
