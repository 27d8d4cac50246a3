//! What holds of every run of a request.
//!
//! A run is a request that nothing has happened to and a list of events, in
//! order. The records of a run are all that the request sends in it.

use vstd::prelude::*;
use crate::request::{Event, Outcome, RequestState, RequestView};
use crate::response::{
    end_of_stream, flushed, lemma_cut_keeps_bytes, lemma_full_records_shape, payload, Stream,
    WriterView,
};
use crate::wire::{all_fit, end_request, RecordView, END_REQUEST, REQUEST_COMPLETE, STDOUT};

verus! {

/// Where `events`, in order, take the request `start`, and all that is
/// sent on the way.
pub open spec fn run(start: RequestView, events: Seq<Event>) -> Outcome
    decreases events.len(),
{
    if events.len() == 0 {
        Outcome { next: start, records: Seq::<RecordView>::empty() }
    } else {
        let before = run(start, events.drop_last());
        let o = before.next.step(events.last());
        Outcome { next: o.next, records: before.records + o.records }
    }
}

/// How many records of the run are of type `kind`.
pub open spec fn count_of(records: Seq<RecordView>, kind: u8) -> nat
    decreases records.len(),
{
    if records.len() == 0 {
        0
    } else {
        count_of(records.drop_last(), kind) + if records.last().record_type == kind {
            1nat
        } else {
            0nat
        }
    }
}

/// Whether no record of the run is of type `kind`.
pub open spec fn none_of(records: Seq<RecordView>, kind: u8) -> bool {
    forall|i: int| 0 <= i < records.len() ==> (#[trigger] records[i]).record_type != kind
}

/// Whether the event is one of the three that end a request that is served:
/// the handler returns, the handler fails, the peer aborts.
pub open spec fn is_ending(e: Event) -> bool {
    e is Finish || e is Fail || e is Abort
}

proof fn lemma_count_none(records: Seq<RecordView>, kind: u8)
    requires
        none_of(records, kind),
    ensures
        count_of(records, kind) == 0,
    decreases records.len(),
{
    if records.len() > 0 {
        let front = records.drop_last();
        assert forall|i: int| 0 <= i < front.len() implies (#[trigger] front[i]).record_type
            != kind by {
            assert(front[i] == records[i]);
        }
        lemma_count_none(front, kind);
        assert(records.last() == records[records.len() - 1]);
    }
}

proof fn lemma_count_concat(a: Seq<RecordView>, b: Seq<RecordView>, kind: u8)
    ensures
        count_of(a + b, kind) == count_of(a, kind) + count_of(b, kind),
    decreases b.len(),
{
    if b.len() == 0 {
        assert(a + b =~= a);
    } else {
        lemma_count_concat(a, b.drop_last(), kind);
        assert((a + b).drop_last() =~= a + b.drop_last());
        assert((a + b).last() == b.last());
    }
}

/// What one event can do about END_REQUEST: after it was sent, nothing more
/// is sent; the event that ends the request sends it as its last record, and
/// only once; no other event sends it.
proof fn lemma_step_end_request(r: RequestView, e: Event)
    requires
        r.inv(),
    ensures
        r.state == RequestState::Done ==> r.step(e).next.state == RequestState::Done && r.step(
            e,
        ).records.len() == 0,
        r.state != RequestState::Done && r.step(e).next.state == RequestState::Done ==> {
            let out = r.step(e).records;
            out.len() > 0 && out.last().record_type == END_REQUEST && none_of(
                out.drop_last(),
                END_REQUEST,
            )
        },
        r.step(e).next.state != RequestState::Done ==> none_of(r.step(e).records, END_REQUEST),
{
    let out = r.step(e).records;
    match e {
        Event::Write { stream, data } => {
            lemma_full_records_shape(stream.code(), r.id, r.writer.pending(stream) + data);
        },
        Event::Finish => {
            if r.serving() {
                let ends = r.writer.stream_ends();
                assert(out.drop_last() =~= ends);
                assert(none_of(ends, END_REQUEST));
            }
        },
        Event::Begin { .. } => {
            if r.step(e).next.state == RequestState::Done && r.state != RequestState::Done {
                assert(out.drop_last() =~= Seq::<RecordView>::empty());
            }
        },
        Event::Abort => {
            if r.step(e).next.state == RequestState::Done && r.state != RequestState::Done {
                assert(out.drop_last() =~= Seq::<RecordView>::empty());
            }
        },
        Event::Fail => {
            if r.step(e).next.state == RequestState::Done && r.state != RequestState::Done {
                assert(out.drop_last() =~= Seq::<RecordView>::empty());
            }
        },
        _ => {},
    }
}

/// What holds after every run from a request that nothing has happened to.
proof fn lemma_run_invariant(id: u16, events: Seq<Event>)
    ensures
        ({
            let o = run(RequestView::fresh(id), events);
            &&& o.next.inv()
            &&& o.next.id == id
            &&& all_fit(o.records)
            &&& forall|i: int| 0 <= i < o.records.len() ==> (#[trigger] o.records[i]).request_id == id
            &&& o.next.state == RequestState::Done ==> o.records.len() > 0
                && o.records.last().record_type == END_REQUEST && none_of(
                o.records.drop_last(),
                END_REQUEST,
            )
            &&& o.next.state != RequestState::Done ==> none_of(o.records, END_REQUEST)
        }),
    decreases events.len(),
{
    if events.len() > 0 {
        let before = run(RequestView::fresh(id), events.drop_last());
        lemma_run_invariant(id, events.drop_last());
        let s = before.next.step(events.last());
        crate::request::lemma_step_keeps_inv(before.next, events.last());
        lemma_step_end_request(before.next, events.last());
        let all = before.records + s.records;
        assert forall|i: int| 0 <= i < all.len() implies (#[trigger] all[i]).fits() && all[i].request_id
            == id by {
            if i < before.records.len() {
                assert(all[i] == before.records[i]);
            } else {
                assert(all[i] == s.records[i - before.records.len()]);
            }
        }
        if before.next.state == RequestState::Done {
            assert(all =~= before.records);
        } else if s.next.state == RequestState::Done {
            assert(all.last() == s.records.last());
            assert forall|i: int| 0 <= i < all.drop_last().len() implies (
            #[trigger] all.drop_last()[i]).record_type != END_REQUEST by {
                if i < before.records.len() {
                    assert(all.drop_last()[i] == before.records[i]);
                } else {
                    assert(all.drop_last()[i] == s.records.drop_last()[i - before.records.len()]);
                }
            }
        } else {
            assert forall|i: int| 0 <= i < all.len() implies (#[trigger] all[i]).record_type
                != END_REQUEST by {
                if i < before.records.len() {
                    assert(all[i] == before.records[i]);
                } else {
                    assert(all[i] == s.records[i - before.records.len()]);
                }
            }
        }
    }
}

/// A run sends END_REQUEST exactly once if it ends with the request done,
/// and not at all otherwise.
pub proof fn lemma_end_request_once(id: u16, events: Seq<Event>)
    ensures
        count_of(run(RequestView::fresh(id), events).records, END_REQUEST) == if run(
            RequestView::fresh(id),
            events,
        ).next.state == RequestState::Done {
            1nat
        } else {
            0nat
        },
{
    let o = run(RequestView::fresh(id), events);
    lemma_run_invariant(id, events);
    if o.next.state == RequestState::Done {
        lemma_count_none(o.records.drop_last(), END_REQUEST);
    } else {
        lemma_count_none(o.records, END_REQUEST);
    }
}

/// A request that is served, its input complete or not, is done after the
/// handler returns or fails or the peer aborts, and over the whole run
/// END_REQUEST was sent exactly once.
pub proof fn lemma_served_request_ends(id: u16, events: Seq<Event>, last: Event)
    requires
        run(RequestView::fresh(id), events).next.serving(),
        is_ending(last),
    ensures
        run(RequestView::fresh(id), events.push(last)).next.state == RequestState::Done,
        count_of(run(RequestView::fresh(id), events.push(last)).records, END_REQUEST) == 1,
{
    assert(events.push(last).drop_last() =~= events);
    lemma_end_request_once(id, events.push(last));
}

/// Every record of a run carries at most 65535 bytes and bears the id of
/// the request.
pub proof fn lemma_records_fit(id: u16, events: Seq<Event>)
    ensures
        forall|i: int|
            0 <= i < run(RequestView::fresh(id), events).records.len() ==> {
                let r = #[trigger] run(RequestView::fresh(id), events).records[i];
                r.content.len() <= 65535 && r.request_id == id
            },
{
    lemma_run_invariant(id, events);
    let o = run(RequestView::fresh(id), events);
    assert forall|i: int| 0 <= i < o.records.len() implies {
        let r = #[trigger] o.records[i];
        r.content.len() <= 65535 && r.request_id == id
    } by {
        assert(o.records[i].fits());
    }
}

/// When a run ends with the request done, END_REQUEST is the last record
/// of the run, and no record before it is an END_REQUEST.
pub proof fn lemma_end_request_is_last(id: u16, events: Seq<Event>)
    requires
        run(RequestView::fresh(id), events).next.state == RequestState::Done,
    ensures
        run(RequestView::fresh(id), events).records.len() > 0,
        run(RequestView::fresh(id), events).records.last().record_type == END_REQUEST,
        none_of(run(RequestView::fresh(id), events).records.drop_last(), END_REQUEST),
{
    lemma_run_invariant(id, events);
}

/// Once the request is done, whatever happens sends nothing: no record
/// follows END_REQUEST.
pub proof fn lemma_nothing_after_end(id: u16, events: Seq<Event>, more: Seq<Event>)
    requires
        run(RequestView::fresh(id), events).next.state == RequestState::Done,
    ensures
        run(RequestView::fresh(id), events + more).next.state == RequestState::Done,
        run(RequestView::fresh(id), events + more).records == run(
            RequestView::fresh(id),
            events,
        ).records,
    decreases more.len(),
{
    if more.len() == 0 {
        assert(events + more =~= events);
    } else {
        lemma_nothing_after_end(id, events, more.drop_last());
        assert((events + more).drop_last() =~= events + more.drop_last());
        assert((events + more).last() == more.last());
        let before = run(RequestView::fresh(id), events + more.drop_last());
        lemma_run_invariant(id, events + more.drop_last());
        lemma_step_end_request(before.next, more.last());
        assert(before.records + before.next.step(more.last()).records =~= before.records);
    }
}

/// When the handler of a served request returns, the run ends with
/// END_REQUEST, and before it stands the empty record that ends stdout, with
/// no stdout record after that one. So whatever was sent on stdout is
/// followed by the end of stdout, and that by END_REQUEST.
pub proof fn lemma_stdout_ended_before_end_request(id: u16, events: Seq<Event>)
    requires
        run(RequestView::fresh(id), events).next.serving(),
    ensures
        ({
            let out = run(RequestView::fresh(id), events.push(Event::Finish)).records;
            &&& out.len() >= 2
            &&& out.last() == end_request(id, 0, REQUEST_COMPLETE)
            &&& exists|k: int|
                0 <= k < out.len() - 1 && #[trigger] out[k] == end_of_stream(STDOUT, id) && forall|
                    j: int,
                | k < j < out.len() ==> (#[trigger] out[j]).record_type != STDOUT
        }),
{
    let before = run(RequestView::fresh(id), events);
    lemma_run_invariant(id, events);
    assert(events.push(Event::Finish).drop_last() =~= events);
    let w = before.next.writer;
    let closing = w.closing_records();
    let out = run(RequestView::fresh(id), events.push(Event::Finish)).records;
    assert(out == before.records + closing);
    let head = flushed(STDOUT, id, w.stdout);
    let k = (before.records.len() + head.len()) as int;
    assert(closing[head.len() as int] == end_of_stream(STDOUT, id));
    assert(out[k] == closing[head.len() as int]);
    assert forall|j: int| k < j < out.len() implies (#[trigger] out[j]).record_type != STDOUT by {
        assert(out[j] == closing[j - before.records.len()]);
    }
    assert(out.last() == closing.last());
}

/// A request that takes parameters or is served is a responder request:
/// the handler never sees another role.
pub proof fn lemma_served_is_responder(id: u16, events: Seq<Event>)
    ensures
        ({
            let r = run(RequestView::fresh(id), events).next;
            r.state == RequestState::ParamsOpen || r.state == RequestState::StdinOpen || r.state
                == RequestState::Running ==> r.role == crate::wire::RESPONDER
        }),
    decreases events.len(),
{
    if events.len() > 0 {
        lemma_served_is_responder(id, events.drop_last());
    }
}

/// The contents of the records of type `kind`, joined in order.
pub open spec fn stream_payload(records: Seq<RecordView>, kind: u8) -> Seq<u8>
    decreases records.len(),
{
    if records.len() == 0 {
        Seq::<u8>::empty()
    } else if records[0].record_type == kind {
        records[0].content + stream_payload(records.skip(1), kind)
    } else {
        stream_payload(records.skip(1), kind)
    }
}

/// The bytes that the event writes to `stream`, where the request takes
/// them: a write is taken while the request is served.
pub open spec fn taken(r: RequestView, e: Event, stream: Stream) -> Seq<u8> {
    match e {
        Event::Write { stream: s, data } => if s == stream && r.serving() {
            data
        } else {
            Seq::<u8>::empty()
        },
        _ => Seq::<u8>::empty(),
    }
}

/// All that a run writes to `stream` and the request takes, in order.
pub open spec fn written(start: RequestView, events: Seq<Event>, stream: Stream) -> Seq<u8>
    decreases events.len(),
{
    if events.len() == 0 {
        Seq::<u8>::empty()
    } else {
        written(start, events.drop_last(), stream) + taken(
            run(start, events.drop_last()).next,
            events.last(),
            stream,
        )
    }
}

/// Whether stderr holds nothing unless it was written to.
pub open spec fn stderr_untouched(w: WriterView) -> bool {
    !w.stderr_used ==> w.stderr.len() == 0
}

proof fn lemma_stream_payload_concat(a: Seq<RecordView>, b: Seq<RecordView>, kind: u8)
    ensures
        stream_payload(a + b, kind) == stream_payload(a, kind) + stream_payload(b, kind),
    decreases a.len(),
{
    if a.len() == 0 {
        assert(a + b =~= b);
        assert(stream_payload(a, kind) + stream_payload(b, kind) =~= stream_payload(b, kind));
    } else {
        lemma_stream_payload_concat(a.skip(1), b, kind);
        assert((a + b).skip(1) =~= a.skip(1) + b);
        assert((a + b)[0] == a[0]);
        assert(stream_payload(a + b, kind) =~= stream_payload(a, kind) + stream_payload(b, kind));
    }
}

proof fn lemma_stream_payload_same(records: Seq<RecordView>, kind: u8)
    requires
        forall|i: int| 0 <= i < records.len() ==> (#[trigger] records[i]).record_type == kind,
    ensures
        stream_payload(records, kind) == payload(records),
    decreases records.len(),
{
    if records.len() > 0 {
        let rest = records.skip(1);
        assert forall|i: int| 0 <= i < rest.len() implies (#[trigger] rest[i]).record_type
            == kind by {
            assert(rest[i] == records[i + 1]);
        }
        lemma_stream_payload_same(rest, kind);
    }
}

proof fn lemma_stream_payload_other(records: Seq<RecordView>, kind: u8)
    requires
        none_of(records, kind),
    ensures
        stream_payload(records, kind) == Seq::<u8>::empty(),
    decreases records.len(),
{
    if records.len() > 0 {
        let rest = records.skip(1);
        assert forall|i: int| 0 <= i < rest.len() implies (#[trigger] rest[i]).record_type
            != kind by {
            assert(rest[i] == records[i + 1]);
        }
        lemma_stream_payload_other(rest, kind);
    }
}

proof fn lemma_stream_payload_one(r: RecordView, kind: u8)
    ensures
        stream_payload(seq![r], kind) == if r.record_type == kind {
            r.content
        } else {
            Seq::<u8>::empty()
        },
{
    reveal_with_fuel(stream_payload, 2);
    assert(seq![r].skip(1) =~= Seq::<RecordView>::empty());
    assert(r.content + Seq::<u8>::empty() =~= r.content);
}

proof fn lemma_flushed_payload(from: u8, id: u16, pending: Seq<u8>, kind: u8)
    ensures
        stream_payload(flushed(from, id, pending), kind) == if from == kind {
            pending
        } else {
            Seq::<u8>::empty()
        },
{
    if pending.len() > 0 {
        lemma_stream_payload_one(
            RecordView { record_type: from, request_id: id, content: pending },
            kind,
        );
    } else {
        assert(pending =~= Seq::<u8>::empty());
    }
}

/// What one event sends on a stream, and what it leaves pending, are
/// together what was pending and what the event wrote, as long as the
/// request is neither done nor cut off afterwards.
proof fn lemma_step_payload(r: RequestView, e: Event, stream: Stream)
    requires
        r.inv(),
        stderr_untouched(r.writer),
        r.step(e).next.connected,
        r.step(e).next.state != RequestState::Done,
    ensures
        r.connected,
        r.state != RequestState::Done,
        stderr_untouched(r.step(e).next.writer),
        stream_payload(r.step(e).records, stream.code()) + r.step(e).next.writer.pending(stream)
            == r.writer.pending(stream) + taken(r, e, stream),
{
    let o = r.step(e);
    let kind = stream.code();
    let before = r.writer.pending(stream);
    lemma_step_end_request(r, e);
    match e {
        Event::Write { stream: s, data } => {
            if r.serving() {
                let all = r.writer.pending(s) + data;
                lemma_full_records_shape(s.code(), r.id, all);
                lemma_cut_keeps_bytes(s.code(), r.id, all);
                if s == stream {
                    lemma_stream_payload_same(o.records, kind);
                } else {
                    lemma_stream_payload_other(o.records, kind);
                    assert(stream_payload(o.records, kind) + before =~= before + Seq::<
                        u8,
                    >::empty());
                }
                if data.len() == 0 {
                    assert(all =~= r.writer.pending(s));
                }
            } else {
                assert(stream_payload(o.records, kind) + before =~= before + Seq::<u8>::empty());
            }
        },
        Event::Flush { stream: s } => {
            if r.serving() {
                lemma_flushed_payload(s.code(), r.id, r.writer.pending(s), kind);
                if s == stream {
                    assert(before + Seq::<u8>::empty() =~= before + Seq::<u8>::empty());
                    assert(stream_payload(o.records, kind) + o.next.writer.pending(stream)
                        =~= before + Seq::<u8>::empty());
                } else {
                    assert(stream_payload(o.records, kind) + before =~= before + Seq::<
                        u8,
                    >::empty());
                }
            } else {
                assert(stream_payload(o.records, kind) + before =~= before + Seq::<u8>::empty());
            }
        },
        _ => {
            assert(o.records.len() == 0);
            assert(stream_payload(o.records, kind) + before =~= before + Seq::<u8>::empty());
        },
    }
}

/// While a request is neither done nor cut off, what it has sent on a
/// stream and what is pending there are together what was written to the
/// stream, byte for byte and in order.
pub proof fn lemma_sent_and_pending(id: u16, events: Seq<Event>, stream: Stream)
    requires
        run(RequestView::fresh(id), events).next.connected,
        run(RequestView::fresh(id), events).next.state != RequestState::Done,
    ensures
        stream_payload(run(RequestView::fresh(id), events).records, stream.code()) + run(
            RequestView::fresh(id),
            events,
        ).next.writer.pending(stream) == written(RequestView::fresh(id), events, stream),
        stderr_untouched(run(RequestView::fresh(id), events).next.writer),
    decreases events.len(),
{
    let start = RequestView::fresh(id);
    let kind = stream.code();
    if events.len() == 0 {
        assert(stream_payload(run(start, events).records, kind) + start.writer.pending(stream)
            =~= written(start, events, stream));
    } else {
        let before = run(start, events.drop_last());
        let e = events.last();
        let o = before.next.step(e);
        lemma_run_invariant(id, events.drop_last());
        lemma_step_end_request(before.next, e);
        if before.next.connected && before.next.state != RequestState::Done {
            lemma_sent_and_pending(id, events.drop_last(), stream);
            lemma_step_payload(before.next, e, stream);
            lemma_stream_payload_concat(before.records, o.records, kind);
            assert(stream_payload(before.records, kind) + (stream_payload(o.records, kind)
                + o.next.writer.pending(stream)) =~= (stream_payload(before.records, kind)
                + before.next.writer.pending(stream)) + taken(before.next, e, stream));
            assert(stream_payload(before.records + o.records, kind) + o.next.writer.pending(stream)
                =~= stream_payload(before.records, kind) + (stream_payload(o.records, kind)
                + o.next.writer.pending(stream)));
        }
    }
}

/// When the handler of a served request returns, all that it wrote to a
/// stream has been sent on that stream, byte for byte and in order.
pub proof fn lemma_stream_in_order(id: u16, events: Seq<Event>, stream: Stream)
    requires
        run(RequestView::fresh(id), events).next.serving(),
    ensures
        stream_payload(
            run(RequestView::fresh(id), events.push(Event::Finish)).records,
            stream.code(),
        ) == written(RequestView::fresh(id), events, stream),
{
    let start = RequestView::fresh(id);
    let kind = stream.code();
    let before = run(start, events);
    lemma_sent_and_pending(id, events, stream);
    assert(events.push(Event::Finish).drop_last() =~= events);
    let w = before.next.writer;
    let closing = w.closing_records();
    let out_part = flushed(STDOUT, w.request_id, w.stdout);
    let out_end = seq![end_of_stream(STDOUT, w.request_id)];
    let err_part = flushed(crate::wire::STDERR, w.request_id, w.stderr);
    let err_end = seq![end_of_stream(crate::wire::STDERR, w.request_id)];
    let last = seq![end_request(w.request_id, 0, REQUEST_COMPLETE)];
    lemma_flushed_payload(STDOUT, w.request_id, w.stdout, kind);
    lemma_flushed_payload(crate::wire::STDERR, w.request_id, w.stderr, kind);
    lemma_stream_payload_one(end_of_stream(STDOUT, w.request_id), kind);
    lemma_stream_payload_one(end_of_stream(crate::wire::STDERR, w.request_id), kind);
    lemma_stream_payload_one(end_request(w.request_id, 0, REQUEST_COMPLETE), kind);
    lemma_stream_payload_concat(out_part, out_end, kind);
    if w.stderr_used {
        lemma_stream_payload_concat(out_part + out_end, err_part, kind);
        lemma_stream_payload_concat(out_part + out_end + err_part, err_end, kind);
        lemma_stream_payload_concat(out_part + out_end + err_part + err_end, last, kind);
    } else {
        lemma_stream_payload_concat(out_part + out_end, last, kind);
    }
    assert(stream_payload(closing, kind) =~= w.pending(stream));
    lemma_stream_payload_concat(before.records, closing, kind);
}

} // verus!
