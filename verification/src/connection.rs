//! One connection: the records that come in are told apart and passed on,
//! and the connection is kept or closed when a request is over.
//!
//! A connection serves one request at a time. The driver hands in the bytes
//! it reads, sends the bytes it gets back, and does what the [`Action`]
//! says: read on, run the handler, or close. While the handler runs, its
//! calls come in through the same connection.

use vstd::prelude::*;
use crate::error::{ProtocolError, StreamError};
use crate::management::{answer_management, lemma_values_result_fits, management_reply};
use crate::request::{
    lemma_step_keeps_inv, Event, Request, RequestState, RequestView, StdinRead, StdinView,
};
use crate::response::Stream;
use crate::wire::{
    all_fit, copy_range, decode_begin_request, encode_records, end_request, make_end_request,
    parse_record, push_bytes, read_record, views, wire_bytes, BeginRequest, Framed, Record,
    RecordView, ABORT_REQUEST, BEGIN_REQUEST, CANT_MPX_CONN, MANAGEMENT_ID, PARAMS, RESPONDER,
    STDIN,
};

verus! {

/// What the driver is to do next.
#[derive(Clone, Copy, Debug, PartialEq, Eq, Structural)]
pub enum Action {
    /// Read more from the peer and hand it in.
    Read,
    /// Run the handler on the request; its parameters are complete.
    Invoke,
    /// Close the connection: shut down the sending side, read until the
    /// peer is done, close.
    Close,
}

/// A connection, as contracts see it.
pub ghost struct ConnectionView {
    /// The request that is being served, if one is.
    pub request: Option<RequestView>,
    /// Whether the handler was started for the request and has not
    /// returned.
    pub handler_running: bool,
    /// Whether the connection still stands.
    pub open: bool,
    /// The id of a request that is over while its input was not: what the
    /// peer still sends of that input is passed over.
    pub draining: Option<u16>,
}

/// What a record or a call does to a connection: the new state, the records
/// to send, what to do next, and why the connection was given up, if it
/// was.
pub ghost struct Reaction {
    pub next: ConnectionView,
    pub records: Seq<RecordView>,
    pub action: Action,
    pub error: Option<ProtocolError>,
}

/// What handing in bytes does to a connection: as a [`Reaction`], and with
/// the bytes that are kept for later.
pub ghost struct Pumped {
    pub next: ConnectionView,
    pub rest: Seq<u8>,
    pub records: Seq<RecordView>,
    pub action: Action,
    pub error: Option<ProtocolError>,
}

impl Pumped {
    /// This outcome with `records` sent first.
    pub open spec fn after(self, records: Seq<RecordView>) -> Pumped {
        Pumped { records: records + self.records, ..self }
    }
}

impl ConnectionView {
    /// An open connection with no request.
    pub open spec fn fresh() -> ConnectionView {
        ConnectionView { request: None, handler_running: false, open: true, draining: None }
    }

    /// The parts of a connection agree: a handler runs only for a request
    /// whose parameters are complete, a request without a handler is still
    /// taking parameters, an open connection has a connected request, and
    /// the request whose input is passed over is not the one that is served.
    pub open spec fn inv(self) -> bool {
        &&& self.draining matches Some(d) ==> d != MANAGEMENT_ID && self.open && (
        self.request matches Some(r) ==> r.id != d)
        &&& self.inv_request()
    }

    /// The request and the handler agree.
    pub open spec fn inv_request(self) -> bool {
        match self.request {
            None => !self.handler_running,
            Some(r) => {
                &&& r.inv()
                &&& r.id != MANAGEMENT_ID
                &&& self.open ==> r.connected
                &&& !self.handler_running ==> self.open && r.state == RequestState::ParamsOpen
                &&& self.handler_running ==> r.state == RequestState::StdinOpen || r.state
                    == RequestState::Running || r.state == RequestState::Done
            },
        }
    }

    /// Nothing happens.
    pub open spec fn idle(self) -> Reaction {
        Reaction {
            next: self,
            records: Seq::<RecordView>::empty(),
            action: if self.open {
                Action::Read
            } else {
                Action::Close
            },
            error: None,
        }
    }

    /// This connection, closed. A request whose handler runs stays, cut
    /// off from the peer; any other request is dropped.
    pub open spec fn closed(self) -> ConnectionView {
        ConnectionView {
            open: false,
            draining: None,
            handler_running: self.handler_running,
            request: match self.request {
                Some(r) => if self.handler_running {
                    Some(r.step(Event::Disconnect).next)
                } else {
                    None
                },
                None => None,
            },
        }
    }

    /// The connection is given up because of `e`: nothing is sent.
    pub open spec fn refuse(self, e: ProtocolError) -> Reaction {
        Reaction {
            next: self.closed(),
            records: Seq::<RecordView>::empty(),
            action: Action::Close,
            error: Some(e),
        }
    }

    /// A request is over and no handler runs: `records` are sent, and the
    /// connection stays open if the request asked to keep it, and is closed
    /// if not. While it stays open, the input of `drain` is passed over.
    pub open spec fn settle(
        self,
        keep_conn: bool,
        records: Seq<RecordView>,
        drain: Option<u16>,
    ) -> Reaction {
        Reaction {
            next: ConnectionView {
                request: None,
                handler_running: false,
                open: keep_conn,
                draining: if keep_conn {
                    drain
                } else {
                    None
                },
            },
            records,
            action: if keep_conn {
                Action::Read
            } else {
                Action::Close
            },
            error: None,
        }
    }

    /// A BEGIN_REQUEST record came.
    pub open spec fn handle_begin(self, rec: RecordView) -> Reaction {
        if rec.content.len() < 8 {
            self.refuse(ProtocolError::MalformedRecord)
        } else {
            match self.request {
                Some(r) => if r.id == rec.request_id {
                    self.refuse(ProtocolError::Violation)
                } else {
                    Reaction {
                        next: self,
                        records: seq![end_request(rec.request_id, 0, CANT_MPX_CONN)],
                        action: Action::Read,
                        error: None,
                    }
                },
                None => {
                    let b = BeginRequest::parse(rec.content);
                    let o = RequestView::fresh(rec.request_id).step(
                        Event::Begin { role: b.role, flags: b.flags },
                    );
                    if b.role == RESPONDER {
                        Reaction {
                            next: ConnectionView {
                                request: Some(o.next),
                                draining: if self.draining == Some(rec.request_id) {
                                    None
                                } else {
                                    self.draining
                                },
                                ..self
                            },
                            records: o.records,
                            action: Action::Read,
                            error: None,
                        }
                    } else {
                        self.settle(b.wants_keep_conn(), o.records, self.draining)
                    }
                },
            }
        }
    }

    /// A record came for the request `r`, which is being served.
    pub open spec fn handle_active(self, r: RequestView, rec: RecordView) -> Reaction {
        if rec.record_type == ABORT_REQUEST {
            let o = r.step(Event::Abort);
            if self.handler_running {
                Reaction {
                    next: ConnectionView { request: Some(o.next), ..self },
                    records: o.records,
                    action: Action::Read,
                    error: None,
                }
            } else {
                self.settle(r.keep_conn, o.records, self.draining)
            }
        } else if rec.record_type == PARAMS {
            let e = Event::Params { content: rec.content };
            match r.rejects(e) {
                Some(err) => self.refuse(err),
                None => Reaction {
                    next: ConnectionView {
                        request: Some(r.step(e).next),
                        handler_running: rec.content.len() == 0,
                        ..self
                    },
                    records: Seq::<RecordView>::empty(),
                    action: if rec.content.len() == 0 {
                        Action::Invoke
                    } else {
                        Action::Read
                    },
                    error: None,
                },
            }
        } else if rec.record_type == STDIN {
            let e = Event::Stdin { content: rec.content };
            match r.rejects(e) {
                Some(err) => self.refuse(err),
                None => Reaction {
                    next: ConnectionView { request: Some(r.step(e).next), ..self },
                    records: Seq::<RecordView>::empty(),
                    action: Action::Read,
                    error: None,
                },
            }
        } else {
            self.refuse(ProtocolError::Violation)
        }
    }

    /// A record came that is neither a management record nor a
    /// BEGIN_REQUEST nor for the request that is served. Input of a request
    /// that was over before its input was is passed over, up to the empty
    /// record that ends it; anything else breaks the protocol.
    pub open spec fn handle_stray(self, rec: RecordView) -> Reaction {
        if self.draining == Some(rec.request_id) && rec.record_type == STDIN {
            Reaction {
                next: ConnectionView {
                    draining: if rec.content.len() == 0 {
                        None
                    } else {
                        self.draining
                    },
                    ..self
                },
                records: Seq::<RecordView>::empty(),
                action: Action::Read,
                error: None,
            }
        } else {
            self.refuse(ProtocolError::Violation)
        }
    }

    /// What one record does. A management record is answered. A
    /// BEGIN_REQUEST opens a request, or is turned down while another is
    /// served. Any other record must be for the request that is served, or
    /// be left-over input of the request before.
    #[verifier::opaque]
    pub open spec fn handle(self, rec: RecordView) -> Reaction {
        if !self.open {
            self.idle()
        } else if rec.request_id == MANAGEMENT_ID {
            match management_reply(rec) {
                None => self.refuse(ProtocolError::MalformedParams),
                Some(reply) => Reaction {
                    next: self,
                    records: reply,
                    action: Action::Read,
                    error: None,
                },
            }
        } else if rec.record_type == BEGIN_REQUEST {
            self.handle_begin(rec)
        } else {
            match self.request {
                Some(r) => if r.id == rec.request_id {
                    self.handle_active(r, rec)
                } else {
                    self.handle_stray(rec)
                },
                None => self.handle_stray(rec),
            }
        }
    }

    /// What a call of the handler does to the connection: it goes to the
    /// request, if there is one.
    pub open spec fn after_event(self, e: Event) -> ConnectionView {
        match self.request {
            Some(r) => ConnectionView { request: Some(r.step(e).next), ..self },
            None => self,
        }
    }

    /// The records that a call of the handler sends.
    pub open spec fn event_records(self, e: Event) -> Seq<RecordView> {
        match self.request {
            Some(r) => r.step(e).records,
            None => Seq::<RecordView>::empty(),
        }
    }

    /// Whether a write can be taken: there is a request, and it is
    /// connected.
    pub open spec fn writable(self) -> bool {
        self.request matches Some(r) && r.connected
    }

    /// The handler is over, by `e`: it returned or it failed. The request
    /// sends its last records and is dropped, and the connection stays open
    /// if the request asked to keep it, and is closed if not. Where the
    /// input of the request had not ended, the rest of it will be passed
    /// over.
    pub open spec fn handler_done(self, e: Event) -> Reaction {
        match self.request {
            Some(r) => if self.handler_running {
                self.settle(
                    self.open && r.keep_conn,
                    r.step(e).records,
                    if r.state == RequestState::StdinOpen {
                        Some(r.id)
                    } else {
                        self.draining
                    },
                )
            } else {
                self.idle()
            },
            None => self.idle(),
        }
    }
}

/// What handing in `input` does: the records in it are handled in order,
/// until one is not all there, or the handler is to run, or the connection
/// closes. A closed connection takes nothing in.
pub open spec fn pump(c: ConnectionView, input: Seq<u8>) -> Pumped
    decreases input.len(),
{
    let none = Seq::<RecordView>::empty();
    if !c.open {
        Pumped {
            next: c,
            rest: Seq::<u8>::empty(),
            records: none,
            action: Action::Close,
            error: None,
        }
    } else {
        match parse_record(input) {
            Framed::Incomplete => Pumped {
                next: c,
                rest: input,
                records: none,
                action: Action::Read,
                error: None,
            },
            Framed::Malformed => Pumped {
                next: c.closed(),
                rest: Seq::<u8>::empty(),
                records: none,
                action: Action::Close,
                error: Some(ProtocolError::MalformedRecord),
            },
            Framed::Complete { record, used } => {
                let first = c.handle(record);
                if first.action == Action::Read {
                    pump(first.next, input.skip(used as int)).after(first.records)
                } else if first.action == Action::Invoke {
                    Pumped {
                        next: first.next,
                        rest: input.skip(used as int),
                        records: first.records,
                        action: Action::Invoke,
                        error: None,
                    }
                } else {
                    Pumped {
                        next: first.next,
                        rest: Seq::<u8>::empty(),
                        records: first.records,
                        action: Action::Close,
                        error: first.error,
                    }
                }
            },
        }
    }
}

/// A record leaves a connection in order, and what it sends fits on the
/// wire.
pub proof fn lemma_handle_keeps_inv(c: ConnectionView, rec: RecordView)
    requires
        c.inv(),
    ensures
        c.handle(rec).next.inv(),
        all_fit(c.handle(rec).records),
        c.handle(rec).action == Action::Close <==> !c.handle(rec).next.open,
        c.handle(rec).action == Action::Invoke ==> c.handle(rec).next.handler_running,
{
    reveal(ConnectionView::handle);
    let h = c.handle(rec);
    if c.open {
        if rec.request_id == MANAGEMENT_ID {
            match management_reply(rec) {
                None => {},
                Some(reply) => {
                    if rec.record_type == crate::wire::GET_VALUES {
                        lemma_values_result_fits(
                            crate::params::parse_pairs(rec.content)->Some_0,
                        );
                    }
                    assert(all_fit(reply));
                },
            }
        } else if rec.record_type == BEGIN_REQUEST {
            if rec.content.len() >= 8 && c.request is None {
                let b = BeginRequest::parse(rec.content);
                lemma_step_keeps_inv(
                    RequestView::fresh(rec.request_id),
                    Event::Begin { role: b.role, flags: b.flags },
                );
            }
        } else {
            match c.request {
                Some(r) => {
                    if r.id == rec.request_id {
                        lemma_step_keeps_inv(r, Event::Abort);
                        lemma_step_keeps_inv(r, Event::Params { content: rec.content });
                        lemma_step_keeps_inv(r, Event::Stdin { content: rec.content });
                    }
                },
                None => {},
            }
        }
    }
}

/// Handing in bytes leaves a connection in order, and what it sends fits
/// on the wire.
pub proof fn lemma_pump_keeps_inv(c: ConnectionView, input: Seq<u8>)
    requires
        c.inv(),
    ensures
        pump(c, input).next.inv(),
        all_fit(pump(c, input).records),
    decreases input.len(),
{
    if c.open {
        match parse_record(input) {
            Framed::Complete { record, used } => {
                lemma_handle_keeps_inv(c, record);
                let first = c.handle(record);
                if first.action == Action::Read {
                    lemma_pump_keeps_inv(first.next, input.skip(used as int));
                    let more = pump(first.next, input.skip(used as int));
                    let all = first.records + more.records;
                    assert forall|i: int| 0 <= i < all.len() implies (#[trigger] all[i]).fits() by {
                        if i < first.records.len() {
                            assert(all[i] == first.records[i]);
                        } else {
                            assert(all[i] == more.records[i - first.records.len()]);
                        }
                    }
                }
            },
            _ => {},
        }
    }
}

/// Stream records come from the handler alone: whatever record the peer
/// sends, the answer holds no STDOUT and no STDERR record, and without a
/// request no call sends anything.
pub proof fn lemma_streams_come_from_the_handler(c: ConnectionView, rec: RecordView, e: Event)
    requires
        c.inv(),
    ensures
        forall|i: int|
            0 <= i < c.handle(rec).records.len() ==> {
                let t = (#[trigger] c.handle(rec).records[i]).record_type;
                t != crate::wire::STDOUT && t != crate::wire::STDERR
            },
        c.request is None ==> c.event_records(e).len() == 0 && c.handler_done(e).records.len()
            == 0,
{
    reveal(ConnectionView::handle);
}

/// A call of the handler, and its end, leave a connection in order.
pub proof fn lemma_calls_keep_inv(c: ConnectionView, e: Event)
    requires
        c.inv(),
    ensures
        e is Write || e is Flush || e is Read ==> c.after_event(e).inv(),
        e is Finish || e is Fail ==> c.handler_done(e).next.inv(),
        e is Finish || e is Fail ==> all_fit(c.handler_done(e).records),
{
    match c.request {
        Some(r) => {
            lemma_step_keeps_inv(r, e);
        },
        None => {},
    }
}

/// A whole record at the front of a buffer is read the same whatever is
/// added behind it, and so is a header with another version.
pub proof fn lemma_parse_prefix(a: Seq<u8>, b: Seq<u8>)
    ensures
        parse_record(a) is Complete ==> parse_record(a + b) == parse_record(a),
        parse_record(a) is Malformed ==> parse_record(a + b) == parse_record(a),
{
    if a.len() >= 8 {
        assert((a + b).subrange(0, 8) =~= a.subrange(0, 8));
        assert((a + b)[0] == a[0]);
        let h = crate::wire::Header::parse(a.subrange(0, 8));
        if a.len() >= 8 + h.body_len() {
            assert((a + b).subrange(8, 8 + h.content_length) =~= a.subrange(
                8,
                8 + h.content_length,
            ));
        }
    }
}

/// It does not matter in how many pieces the bytes of the peer come in.
/// Where handing in `a` ends with the wish to read on, handing in `a` and
/// then `b` does what handing in both at once does. Where it ends with the
/// handler to run, `b` is kept with the rest.
pub proof fn lemma_pump_split(c: ConnectionView, a: Seq<u8>, b: Seq<u8>)
    ensures
        pump(c, a).action == Action::Read ==> pump(c, a + b) == pump(
            pump(c, a).next,
            pump(c, a).rest + b,
        ).after(pump(c, a).records),
        pump(c, a).action == Action::Invoke ==> pump(c, a + b) == (Pumped {
            rest: pump(c, a).rest + b,
            ..pump(c, a)
        }),
    decreases a.len(),
{
    let whole = pump(c, a);
    if c.open {
        lemma_parse_prefix(a, b);
        match parse_record(a) {
            Framed::Incomplete => {
                let later = pump(c, a + b);
                assert(Seq::<RecordView>::empty() + later.records =~= later.records);
            },
            Framed::Malformed => {},
            Framed::Complete { record, used } => {
                let first = c.handle(record);
                let tail = a.skip(used as int);
                assert((a + b).skip(used as int) =~= tail + b);
                if first.action == Action::Read {
                    lemma_pump_split(first.next, tail, b);
                    let ahead = pump(first.next, tail);
                    if ahead.action == Action::Read {
                        let later = pump(ahead.next, ahead.rest + b);
                        assert(first.records + (ahead.records + later.records) =~= (
                        first.records + ahead.records) + later.records);
                    }
                }
            },
        }
    }
}

/// When the handler of a served request is over, the connection is closed
/// if the request did not ask to keep it. If it did, the connection stays
/// open with no request, and a BEGIN_REQUEST for a responder is taken: the
/// new request opens its parameters.
pub proof fn lemma_keep_conn(c: ConnectionView, e: Event, begin: RecordView)
    requires
        c.inv(),
        c.open,
        c.handler_running,
        e is Finish || e is Fail,
        begin.record_type == BEGIN_REQUEST,
        begin.request_id != MANAGEMENT_ID,
        begin.content.len() >= 8,
        BeginRequest::parse(begin.content).role == RESPONDER,
    ensures
        c.request is Some,
        c.handler_done(e).next.request is None,
        !c.request->Some_0.keep_conn ==> {
            &&& !c.handler_done(e).next.open
            &&& c.handler_done(e).action == Action::Close
        },
        c.request->Some_0.keep_conn ==> {
            let after = c.handler_done(e);
            let again = after.next.handle(begin);
            &&& after.next.open
            &&& after.action == Action::Read
            &&& again.next.open
            &&& again.error is None
            &&& again.action == Action::Read
            &&& again.next.request matches Some(r) && r.id == begin.request_id && r.state
                == RequestState::ParamsOpen
        },
{
    reveal(ConnectionView::handle);
}

/// A closed connection stays closed and sends nothing, whatever is handed
/// in.
pub proof fn lemma_closed_is_silent(c: ConnectionView, input: Seq<u8>)
    requires
        !c.open,
    ensures
        pump(c, input).next == c,
        pump(c, input).records.len() == 0,
        pump(c, input).action == Action::Close,
{
}

/// What the connection answers to a record.
#[derive(Debug)]
pub struct Step {
    /// The records to send, in order.
    pub records: Vec<Record>,
    /// What to do next.
    pub action: Action,
    /// Why the connection was given up, if it was.
    pub error: Option<ProtocolError>,
}

/// What the connection answers to bytes handed in, or to the end of the
/// handler.
#[derive(Debug)]
pub struct Output {
    /// The bytes to send to the peer.
    pub bytes: Vec<u8>,
    /// What to do next.
    pub action: Action,
    /// Why the connection was given up, if it was.
    pub error: Option<ProtocolError>,
}

/// One connection.
#[derive(Debug)]
pub struct Connection {
    inbuf: Vec<u8>,
    request: Option<Request>,
    handler_running: bool,
    open: bool,
    draining: Option<u16>,
}

impl View for Connection {
    type V = ConnectionView;

    closed spec fn view(&self) -> ConnectionView {
        ConnectionView {
            request: match self.request {
                Some(r) => Some(r@),
                None => None,
            },
            handler_running: self.handler_running,
            open: self.open,
            draining: self.draining,
        }
    }
}

/// The views of two runs of records joined are the views of each, joined.
proof fn lemma_views_concat(a: Seq<Record>, b: Seq<Record>)
    ensures
        views(a + b) == views(a) + views(b),
{
    assert(views(a + b) =~= views(a) + views(b));
}

impl Connection {
    /// The bytes that were handed in and wait for more.
    pub closed spec fn input(&self) -> Seq<u8> {
        self.inbuf@
    }

    /// Whether the connection is in order.
    pub closed spec fn wf(&self) -> bool {
        &&& self@.inv()
        &&& self.request matches Some(r) ==> r.wf()
    }

    /// A connection in order has a view in order.
    pub proof fn lemma_wf(&self)
        requires
            self.wf(),
        ensures
            self@.inv(),
    {
    }

    /// A connection that was just accepted.
    pub fn new() -> (c: Connection)
        ensures
            c@ == ConnectionView::fresh(),
            c.input() == Seq::<u8>::empty(),
            c.wf(),
    {
        let c = Connection {
            inbuf: Vec::new(),
            request: None,
            handler_running: false,
            open: true,
            draining: None,
        };
        assert(c.input() =~= Seq::<u8>::empty());
        c
    }

    /// Whether the connection still stands.
    pub fn is_open(&self) -> (b: bool)
        ensures
            b == self@.open,
    {
        self.open
    }

    /// Whether the handler was started and has not returned.
    pub fn handler_running(&self) -> (b: bool)
        ensures
            b == self@.handler_running,
    {
        self.handler_running
    }

    /// The request that is being served, if one is.
    pub fn request(&self) -> (r: Option<&Request>)
        ensures
            match self@.request {
                Some(v) => r matches Some(q) && q@ == v,
                None => r is None,
            },
    {
        self.request.as_ref()
    }

    fn quiet(action: Action, error: Option<ProtocolError>) -> (s: Step)
        ensures
            views(s.records@) == Seq::<RecordView>::empty(),
            s.action == action,
            s.error == error,
    {
        let s = Step { records: Vec::new(), action, error };
        assert(views(s.records@) =~= Seq::<RecordView>::empty());
        s
    }

    /// Closes the connection.
    fn close(&mut self)
        requires
            old(self).wf(),
        ensures
            final(self).wf(),
            final(self).input() == old(self).input(),
            final(self)@ == old(self)@.closed(),
    {
        self.open = false;
        self.draining = None;
        match self.request.take() {
            Some(mut r) => {
                if self.handler_running {
                    proof {
                        r.lemma_wf();
                        lemma_step_keeps_inv(r@, Event::Disconnect);
                    }
                    r.disconnect();
                    self.request = Some(r);
                }
            },
            None => {},
        }
    }

    fn refuse(&mut self, e: ProtocolError) -> (s: Step)
        requires
            old(self).wf(),
        ensures
            final(self).wf(),
            final(self).input() == old(self).input(),
            final(self)@ == old(self)@.refuse(e).next,
            views(s.records@) == old(self)@.refuse(e).records,
            s.action == old(self)@.refuse(e).action,
            s.error == old(self)@.refuse(e).error,
    {
        self.close();
        Connection::quiet(Action::Close, Some(e))
    }

    /// The request is over and no handler runs.
    fn settle(&mut self, keep_conn: bool, records: Vec<Record>, drain: Option<u16>) -> (s: Step)
        requires
            old(self).wf(),
            drain matches Some(d) ==> d != MANAGEMENT_ID,
        ensures
            final(self).wf(),
            final(self).input() == old(self).input(),
            final(self)@ == old(self)@.settle(keep_conn, views(records@), drain).next,
            s.records == records,
            s.action == old(self)@.settle(keep_conn, views(records@), drain).action,
            s.error == old(self)@.settle(keep_conn, views(records@), drain).error,
    {
        self.request = None;
        self.handler_running = false;
        self.open = keep_conn;
        self.draining = if keep_conn {
            drain
        } else {
            None
        };
        Step {
            records,
            action: if keep_conn {
                Action::Read
            } else {
                Action::Close
            },
            error: None,
        }
    }

    fn begin_request(&mut self, rec: &Record) -> (s: Step)
        requires
            old(self).wf(),
            old(self)@.open,
            rec@.request_id != MANAGEMENT_ID,
        ensures
            final(self).wf(),
            final(self).input() == old(self).input(),
            final(self)@ == old(self)@.handle_begin(rec@).next,
            views(s.records@) == old(self)@.handle_begin(rec@).records,
            s.action == old(self)@.handle_begin(rec@).action,
            s.error == old(self)@.handle_begin(rec@).error,
    {
        let b = match decode_begin_request(rec.content.as_slice()) {
            Err(e) => {
                return self.refuse(e);
            },
            Ok(b) => b,
        };
        let busy = match &self.request {
            Some(r) => Some(r.id() == rec.request_id),
            None => None,
        };
        match busy {
            Some(true) => self.refuse(ProtocolError::Violation),
            Some(false) => {
                let mut records: Vec<Record> = Vec::new();
                let end = make_end_request(rec.request_id, 0, CANT_MPX_CONN);
                assert(views(records@.push(end)) =~= seq![
                    end_request(rec.request_id, 0, CANT_MPX_CONN),
                ]);
                records.push(end);
                Step { records, action: Action::Read, error: None }
            },
            None => {
                let mut r = Request::new(rec.request_id);
                proof {
                    lemma_step_keeps_inv(r@, Event::Begin { role: b.role, flags: b.flags });
                }
                match r.begin(b.role, b.flags) {
                    Err(e) => self.refuse(e),
                    Ok(records) => {
                        if b.role == RESPONDER {
                            proof {
                                r.lemma_wf();
                            }
                            self.request = Some(r);
                            let same = match self.draining {
                                Some(d) => d == rec.request_id,
                                None => false,
                            };
                            if same {
                                self.draining = None;
                            }
                            Step { records, action: Action::Read, error: None }
                        } else {
                            let drain = self.draining;
                            self.settle(b.keep_conn(), records, drain)
                        }
                    },
                }
            },
        }
    }

    fn active_record(&mut self, rec: &Record) -> (s: Step)
        requires
            old(self).wf(),
            old(self)@.open,
            old(self)@.request matches Some(r) && r.id == rec@.request_id,
        ensures
            final(self).wf(),
            final(self).input() == old(self).input(),
            final(self)@ == old(self)@.handle_active(old(self)@.request->Some_0, rec@).next,
            views(s.records@) == old(self)@.handle_active(old(self)@.request->Some_0, rec@).records,
            s.action == old(self)@.handle_active(old(self)@.request->Some_0, rec@).action,
            s.error == old(self)@.handle_active(old(self)@.request->Some_0, rec@).error,
    {
        let ghost c = self@;
        let ghost v = self@.request->Some_0;
        let mut r = match self.request.take() {
            Some(r) => r,
            None => {
                return Connection::quiet(Action::Close, None);
            },
        };
        proof {
            r.lemma_wf();
            lemma_step_keeps_inv(v, Event::Abort);
            lemma_step_keeps_inv(v, Event::Params { content: rec@.content });
            lemma_step_keeps_inv(v, Event::Stdin { content: rec@.content });
        }
        if rec.record_type == ABORT_REQUEST {
            let keep: bool = r.keep_conn();
            let records = r.abort();
            proof {
                r.lemma_wf();
            }
            if self.handler_running {
                self.request = Some(r);
                Step { records, action: Action::Read, error: None }
            } else {
                let drain = self.draining;
                self.settle(keep, records, drain)
            }
        } else if rec.record_type == PARAMS {
            let res = r.on_params(rec.content.as_slice());
            proof {
                r.lemma_wf();
            }
            self.request = Some(r);
            assert(self@ == (ConnectionView { request: Some(r@), ..c }));
            match res {
                Err(e) => {
                    assert(self@ == c);
                    self.refuse(e)
                },
                Ok(complete) => {
                    if complete {
                        self.handler_running = true;
                        Connection::quiet(Action::Invoke, None)
                    } else {
                        Connection::quiet(Action::Read, None)
                    }
                },
            }
        } else if rec.record_type == STDIN {
            let res = r.on_stdin(rec.content.as_slice());
            proof {
                r.lemma_wf();
            }
            self.request = Some(r);
            match res {
                Err(e) => {
                    assert(self@ == c);
                    self.refuse(e)
                },
                Ok(()) => Connection::quiet(Action::Read, None),
            }
        } else {
            self.request = Some(r);
            assert(self@ == c);
            self.refuse(ProtocolError::Violation)
        }
    }

    /// Takes one record from the peer.
    pub fn on_record(&mut self, rec: &Record) -> (s: Step)
        requires
            old(self).wf(),
        ensures
            final(self).wf(),
            final(self).input() == old(self).input(),
            final(self)@ == old(self)@.handle(rec@).next,
            views(s.records@) == old(self)@.handle(rec@).records,
            s.action == old(self)@.handle(rec@).action,
            s.error == old(self)@.handle(rec@).error,
            all_fit(views(s.records@)),
    {
        proof {
            reveal(ConnectionView::handle);
            lemma_handle_keeps_inv(self@, rec@);
        }
        if !self.open {
            return Connection::quiet(Action::Close, None);
        }
        if rec.request_id == MANAGEMENT_ID {
            return match answer_management(rec) {
                Err(e) => self.refuse(e),
                Ok(records) => Step { records, action: Action::Read, error: None },
            };
        }
        if rec.record_type == BEGIN_REQUEST {
            return self.begin_request(rec);
        }
        let active = match &self.request {
            Some(r) => r.id() == rec.request_id,
            None => false,
        };
        if active {
            return self.active_record(rec);
        }
        let drained = match self.draining {
            Some(d) => d == rec.request_id && rec.record_type == STDIN,
            None => false,
        };
        if drained {
            if rec.content.len() == 0 {
                self.draining = None;
            }
            Connection::quiet(Action::Read, None)
        } else {
            self.refuse(ProtocolError::Violation)
        }
    }

    /// The peer is gone: the read side gave an end of input or an error.
    /// The connection closes, and nothing more is sent.
    pub fn disconnect(&mut self) -> (action: Action)
        requires
            old(self).wf(),
        ensures
            final(self).wf(),
            final(self)@ == old(self)@.closed(),
            final(self).input() == Seq::<u8>::empty(),
            action == Action::Close,
    {
        self.close();
        self.inbuf = Vec::new();
        assert(self.input() =~= Seq::<u8>::empty());
        Action::Close
    }

    /// Takes bytes from the peer and handles the records that are all
    /// there. Bytes of a record that is not all there are kept.
    pub fn receive(&mut self, bytes: &[u8]) -> (out: Output)
        requires
            old(self).wf(),
        ensures
            final(self).wf(),
            final(self)@ == pump(old(self)@, old(self).input() + bytes@).next,
            final(self).input() == pump(old(self)@, old(self).input() + bytes@).rest,
            out.bytes@ == wire_bytes(pump(old(self)@, old(self).input() + bytes@).records),
            out.action == pump(old(self)@, old(self).input() + bytes@).action,
            out.error == pump(old(self)@, old(self).input() + bytes@).error,
    {
        let ghost start = self@;
        push_bytes(&mut self.inbuf, bytes);
        let ghost all = self.inbuf@;
        let ghost goal = pump(start, all);
        let mut records: Vec<Record> = Vec::new();
        let mut action = Action::Read;
        let mut error: Option<ProtocolError> = None;
        let mut pos: usize = 0;
        let mut done = false;
        proof {
            assert(all.skip(0) =~= all);
            assert(views(records@) =~= Seq::<RecordView>::empty());
            assert(goal.records =~= views(records@) + goal.records);
        }
        while !done
            invariant
                self.wf(),
                self.inbuf@ == all,
                pos <= all.len(),
                all_fit(views(records@)),
                !done ==> error is None,
                !done ==> goal == pump(self@, all.skip(pos as int)).after(views(records@)),
                done ==> {
                    &&& self@ == goal.next
                    &&& views(records@) == goal.records
                    &&& action == goal.action
                    &&& error == goal.error
                    &&& goal.rest == if action == Action::Close {
                        Seq::<u8>::empty()
                    } else {
                        all.skip(pos as int)
                    }
                },
            decreases all.len() - pos + (if done { 0int } else { 1int }),
        {
            let ghost here = all.skip(pos as int);
            let ghost sent = views(records@);
            if !self.open {
                action = Action::Close;
                done = true;
                assert(sent + Seq::<RecordView>::empty() =~= sent);
            } else {
                match read_record(self.inbuf.as_slice(), pos) {
                    Err(e) => {
                        self.close();
                        action = Action::Close;
                        error = Some(e);
                        done = true;
                        assert(sent + Seq::<RecordView>::empty() =~= sent);
                    },
                    Ok(None) => {
                        action = Action::Read;
                        done = true;
                        assert(sent + Seq::<RecordView>::empty() =~= sent);
                    },
                    Ok(Some((rec, next))) => {
                        let ghost before = self@;
                        let mut step = self.on_record(&rec);
                        proof {
                            assert(here.skip(next - pos) =~= all.skip(next as int));
                            lemma_views_concat(records@, step.records@);
                            let first = before.handle(rec@);
                            assert forall|i: int|
                                0 <= i < (sent + first.records).len() implies (#[trigger] (sent
                                + first.records)[i]).fits() by {
                                if i < sent.len() {
                                    assert((sent + first.records)[i] == sent[i]);
                                } else {
                                    assert((sent + first.records)[i] == first.records[i
                                        - sent.len()]);
                                }
                            }
                            if first.action == Action::Read {
                                let more = pump(first.next, all.skip(next as int));
                                assert(sent + (first.records + more.records) =~= (sent
                                    + first.records) + more.records);
                            }
                        }
                        records.append(&mut step.records);
                        pos = next;
                        match step.action {
                            Action::Read => {},
                            Action::Invoke => {
                                action = Action::Invoke;
                                done = true;
                            },
                            Action::Close => {
                                action = Action::Close;
                                error = step.error;
                                done = true;
                            },
                        }
                    },
                }
            }
        }
        match action {
            Action::Close => {
                self.inbuf = Vec::new();
                assert(self.input() =~= Seq::<u8>::empty());
            },
            _ => {
                let rest = copy_range(self.inbuf.as_slice(), pos, self.inbuf.len());
                self.inbuf = rest;
                assert(self.input() =~= all.skip(pos as int));
            },
        }
        let bytes_out = encode_records(&records);
        Output { bytes: bytes_out, action, error }
    }

    /// The handler writes `data` to `stream`. Gives the bytes to send. With
    /// no request, or with the peer gone, the write fails.
    pub fn write(&mut self, stream: Stream, data: &[u8]) -> (r: Result<Vec<u8>, StreamError>)
        requires
            old(self).wf(),
        ensures
            final(self).wf(),
            final(self).input() == old(self).input(),
            final(self)@ == old(self)@.after_event(Event::Write { stream, data: data@ }),
            old(self)@.writable() ==> (r matches Ok(bytes) && bytes@ == wire_bytes(
                old(self)@.event_records(Event::Write { stream, data: data@ }),
            )),
            !old(self)@.writable() ==> r == Err::<Vec<u8>, StreamError>(StreamError::Disconnected),
    {
        let mut r = match self.request.take() {
            Some(r) => r,
            None => {
                return Err(StreamError::Disconnected);
            },
        };
        proof {
            r.lemma_wf();
            lemma_step_keeps_inv(r@, Event::Write { stream, data: data@ });
        }
        let res = r.write(stream, data);
        proof {
            r.lemma_wf();
        }
        self.request = Some(r);
        match res {
            Err(e) => Err(e),
            Ok(records) => Ok(encode_records(&records)),
        }
    }

    /// The handler flushes `stream`. Gives the bytes to send.
    pub fn flush(&mut self, stream: Stream) -> (r: Result<Vec<u8>, StreamError>)
        requires
            old(self).wf(),
        ensures
            final(self).wf(),
            final(self).input() == old(self).input(),
            final(self)@ == old(self)@.after_event(Event::Flush { stream }),
            old(self)@.writable() ==> (r matches Ok(bytes) && bytes@ == wire_bytes(
                old(self)@.event_records(Event::Flush { stream }),
            )),
            !old(self)@.writable() ==> r == Err::<Vec<u8>, StreamError>(StreamError::Disconnected),
    {
        let mut r = match self.request.take() {
            Some(r) => r,
            None => {
                return Err(StreamError::Disconnected);
            },
        };
        proof {
            r.lemma_wf();
            lemma_step_keeps_inv(r@, Event::Flush { stream });
        }
        let res = r.flush(stream);
        proof {
            r.lemma_wf();
        }
        self.request = Some(r);
        match res {
            Err(e) => Err(e),
            Ok(records) => Ok(encode_records(&records)),
        }
    }

    /// The handler reads at most `max` bytes of input. `Pending` says that
    /// the driver is to read from the peer, hand the bytes in and ask
    /// again.
    pub fn read_stdin(&mut self, max: usize) -> (r: StdinRead)
        requires
            old(self).wf(),
        ensures
            final(self).wf(),
            final(self).input() == old(self).input(),
            final(self)@ == old(self)@.after_event(Event::Read { max: max as nat }),
            r@ == match old(self)@.request {
                Some(q) => q.read_result(max as nat),
                None => StdinView::End,
            },
    {
        let mut r = match self.request.take() {
            Some(r) => r,
            None => {
                return StdinRead::End;
            },
        };
        proof {
            r.lemma_wf();
            lemma_step_keeps_inv(r@, Event::Read { max: max as nat });
        }
        let res = r.read_stdin(max);
        proof {
            r.lemma_wf();
        }
        self.request = Some(r);
        res
    }

    fn handler_over(&mut self, failed: bool) -> (out: Output)
        requires
            old(self).wf(),
        ensures
            final(self).wf(),
            final(self).input() == old(self).input(),
            final(self)@ == old(self)@.handler_done(
                if failed {
                    Event::Fail
                } else {
                    Event::Finish
                },
            ).next,
            out.bytes@ == wire_bytes(
                old(self)@.handler_done(
                    if failed {
                        Event::Fail
                    } else {
                        Event::Finish
                    },
                ).records,
            ),
            out.action == old(self)@.handler_done(
                if failed {
                    Event::Fail
                } else {
                    Event::Finish
                },
            ).action,
            out.error is None,
    {
        let idle = if self.open {
            Action::Read
        } else {
            Action::Close
        };
        if !self.handler_running {
            let records: Vec<Record> = Vec::new();
            assert(views(records@) =~= Seq::<RecordView>::empty());
            return Output { bytes: encode_records(&records), action: idle, error: None };
        }
        let mut r = match self.request.take() {
            Some(r) => r,
            None => {
                let records: Vec<Record> = Vec::new();
                assert(views(records@) =~= Seq::<RecordView>::empty());
                return Output { bytes: encode_records(&records), action: idle, error: None };
            },
        };
        let keep: bool = r.keep_conn() && self.open;
        let unread = match r.state() {
            RequestState::StdinOpen => true,
            _ => false,
        };
        let id: u16 = r.id();
        let records = if failed {
            r.fail()
        } else {
            r.finish()
        };
        self.request = None;
        self.handler_running = false;
        self.open = keep;
        if !keep {
            self.draining = None;
        } else if unread {
            self.draining = Some(id);
        }
        Output {
            bytes: encode_records(&records),
            action: if keep {
                Action::Read
            } else {
                Action::Close
            },
            error: None,
        }
    }

    /// The handler returned. The response is closed, and the connection is
    /// kept if the request asked for that, and closed if not.
    pub fn finish(&mut self) -> (out: Output)
        requires
            old(self).wf(),
        ensures
            final(self).wf(),
            final(self).input() == old(self).input(),
            final(self)@ == old(self)@.handler_done(Event::Finish).next,
            out.bytes@ == wire_bytes(old(self)@.handler_done(Event::Finish).records),
            out.action == old(self)@.handler_done(Event::Finish).action,
            out.error is None,
    {
        self.handler_over(false)
    }

    /// The handler failed. END_REQUEST goes out with an application status
    /// other than 0, and the connection is kept or closed as after a
    /// return.
    pub fn fail(&mut self) -> (out: Output)
        requires
            old(self).wf(),
        ensures
            final(self).wf(),
            final(self).input() == old(self).input(),
            final(self)@ == old(self)@.handler_done(Event::Fail).next,
            out.bytes@ == wire_bytes(old(self)@.handler_done(Event::Fail).records),
            out.action == old(self)@.handler_done(Event::Fail).action,
            out.error is None,
    {
        self.handler_over(true)
    }
}

} // verus!
