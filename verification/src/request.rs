//! One request: its state machine, its parameters, its input stream and its
//! response.
//!
//! A request is told of the records that the peer sends for it and of what
//! the handler does, and answers with the records to send. What it does is
//! written down once, as [`RequestView::step`]; the methods of [`Request`]
//! carry it out.

use vstd::prelude::*;
use crate::error::{ProtocolError, StreamError};
use crate::param_map::{collect, lookup, ParamMap};
use crate::params::{decode_params, parse_pairs, PairView};
use crate::response::{ResponseWriter, Stream, WriterView};
use crate::wire::{
    all_fit, copy_range, end_request, make_end_request, push_bytes, views, Record, RecordView,
    REQUEST_COMPLETE, RESPONDER, UNKNOWN_ROLE,
};

verus! {

/// The application status that END_REQUEST carries when the handler failed.
pub const FAILED_STATUS: u32 = 1;

/// Where a request stands.
#[derive(Clone, Copy, Debug, PartialEq, Eq, Structural)]
pub enum RequestState {
    /// Made, and not yet begun.
    New,
    /// Begun; parameters are coming in.
    ParamsOpen,
    /// The parameters are complete and the handler runs; input is coming in.
    StdinOpen,
    /// The input is complete.
    Running,
    /// END_REQUEST was sent.
    Done,
}

/// What can happen to a request: a record from the peer, the loss of the
/// connection, or a call of the handler.
pub ghost enum Event {
    /// BEGIN_REQUEST with this role and these flags.
    Begin { role: u16, flags: u8 },
    /// A PARAMS record; an empty one ends the parameters.
    Params { content: Seq<u8> },
    /// A STDIN record; an empty one ends the input.
    Stdin { content: Seq<u8> },
    /// ABORT_REQUEST.
    Abort,
    /// The connection is gone.
    Disconnect,
    /// The handler writes `data` to `stream`.
    Write { stream: Stream, data: Seq<u8> },
    /// The handler flushes `stream`.
    Flush { stream: Stream },
    /// The handler reads at most `max` bytes of input.
    Read { max: nat },
    /// The handler returned.
    Finish,
    /// The handler failed.
    Fail,
}

/// The state of a request after an event, and the records to send.
pub ghost struct Outcome {
    pub next: RequestView,
    pub records: Seq<RecordView>,
}

/// What a read of the input gives.
pub ghost enum StdinView {
    /// Bytes of input.
    Data(Seq<u8>),
    /// Nothing yet: the peer has more to send.
    Pending,
    /// The end of the input.
    End,
}

/// A request, as contracts see it.
pub ghost struct RequestView {
    pub id: u16,
    pub role: u16,
    pub keep_conn: bool,
    pub state: RequestState,
    /// Whether the connection to the peer still stands.
    pub connected: bool,
    /// The PARAMS content received so far, until the parameters end.
    pub params_buf: Seq<u8>,
    /// The parameters, once they have ended.
    pub params: Seq<PairView>,
    /// The input received and not yet read.
    pub stdin: Seq<u8>,
    pub writer: WriterView,
}

impl RequestView {
    /// A request that nothing has happened to.
    pub open spec fn fresh(id: u16) -> RequestView {
        RequestView {
            id,
            role: 0,
            keep_conn: false,
            state: RequestState::New,
            connected: true,
            params_buf: Seq::<u8>::empty(),
            params: Seq::<PairView>::empty(),
            stdin: Seq::<u8>::empty(),
            writer: WriterView::fresh(id),
        }
    }

    /// The writer belongs to this request and its buffers are short of a
    /// full record.
    pub open spec fn inv(self) -> bool {
        self.writer.wf() && self.writer.request_id == self.id
    }

    /// Whether the handler runs and can be heard: the parameters have ended,
    /// END_REQUEST was not sent, and the connection stands.
    pub open spec fn serving(self) -> bool {
        self.connected && (self.state == RequestState::StdinOpen || self.state
            == RequestState::Running)
    }

    /// This request with END_REQUEST sent: nothing pending, no input left.
    pub open spec fn ended(self) -> RequestView {
        RequestView {
            state: RequestState::Done,
            stdin: Seq::<u8>::empty(),
            writer: self.writer.emptied(),
            ..self
        }
    }

    /// Why the request refuses the event, if it does. Only records from the
    /// peer are ever refused.
    pub open spec fn rejects(self, e: Event) -> Option<ProtocolError> {
        match e {
            Event::Begin { .. } => if self.connected && self.state == RequestState::New {
                None
            } else {
                Some(ProtocolError::Violation)
            },
            Event::Params { content } => if !(self.connected && self.state
                == RequestState::ParamsOpen) {
                Some(ProtocolError::Violation)
            } else if content.len() == 0 && parse_pairs(self.params_buf) is None {
                Some(ProtocolError::MalformedParams)
            } else {
                None
            },
            Event::Stdin { .. } => if self.connected && self.state == RequestState::StdinOpen {
                None
            } else {
                Some(ProtocolError::Violation)
            },
            _ => None,
        }
    }

    /// What the event does to the request, and what is sent. An event that
    /// is refused, and any event after the connection is gone, changes
    /// nothing and sends nothing.
    pub open spec fn step(self, e: Event) -> Outcome {
        let none = Seq::<RecordView>::empty();
        if !self.connected || self.rejects(e) is Some {
            Outcome { next: self, records: none }
        } else {
            match e {
                Event::Begin { role, flags } => if role == RESPONDER {
                    Outcome {
                        next: RequestView {
                            state: RequestState::ParamsOpen,
                            role,
                            keep_conn: flags % 2 == 1,
                            ..self
                        },
                        records: none,
                    }
                } else {
                    Outcome {
                        next: RequestView {
                            state: RequestState::Done,
                            role,
                            keep_conn: flags % 2 == 1,
                            ..self
                        },
                        records: seq![end_request(self.id, 0, UNKNOWN_ROLE)],
                    }
                },
                Event::Params { content } => if content.len() > 0 {
                    Outcome {
                        next: RequestView { params_buf: self.params_buf + content, ..self },
                        records: none,
                    }
                } else {
                    Outcome {
                        next: RequestView {
                            state: RequestState::StdinOpen,
                            params: collect(parse_pairs(self.params_buf)->Some_0),
                            params_buf: Seq::<u8>::empty(),
                            ..self
                        },
                        records: none,
                    }
                },
                Event::Stdin { content } => if content.len() > 0 {
                    Outcome {
                        next: RequestView { stdin: self.stdin + content, ..self },
                        records: none,
                    }
                } else {
                    Outcome {
                        next: RequestView { state: RequestState::Running, ..self },
                        records: none,
                    }
                },
                Event::Abort => if self.state == RequestState::Done {
                    Outcome { next: self, records: none }
                } else {
                    Outcome {
                        next: self.ended(),
                        records: seq![end_request(self.id, 0, REQUEST_COMPLETE)],
                    }
                },
                Event::Disconnect => Outcome {
                    next: RequestView {
                        connected: false,
                        stdin: Seq::<u8>::empty(),
                        writer: self.writer.emptied(),
                        ..self
                    },
                    records: none,
                },
                Event::Write { stream, data } => if self.serving() {
                    Outcome {
                        next: RequestView {
                            writer: self.writer.after_write(stream, data),
                            ..self
                        },
                        records: self.writer.write_records(stream, data),
                    }
                } else {
                    Outcome { next: self, records: none }
                },
                Event::Flush { stream } => if self.serving() {
                    Outcome {
                        next: RequestView {
                            writer: self.writer.with_pending(stream, Seq::<u8>::empty()),
                            ..self
                        },
                        records: self.writer.flush_records(stream),
                    }
                } else {
                    Outcome { next: self, records: none }
                },
                Event::Read { max } => Outcome {
                    next: RequestView { stdin: self.stdin.skip(self.read_len(max)), ..self },
                    records: none,
                },
                Event::Finish => if self.serving() {
                    Outcome { next: self.ended(), records: self.writer.closing_records() }
                } else {
                    Outcome { next: self, records: none }
                },
                Event::Fail => if self.serving() {
                    Outcome {
                        next: self.ended(),
                        records: seq![end_request(self.id, FAILED_STATUS, REQUEST_COMPLETE)],
                    }
                } else {
                    Outcome { next: self, records: none }
                },
            }
        }
    }

    /// How many bytes a read of at most `max` bytes takes.
    pub open spec fn read_len(self, max: nat) -> int {
        if max < self.stdin.len() {
            max as int
        } else {
            self.stdin.len() as int
        }
    }

    /// What a read of at most `max` bytes gives: input that is there, or
    /// else the end of the input, or else word that the peer has more to
    /// send.
    pub open spec fn read_result(self, max: nat) -> StdinView {
        if !self.connected {
            StdinView::End
        } else if self.stdin.len() > 0 {
            StdinView::Data(self.stdin.take(self.read_len(max)))
        } else if self.state == RequestState::StdinOpen {
            StdinView::Pending
        } else {
            StdinView::End
        }
    }
}

/// What a read of the input gave.
#[derive(Debug, PartialEq, Eq)]
pub enum StdinRead {
    /// Bytes of input.
    Data(Vec<u8>),
    /// Nothing yet: the peer has more to send.
    Pending,
    /// The end of the input.
    End,
}

impl View for StdinRead {
    type V = StdinView;

    open spec fn view(&self) -> StdinView {
        match self {
            StdinRead::Data(bytes) => StdinView::Data(bytes@),
            StdinRead::Pending => StdinView::Pending,
            StdinRead::End => StdinView::End,
        }
    }
}

/// One request.
#[derive(Debug)]
pub struct Request {
    id: u16,
    role: u16,
    keep_conn: bool,
    state: RequestState,
    connected: bool,
    params_buf: Vec<u8>,
    params: ParamMap,
    stdin: Vec<u8>,
    stdin_pos: usize,
    writer: ResponseWriter,
}

impl View for Request {
    type V = RequestView;

    closed spec fn view(&self) -> RequestView {
        RequestView {
            id: self.id,
            role: self.role,
            keep_conn: self.keep_conn,
            state: self.state,
            connected: self.connected,
            params_buf: self.params_buf@,
            params: self.params@,
            stdin: self.stdin@.skip(self.stdin_pos as int),
            writer: self.writer@,
        }
    }
}

/// An event leaves a request in order, and every record it sends fits in
/// one record of the wire and bears the id of the request.
pub proof fn lemma_step_keeps_inv(r: RequestView, e: Event)
    requires
        r.inv(),
    ensures
        r.step(e).next.inv(),
        r.step(e).next.id == r.id,
        all_fit(r.step(e).records),
        forall|i: int|
            0 <= i < r.step(e).records.len() ==> (#[trigger] r.step(e).records[i]).request_id
                == r.id,
{
    let o = r.step(e);
    match e {
        Event::Write { stream, data } => {
            crate::response::lemma_remainder_short(r.writer.pending(stream) + data);
            crate::response::lemma_full_records_shape(
                stream.code(),
                r.id,
                r.writer.pending(stream) + data,
            );
            assert forall|i: int| 0 <= i < o.records.len() implies (#[trigger] o.records[i]).fits()
                && o.records[i].request_id == r.id by {}
        },
        _ => {},
    }
}

impl Request {
    /// Whether the request is in order.
    pub closed spec fn wf(&self) -> bool {
        &&& self.stdin_pos <= self.stdin@.len()
        &&& self.writer.wf()
        &&& self.writer@.request_id == self.id
    }

    /// A request in order has a view in order.
    pub proof fn lemma_wf(&self)
        requires
            self.wf(),
        ensures
            self@.inv(),
    {
    }

    /// A request with the id `id`, not yet begun.
    pub fn new(id: u16) -> (r: Request)
        ensures
            r@ == RequestView::fresh(id),
            r.wf(),
    {
        let r = Request {
            id,
            role: 0,
            keep_conn: false,
            state: RequestState::New,
            connected: true,
            params_buf: Vec::new(),
            params: ParamMap::new(),
            stdin: Vec::new(),
            stdin_pos: 0,
            writer: ResponseWriter::new(id),
        };
        assert(r@.stdin =~= Seq::<u8>::empty());
        assert(r@.params_buf =~= Seq::<u8>::empty());
        r
    }

    /// The id of the request.
    pub fn id(&self) -> (id: u16)
        ensures
            id == self@.id,
    {
        self.id
    }

    /// The role that BEGIN_REQUEST named.
    pub fn role(&self) -> (role: u16)
        ensures
            role == self@.role,
    {
        self.role
    }

    /// Whether the peer asked to keep the connection after this request.
    pub fn keep_conn(&self) -> (b: bool)
        ensures
            b == self@.keep_conn,
    {
        self.keep_conn
    }

    /// Where the request stands.
    pub fn state(&self) -> (s: RequestState)
        ensures
            s == self@.state,
    {
        self.state
    }

    /// Whether the connection to the peer still stands.
    pub fn is_connected(&self) -> (b: bool)
        ensures
            b == self@.connected,
    {
        self.connected
    }

    /// Whether the handler runs and can be heard.
    pub fn is_serving(&self) -> (b: bool)
        ensures
            b == self@.serving(),
    {
        self.connected && match self.state {
            RequestState::StdinOpen => true,
            RequestState::Running => true,
            _ => false,
        }
    }

    /// The parameters, in the order in which their names first came. Empty
    /// until the parameters have ended.
    pub fn params(&self) -> (p: &ParamMap)
        ensures
            p@ == self@.params,
    {
        &self.params
    }

    /// The value of the parameter `name`: the last one given under that
    /// name.
    pub fn param(&self, name: &[u8]) -> (r: Option<&Vec<u8>>)
        ensures
            match lookup(self@.params, name@) {
                Some(v) => r matches Some(x) && x@ == v,
                None => r is None,
            },
    {
        self.params.get(name)
    }

    /// BEGIN_REQUEST came. A responder request opens its parameters; any
    /// other role is answered with END_REQUEST and UNKNOWN_ROLE.
    pub fn begin(&mut self, role: u16, flags: u8) -> (r: Result<Vec<Record>, ProtocolError>)
        requires
            old(self).wf(),
        ensures
            final(self).wf(),
            final(self)@ == old(self)@.step(Event::Begin { role, flags }).next,
            match old(self)@.rejects(Event::Begin { role, flags }) {
                Some(e) => r == Err::<Vec<Record>, ProtocolError>(e),
                None => r matches Ok(records) && views(records@) == old(self)@.step(
                    Event::Begin { role, flags },
                ).records && all_fit(views(records@)),
            },
    {
        proof {
            lemma_step_keeps_inv(self@, Event::Begin { role, flags });
        }
        let fresh = match self.state {
            RequestState::New => true,
            _ => false,
        };
        if !self.connected || !fresh {
            return Err(ProtocolError::Violation);
        }
        self.role = role;
        self.keep_conn = flags % 2 == 1;
        let mut records: Vec<Record> = Vec::new();
        if role == RESPONDER {
            self.state = RequestState::ParamsOpen;
            assert(views(records@) =~= Seq::<RecordView>::empty());
        } else {
            self.state = RequestState::Done;
            let end = make_end_request(self.id, 0, UNKNOWN_ROLE);
            assert(views(records@.push(end)) =~= seq![end_request(self.id, 0, UNKNOWN_ROLE)]);
            records.push(end);
        }
        Ok(records)
    }

    /// A PARAMS record came. `Ok(true)` says that it ended the parameters:
    /// they are decoded, and the handler is to run.
    pub fn on_params(&mut self, content: &[u8]) -> (r: Result<bool, ProtocolError>)
        requires
            old(self).wf(),
        ensures
            final(self).wf(),
            final(self)@ == old(self)@.step(Event::Params { content: content@ }).next,
            match old(self)@.rejects(Event::Params { content: content@ }) {
                Some(e) => r == Err::<bool, ProtocolError>(e),
                None => r == Ok::<bool, ProtocolError>(content@.len() == 0),
            },
    {
        let open = match self.state {
            RequestState::ParamsOpen => true,
            _ => false,
        };
        if !self.connected || !open {
            return Err(ProtocolError::Violation);
        }
        if content.len() > 0 {
            push_bytes(&mut self.params_buf, content);
            return Ok(false);
        }
        match decode_params(self.params_buf.as_slice()) {
            Err(e) => Err(e),
            Ok(pairs) => {
                self.params = ParamMap::from_pairs(&pairs);
                self.params_buf = Vec::new();
                self.state = RequestState::StdinOpen;
                assert(self@.params_buf =~= Seq::<u8>::empty());
                Ok(true)
            },
        }
    }

    /// A STDIN record came. An empty one ends the input.
    pub fn on_stdin(&mut self, content: &[u8]) -> (r: Result<(), ProtocolError>)
        requires
            old(self).wf(),
        ensures
            final(self).wf(),
            final(self)@ == old(self)@.step(Event::Stdin { content: content@ }).next,
            match old(self)@.rejects(Event::Stdin { content: content@ }) {
                Some(e) => r == Err::<(), ProtocolError>(e),
                None => r == Ok::<(), ProtocolError>(()),
            },
    {
        let open = match self.state {
            RequestState::StdinOpen => true,
            _ => false,
        };
        if !self.connected || !open {
            return Err(ProtocolError::Violation);
        }
        if content.len() > 0 {
            push_bytes(&mut self.stdin, content);
            assert(self@.stdin =~= old(self)@.stdin + content@);
        } else {
            self.state = RequestState::Running;
        }
        Ok(())
    }

    /// Drops the input that was not read.
    fn drop_input(&mut self)
        requires
            old(self).wf(),
        ensures
            final(self).wf(),
            final(self)@ == (RequestView { stdin: Seq::<u8>::empty(), ..old(self)@ }),
    {
        self.stdin = Vec::new();
        self.stdin_pos = 0;
        assert(self@.stdin =~= Seq::<u8>::empty());
    }

    /// ABORT_REQUEST came. Unless END_REQUEST was sent before, it is sent
    /// now, with application status 0 and REQUEST_COMPLETE; what was pending
    /// is dropped.
    pub fn abort(&mut self) -> (records: Vec<Record>)
        requires
            old(self).wf(),
        ensures
            final(self).wf(),
            final(self)@ == old(self)@.step(Event::Abort).next,
            views(records@) == old(self)@.step(Event::Abort).records,
            all_fit(views(records@)),
    {
        proof {
            lemma_step_keeps_inv(self@, Event::Abort);
        }
        let mut records: Vec<Record> = Vec::new();
        let done = match self.state {
            RequestState::Done => true,
            _ => false,
        };
        if !self.connected || done {
            assert(views(records@) =~= Seq::<RecordView>::empty());
            return records;
        }
        self.drop_input();
        self.writer.discard();
        self.state = RequestState::Done;
        let end = make_end_request(self.id, 0, REQUEST_COMPLETE);
        assert(views(records@.push(end)) =~= seq![end_request(self.id, 0, REQUEST_COMPLETE)]);
        records.push(end);
        records
    }

    /// The connection is gone. What was pending is dropped; from now on
    /// writes fail and reads give the end of the input.
    pub fn disconnect(&mut self)
        requires
            old(self).wf(),
        ensures
            final(self).wf(),
            final(self)@ == old(self)@.step(Event::Disconnect).next,
    {
        if !self.connected {
            return ;
        }
        self.drop_input();
        self.writer.discard();
        self.connected = false;
    }

    /// The handler writes `data` to `stream`. After END_REQUEST the bytes
    /// are dropped without a word; after the connection is gone the write
    /// fails.
    pub fn write(&mut self, stream: Stream, data: &[u8]) -> (r: Result<Vec<Record>, StreamError>)
        requires
            old(self).wf(),
        ensures
            final(self).wf(),
            final(self)@ == old(self)@.step(Event::Write { stream, data: data@ }).next,
            old(self)@.connected ==> (r matches Ok(records) && views(records@) == old(self)@.step(
                Event::Write { stream, data: data@ },
            ).records && all_fit(views(records@))),
            !old(self)@.connected ==> r == Err::<Vec<Record>, StreamError>(
                StreamError::Disconnected,
            ),
    {
        proof {
            lemma_step_keeps_inv(self@, Event::Write { stream, data: data@ });
        }
        if !self.connected {
            return Err(StreamError::Disconnected);
        }
        if !self.is_serving() {
            let records: Vec<Record> = Vec::new();
            assert(views(records@) =~= Seq::<RecordView>::empty());
            return Ok(records);
        }
        let records = self.writer.write(stream, data);
        Ok(records)
    }

    /// The handler writes `data` to stdout.
    pub fn write_stdout(&mut self, data: &[u8]) -> (r: Result<Vec<Record>, StreamError>)
        requires
            old(self).wf(),
        ensures
            final(self).wf(),
            final(self)@ == old(self)@.step(
                Event::Write { stream: Stream::Stdout, data: data@ },
            ).next,
            old(self)@.connected ==> (r matches Ok(records) && views(records@) == old(self)@.step(
                Event::Write { stream: Stream::Stdout, data: data@ },
            ).records && all_fit(views(records@))),
            !old(self)@.connected ==> r == Err::<Vec<Record>, StreamError>(
                StreamError::Disconnected,
            ),
    {
        self.write(Stream::Stdout, data)
    }

    /// The handler writes `data` to stderr.
    pub fn write_stderr(&mut self, data: &[u8]) -> (r: Result<Vec<Record>, StreamError>)
        requires
            old(self).wf(),
        ensures
            final(self).wf(),
            final(self)@ == old(self)@.step(
                Event::Write { stream: Stream::Stderr, data: data@ },
            ).next,
            old(self)@.connected ==> (r matches Ok(records) && views(records@) == old(self)@.step(
                Event::Write { stream: Stream::Stderr, data: data@ },
            ).records && all_fit(views(records@))),
            !old(self)@.connected ==> r == Err::<Vec<Record>, StreamError>(
                StreamError::Disconnected,
            ),
    {
        self.write(Stream::Stderr, data)
    }

    /// The handler flushes `stream`: what is pending goes out as one
    /// record. Nothing pending, nothing sent.
    pub fn flush(&mut self, stream: Stream) -> (r: Result<Vec<Record>, StreamError>)
        requires
            old(self).wf(),
        ensures
            final(self).wf(),
            final(self)@ == old(self)@.step(Event::Flush { stream }).next,
            old(self)@.connected ==> (r matches Ok(records) && views(records@) == old(self)@.step(
                Event::Flush { stream },
            ).records && all_fit(views(records@))),
            !old(self)@.connected ==> r == Err::<Vec<Record>, StreamError>(
                StreamError::Disconnected,
            ),
    {
        proof {
            lemma_step_keeps_inv(self@, Event::Flush { stream });
        }
        if !self.connected {
            return Err(StreamError::Disconnected);
        }
        if !self.is_serving() {
            let records: Vec<Record> = Vec::new();
            assert(views(records@) =~= Seq::<RecordView>::empty());
            return Ok(records);
        }
        let records = self.writer.flush(stream);
        Ok(records)
    }

    /// The handler reads at most `max` bytes of input.
    pub fn read_stdin(&mut self, max: usize) -> (r: StdinRead)
        requires
            old(self).wf(),
        ensures
            final(self).wf(),
            final(self)@ == old(self)@.step(Event::Read { max: max as nat }).next,
            r@ == old(self)@.read_result(max as nat),
    {
        if !self.connected {
            return StdinRead::End;
        }
        let avail: usize = self.stdin.len() - self.stdin_pos;
        if avail == 0 {
            assert(self@.stdin.skip(0) =~= self@.stdin);
            return match self.state {
                RequestState::StdinOpen => StdinRead::Pending,
                _ => StdinRead::End,
            };
        }
        let n: usize = if max < avail {
            max
        } else {
            avail
        };
        let from: usize = self.stdin_pos;
        let chunk = copy_range(self.stdin.as_slice(), from, from + n);
        self.stdin_pos = from + n;
        proof {
            assert(chunk@ =~= old(self)@.stdin.take(n as int));
            assert(self@.stdin =~= old(self)@.stdin.skip(n as int));
        }
        if self.stdin_pos == self.stdin.len() {
            self.stdin = Vec::new();
            self.stdin_pos = 0;
            assert(self@.stdin =~= old(self)@.stdin.skip(n as int));
        }
        StdinRead::Data(chunk)
    }

    /// The handler returned. While the request is served this closes the
    /// response; otherwise nothing is sent.
    pub fn finish(&mut self) -> (records: Vec<Record>)
        requires
            old(self).wf(),
        ensures
            final(self).wf(),
            final(self)@ == old(self)@.step(Event::Finish).next,
            views(records@) == old(self)@.step(Event::Finish).records,
            all_fit(views(records@)),
    {
        proof {
            lemma_step_keeps_inv(self@, Event::Finish);
        }
        if !self.is_serving() {
            let records: Vec<Record> = Vec::new();
            assert(views(records@) =~= Seq::<RecordView>::empty());
            return records;
        }
        self.drop_input();
        let records = self.writer.close();
        self.state = RequestState::Done;
        records
    }

    /// The handler failed. While the request is served, END_REQUEST goes
    /// out with an application status other than 0, and what was pending
    /// is dropped; otherwise nothing is sent.
    pub fn fail(&mut self) -> (records: Vec<Record>)
        requires
            old(self).wf(),
        ensures
            final(self).wf(),
            final(self)@ == old(self)@.step(Event::Fail).next,
            views(records@) == old(self)@.step(Event::Fail).records,
            all_fit(views(records@)),
    {
        proof {
            lemma_step_keeps_inv(self@, Event::Fail);
        }
        let mut records: Vec<Record> = Vec::new();
        if !self.is_serving() {
            assert(views(records@) =~= Seq::<RecordView>::empty());
            return records;
        }
        self.drop_input();
        self.writer.discard();
        self.state = RequestState::Done;
        let end = make_end_request(self.id, FAILED_STATUS, REQUEST_COMPLETE);
        assert(views(records@.push(end)) =~= seq![
            end_request(self.id, FAILED_STATUS, REQUEST_COMPLETE),
        ]);
        records.push(end);
        records
    }
}

} // verus!
