//! The response writer: the two output streams of a request, cut into
//! records.
//!
//! Each stream has a buffer of fewer than 65535 bytes. A write that fills the
//! buffer sends records of exactly 65535 bytes; a flush sends what is left,
//! if anything is. An empty record is sent only to end a stream.

use vstd::prelude::*;
use crate::wire::{
    copy_range, end_request, make_end_request, push_bytes, Record, RecordView, views,
    REQUEST_COMPLETE, STDERR, STDOUT,
};

verus! {

/// Most bytes that one stream record carries.
pub const RECORD_LIMIT: usize = 65535;

/// One of the two output streams of a request.
#[derive(Clone, Copy, Debug, PartialEq, Eq, Structural)]
pub enum Stream {
    Stdout,
    Stderr,
}

impl Stream {
    /// The record type that carries this stream.
    pub open spec fn code(self) -> u8 {
        match self {
            Stream::Stdout => STDOUT,
            Stream::Stderr => STDERR,
        }
    }

    /// The record type that carries this stream.
    pub fn record_type(self) -> (t: u8)
        ensures
            t == self.code(),
    {
        match self {
            Stream::Stdout => STDOUT,
            Stream::Stderr => STDERR,
        }
    }
}

/// The records of exactly 65535 bytes that `data` fills, in order.
pub open spec fn full_records(kind: u8, id: u16, data: Seq<u8>) -> Seq<RecordView>
    decreases data.len(),
{
    if data.len() < 65535 {
        Seq::<RecordView>::empty()
    } else {
        seq![RecordView { record_type: kind, request_id: id, content: data.subrange(0, 65535) }]
            + full_records(kind, id, data.skip(65535))
    }
}

/// What is left of `data` after the full records: fewer than 65535 bytes.
pub open spec fn remainder(data: Seq<u8>) -> Seq<u8>
    decreases data.len(),
{
    if data.len() < 65535 {
        data
    } else {
        remainder(data.skip(65535))
    }
}

/// The record that a flush sends: one with the pending bytes, or none when
/// nothing is pending.
pub open spec fn flushed(kind: u8, id: u16, pending: Seq<u8>) -> Seq<RecordView> {
    if pending.len() == 0 {
        Seq::<RecordView>::empty()
    } else {
        seq![RecordView { record_type: kind, request_id: id, content: pending }]
    }
}

/// The empty record that ends a stream.
pub open spec fn end_of_stream(kind: u8, id: u16) -> RecordView {
    RecordView { record_type: kind, request_id: id, content: Seq::<u8>::empty() }
}

/// The contents of the records of a run, joined.
pub open spec fn payload(records: Seq<RecordView>) -> Seq<u8>
    decreases records.len(),
{
    if records.len() == 0 {
        Seq::<u8>::empty()
    } else {
        records[0].content + payload(records.skip(1))
    }
}

/// What is left after the full records is short of a full record.
pub proof fn lemma_remainder_short(data: Seq<u8>)
    ensures
        remainder(data).len() < 65535,
    decreases data.len(),
{
    if data.len() >= 65535 {
        lemma_remainder_short(data.skip(65535));
    }
}

/// The full records carry exactly 65535 bytes each, under the given type and
/// request id.
pub proof fn lemma_full_records_shape(kind: u8, id: u16, data: Seq<u8>)
    ensures
        forall|i: int|
            0 <= i < full_records(kind, id, data).len() ==> {
                let r = #[trigger] full_records(kind, id, data)[i];
                r.record_type == kind && r.request_id == id && r.content.len() == 65535
            },
    decreases data.len(),
{
    if data.len() >= 65535 {
        let tail = full_records(kind, id, data.skip(65535));
        lemma_full_records_shape(kind, id, data.skip(65535));
        assert forall|i: int| 0 <= i < full_records(kind, id, data).len() implies {
            let r = #[trigger] full_records(kind, id, data)[i];
            r.record_type == kind && r.request_id == id && r.content.len() == 65535
        } by {
            if i > 0 {
                assert(full_records(kind, id, data)[i] == tail[i - 1]);
            }
        }
    }
}

/// Cutting loses nothing and moves nothing: the full records and what is
/// left, joined, are the data.
pub proof fn lemma_cut_keeps_bytes(kind: u8, id: u16, data: Seq<u8>)
    ensures
        payload(full_records(kind, id, data)) + remainder(data) == data,
    decreases data.len(),
{
    if data.len() < 65535 {
        assert(payload(full_records(kind, id, data)) + remainder(data) =~= data);
    } else {
        let tail = data.skip(65535);
        lemma_cut_keeps_bytes(kind, id, tail);
        let recs = full_records(kind, id, data);
        assert(recs.skip(1) =~= full_records(kind, id, tail));
        assert(payload(recs) + remainder(data) =~= data.subrange(0, 65535) + (payload(
            full_records(kind, id, tail),
        ) + remainder(tail)));
        assert(data.subrange(0, 65535) + tail =~= data);
    }
}

/// The state of a response writer, as contracts see it.
pub ghost struct WriterView {
    pub request_id: u16,
    /// Bytes written to stdout and not yet sent.
    pub stdout: Seq<u8>,
    /// Bytes written to stderr and not yet sent.
    pub stderr: Seq<u8>,
    /// Whether any byte was ever written to stderr.
    pub stderr_used: bool,
}

impl WriterView {
    /// A writer that nothing was written to.
    pub open spec fn fresh(id: u16) -> WriterView {
        WriterView {
            request_id: id,
            stdout: Seq::<u8>::empty(),
            stderr: Seq::<u8>::empty(),
            stderr_used: false,
        }
    }

    /// Both buffers are short of a full record.
    pub open spec fn wf(self) -> bool {
        self.stdout.len() < 65535 && self.stderr.len() < 65535
    }

    /// The bytes pending on `stream`.
    pub open spec fn pending(self, stream: Stream) -> Seq<u8> {
        match stream {
            Stream::Stdout => self.stdout,
            Stream::Stderr => self.stderr,
        }
    }

    /// This writer with `bytes` pending on `stream`.
    pub open spec fn with_pending(self, stream: Stream, bytes: Seq<u8>) -> WriterView {
        match stream {
            Stream::Stdout => WriterView { stdout: bytes, ..self },
            Stream::Stderr => WriterView { stderr: bytes, ..self },
        }
    }

    /// The writer after `data` was written to `stream`.
    pub open spec fn after_write(self, stream: Stream, data: Seq<u8>) -> WriterView {
        let w = self.with_pending(stream, remainder(self.pending(stream) + data));
        WriterView {
            stderr_used: self.stderr_used || (stream == Stream::Stderr && data.len() > 0),
            ..w
        }
    }

    /// The records that writing `data` to `stream` sends.
    pub open spec fn write_records(self, stream: Stream, data: Seq<u8>) -> Seq<RecordView> {
        full_records(stream.code(), self.request_id, self.pending(stream) + data)
    }

    /// The records that flushing `stream` sends.
    pub open spec fn flush_records(self, stream: Stream) -> Seq<RecordView> {
        flushed(stream.code(), self.request_id, self.pending(stream))
    }

    /// The writer with nothing pending.
    pub open spec fn emptied(self) -> WriterView {
        WriterView { stdout: Seq::<u8>::empty(), stderr: Seq::<u8>::empty(), ..self }
    }

    /// The records that end the streams: what is pending on stdout, the end
    /// of stdout, and, only if stderr was written to, what is pending on
    /// stderr and the end of stderr.
    pub open spec fn stream_ends(self) -> Seq<RecordView> {
        let out = flushed(STDOUT, self.request_id, self.stdout) + seq![
            end_of_stream(STDOUT, self.request_id),
        ];
        if self.stderr_used {
            out + flushed(STDERR, self.request_id, self.stderr) + seq![
                end_of_stream(STDERR, self.request_id),
            ]
        } else {
            out
        }
    }

    /// The records that close a response: the ends of the streams, then
    /// END_REQUEST with application status 0 and REQUEST_COMPLETE.
    pub open spec fn closing_records(self) -> Seq<RecordView> {
        self.stream_ends() + seq![end_request(self.request_id, 0, REQUEST_COMPLETE)]
    }
}

/// The response writer of one request.
#[derive(Debug)]
pub struct ResponseWriter {
    request_id: u16,
    stdout: Vec<u8>,
    stderr: Vec<u8>,
    stderr_used: bool,
}

impl View for ResponseWriter {
    type V = WriterView;

    closed spec fn view(&self) -> WriterView {
        WriterView {
            request_id: self.request_id,
            stdout: self.stdout@,
            stderr: self.stderr@,
            stderr_used: self.stderr_used,
        }
    }
}

/// Adds `data` to `buf` and takes the full records off its front.
fn absorb(buf: &mut Vec<u8>, kind: u8, id: u16, data: &[u8]) -> (records: Vec<Record>)
    ensures
        views(records@) == full_records(kind, id, old(buf)@ + data@),
        final(buf)@ == remainder(old(buf)@ + data@),
{
    push_bytes(buf, data);
    let ghost all = buf@;
    let total: usize = buf.len();
    let mut records: Vec<Record> = Vec::new();
    let mut pos: usize = 0;
    assert(all.skip(0) =~= all);
    assert(views(records@) + full_records(kind, id, all) =~= full_records(kind, id, all));
    while total - pos >= RECORD_LIMIT
        invariant
            buf@ == all,
            total == all.len(),
            pos <= total,
            full_records(kind, id, all) == views(records@) + full_records(
                kind,
                id,
                all.skip(pos as int),
            ),
            remainder(all) == remainder(all.skip(pos as int)),
        decreases total - pos,
    {
        let content = copy_range(buf.as_slice(), pos, pos + RECORD_LIMIT);
        let rec = Record { record_type: kind, request_id: id, content };
        proof {
            let here = all.skip(pos as int);
            assert(here.subrange(0, 65535) =~= rec@.content);
            assert(here.skip(65535) =~= all.skip(pos + 65535));
            assert(views(records@.push(rec)) =~= views(records@).push(rec@));
            assert(views(records@) + (seq![rec@] + full_records(kind, id, here.skip(65535)))
                =~= views(records@).push(rec@) + full_records(kind, id, here.skip(65535)));
        }
        records.push(rec);
        pos = pos + RECORD_LIMIT;
    }
    proof {
        assert(views(records@) + Seq::<RecordView>::empty() =~= views(records@));
    }
    if pos > 0 {
        let rest = copy_range(buf.as_slice(), pos, total);
        *buf = rest;
        assert(buf@ =~= all.skip(pos as int));
    } else {
        assert(all.skip(0) =~= all);
    }
    records
}

/// Takes what is pending in `buf` as one record, if anything is pending.
fn drain(buf: &mut Vec<u8>, kind: u8, id: u16, records: &mut Vec<Record>)
    ensures
        final(buf)@ == Seq::<u8>::empty(),
        views(final(records)@) == views(old(records)@) + flushed(kind, id, old(buf)@),
{
    if buf.len() > 0 {
        let mut content: Vec<u8> = Vec::new();
        core::mem::swap(&mut content, buf);
        let rec = Record { record_type: kind, request_id: id, content };
        assert(views(records@.push(rec)) =~= views(records@) + flushed(kind, id, old(buf)@));
        records.push(rec);
    } else {
        assert(buf@ =~= Seq::<u8>::empty());
        assert(views(records@) =~= views(records@) + flushed(kind, id, old(buf)@));
    }
}

/// Adds the empty record that ends a stream.
fn push_end_of_stream(records: &mut Vec<Record>, kind: u8, id: u16)
    ensures
        views(final(records)@) == views(old(records)@) + seq![end_of_stream(kind, id)],
{
    let rec = Record { record_type: kind, request_id: id, content: Vec::new() };
    assert(rec@ == end_of_stream(kind, id)) by {
        assert(rec@.content =~= Seq::<u8>::empty());
    }
    assert(views(records@.push(rec)) =~= views(records@) + seq![end_of_stream(kind, id)]);
    records.push(rec);
}

impl ResponseWriter {
    /// Whether both buffers are short of a full record.
    pub open spec fn wf(&self) -> bool {
        self@.wf()
    }

    /// A writer for request `id`, with nothing written.
    pub fn new(id: u16) -> (w: ResponseWriter)
        ensures
            w@ == WriterView::fresh(id),
            w.wf(),
    {
        let w = ResponseWriter {
            request_id: id,
            stdout: Vec::new(),
            stderr: Vec::new(),
            stderr_used: false,
        };
        assert(w@.stdout =~= Seq::<u8>::empty());
        assert(w@.stderr =~= Seq::<u8>::empty());
        w
    }

    /// Writes `data` to `stream`. Sends a record of 65535 bytes each time
    /// the buffer fills; keeps the rest.
    pub fn write(&mut self, stream: Stream, data: &[u8]) -> (records: Vec<Record>)
        requires
            old(self).wf(),
        ensures
            final(self)@ == old(self)@.after_write(stream, data@),
            views(records@) == old(self)@.write_records(stream, data@),
            final(self).wf(),
    {
        let id: u16 = self.request_id;
        proof {
            lemma_remainder_short(self@.pending(stream) + data@);
        }
        match stream {
            Stream::Stdout => { absorb(&mut self.stdout, STDOUT, id, data) },
            Stream::Stderr => {
                if data.len() > 0 {
                    self.stderr_used = true;
                }
                absorb(&mut self.stderr, STDERR, id, data)
            },
        }
    }

    /// Sends what is pending on `stream` as one record. Sends nothing when
    /// nothing is pending.
    pub fn flush(&mut self, stream: Stream) -> (records: Vec<Record>)
        requires
            old(self).wf(),
        ensures
            final(self)@ == old(self)@.with_pending(stream, Seq::<u8>::empty()),
            views(records@) == old(self)@.flush_records(stream),
            final(self).wf(),
    {
        let id: u16 = self.request_id;
        let mut records: Vec<Record> = Vec::new();
        assert(views(records@) =~= Seq::<RecordView>::empty());
        match stream {
            Stream::Stdout => { drain(&mut self.stdout, STDOUT, id, &mut records) },
            Stream::Stderr => { drain(&mut self.stderr, STDERR, id, &mut records) },
        }
        assert(views(records@) =~= old(self)@.flush_records(stream));
        records
    }

    /// Drops what is pending on both streams.
    pub fn discard(&mut self)
        ensures
            final(self)@ == old(self)@.emptied(),
            final(self).wf(),
    {
        self.stdout = Vec::new();
        self.stderr = Vec::new();
        assert(self@.stdout =~= Seq::<u8>::empty());
        assert(self@.stderr =~= Seq::<u8>::empty());
    }

    /// Closes the response: sends what is pending on stdout and ends
    /// stdout; if stderr was written to, sends what is pending there and
    /// ends stderr; then sends END_REQUEST.
    pub fn close(&mut self) -> (records: Vec<Record>)
        requires
            old(self).wf(),
        ensures
            final(self)@ == old(self)@.emptied(),
            views(records@) == old(self)@.closing_records(),
            final(self).wf(),
    {
        let id: u16 = self.request_id;
        let mut records: Vec<Record> = Vec::new();
        assert(views(records@) =~= Seq::<RecordView>::empty());
        drain(&mut self.stdout, STDOUT, id, &mut records);
        push_end_of_stream(&mut records, STDOUT, id);
        if self.stderr_used {
            drain(&mut self.stderr, STDERR, id, &mut records);
            push_end_of_stream(&mut records, STDERR, id);
        } else {
            self.stderr = Vec::new();
            assert(self@.stderr =~= Seq::<u8>::empty());
        }
        let end = make_end_request(id, 0, REQUEST_COMPLETE);
        assert(views(records@.push(end)) =~= old(self)@.closing_records());
        records.push(end);
        records
    }
}

} // verus!
