//! The record layer: the eight-byte header, whole records, and the fixed
//! bodies of BEGIN_REQUEST, END_REQUEST and UNKNOWN_TYPE.

use vstd::prelude::*;
use crate::error::ProtocolError;

verus! {

/// The only protocol version.
pub const VERSION: u8 = 1;

/// Length of a record header.
pub const HEADER_LEN: usize = 8;

/// Largest content a record can carry.
pub const MAX_CONTENT_LEN: usize = 65535;

/// Record type: the web server opens a request.
pub const BEGIN_REQUEST: u8 = 1;

/// Record type: the web server gives a request up.
pub const ABORT_REQUEST: u8 = 2;

/// Record type: the application closes a request.
pub const END_REQUEST: u8 = 3;

/// Record type: name-value pairs of a request; an empty record ends them.
pub const PARAMS: u8 = 4;

/// Record type: input of a request; an empty record ends it.
pub const STDIN: u8 = 5;

/// Record type: output of a request; an empty record ends it.
pub const STDOUT: u8 = 6;

/// Record type: error output of a request; an empty record ends it.
pub const STDERR: u8 = 7;

/// Record type: the second input stream of a filter.
pub const DATA: u8 = 8;

/// Record type: the web server asks for values of the application.
pub const GET_VALUES: u8 = 9;

/// Record type: the answer to GET_VALUES.
pub const GET_VALUES_RESULT: u8 = 10;

/// Record type: the answer to a management record of a type that is not
/// known.
pub const UNKNOWN_TYPE: u8 = 11;

/// The request id of management records.
pub const MANAGEMENT_ID: u16 = 0;

/// Role: the application answers a request with a response.
pub const RESPONDER: u16 = 1;

/// Role: the application decides whether a request is allowed.
pub const AUTHORIZER: u16 = 2;

/// Role: the application filters a stream of data.
pub const FILTER: u16 = 3;

/// Low bit of the BEGIN_REQUEST flags: keep the connection after the
/// request.
pub const KEEP_CONN: u8 = 1;

/// Protocol status: the request is over.
pub const REQUEST_COMPLETE: u8 = 0;

/// Protocol status: the request is turned down because the connection
/// serves one request at a time.
pub const CANT_MPX_CONN: u8 = 1;

/// Protocol status: the request is turned down for want of resources.
pub const OVERLOADED: u8 = 2;

/// Protocol status: the request is turned down because its role is not
/// served.
pub const UNKNOWN_ROLE: u8 = 3;

/// Whether `code` is one of the eleven record types of the protocol.
pub open spec fn is_known_type(code: u8) -> bool {
    1 <= code <= 11
}

/// The 16-bit number whose big-endian bytes are `hi`, `lo`.
pub open spec fn be16(hi: u8, lo: u8) -> u16 {
    (hi as int * 256 + lo as int) as u16
}

/// The 32-bit number whose big-endian bytes are `b3`, `b2`, `b1`, `b0`.
pub open spec fn be32(b3: u8, b2: u8, b1: u8, b0: u8) -> u32 {
    (b3 as int * 0x100_0000 + b2 as int * 0x1_0000 + b1 as int * 256 + b0 as int) as u32
}

/// The five fields of a record header.
#[derive(Clone, Copy, Debug, PartialEq, Eq, Structural)]
pub struct Header {
    pub version: u8,
    pub record_type: u8,
    pub request_id: u16,
    pub content_length: u16,
    pub padding_length: u8,
}

impl Header {
    /// The header that eight bytes spell.
    pub open spec fn parse(b: Seq<u8>) -> Header
        recommends
            b.len() == 8,
    {
        Header {
            version: b[0],
            record_type: b[1],
            request_id: be16(b[2], b[3]),
            content_length: be16(b[4], b[5]),
            padding_length: b[6],
        }
    }

    /// The eight bytes of this header; the reserved byte is zero.
    pub open spec fn bytes(self) -> Seq<u8> {
        seq![
            self.version,
            self.record_type,
            (self.request_id / 256) as u8,
            (self.request_id % 256) as u8,
            (self.content_length / 256) as u8,
            (self.content_length % 256) as u8,
            self.padding_length,
            0u8,
        ]
    }

    /// Bytes that the content and the padding take after the header.
    pub open spec fn body_len(self) -> nat {
        (self.content_length + self.padding_length) as nat
    }
}

/// Parsing the bytes of a header gives the header back.
pub proof fn lemma_header_roundtrip(h: Header)
    ensures
        h.bytes().len() == 8,
        Header::parse(h.bytes()) == h,
{
}

fn read_be16(hi: u8, lo: u8) -> (r: u16)
    ensures
        r == be16(hi, lo),
{
    let h: u16 = hi as u16;
    let l: u16 = lo as u16;
    h * 256 + l
}

/// Reads the header that starts at `at`.
pub(crate) fn header_at(buf: &[u8], at: usize) -> (h: Header)
    requires
        at + 8 <= buf@.len(),
    ensures
        h == Header::parse(buf@.subrange(at as int, at + 8)),
{
    Header {
        version: buf[at],
        record_type: buf[at + 1],
        request_id: read_be16(buf[at + 2], buf[at + 3]),
        content_length: read_be16(buf[at + 4], buf[at + 5]),
        padding_length: buf[at + 6],
    }
}

/// Decodes a record header. A version other than 1 is the one thing that
/// makes a header malformed.
pub fn decode_header(bytes: &[u8; 8]) -> (r: Result<Header, ProtocolError>)
    ensures
        bytes@[0] != VERSION ==> r == Err::<Header, ProtocolError>(ProtocolError::MalformedRecord),
        bytes@[0] == VERSION ==> r == Ok::<Header, ProtocolError>(Header::parse(bytes@)),
{
    if bytes[0] != VERSION {
        return Err(ProtocolError::MalformedRecord);
    }
    Ok(
        Header {
            version: bytes[0],
            record_type: bytes[1],
            request_id: read_be16(bytes[2], bytes[3]),
            content_length: read_be16(bytes[4], bytes[5]),
            padding_length: bytes[6],
        },
    )
}

/// Appends the eight bytes of `h` to `out`.
pub(crate) fn push_header(out: &mut Vec<u8>, h: Header)
    ensures
        final(out)@ == old(out)@ + h.bytes(),
{
    out.push(h.version);
    out.push(h.record_type);
    out.push((h.request_id / 256) as u8);
    out.push((h.request_id % 256) as u8);
    out.push((h.content_length / 256) as u8);
    out.push((h.content_length % 256) as u8);
    out.push(h.padding_length);
    out.push(0u8);
    assert(out@ =~= old(out)@ + h.bytes());
}

/// Encodes a record header.
pub fn encode_header(h: &Header) -> (out: Vec<u8>)
    ensures
        out@ == h.bytes(),
{
    let mut out: Vec<u8> = Vec::new();
    push_header(&mut out, *h);
    assert(out@ =~= h.bytes());
    out
}

/// A record without its framing: type, request id and content.
#[derive(Debug, PartialEq, Eq)]
pub struct Record {
    pub record_type: u8,
    pub request_id: u16,
    pub content: Vec<u8>,
}

/// What a [`Record`] stands for in contracts.
pub ghost struct RecordView {
    pub record_type: u8,
    pub request_id: u16,
    pub content: Seq<u8>,
}

impl View for Record {
    type V = RecordView;

    open spec fn view(&self) -> RecordView {
        RecordView {
            record_type: self.record_type,
            request_id: self.request_id,
            content: self.content@,
        }
    }
}

impl RecordView {
    /// The header this record is sent under: version 1, no padding.
    pub open spec fn header(self) -> Header
        recommends
            self.content.len() <= 65535,
    {
        Header {
            version: VERSION,
            record_type: self.record_type,
            request_id: self.request_id,
            content_length: self.content.len() as u16,
            padding_length: 0,
        }
    }

    /// The record on the wire: header, then content, no padding.
    pub open spec fn bytes(self) -> Seq<u8>
        recommends
            self.content.len() <= 65535,
    {
        self.header().bytes() + self.content
    }

    /// Whether the content fits in one record.
    pub open spec fn fits(self) -> bool {
        self.content.len() <= 65535
    }
}

/// The views of a run of records.
pub open spec fn views(records: Seq<Record>) -> Seq<RecordView> {
    records.map_values(|r: Record| r@)
}

/// A run of records on the wire, one after the other.
pub open spec fn wire_bytes(records: Seq<RecordView>) -> Seq<u8>
    decreases records.len(),
{
    if records.len() == 0 {
        Seq::<u8>::empty()
    } else {
        wire_bytes(records.drop_last()) + records.last().bytes()
    }
}

/// Whether every record of the run fits in one record of the wire.
pub open spec fn all_fit(records: Seq<RecordView>) -> bool {
    forall|i: int| 0 <= i < records.len() ==> #[trigger] records[i].fits()
}

/// Appends `data` to `out`.
pub(crate) fn push_bytes(out: &mut Vec<u8>, data: &[u8])
    ensures
        final(out)@ == old(out)@ + data@,
{
    let n: usize = data.len();
    let mut i: usize = 0;
    while i < n
        invariant
            n == data@.len(),
            i <= n,
            out@ == old(out)@ + data@.subrange(0, i as int),
        decreases n - i,
    {
        out.push(data[i]);
        i = i + 1;
        assert(out@ =~= old(out)@ + data@.subrange(0, i as int));
    }
    assert(data@.subrange(0, n as int) =~= data@);
}

/// Encodes one record: the header, the payload, and no padding.
pub fn encode_record(record_type: u8, request_id: u16, payload: &[u8]) -> (out: Vec<u8>)
    requires
        payload@.len() <= 65535,
    ensures
        out@ == (RecordView { record_type, request_id, content: payload@ }).bytes(),
        out@.len() == 8 + payload@.len(),
{
    let mut out: Vec<u8> = Vec::new();
    let h = Header {
        version: VERSION,
        record_type,
        request_id,
        content_length: payload.len() as u16,
        padding_length: 0,
    };
    push_header(&mut out, h);
    push_bytes(&mut out, payload);
    assert(out@ =~= h.bytes() + payload@);
    out
}

/// Encodes a run of records, one after the other.
pub fn encode_records(records: &Vec<Record>) -> (out: Vec<u8>)
    requires
        all_fit(views(records@)),
    ensures
        out@ == wire_bytes(views(records@)),
{
    let mut out: Vec<u8> = Vec::new();
    let n: usize = records.len();
    let mut i: usize = 0;
    while i < n
        invariant
            n == records@.len(),
            i <= n,
            all_fit(views(records@)),
            out@ == wire_bytes(views(records@).subrange(0, i as int)),
        decreases n - i,
    {
        let r = &records[i];
        proof {
            let vs = views(records@);
            assert(vs[i as int].fits());
            assert(vs[i as int] == r@);
            assert(vs.subrange(0, i + 1).drop_last() =~= vs.subrange(0, i as int));
            assert(vs.subrange(0, i + 1).last() == vs[i as int]);
        }
        let h = Header {
            version: VERSION,
            record_type: r.record_type,
            request_id: r.request_id,
            content_length: r.content.len() as u16,
            padding_length: 0,
        };
        let ghost before = out@;
        push_header(&mut out, h);
        push_bytes(&mut out, r.content.as_slice());
        assert(out@ =~= before + r@.bytes());
        i = i + 1;
    }
    assert(views(records@).subrange(0, n as int) =~= views(records@));
    out
}

/// What the front of a receive buffer holds.
pub ghost enum Framed {
    /// Not yet a whole record.
    Incomplete,
    /// A header with a version other than 1.
    Malformed,
    /// A whole record, which takes the first `used` bytes.
    Complete { record: RecordView, used: nat },
}

/// Reads one record off the front of `buf`. The padding is skipped.
pub open spec fn parse_record(buf: Seq<u8>) -> Framed {
    if buf.len() < 8 {
        Framed::Incomplete
    } else if buf[0] != VERSION {
        Framed::Malformed
    } else {
        let h = Header::parse(buf.subrange(0, 8));
        if buf.len() < 8 + h.body_len() {
            Framed::Incomplete
        } else {
            Framed::Complete {
                record: RecordView {
                    record_type: h.record_type,
                    request_id: h.request_id,
                    content: buf.subrange(8, 8 + h.content_length),
                },
                used: 8 + h.body_len(),
            }
        }
    }
}

/// A record that was encoded is read back as it was, whatever follows it.
pub proof fn lemma_frame_roundtrip(r: RecordView, rest: Seq<u8>)
    requires
        r.fits(),
    ensures
        parse_record(r.bytes() + rest) == (Framed::Complete {
            record: r,
            used: (8 + r.content.len()) as nat,
        }),
{
    let buf = r.bytes() + rest;
    let h = r.header();
    lemma_header_roundtrip(h);
    assert(buf.subrange(0, 8) =~= h.bytes());
    assert(buf.subrange(8, 8 + r.content.len() as int) =~= r.content);
}

/// The bytes of `buf` from `from` up to `to`, copied.
pub(crate) fn copy_range(buf: &[u8], from: usize, to: usize) -> (out: Vec<u8>)
    requires
        from <= to <= buf@.len(),
    ensures
        out@ == buf@.subrange(from as int, to as int),
{
    let mut out: Vec<u8> = Vec::new();
    let mut i: usize = from;
    while i < to
        invariant
            from <= i <= to <= buf@.len(),
            out@ == buf@.subrange(from as int, i as int),
        decreases to - i,
    {
        out.push(buf[i]);
        i = i + 1;
        assert(out@ =~= buf@.subrange(from as int, i as int));
    }
    out
}

/// Reads the record that starts at `at`, and says where the next one starts.
/// `Ok(None)` means that the record is not all there yet.
pub fn read_record(buf: &[u8], at: usize) -> (r: Result<Option<(Record, usize)>, ProtocolError>)
    ensures
        at > buf@.len() ==> r matches Ok(None),
        at <= buf@.len() ==> match parse_record(buf@.skip(at as int)) {
            Framed::Incomplete => r matches Ok(None),
            Framed::Malformed => r matches Err(ProtocolError::MalformedRecord),
            Framed::Complete { record, used } => r matches Ok(Some((rec, next))) && rec@ == record
                && next == at + used,
        },
{
    let len: usize = buf.len();
    if at > len || len - at < 8 {
        return Ok(None);
    }
    let ghost rest = buf@.skip(at as int);
    assert(rest.subrange(0, 8) =~= buf@.subrange(at as int, at + 8));
    assert(rest[0] == buf@[at as int]);
    if buf[at] != VERSION {
        return Err(ProtocolError::MalformedRecord);
    }
    let h = header_at(buf, at);
    let content_len: usize = h.content_length as usize;
    let body: usize = content_len + h.padding_length as usize;
    if len - at - 8 < body {
        return Ok(None);
    }
    let content = copy_range(buf, at + 8, at + 8 + content_len);
    assert(content@ =~= rest.subrange(8, 8 + h.content_length));
    let rec = Record { record_type: h.record_type, request_id: h.request_id, content };
    Ok(Some((rec, at + 8 + body)))
}

/// The body of a BEGIN_REQUEST record, as far as it is read.
#[derive(Clone, Copy, Debug, PartialEq, Eq, Structural)]
pub struct BeginRequest {
    pub role: u16,
    pub flags: u8,
}

impl BeginRequest {
    /// The body that `content` spells: a big-endian role, then the flags.
    pub open spec fn parse(content: Seq<u8>) -> BeginRequest
        recommends
            content.len() >= 8,
    {
        BeginRequest { role: be16(content[0], content[1]), flags: content[2] }
    }

    /// Whether the low bit of the flags is set.
    pub open spec fn wants_keep_conn(self) -> bool {
        self.flags % 2 == 1
    }

    /// Whether the peer asked to keep the connection after the request.
    pub fn keep_conn(&self) -> (b: bool)
        ensures
            b == self.wants_keep_conn(),
    {
        self.flags % 2 == 1
    }
}

/// Decodes the body of a BEGIN_REQUEST record. The five reserved bytes are
/// not looked at; a body of fewer than eight bytes is malformed.
pub fn decode_begin_request(content: &[u8]) -> (r: Result<BeginRequest, ProtocolError>)
    ensures
        content@.len() < 8 ==> r == Err::<BeginRequest, ProtocolError>(
            ProtocolError::MalformedRecord,
        ),
        content@.len() >= 8 ==> r == Ok::<BeginRequest, ProtocolError>(
            BeginRequest::parse(content@),
        ),
{
    if content.len() < 8 {
        return Err(ProtocolError::MalformedRecord);
    }
    Ok(BeginRequest { role: read_be16(content[0], content[1]), flags: content[2] })
}

/// The body of an END_REQUEST record: the application status as four
/// big-endian bytes, the protocol status, three zero bytes.
pub open spec fn end_request_body(app_status: u32, protocol_status: u8) -> Seq<u8> {
    seq![
        (app_status / 0x100_0000) as u8,
        ((app_status / 0x1_0000) % 256) as u8,
        ((app_status / 256) % 256) as u8,
        (app_status % 256) as u8,
        protocol_status,
        0u8,
        0u8,
        0u8,
    ]
}

/// The END_REQUEST record for request `id`.
pub open spec fn end_request(id: u16, app_status: u32, protocol_status: u8) -> RecordView {
    RecordView {
        record_type: END_REQUEST,
        request_id: id,
        content: end_request_body(app_status, protocol_status),
    }
}

/// Builds the END_REQUEST record for request `id`.
pub fn make_end_request(id: u16, app_status: u32, protocol_status: u8) -> (r: Record)
    ensures
        r@ == end_request(id, app_status, protocol_status),
{
    let mut content: Vec<u8> = Vec::new();
    content.push((app_status / 0x100_0000) as u8);
    content.push(((app_status / 0x1_0000) % 256) as u8);
    content.push(((app_status / 256) % 256) as u8);
    content.push((app_status % 256) as u8);
    content.push(protocol_status);
    content.push(0u8);
    content.push(0u8);
    content.push(0u8);
    assert(content@ =~= end_request_body(app_status, protocol_status));
    Record { record_type: END_REQUEST, request_id: id, content }
}

/// The application status that an END_REQUEST body carries.
pub open spec fn app_status_of(body: Seq<u8>) -> u32
    recommends
        body.len() >= 8,
{
    be32(body[0], body[1], body[2], body[3])
}

/// The status fields of an END_REQUEST body are read back as they were
/// written.
pub proof fn lemma_end_request_roundtrip(app_status: u32, protocol_status: u8)
    ensures
        end_request_body(app_status, protocol_status).len() == 8,
        app_status_of(end_request_body(app_status, protocol_status)) == app_status,
        end_request_body(app_status, protocol_status)[4] == protocol_status,
{
}

/// The body of an UNKNOWN_TYPE record: the type that was not understood,
/// then seven zero bytes.
pub open spec fn unknown_type_body(record_type: u8) -> Seq<u8> {
    seq![record_type, 0u8, 0u8, 0u8, 0u8, 0u8, 0u8, 0u8]
}

/// The UNKNOWN_TYPE management record that answers a record of type
/// `record_type`.
pub open spec fn unknown_type(record_type: u8) -> RecordView {
    RecordView {
        record_type: UNKNOWN_TYPE,
        request_id: MANAGEMENT_ID,
        content: unknown_type_body(record_type),
    }
}

/// Builds the UNKNOWN_TYPE record that answers a record of type
/// `record_type`.
pub fn make_unknown_type(record_type: u8) -> (r: Record)
    ensures
        r@ == unknown_type(record_type),
{
    let mut content: Vec<u8> = Vec::new();
    content.push(record_type);
    let mut i: usize = 0;
    while i < 7
        invariant
            i <= 7,
            content@.len() == 1 + i,
            content@[0] == record_type,
            forall|k: int| 1 <= k < content@.len() ==> content@[k] == 0,
        decreases 7 - i,
    {
        content.push(0u8);
        i = i + 1;
    }
    assert(content@ =~= unknown_type_body(record_type));
    Record { record_type: UNKNOWN_TYPE, request_id: MANAGEMENT_ID, content }
}

} // verus!
