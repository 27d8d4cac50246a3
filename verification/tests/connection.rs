use std::collections::HashMap;

use fastcgi::connection::{Action, Connection};
use fastcgi::error::{ProtocolError, StreamError};
use fastcgi::params::encode_name_value;
use fastcgi::request::{RequestState, StdinRead};
use fastcgi::response::Stream;
use fastcgi::wire::{encode_record, read_record, Record};

const HELLO: &[u8] = b"Content-Type: text/plain\n\nHello, world!";

fn begin(id: u16, role: u16, flags: u8) -> Vec<u8> {
    let r = role.to_be_bytes();
    encode_record(1, id, &[r[0], r[1], flags, 0, 0, 0, 0, 0])
}

fn params(id: u16, pairs: &[(&str, &str)]) -> Vec<u8> {
    let mut content: Vec<u8> = Vec::new();
    for (n, v) in pairs {
        content.extend(encode_name_value(n.as_bytes(), v.as_bytes()));
    }
    encode_record(4, id, &content)
}

fn stdin(id: u16, content: &[u8]) -> Vec<u8> {
    encode_record(5, id, content)
}

fn rec(kind: u8, id: u16, content: &[u8]) -> Record {
    Record { record_type: kind, request_id: id, content: content.to_vec() }
}

fn end(id: u16, app: u32, status: u8) -> Record {
    let a = app.to_be_bytes();
    rec(3, id, &[a[0], a[1], a[2], a[3], status, 0, 0, 0])
}

/// The records that `bytes` hold.
fn records(bytes: &[u8]) -> Vec<Record> {
    let mut out: Vec<Record> = Vec::new();
    let mut at: usize = 0;
    while at < bytes.len() {
        let (r, next) = read_record(bytes, at).unwrap().unwrap();
        out.push(r);
        at = next;
    }
    out
}

/// A whole request from the peer: begin, one parameter, end of parameters,
/// end of input.
fn simple_request(id: u16, flags: u8) -> Vec<u8> {
    let mut input = begin(id, 1, flags);
    input.extend(params(id, &[("REQUEST_METHOD", "GET")]));
    input.extend(params(id, &[]));
    input.extend(stdin(id, b""));
    input
}

#[test]
fn minimal_responder() {
    let mut c = Connection::new();
    let out = c.receive(&simple_request(1, 0));
    assert_eq!(out.action, Action::Invoke);
    assert_eq!(out.bytes, Vec::<u8>::new());
    assert_eq!(out.error, None);
    assert!(c.handler_running());
    {
        let req = c.request().unwrap();
        assert_eq!(req.id(), 1);
        assert_eq!(req.role(), 1);
        assert_eq!(req.param(b"REQUEST_METHOD"), Some(&b"GET".to_vec()));
    }
    assert_eq!(c.write(Stream::Stdout, HELLO), Ok(Vec::new()));
    let out = c.finish();
    assert_eq!(
        records(&out.bytes),
        vec![rec(6, 1, HELLO), rec(6, 1, b""), end(1, 0, 0)]
    );
    let mut wire = encode_record(6, 1, HELLO);
    wire.extend([1, 6, 0, 1, 0, 0, 0, 0]);
    wire.extend([1, 3, 0, 1, 0, 8, 0, 0, 0, 0, 0, 0, 0, 0, 0, 0]);
    assert_eq!(out.bytes, wire);
    assert_eq!(out.action, Action::Close);
    assert!(!c.is_open());
    assert!(c.request().is_none());
}

#[test]
fn kept_connection_serves_a_second_request() {
    let mut c = Connection::new();
    let out = c.receive(&simple_request(1, 1));
    assert_eq!(out.action, Action::Invoke);
    c.write(Stream::Stdout, HELLO).unwrap();
    let out = c.finish();
    assert_eq!(
        records(&out.bytes),
        vec![rec(6, 1, HELLO), rec(6, 1, b""), end(1, 0, 0)]
    );
    assert_eq!(out.action, Action::Read);
    assert!(c.is_open());
    assert!(c.request().is_none());

    let mut second = begin(2, 1, 0);
    second.extend(params(2, &[("REQUEST_METHOD", "POST")]));
    second.extend(params(2, &[]));
    second.extend(stdin(2, b"body"));
    second.extend(stdin(2, b""));
    let out = c.receive(&second);
    assert_eq!(out.action, Action::Invoke);
    assert_eq!(out.error, None);
    {
        let req = c.request().unwrap();
        assert_eq!(req.id(), 2);
        assert_eq!(req.param(b"REQUEST_METHOD"), Some(&b"POST".to_vec()));
    }
    assert_eq!(c.read_stdin(100), StdinRead::Pending);
    let out = c.receive(b"");
    assert_eq!(out.action, Action::Read);
    assert_eq!(c.read_stdin(100), StdinRead::Data(b"body".to_vec()));
    assert_eq!(c.read_stdin(100), StdinRead::End);
    c.write(Stream::Stdout, b"second").unwrap();
    let out = c.finish();
    assert_eq!(
        records(&out.bytes),
        vec![rec(6, 2, b"second"), rec(6, 2, b""), end(2, 0, 0)]
    );
    assert_eq!(out.action, Action::Close);
    assert!(!c.is_open());
}

#[test]
fn request_id_can_be_used_again_on_a_kept_connection() {
    let mut c = Connection::new();
    assert_eq!(c.receive(&simple_request(1, 1)).action, Action::Invoke);
    assert_eq!(c.finish().action, Action::Read);
    let out = c.receive(&simple_request(1, 1));
    assert_eq!(out.action, Action::Invoke);
    assert_eq!(out.error, None);
    assert_eq!(c.request().unwrap().state(), RequestState::StdinOpen);
}

#[test]
fn parameters_over_several_records() {
    let long_name = "A".repeat(200);
    let long_value = "B".repeat(400);
    let mut list = encode_name_value(b"PATH", b"/");
    list.extend(encode_name_value(long_name.as_bytes(), long_value.as_bytes()));
    let mut input = begin(1, 1, 0);
    input.extend(encode_record(4, 1, &list[..2]));
    input.extend(encode_record(4, 1, &list[2..211]));
    input.extend(encode_record(4, 1, &list[211..]));
    input.extend(encode_record(4, 1, b""));
    let mut c = Connection::new();
    let out = c.receive(&input);
    assert_eq!(out.action, Action::Invoke);
    let req = c.request().unwrap();
    let entries = req.params().entries();
    assert_eq!(entries.len(), 2);
    assert_eq!(entries[0].name, b"PATH".to_vec());
    assert_eq!(entries[0].value, b"/".to_vec());
    assert_eq!(entries[1].name, long_name.as_bytes().to_vec());
    assert_eq!(entries[1].value, long_value.as_bytes().to_vec());
}

#[test]
fn large_stdout() {
    let mut data: Vec<u8> = Vec::with_capacity(200000);
    let mut i: usize = 0;
    while i < 200000 {
        data.push((i % 253) as u8);
        i += 1;
    }
    let mut c = Connection::new();
    assert_eq!(c.receive(&simple_request(1, 0)).action, Action::Invoke);
    let mut wire = c.write(Stream::Stdout, &data).unwrap();
    let out = c.finish();
    wire.extend(out.bytes);
    let sent = records(&wire);
    let n: usize = sent.len();
    assert!(n >= 6);
    assert_eq!(sent[n - 1], end(1, 0, 0));
    assert_eq!(sent[n - 2], rec(6, 1, b""));
    let mut payload: Vec<u8> = Vec::new();
    let mut carrying: usize = 0;
    for r in &sent[..n - 2] {
        assert_eq!(r.record_type, 6);
        assert_eq!(r.request_id, 1);
        assert!(r.content.len() <= 65535);
        assert!(!r.content.is_empty());
        payload.extend(&r.content);
        carrying += 1;
    }
    assert!(carrying >= 4);
    assert_eq!(carrying, 4);
    assert_eq!(payload, data);
    assert_eq!(sent[0].content.len(), 65535);
    assert_eq!(sent[3].content.len(), 200000 - 3 * 65535);
}

#[test]
fn abort_before_the_handler_writes() {
    let mut input = begin(1, 1, 1);
    input.extend(params(1, &[]));
    let mut c = Connection::new();
    assert_eq!(c.receive(&input).action, Action::Invoke);
    let out = c.receive(&encode_record(2, 1, b""));
    assert_eq!(records(&out.bytes), vec![end(1, 0, 0)]);
    assert_eq!(out.action, Action::Read);
    assert_eq!(out.error, None);
    assert_eq!(c.request().unwrap().state(), RequestState::Done);
    assert_eq!(c.write(Stream::Stdout, b"too late"), Ok(Vec::new()));
    assert_eq!(c.write(Stream::Stderr, b"too late"), Ok(Vec::new()));
    assert_eq!(c.flush(Stream::Stdout), Ok(Vec::new()));
    assert_eq!(c.read_stdin(10), StdinRead::End);
    let out = c.finish();
    assert_eq!(out.bytes, Vec::<u8>::new());
    assert_eq!(out.action, Action::Read);
    assert!(c.is_open());
}

#[test]
fn abort_without_keep_conn_closes_when_the_handler_returns() {
    let mut input = begin(1, 1, 0);
    input.extend(params(1, &[]));
    let mut c = Connection::new();
    assert_eq!(c.receive(&input).action, Action::Invoke);
    let out = c.receive(&encode_record(2, 1, b""));
    assert_eq!(records(&out.bytes), vec![end(1, 0, 0)]);
    assert_eq!(out.action, Action::Read);
    let out = c.finish();
    assert_eq!(out.bytes, Vec::<u8>::new());
    assert_eq!(out.action, Action::Close);
    assert!(!c.is_open());
}

#[test]
fn connection_abort_while_parameters_come_in() {
    let mut input = begin(7, 1, 1);
    input.extend(params(7, &[("A", "B")]));
    input.extend(encode_record(2, 7, b""));
    let mut c = Connection::new();
    let out = c.receive(&input);
    assert_eq!(records(&out.bytes), vec![end(7, 0, 0)]);
    assert_eq!(out.action, Action::Read);
    assert!(c.request().is_none());
    assert!(c.is_open());

    let mut input = begin(7, 1, 0);
    input.extend(encode_record(2, 7, b""));
    let mut c = Connection::new();
    let out = c.receive(&input);
    assert_eq!(records(&out.bytes), vec![end(7, 0, 0)]);
    assert_eq!(out.action, Action::Close);
    assert!(!c.is_open());
}

#[test]
fn connection_turns_down_other_roles() {
    let mut c = Connection::new();
    let out = c.receive(&begin(1, 2, 0));
    assert_eq!(records(&out.bytes), vec![end(1, 0, 3)]);
    assert_eq!(out.action, Action::Close);
    assert_eq!(out.error, None);
    assert!(c.request().is_none());
    assert!(!c.handler_running());

    let mut c = Connection::new();
    let out = c.receive(&begin(1, 3, 1));
    assert_eq!(records(&out.bytes), vec![end(1, 0, 3)]);
    assert_eq!(out.action, Action::Read);
    assert!(c.is_open());
    assert_eq!(c.receive(&simple_request(2, 0)).action, Action::Invoke);
}

#[test]
fn second_request_is_turned_down_while_one_is_served() {
    let mut c = Connection::new();
    assert_eq!(c.receive(&simple_request(1, 0)).action, Action::Invoke);
    let out = c.receive(&begin(2, 1, 0));
    assert_eq!(records(&out.bytes), vec![end(2, 0, 1)]);
    assert_eq!(out.action, Action::Read);
    assert_eq!(out.error, None);
    assert_eq!(c.request().unwrap().id(), 1);
    c.write(Stream::Stdout, HELLO).unwrap();
    let out = c.finish();
    assert_eq!(
        records(&out.bytes),
        vec![rec(6, 1, HELLO), rec(6, 1, b""), end(1, 0, 0)]
    );
}

#[test]
fn second_request_is_turned_down_while_parameters_come_in() {
    let mut input = begin(1, 1, 0);
    input.extend(begin(2, 1, 0));
    input.extend(params(1, &[("A", "B")]));
    input.extend(params(1, &[]));
    let mut c = Connection::new();
    let out = c.receive(&input);
    assert_eq!(records(&out.bytes), vec![end(2, 0, 1)]);
    assert_eq!(out.action, Action::Invoke);
    assert_eq!(c.request().unwrap().param(b"A"), Some(&b"B".to_vec()));
}

#[test]
fn begin_for_the_active_id_closes_the_connection() {
    let mut input = begin(1, 1, 1);
    input.extend(begin(1, 1, 1));
    let mut c = Connection::new();
    let out = c.receive(&input);
    assert_eq!(out.action, Action::Close);
    assert_eq!(out.error, Some(ProtocolError::Violation));
    assert_eq!(out.bytes, Vec::<u8>::new());
    assert!(!c.is_open());
    assert!(c.request().is_none());
}

#[test]
fn records_for_an_unknown_id_close_the_connection() {
    for kind in [4u8, 5u8, 2u8, 8u8, 6u8, 3u8, 77u8] {
        let mut c = Connection::new();
        let out = c.receive(&encode_record(kind, 3, b""));
        assert_eq!(out.action, Action::Close);
        assert_eq!(out.error, Some(ProtocolError::Violation));
        assert!(!c.is_open());
    }
    let mut input = begin(1, 1, 1);
    input.extend(params(2, &[]));
    let mut c = Connection::new();
    let out = c.receive(&input);
    assert_eq!(out.action, Action::Close);
    assert_eq!(out.error, Some(ProtocolError::Violation));
}

#[test]
fn records_out_of_state_close_the_connection() {
    let mut input = begin(1, 1, 1);
    input.extend(stdin(1, b"early"));
    let mut c = Connection::new();
    let out = c.receive(&input);
    assert_eq!(out.action, Action::Close);
    assert_eq!(out.error, Some(ProtocolError::Violation));

    let mut c = Connection::new();
    assert_eq!(c.receive(&simple_request(1, 1)).action, Action::Invoke);
    let out = c.receive(&params(1, &[]));
    assert_eq!(out.action, Action::Close);
    assert_eq!(out.error, Some(ProtocolError::Violation));
    assert_eq!(c.write(Stream::Stdout, b"x"), Err(StreamError::Disconnected));
    assert_eq!(c.read_stdin(1), StdinRead::End);
    let out = c.finish();
    assert_eq!(out.bytes, Vec::<u8>::new());
    assert_eq!(out.action, Action::Close);
    assert!(c.request().is_none());
}

#[test]
fn malformed_header_closes_the_connection() {
    let mut input = begin(1, 1, 1);
    let mut bad = params(1, &[]);
    bad[0] = 9;
    input.extend(bad);
    input.extend(params(1, &[]));
    let mut c = Connection::new();
    let out = c.receive(&input);
    assert_eq!(out.action, Action::Close);
    assert_eq!(out.error, Some(ProtocolError::MalformedRecord));
    assert_eq!(out.bytes, Vec::<u8>::new());
    assert!(!c.is_open());
    let out = c.receive(&simple_request(2, 0));
    assert_eq!(out.action, Action::Close);
    assert_eq!(out.bytes, Vec::<u8>::new());
    assert_eq!(out.error, None);
}

#[test]
fn short_begin_request_closes_the_connection() {
    let mut c = Connection::new();
    let out = c.receive(&encode_record(1, 1, &[0, 1, 0]));
    assert_eq!(out.action, Action::Close);
    assert_eq!(out.error, Some(ProtocolError::MalformedRecord));
}

#[test]
fn malformed_parameters_close_the_connection() {
    let mut input = begin(1, 1, 1);
    input.extend(encode_record(4, 1, &[5, 1, b'x']));
    input.extend(params(1, &[]));
    let mut c = Connection::new();
    let out = c.receive(&input);
    assert_eq!(out.action, Action::Close);
    assert_eq!(out.error, Some(ProtocolError::MalformedParams));
    assert_eq!(out.bytes, Vec::<u8>::new());
    assert!(!c.handler_running());
}

#[test]
fn bytes_may_come_in_any_pieces() {
    let input = simple_request(1, 0);
    let mut c = Connection::new();
    let mut i: usize = 0;
    let mut invoked = false;
    while i < input.len() {
        let out = c.receive(&input[i..i + 1]);
        assert_eq!(out.bytes, Vec::<u8>::new());
        assert_eq!(out.error, None);
        if out.action == Action::Invoke {
            assert!(!invoked);
            invoked = true;
        } else {
            assert_eq!(out.action, Action::Read);
        }
        i += 1;
    }
    assert!(invoked);
    assert_eq!(c.request().unwrap().state(), RequestState::Running);
    assert_eq!(c.read_stdin(1), StdinRead::End);
}

#[test]
fn padding_is_passed_over() {
    let mut input = begin(1, 1, 0);
    input.extend([1, 4, 0, 1, 0, 3, 2, 0, 1, 1, b'k', 0xee, 0xee]);
    input.extend([1, 4, 0, 1, 0, 1, 7, 0, b'v', 1, 2, 3, 4, 5, 6, 7]);
    input.extend(params(1, &[]));
    let mut c = Connection::new();
    let out = c.receive(&input);
    assert_eq!(out.action, Action::Invoke);
    assert_eq!(c.request().unwrap().param(b"k"), Some(&b"v".to_vec()));
}

#[test]
fn input_arrives_while_the_handler_runs() {
    let mut input = begin(1, 1, 0);
    input.extend(params(1, &[]));
    let mut c = Connection::new();
    assert_eq!(c.receive(&input).action, Action::Invoke);
    assert_eq!(c.read_stdin(8), StdinRead::Pending);
    assert_eq!(c.receive(&stdin(1, b"first")).action, Action::Read);
    assert_eq!(c.read_stdin(3), StdinRead::Data(b"fir".to_vec()));
    assert_eq!(c.read_stdin(8), StdinRead::Data(b"st".to_vec()));
    assert_eq!(c.read_stdin(8), StdinRead::Pending);
    let mut more = stdin(1, b"second");
    more.extend(stdin(1, b""));
    assert_eq!(c.receive(&more).action, Action::Read);
    assert_eq!(c.read_stdin(80), StdinRead::Data(b"second".to_vec()));
    assert_eq!(c.read_stdin(80), StdinRead::End);
}

#[test]
fn unread_input_is_passed_over_after_the_request() {
    let mut input = begin(1, 1, 1);
    input.extend(params(1, &[]));
    input.extend(stdin(1, b"never read"));
    let mut c = Connection::new();
    assert_eq!(c.receive(&input).action, Action::Invoke);
    let out = c.finish();
    assert_eq!(records(&out.bytes), vec![rec(6, 1, b""), end(1, 0, 0)]);
    assert_eq!(out.action, Action::Read);
    let mut rest = stdin(1, b"more of it");
    rest.extend(stdin(1, b""));
    let out = c.receive(&rest);
    assert_eq!(out.action, Action::Read);
    assert_eq!(out.error, None);
    assert_eq!(out.bytes, Vec::<u8>::new());
    assert!(c.is_open());
    let out = c.receive(&stdin(1, b""));
    assert_eq!(out.action, Action::Close);
    assert_eq!(out.error, Some(ProtocolError::Violation));
}

#[test]
fn failed_handler() {
    let mut c = Connection::new();
    assert_eq!(c.receive(&simple_request(1, 1)).action, Action::Invoke);
    c.write(Stream::Stdout, b"half").unwrap();
    let out = c.fail();
    assert_eq!(records(&out.bytes), vec![end(1, 1, 0)]);
    assert_eq!(out.action, Action::Read);
    assert!(c.is_open());
    assert_eq!(c.receive(&simple_request(2, 0)).action, Action::Invoke);
    let out = c.fail();
    assert_eq!(records(&out.bytes), vec![end(2, 1, 0)]);
    assert_eq!(out.action, Action::Close);
}

#[test]
fn peer_goes_away() {
    let mut c = Connection::new();
    assert_eq!(c.receive(&begin(1, 1, 1)).action, Action::Read);
    assert_eq!(c.disconnect(), Action::Close);
    assert!(!c.is_open());
    assert!(c.request().is_none());

    let mut c = Connection::new();
    assert_eq!(c.receive(&simple_request(1, 1)).action, Action::Invoke);
    c.write(Stream::Stdout, b"pending").unwrap();
    assert_eq!(c.disconnect(), Action::Close);
    assert!(c.handler_running());
    assert_eq!(c.read_stdin(4), StdinRead::End);
    assert_eq!(c.write(Stream::Stdout, b"x"), Err(StreamError::Disconnected));
    assert_eq!(c.flush(Stream::Stdout), Err(StreamError::Disconnected));
    let out = c.finish();
    assert_eq!(out.bytes, Vec::<u8>::new());
    assert_eq!(out.action, Action::Close);
    assert!(!c.handler_running());
}

#[test]
fn management_records() {
    let mut q = encode_name_value(b"FCGI_MPXS_CONNS", b"");
    q.extend(encode_name_value(b"FCGI_MAX_CONNS", b""));
    let mut input = encode_record(9, 0, &q);
    input.extend(encode_record(42, 0, b"?"));
    input.extend(encode_record(10, 0, b""));
    let mut c = Connection::new();
    let out = c.receive(&input);
    let mut values = encode_name_value(b"FCGI_MAX_CONNS", b"1");
    values.extend(encode_name_value(b"FCGI_MPXS_CONNS", b"0"));
    assert_eq!(
        records(&out.bytes),
        vec![rec(10, 0, &values), rec(11, 0, &[42, 0, 0, 0, 0, 0, 0, 0])]
    );
    assert_eq!(out.action, Action::Read);
    assert_eq!(out.error, None);
    assert!(c.is_open());
}

#[test]
fn management_records_while_a_request_is_served() {
    let mut c = Connection::new();
    assert_eq!(c.receive(&simple_request(1, 0)).action, Action::Invoke);
    let out = c.receive(&encode_record(9, 0, &encode_name_value(b"FCGI_MAX_REQS", b"")));
    assert_eq!(
        records(&out.bytes),
        vec![rec(10, 0, &encode_name_value(b"FCGI_MAX_REQS", b"1"))]
    );
    assert_eq!(out.action, Action::Read);
    assert_eq!(c.request().unwrap().id(), 1);
}

#[test]
fn calls_without_a_request() {
    let mut c = Connection::new();
    assert_eq!(c.write(Stream::Stdout, b"x"), Err(StreamError::Disconnected));
    assert_eq!(c.flush(Stream::Stderr), Err(StreamError::Disconnected));
    assert_eq!(c.read_stdin(1), StdinRead::End);
    let out = c.finish();
    assert_eq!(out.bytes, Vec::<u8>::new());
    assert_eq!(out.action, Action::Read);
    let out = c.fail();
    assert_eq!(out.bytes, Vec::<u8>::new());
    assert_eq!(out.action, Action::Read);
    assert!(c.is_open());
}

#[test]
fn one_record_at_a_time() {
    let mut c = Connection::new();
    let s = c.on_record(&rec(1, 5, &[0, 1, 1, 0, 0, 0, 0, 0]));
    assert_eq!(s.action, Action::Read);
    assert_eq!(s.records, Vec::new());
    assert_eq!(s.error, None);
    let s = c.on_record(&rec(1, 6, &[0, 1, 1, 0, 0, 0, 0, 0]));
    assert_eq!(s.records, vec![end(6, 0, 1)]);
    let s = c.on_record(&rec(4, 5, b""));
    assert_eq!(s.action, Action::Invoke);
    let s = c.on_record(&rec(5, 5, b"in"));
    assert_eq!(s.action, Action::Read);
    let s = c.on_record(&rec(8, 5, b"data"));
    assert_eq!(s.action, Action::Close);
    assert_eq!(s.error, Some(ProtocolError::Violation));
    let s = c.on_record(&rec(5, 5, b""));
    assert_eq!(s.action, Action::Close);
    assert_eq!(s.error, None);
    assert_eq!(s.records, Vec::new());
}

#[test]
fn it_works() {
    let env: HashMap<String, String> = [
        ("PATH", "/usr/local/bin:/usr/bin:/bin"),
        ("REQUEST_METHOD", "GET"),
        ("REMOTE_ADDR", "127.0.0.1"),
        ("SERVER_SOFTWARE", "Apache"),
        ("SCRIPT_FILENAME", "/var/www/index.php"),
        ("SCRIPT_NAME", "/index.php"),
        ("QUERY_STRING", ""),
    ]
    .iter()
    .cloned()
    .map(|(k, v)| (k.into(), v.into()))
    .collect();

    let mut input = begin(1, 1, 0);
    for (k, v) in &env {
        input.extend(params(1, &[(k.as_str(), v.as_str())]));
    }
    input.extend(params(1, &[]));
    input.extend(stdin(1, b""));

    let mut c = Connection::new();
    assert_eq!(c.receive(&input).action, Action::Invoke);
    let mut wire = c
        .write(Stream::Stdout, b"Content-Type: text/plain\n\nHello, world!")
        .unwrap();
    let seen: HashMap<String, String> = c
        .request()
        .unwrap()
        .params()
        .entries()
        .iter()
        .map(|p| {
            (
                String::from_utf8(p.name.clone()).unwrap(),
                String::from_utf8(p.value.clone()).unwrap(),
            )
        })
        .collect();
    wire.extend(c.finish().bytes);

    let sent = records(&wire);
    let mut stdout: Vec<u8> = Vec::new();
    for r in &sent {
        if r.record_type == 6 {
            stdout.extend(&r.content);
        }
    }
    assert_eq!(sent.last(), Some(&end(1, 0, 0)));

    let expected = "Content-Type: text/plain\n\nHello, world!";
    assert_eq!(Ok(expected), std::str::from_utf8(&stdout));
    assert_eq!(env, seen);
}
