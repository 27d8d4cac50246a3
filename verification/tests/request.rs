use fastcgi::error::{ProtocolError, StreamError};
use fastcgi::params::{encode_name_value, NameValue};
use fastcgi::request::{Request, RequestState, StdinRead, FAILED_STATUS};
use fastcgi::response::Stream;
use fastcgi::wire::Record;

fn rec(kind: u8, id: u16, content: &[u8]) -> Record {
    Record { record_type: kind, request_id: id, content: content.to_vec() }
}

fn end(id: u16, app: u32, status: u8) -> Record {
    let a = app.to_be_bytes();
    rec(3, id, &[a[0], a[1], a[2], a[3], status, 0, 0, 0])
}

fn nv(name: &[u8], value: &[u8]) -> NameValue {
    NameValue { name: name.to_vec(), value: value.to_vec() }
}

/// A responder request whose parameters are complete.
fn served(id: u16, flags: u8) -> Request {
    let mut r = Request::new(id);
    assert_eq!(r.begin(1, flags), Ok(Vec::new()));
    assert_eq!(r.on_params(&encode_name_value(b"REQUEST_METHOD", b"GET")), Ok(false));
    assert_eq!(r.on_params(b""), Ok(true));
    r
}

#[test]
fn new_request() {
    let r = Request::new(12);
    assert_eq!(r.id(), 12);
    assert_eq!(r.state(), RequestState::New);
    assert!(r.is_connected());
    assert!(!r.is_serving());
    assert!(!r.keep_conn());
    assert_eq!(r.params().len(), 0);
}

#[test]
fn states_in_order() {
    let mut r = Request::new(1);
    assert_eq!(r.begin(1, 0), Ok(Vec::new()));
    assert_eq!(r.state(), RequestState::ParamsOpen);
    assert_eq!(r.role(), 1);
    assert!(!r.keep_conn());
    assert_eq!(r.on_params(&encode_name_value(b"A", b"1")), Ok(false));
    assert_eq!(r.state(), RequestState::ParamsOpen);
    assert_eq!(r.on_params(b""), Ok(true));
    assert_eq!(r.state(), RequestState::StdinOpen);
    assert!(r.is_serving());
    assert_eq!(r.on_stdin(b"body"), Ok(()));
    assert_eq!(r.state(), RequestState::StdinOpen);
    assert_eq!(r.on_stdin(b""), Ok(()));
    assert_eq!(r.state(), RequestState::Running);
    assert!(r.is_serving());
    assert_eq!(r.finish(), vec![rec(6, 1, b""), end(1, 0, 0)]);
    assert_eq!(r.state(), RequestState::Done);
    assert!(!r.is_serving());
}

#[test]
fn keep_conn_is_the_low_bit_of_the_flags() {
    let mut r = Request::new(1);
    r.begin(1, 1).unwrap();
    assert!(r.keep_conn());
    let mut r = Request::new(1);
    r.begin(1, 0xfe).unwrap();
    assert!(!r.keep_conn());
    let mut r = Request::new(1);
    r.begin(1, 0xff).unwrap();
    assert!(r.keep_conn());
}

#[test]
fn other_roles_are_turned_down() {
    let mut r = Request::new(4);
    assert_eq!(r.begin(2, 0), Ok(vec![end(4, 0, 3)]));
    assert_eq!(r.state(), RequestState::Done);
    assert_eq!(r.role(), 2);
    let mut r = Request::new(4);
    assert_eq!(r.begin(3, 1), Ok(vec![end(4, 0, 3)]));
    assert!(r.keep_conn());
    let mut r = Request::new(4);
    assert_eq!(r.begin(0, 0), Ok(vec![end(4, 0, 3)]));
}

#[test]
fn records_out_of_order_are_refused() {
    let mut r = Request::new(1);
    assert_eq!(r.on_params(b""), Err(ProtocolError::Violation));
    assert_eq!(r.on_stdin(b""), Err(ProtocolError::Violation));
    r.begin(1, 0).unwrap();
    assert_eq!(r.begin(1, 0), Err(ProtocolError::Violation));
    assert_eq!(r.on_stdin(b"x"), Err(ProtocolError::Violation));
    assert_eq!(r.state(), RequestState::ParamsOpen);
    r.on_params(b"").unwrap();
    assert_eq!(r.on_params(b""), Err(ProtocolError::Violation));
    assert_eq!(r.begin(1, 0), Err(ProtocolError::Violation));
    r.on_stdin(b"").unwrap();
    assert_eq!(r.on_stdin(b""), Err(ProtocolError::Violation));
    assert_eq!(r.on_stdin(b"more"), Err(ProtocolError::Violation));
    assert_eq!(r.state(), RequestState::Running);
    r.finish();
    assert_eq!(r.on_stdin(b""), Err(ProtocolError::Violation));
    assert_eq!(r.on_params(b""), Err(ProtocolError::Violation));
}

#[test]
fn parameters_are_decoded_when_they_end() {
    let mut all = encode_name_value(b"PATH", b"/");
    all.extend(encode_name_value(&vec![b'A'; 200], &vec![b'B'; 400]));
    let mut r = Request::new(1);
    r.begin(1, 0).unwrap();
    assert_eq!(r.on_params(&all[..3]), Ok(false));
    assert_eq!(r.params().len(), 0);
    assert_eq!(r.on_params(&all[3..300]), Ok(false));
    assert_eq!(r.on_params(&all[300..]), Ok(false));
    assert_eq!(r.on_params(b""), Ok(true));
    assert_eq!(
        r.params().entries(),
        &vec![nv(b"PATH", b"/"), nv(&vec![b'A'; 200], &vec![b'B'; 400])]
    );
    assert_eq!(r.param(b"PATH"), Some(&b"/".to_vec()));
    assert_eq!(r.param(b"path"), None);
}

#[test]
fn parameter_given_twice_has_the_last_value() {
    let mut all = encode_name_value(b"X", b"first");
    all.extend(encode_name_value(b"Y", b"y"));
    all.extend(encode_name_value(b"X", b"last"));
    let mut r = Request::new(1);
    r.begin(1, 0).unwrap();
    r.on_params(&all).unwrap();
    r.on_params(b"").unwrap();
    assert_eq!(r.param(b"X"), Some(&b"last".to_vec()));
    assert_eq!(r.params().entries(), &vec![nv(b"X", b"last"), nv(b"Y", b"y")]);
    assert_eq!(r.params().entries(), &vec![nv(b"X", b"last"), nv(b"Y", b"y")]);
}

#[test]
fn malformed_parameters_are_refused() {
    let mut r = Request::new(1);
    r.begin(1, 0).unwrap();
    r.on_params(&[4, 1, b'P']).unwrap();
    assert_eq!(r.on_params(b""), Err(ProtocolError::MalformedParams));
    assert_eq!(r.state(), RequestState::ParamsOpen);
}

#[test]
fn no_parameters_at_all() {
    let mut r = Request::new(1);
    r.begin(1, 0).unwrap();
    assert_eq!(r.on_params(b""), Ok(true));
    assert_eq!(r.params().len(), 0);
}

#[test]
fn input_is_read_in_order() {
    let mut r = served(1, 0);
    assert_eq!(r.read_stdin(10), StdinRead::Pending);
    r.on_stdin(b"hello ").unwrap();
    r.on_stdin(b"world").unwrap();
    assert_eq!(r.read_stdin(4), StdinRead::Data(b"hell".to_vec()));
    assert_eq!(r.read_stdin(0), StdinRead::Data(Vec::new()));
    assert_eq!(r.read_stdin(100), StdinRead::Data(b"o world".to_vec()));
    assert_eq!(r.read_stdin(100), StdinRead::Pending);
    r.on_stdin(b"!").unwrap();
    r.on_stdin(b"").unwrap();
    assert_eq!(r.read_stdin(100), StdinRead::Data(b"!".to_vec()));
    assert_eq!(r.read_stdin(100), StdinRead::End);
    assert_eq!(r.read_stdin(100), StdinRead::End);
    assert_eq!(r.read_stdin(0), StdinRead::End);
}

#[test]
fn writes_are_kept_until_the_handler_returns() {
    let mut r = served(1, 0);
    assert_eq!(r.write_stdout(b"Content-Type: text/plain\n\n"), Ok(Vec::new()));
    assert_eq!(r.write_stdout(b"Hello, world!"), Ok(Vec::new()));
    assert_eq!(
        r.finish(),
        vec![
            rec(6, 1, b"Content-Type: text/plain\n\nHello, world!"),
            rec(6, 1, b""),
            end(1, 0, 0),
        ]
    );
    assert_eq!(r.finish(), Vec::new());
}

#[test]
fn flush_sends_what_is_pending() {
    let mut r = served(2, 0);
    r.write(Stream::Stdout, b"a").unwrap();
    r.write(Stream::Stderr, b"b").unwrap();
    assert_eq!(r.flush(Stream::Stdout), Ok(vec![rec(6, 2, b"a")]));
    assert_eq!(r.flush(Stream::Stdout), Ok(Vec::new()));
    assert_eq!(r.flush(Stream::Stderr), Ok(vec![rec(7, 2, b"b")]));
    assert_eq!(
        r.finish(),
        vec![rec(6, 2, b""), rec(7, 2, b""), end(2, 0, 0)]
    );
}

#[test]
fn stderr_is_closed_only_if_written_to() {
    let mut r = served(2, 0);
    r.write_stderr(b"warning").unwrap();
    r.write_stdout(b"body").unwrap();
    assert_eq!(
        r.finish(),
        vec![
            rec(6, 2, b"body"),
            rec(6, 2, b""),
            rec(7, 2, b"warning"),
            rec(7, 2, b""),
            end(2, 0, 0),
        ]
    );
}

#[test]
fn handler_may_return_before_the_input_ends() {
    let mut r = served(1, 0);
    r.on_stdin(b"unread").unwrap();
    assert_eq!(r.state(), RequestState::StdinOpen);
    assert_eq!(r.finish(), vec![rec(6, 1, b""), end(1, 0, 0)]);
    assert_eq!(r.state(), RequestState::Done);
    assert_eq!(r.read_stdin(10), StdinRead::End);
}

#[test]
fn abort_ends_the_request_and_drops_what_is_pending() {
    let mut r = served(1, 0);
    r.on_stdin(b"input").unwrap();
    r.write_stdout(b"pending").unwrap();
    assert_eq!(r.abort(), vec![end(1, 0, 0)]);
    assert_eq!(r.state(), RequestState::Done);
    assert_eq!(r.write_stdout(b"late"), Ok(Vec::new()));
    assert_eq!(r.write_stderr(b"late"), Ok(Vec::new()));
    assert_eq!(r.flush(Stream::Stdout), Ok(Vec::new()));
    assert_eq!(r.read_stdin(10), StdinRead::End);
    assert_eq!(r.finish(), Vec::new());
    assert_eq!(r.fail(), Vec::new());
    assert_eq!(r.abort(), Vec::new());
}

#[test]
fn abort_while_parameters_come_in() {
    let mut r = Request::new(6);
    r.begin(1, 0).unwrap();
    assert_eq!(r.abort(), vec![end(6, 0, 0)]);
    assert_eq!(r.state(), RequestState::Done);
    assert_eq!(r.on_params(b""), Err(ProtocolError::Violation));
}

#[test]
fn failed_handler_is_reported_once() {
    let mut r = served(1, 0);
    r.write_stdout(b"half a page").unwrap();
    assert_eq!(r.fail(), vec![end(1, FAILED_STATUS, 0)]);
    assert_ne!(FAILED_STATUS, 0);
    assert_eq!(r.state(), RequestState::Done);
    assert_eq!(r.fail(), Vec::new());
    assert_eq!(r.finish(), Vec::new());
}

#[test]
fn handler_calls_before_the_handler_runs_do_nothing() {
    let mut r = Request::new(1);
    assert_eq!(r.write_stdout(b"x"), Ok(Vec::new()));
    assert_eq!(r.finish(), Vec::new());
    assert_eq!(r.fail(), Vec::new());
    r.begin(1, 0).unwrap();
    assert_eq!(r.write_stdout(b"x"), Ok(Vec::new()));
    assert_eq!(r.finish(), Vec::new());
    assert_eq!(r.state(), RequestState::ParamsOpen);
    r.on_params(b"").unwrap();
    assert_eq!(r.finish(), vec![rec(6, 1, b""), end(1, 0, 0)]);
}

#[test]
fn lost_connection() {
    let mut r = served(1, 1);
    r.on_stdin(b"input").unwrap();
    r.write_stdout(b"pending").unwrap();
    r.disconnect();
    assert!(!r.is_connected());
    assert!(!r.is_serving());
    assert_eq!(r.state(), RequestState::StdinOpen);
    assert_eq!(r.read_stdin(10), StdinRead::End);
    assert_eq!(r.write_stdout(b"x"), Err(StreamError::Disconnected));
    assert_eq!(r.write_stderr(b"x"), Err(StreamError::Disconnected));
    assert_eq!(r.flush(Stream::Stdout), Err(StreamError::Disconnected));
    assert_eq!(r.on_stdin(b""), Err(ProtocolError::Violation));
    assert_eq!(r.abort(), Vec::new());
    assert_eq!(r.finish(), Vec::new());
    assert_eq!(r.fail(), Vec::new());
}

#[test]
fn stream_records_never_exceed_the_limit() {
    let mut r = served(9, 0);
    let mut sent: Vec<Record> = Vec::new();
    let chunk = vec![7u8; 50000];
    let mut i: usize = 0;
    while i < 7 {
        sent.extend(r.write_stdout(&chunk).unwrap());
        sent.extend(r.write_stderr(&chunk[..30000]).unwrap());
        i += 1;
    }
    sent.extend(r.finish());
    let mut out: usize = 0;
    let mut err: usize = 0;
    for s in &sent {
        assert!(s.content.len() <= 65535);
        assert_eq!(s.request_id, 9);
        if s.record_type == 6 {
            out += s.content.len();
        }
        if s.record_type == 7 {
            err += s.content.len();
        }
    }
    assert_eq!(out, 350000);
    assert_eq!(err, 210000);
    let ends: Vec<&Record> = sent.iter().filter(|s| s.record_type == 3).collect();
    assert_eq!(ends.len(), 1);
    assert_eq!(sent.last().unwrap().record_type, 3);
}
