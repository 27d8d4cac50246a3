use fastcgi::error::ProtocolError;
use fastcgi::management::answer_management;
use fastcgi::params::{decode_params, encode_name_value, NameValue};
use fastcgi::wire::Record;

fn rec(kind: u8, content: &[u8]) -> Record {
    Record { record_type: kind, request_id: 0, content: content.to_vec() }
}

fn nv(name: &[u8], value: &[u8]) -> NameValue {
    NameValue { name: name.to_vec(), value: value.to_vec() }
}

fn query(names: &[&[u8]]) -> Vec<u8> {
    let mut q: Vec<u8> = Vec::new();
    for n in names {
        q.extend(encode_name_value(n, b""));
    }
    q
}

#[test]
fn known_values() {
    let q = query(&[b"FCGI_MAX_CONNS", b"FCGI_MAX_REQS", b"FCGI_MPXS_CONNS"]);
    let reply = answer_management(&rec(9, &q)).unwrap();
    assert_eq!(reply.len(), 1);
    assert_eq!(reply[0].record_type, 10);
    assert_eq!(reply[0].request_id, 0);
    assert_eq!(
        decode_params(&reply[0].content),
        Ok(vec![
            nv(b"FCGI_MAX_CONNS", b"1"),
            nv(b"FCGI_MAX_REQS", b"1"),
            nv(b"FCGI_MPXS_CONNS", b"0"),
        ])
    );
}

#[test]
fn only_what_was_asked_for_and_is_known() {
    let q = query(&[b"FCGI_MPXS_CONNS", b"FCGI_SOMETHING", b"fcgi_max_reqs"]);
    let reply = answer_management(&rec(9, &q)).unwrap();
    assert_eq!(reply, vec![rec(10, &encode_name_value(b"FCGI_MPXS_CONNS", b"0"))]);
}

#[test]
fn each_name_is_answered_once() {
    let q = query(&[b"FCGI_MAX_REQS", b"FCGI_MAX_CONNS", b"FCGI_MAX_REQS"]);
    let reply = answer_management(&rec(9, &q)).unwrap();
    assert_eq!(
        decode_params(&reply[0].content),
        Ok(vec![nv(b"FCGI_MAX_CONNS", b"1"), nv(b"FCGI_MAX_REQS", b"1")])
    );
}

#[test]
fn empty_query_gets_an_empty_result() {
    assert_eq!(answer_management(&rec(9, b"")), Ok(vec![rec(10, b"")]));
}

#[test]
fn malformed_query_is_refused() {
    assert_eq!(
        answer_management(&rec(9, &[14, 0, b'F'])),
        Err(ProtocolError::MalformedParams)
    );
}

#[test]
fn unknown_types_are_named_in_the_answer() {
    assert_eq!(
        answer_management(&rec(12, b"whatever")),
        Ok(vec![rec(11, &[12, 0, 0, 0, 0, 0, 0, 0])])
    );
    assert_eq!(
        answer_management(&rec(0, b"")),
        Ok(vec![rec(11, &[0, 0, 0, 0, 0, 0, 0, 0])])
    );
    assert_eq!(
        answer_management(&rec(255, b"")),
        Ok(vec![rec(11, &[255, 0, 0, 0, 0, 0, 0, 0])])
    );
}

#[test]
fn other_known_types_are_passed_over() {
    let mut kind: u8 = 1;
    while kind <= 11 {
        if kind != 9 {
            assert_eq!(answer_management(&rec(kind, b"x")), Ok(Vec::new()));
        }
        kind += 1;
    }
}
