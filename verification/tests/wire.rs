use fastcgi::error::ProtocolError;
use fastcgi::wire::{
    decode_begin_request, decode_header, encode_header, encode_record, encode_records,
    make_end_request, make_unknown_type, read_record, BeginRequest, Header, Record, END_REQUEST,
    MAX_CONTENT_LEN, STDOUT, UNKNOWN_TYPE,
};

#[test]
fn header_fields_are_big_endian() {
    let h = decode_header(&[1, 6, 0x12, 0x34, 0xab, 0xcd, 7, 0]).unwrap();
    assert_eq!(
        h,
        Header {
            version: 1,
            record_type: 6,
            request_id: 0x1234,
            content_length: 0xabcd,
            padding_length: 7,
        }
    );
    assert_eq!(encode_header(&h), vec![1, 6, 0x12, 0x34, 0xab, 0xcd, 7, 0]);
}

#[test]
fn header_with_other_version_is_malformed() {
    assert_eq!(
        decode_header(&[2, 6, 0, 1, 0, 0, 0, 0]),
        Err(ProtocolError::MalformedRecord)
    );
    assert_eq!(
        decode_header(&[0, 6, 0, 1, 0, 0, 0, 0]),
        Err(ProtocolError::MalformedRecord)
    );
}

#[test]
fn header_of_unknown_type_is_decoded() {
    let h = decode_header(&[1, 200, 0, 0, 0, 0, 0, 9]).unwrap();
    assert_eq!(h.record_type, 200);
    assert_eq!(h.request_id, 0);
}

#[test]
fn header_survives_encoding_and_decoding() {
    let h = Header {
        version: 1,
        record_type: 4,
        request_id: 65535,
        content_length: 256,
        padding_length: 255,
    };
    let bytes = encode_header(&h);
    let mut eight = [0u8; 8];
    eight.copy_from_slice(&bytes);
    assert_eq!(decode_header(&eight), Ok(h));
}

#[test]
fn record_is_header_then_payload_without_padding() {
    let bytes = encode_record(STDOUT, 1, b"hello");
    assert_eq!(
        bytes,
        vec![1, 6, 0, 1, 0, 5, 0, 0, b'h', b'e', b'l', b'l', b'o']
    );
}

#[test]
fn record_of_largest_content() {
    let payload = vec![0x5au8; MAX_CONTENT_LEN];
    let bytes = encode_record(STDOUT, 300, &payload);
    assert_eq!(bytes.len(), 8 + 65535);
    assert_eq!(&bytes[..8], &[1, 6, 1, 44, 0xff, 0xff, 0, 0]);
    assert_eq!(&bytes[8..], &payload[..]);
}

#[test]
fn empty_record_is_only_a_header() {
    assert_eq!(encode_record(5, 1, b""), vec![1, 5, 0, 1, 0, 0, 0, 0]);
}

#[test]
fn records_are_encoded_one_after_the_other() {
    let records = vec![
        Record { record_type: 6, request_id: 1, content: b"ab".to_vec() },
        Record { record_type: 6, request_id: 1, content: Vec::new() },
    ];
    let mut expected = encode_record(6, 1, b"ab");
    expected.extend(encode_record(6, 1, b""));
    assert_eq!(encode_records(&records), expected);
    assert_eq!(encode_records(&Vec::new()), Vec::<u8>::new());
}

#[test]
fn read_record_gives_back_what_was_encoded() {
    let mut buf = encode_record(4, 9, b"abc");
    buf.extend(encode_record(5, 9, b""));
    let (first, next) = read_record(&buf, 0).unwrap().unwrap();
    assert_eq!(
        first,
        Record { record_type: 4, request_id: 9, content: b"abc".to_vec() }
    );
    assert_eq!(next, 11);
    let (second, end) = read_record(&buf, next).unwrap().unwrap();
    assert_eq!(
        second,
        Record { record_type: 5, request_id: 9, content: Vec::new() }
    );
    assert_eq!(end, buf.len());
    assert_eq!(read_record(&buf, end), Ok(None));
    assert_eq!(read_record(&buf, end + 5), Ok(None));
}

#[test]
fn read_record_skips_padding() {
    let buf: Vec<u8> = vec![1, 6, 0, 2, 0, 3, 5, 0, b'x', b'y', b'z', 9, 9, 9, 9, 9, 1];
    let (rec, next) = read_record(&buf, 0).unwrap().unwrap();
    assert_eq!(
        rec,
        Record { record_type: 6, request_id: 2, content: b"xyz".to_vec() }
    );
    assert_eq!(next, 16);
}

#[test]
fn read_record_waits_for_the_whole_record() {
    let whole = encode_record(6, 1, b"hello");
    let mut cut: usize = 0;
    while cut < whole.len() {
        assert_eq!(read_record(&whole[..cut], 0), Ok(None));
        cut += 1;
    }
    let padded: Vec<u8> = vec![1, 6, 0, 1, 0, 1, 2, 0, b'x', 0];
    assert_eq!(read_record(&padded, 0), Ok(None));
}

#[test]
fn read_record_refuses_other_versions() {
    let mut buf = encode_record(6, 1, b"hello");
    buf[0] = 3;
    assert_eq!(read_record(&buf, 0), Err(ProtocolError::MalformedRecord));
}

#[test]
fn begin_request_body() {
    let b = decode_begin_request(&[0, 1, 1, 0, 0, 0, 0, 0]).unwrap();
    assert_eq!(b, BeginRequest { role: 1, flags: 1 });
    assert!(b.keep_conn());
    let b = decode_begin_request(&[1, 2, 0xfe, 7, 7, 7, 7, 7]).unwrap();
    assert_eq!(b, BeginRequest { role: 258, flags: 0xfe });
    assert!(!b.keep_conn());
    assert_eq!(
        decode_begin_request(&[0, 1, 1, 0, 0, 0, 0]),
        Err(ProtocolError::MalformedRecord)
    );
    assert_eq!(decode_begin_request(&[]), Err(ProtocolError::MalformedRecord));
}

#[test]
fn end_request_body() {
    let r = make_end_request(5, 0x01020304, 3);
    assert_eq!(
        r,
        Record {
            record_type: END_REQUEST,
            request_id: 5,
            content: vec![1, 2, 3, 4, 3, 0, 0, 0],
        }
    );
    let r = make_end_request(1, 0, 0);
    assert_eq!(r.content, vec![0u8; 8]);
}

#[test]
fn unknown_type_body() {
    let r = make_unknown_type(99);
    assert_eq!(
        r,
        Record {
            record_type: UNKNOWN_TYPE,
            request_id: 0,
            content: vec![99, 0, 0, 0, 0, 0, 0, 0],
        }
    );
}
