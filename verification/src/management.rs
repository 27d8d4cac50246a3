//! Management records: those with request id 0.
//!
//! GET_VALUES is answered with GET_VALUES_RESULT, a record type that the
//! protocol does not know with UNKNOWN_TYPE, and any other record is passed
//! over.

use vstd::prelude::*;
use crate::error::ProtocolError;
use crate::params::{
    decode_params, lemma_length_prefix_form, pair_bytes, pair_views, pairs_bytes, parse_pairs,
    push_name_value, NameValue, PairView,
};
use crate::param_map::same_bytes;
use crate::wire::{
    is_known_type, make_unknown_type, unknown_type, views, Record, RecordView, GET_VALUES,
    GET_VALUES_RESULT, MANAGEMENT_ID,
};

verus! {

/// The name `FCGI_MAX_CONNS`, in ASCII.
pub open spec fn max_conns_name() -> Seq<u8> {
    seq![70u8, 67u8, 71u8, 73u8, 95u8, 77u8, 65u8, 88u8, 95u8, 67u8, 79u8, 78u8, 78u8, 83u8]
}

/// The name `FCGI_MAX_REQS`, in ASCII.
pub open spec fn max_reqs_name() -> Seq<u8> {
    seq![70u8, 67u8, 71u8, 73u8, 95u8, 77u8, 65u8, 88u8, 95u8, 82u8, 69u8, 81u8, 83u8]
}

/// The name `FCGI_MPXS_CONNS`, in ASCII.
pub open spec fn mpxs_conns_name() -> Seq<u8> {
    seq![
        70u8,
        67u8,
        71u8,
        73u8,
        95u8,
        77u8,
        80u8,
        88u8,
        83u8,
        95u8,
        67u8,
        79u8,
        78u8,
        78u8,
        83u8,
    ]
}

/// The digit `1`, in ASCII: one connection, one request at a time.
pub open spec fn one() -> Seq<u8> {
    seq![49u8]
}

/// The digit `0`, in ASCII: no multiplexing.
pub open spec fn zero() -> Seq<u8> {
    seq![48u8]
}

/// Whether some pair of the query bears the name.
pub open spec fn asks_for(query: Seq<PairView>, name: Seq<u8>) -> bool {
    exists|i: int| 0 <= i < query.len() && (#[trigger] query[i]).0 == name
}

/// The pair that answers `name`, if the query asks for it.
pub open spec fn answer(query: Seq<PairView>, name: Seq<u8>, value: Seq<u8>) -> Seq<PairView> {
    if asks_for(query, name) {
        seq![(name, value)]
    } else {
        Seq::<PairView>::empty()
    }
}

/// The pairs that answer a query: of the three names that are known, those
/// that the query asks for, each once, in this order: `FCGI_MAX_CONNS` with
/// the value `1`, `FCGI_MAX_REQS` with `1`, `FCGI_MPXS_CONNS` with `0`.
pub open spec fn values_for(query: Seq<PairView>) -> Seq<PairView> {
    answer(query, max_conns_name(), one()) + answer(query, max_reqs_name(), one()) + answer(
        query,
        mpxs_conns_name(),
        zero(),
    )
}

/// The GET_VALUES_RESULT record that answers a query.
pub open spec fn values_result(query: Seq<PairView>) -> RecordView {
    RecordView {
        record_type: GET_VALUES_RESULT,
        request_id: MANAGEMENT_ID,
        content: pairs_bytes(values_for(query)),
    }
}

/// What a management record is answered with. `None` when it is a
/// GET_VALUES whose content is no name-value list.
pub open spec fn management_reply(rec: RecordView) -> Option<Seq<RecordView>> {
    if rec.record_type == GET_VALUES {
        match parse_pairs(rec.content) {
            None => None,
            Some(query) => Some(seq![values_result(query)]),
        }
    } else if !is_known_type(rec.record_type) {
        Some(seq![unknown_type(rec.record_type)])
    } else {
        Some(Seq::<RecordView>::empty())
    }
}

/// The bytes of at most one short pair, and of a list with one pair more.
proof fn lemma_answer_bytes(query: Seq<PairView>, name: Seq<u8>, value: Seq<u8>)
    requires
        name.len() <= 15,
        value.len() == 1,
    ensures
        pairs_bytes(answer(query, name, value)) == if asks_for(query, name) {
            pair_bytes((name, value))
        } else {
            Seq::<u8>::empty()
        },
        pairs_bytes(answer(query, name, value)).len() <= 18,
{
    reveal_with_fuel(pairs_bytes, 2);
    lemma_length_prefix_form(name.len());
    lemma_length_prefix_form(value.len());
    let a = answer(query, name, value);
    if asks_for(query, name) {
        assert(a.skip(1) =~= Seq::<PairView>::empty());
        assert(pairs_bytes(a) =~= pair_bytes((name, value)));
    }
}

/// The bytes of two lists joined are the bytes of each, joined.
proof fn lemma_pairs_bytes_concat(a: Seq<PairView>, b: Seq<PairView>)
    ensures
        pairs_bytes(a + b) == pairs_bytes(a) + pairs_bytes(b),
    decreases a.len(),
{
    if a.len() == 0 {
        assert(a + b =~= b);
        assert(pairs_bytes(a) + pairs_bytes(b) =~= pairs_bytes(b));
    } else {
        lemma_pairs_bytes_concat(a.skip(1), b);
        assert((a + b).skip(1) =~= a.skip(1) + b);
        assert(pairs_bytes(a + b) =~= pairs_bytes(a) + pairs_bytes(b));
    }
}

/// The answer to a query fits in one record with room to spare.
pub proof fn lemma_values_result_fits(query: Seq<PairView>)
    ensures
        values_result(query).content.len() <= 54,
        values_result(query).fits(),
{
    let a = answer(query, max_conns_name(), one());
    let b = answer(query, max_reqs_name(), one());
    let c = answer(query, mpxs_conns_name(), zero());
    lemma_answer_bytes(query, max_conns_name(), one());
    lemma_answer_bytes(query, max_reqs_name(), one());
    lemma_answer_bytes(query, mpxs_conns_name(), zero());
    lemma_pairs_bytes_concat(a + b, c);
    lemma_pairs_bytes_concat(a, b);
}

/// Whether some pair of the list bears the name.
fn names_include(pairs: &Vec<NameValue>, name: &[u8]) -> (r: bool)
    ensures
        r == asks_for(pair_views(pairs@), name@),
{
    let n: usize = pairs.len();
    let mut i: usize = 0;
    while i < n
        invariant
            n == pairs@.len(),
            i <= n,
            forall|j: int| 0 <= j < i ==> (#[trigger] pair_views(pairs@)[j]).0 != name@,
        decreases n - i,
    {
        if same_bytes(pairs[i].name.as_slice(), name) {
            assert(pair_views(pairs@)[i as int].0 == name@);
            return true;
        }
        i = i + 1;
    }
    false
}

/// Adds the pair that answers `name`, if the query asks for it.
fn push_answer(out: &mut Vec<u8>, query: &Vec<NameValue>, name: Vec<u8>, value: Vec<u8>)
    requires
        name@.len() <= 15,
        value@.len() == 1,
    ensures
        final(out)@ == old(out)@ + pairs_bytes(answer(pair_views(query@), name@, value@)),
{
    proof {
        lemma_answer_bytes(pair_views(query@), name@, value@);
    }
    if names_include(query, name.as_slice()) {
        push_name_value(out, name.as_slice(), value.as_slice());
    } else {
        assert(out@ =~= old(out)@ + Seq::<u8>::empty());
    }
}

/// Answers a management record: GET_VALUES with GET_VALUES_RESULT, a record
/// type that the protocol does not know with UNKNOWN_TYPE, anything else
/// with nothing. A GET_VALUES whose content is no name-value list is
/// refused.
pub fn answer_management(rec: &Record) -> (r: Result<Vec<Record>, ProtocolError>)
    ensures
        match management_reply(rec@) {
            None => r matches Err(ProtocolError::MalformedParams),
            Some(reply) => r matches Ok(records) && views(records@) == reply,
        },
{
    let mut records: Vec<Record> = Vec::new();
    assert(views(records@) =~= Seq::<RecordView>::empty());
    if rec.record_type == GET_VALUES {
        match decode_params(rec.content.as_slice()) {
            Err(e) => {
                return Err(e);
            },
            Ok(query) => {
                let ghost q = pair_views(query@);
                let max_conns: Vec<u8> = vec![
                    70u8,
                    67u8,
                    71u8,
                    73u8,
                    95u8,
                    77u8,
                    65u8,
                    88u8,
                    95u8,
                    67u8,
                    79u8,
                    78u8,
                    78u8,
                    83u8,
                ];
                let max_reqs: Vec<u8> = vec![
                    70u8,
                    67u8,
                    71u8,
                    73u8,
                    95u8,
                    77u8,
                    65u8,
                    88u8,
                    95u8,
                    82u8,
                    69u8,
                    81u8,
                    83u8,
                ];
                let mpxs_conns: Vec<u8> = vec![
                    70u8,
                    67u8,
                    71u8,
                    73u8,
                    95u8,
                    77u8,
                    80u8,
                    88u8,
                    83u8,
                    95u8,
                    67u8,
                    79u8,
                    78u8,
                    78u8,
                    83u8,
                ];
                let yes: Vec<u8> = vec![49u8];
                let also: Vec<u8> = vec![49u8];
                let no: Vec<u8> = vec![48u8];
                assert(max_conns@ =~= max_conns_name());
                assert(max_reqs@ =~= max_reqs_name());
                assert(mpxs_conns@ =~= mpxs_conns_name());
                assert(yes@ =~= one());
                assert(also@ =~= one());
                assert(no@ =~= zero());
                let mut content: Vec<u8> = Vec::new();
                push_answer(&mut content, &query, max_conns, yes);
                push_answer(&mut content, &query, max_reqs, also);
                push_answer(&mut content, &query, mpxs_conns, no);
                proof {
                    let a = answer(q, max_conns_name(), one());
                    let b = answer(q, max_reqs_name(), one());
                    let c = answer(q, mpxs_conns_name(), zero());
                    lemma_pairs_bytes_concat(a + b, c);
                    lemma_pairs_bytes_concat(a, b);
                    assert(content@ =~= pairs_bytes(values_for(q)));
                }
                let reply = Record {
                    record_type: GET_VALUES_RESULT,
                    request_id: MANAGEMENT_ID,
                    content,
                };
                assert(views(records@.push(reply)) =~= seq![values_result(q)]);
                records.push(reply);
            },
        }
    } else if rec.record_type < 1 || rec.record_type > 11 {
        let reply = make_unknown_type(rec.record_type);
        assert(views(records@.push(reply)) =~= seq![unknown_type(rec.record_type)]);
        records.push(reply);
    }
    Ok(records)
}

} // verus!
