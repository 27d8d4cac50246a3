//! The name-value encoding of PARAMS and GET_VALUES content.
//!
//! A pair is a name length, a value length, the name and the value. A length
//! is one byte when it is at most 127, and otherwise four bytes, big-endian,
//! with the top bit of the first byte set.

use vstd::prelude::*;
use crate::error::ProtocolError;
use crate::wire::{copy_range, push_bytes};

verus! {

/// Largest length that a prefix can spell: 31 bits.
pub const MAX_LENGTH: usize = 0x7fff_ffff;

/// A name and a value, as contracts see them.
pub type PairView = (Seq<u8>, Seq<u8>);

/// One decoded pair.
#[derive(Clone, Debug, PartialEq, Eq)]
pub struct NameValue {
    pub name: Vec<u8>,
    pub value: Vec<u8>,
}

impl View for NameValue {
    type V = PairView;

    open spec fn view(&self) -> PairView {
        (self.name@, self.value@)
    }
}

/// The views of a list of pairs.
pub open spec fn pair_views(pairs: Seq<NameValue>) -> Seq<PairView> {
    pairs.map_values(|p: NameValue| p@)
}

/// The prefix that spells the length `n`.
#[verifier::opaque]
pub open spec fn length_prefix(n: nat) -> Seq<u8>
    recommends
        n <= MAX_LENGTH,
{
    if n <= 127 {
        seq![n as u8]
    } else {
        seq![
            (128 + n / 0x100_0000) as u8,
            ((n / 0x1_0000) % 256) as u8,
            ((n / 256) % 256) as u8,
            (n % 256) as u8,
        ]
    }
}

/// The length that the front of `s` spells, and how many bytes spell it.
/// `None` when `s` ends inside the prefix.
pub open spec fn parse_length(s: Seq<u8>) -> Option<(nat, nat)> {
    if s.len() == 0 {
        None
    } else if s[0] < 128 {
        Some((s[0] as nat, 1nat))
    } else if s.len() < 4 {
        None
    } else {
        Some(
            (
                ((s[0] - 128) * 0x100_0000 + s[1] * 0x1_0000 + s[2] * 256 + s[3]) as nat,
                4nat,
            ),
        )
    }
}

/// A length is spelled in one byte exactly when it is at most 127, and in
/// four bytes otherwise; the top bit of the first byte tells the two forms
/// apart.
pub proof fn lemma_length_prefix_form(n: nat)
    requires
        n <= MAX_LENGTH,
    ensures
        n <= 127 <==> length_prefix(n).len() == 1,
        n > 127 <==> length_prefix(n).len() == 4,
        n <= 127 <==> length_prefix(n)[0] < 128,
{
    reveal(length_prefix);
}

/// A prefix is read back as the length it spells, whatever follows it.
pub proof fn lemma_length_roundtrip(n: nat, rest: Seq<u8>)
    requires
        n <= MAX_LENGTH,
    ensures
        parse_length(length_prefix(n) + rest) == Some((n, length_prefix(n).len())),
{
    reveal(length_prefix);
    let s = length_prefix(n) + rest;
    if n > 127 {
        assert(s[0] == (128 + n / 0x100_0000) as u8);
        assert(s[1] == ((n / 0x1_0000) % 256) as u8);
        assert(s[2] == ((n / 256) % 256) as u8);
        assert(s[3] == (n % 256) as u8);
    } else {
        assert(s[0] == n as u8);
    }
}

/// One pair on the wire.
pub open spec fn pair_bytes(p: PairView) -> Seq<u8>
    recommends
        p.0.len() <= MAX_LENGTH,
        p.1.len() <= MAX_LENGTH,
{
    length_prefix(p.0.len()) + length_prefix(p.1.len()) + p.0 + p.1
}

/// A list of pairs on the wire, in order.
pub open spec fn pairs_bytes(ps: Seq<PairView>) -> Seq<u8>
    decreases ps.len(),
{
    if ps.len() == 0 {
        Seq::<u8>::empty()
    } else {
        pair_bytes(ps[0]) + pairs_bytes(ps.skip(1))
    }
}

/// The pair at the front of `s`, and how many bytes it takes. `None` when a
/// length prefix runs past the end of `s`, or the name and value do.
pub open spec fn parse_pair(s: Seq<u8>) -> Option<(PairView, nat)> {
    match parse_length(s) {
        None => None,
        Some((name_len, a)) => match parse_length(s.skip(a as int)) {
            None => None,
            Some((value_len, b)) => {
                let start = (a + b) as int;
                let mid = start + name_len as int;
                let end = mid + value_len as int;
                if s.len() < end {
                    None
                } else {
                    Some(((s.subrange(start, mid), s.subrange(mid, end)), end as nat))
                }
            },
        },
    }
}

/// The pairs that `s` holds, in order. `None` when `s` ends inside a pair.
/// No bytes, no pairs.
pub open spec fn parse_pairs(s: Seq<u8>) -> Option<Seq<PairView>>
    decreases s.len(),
{
    if s.len() == 0 {
        Some(Seq::<PairView>::empty())
    } else {
        match parse_pair(s) {
            None => None,
            Some((p, used)) => match parse_pairs(s.skip(used as int)) {
                None => None,
                Some(rest) => Some(seq![p] + rest),
            },
        }
    }
}

/// Whether every name and value of the list has a length that a prefix can
/// spell.
pub open spec fn encodable(ps: Seq<PairView>) -> bool {
    forall|i: int|
        0 <= i < ps.len() ==> (#[trigger] ps[i]).0.len() <= MAX_LENGTH && ps[i].1.len()
            <= MAX_LENGTH
}

/// An encoded pair is read back as it was, whatever follows it.
pub proof fn lemma_pair_roundtrip(p: PairView, rest: Seq<u8>)
    requires
        p.0.len() <= MAX_LENGTH,
        p.1.len() <= MAX_LENGTH,
    ensures
        parse_pair(pair_bytes(p) + rest) == Some((p, pair_bytes(p).len())),
{
    let s = pair_bytes(p) + rest;
    let a = length_prefix(p.0.len());
    let b = length_prefix(p.1.len());
    assert(s =~= a + (b + p.0 + p.1 + rest));
    lemma_length_roundtrip(p.0.len(), b + p.0 + p.1 + rest);
    assert(s.skip(a.len() as int) =~= b + (p.0 + p.1 + rest));
    lemma_length_roundtrip(p.1.len(), p.0 + p.1 + rest);
    let start = (a.len() + b.len()) as int;
    let mid = start + p.0.len() as int;
    assert(s.subrange(start, mid) =~= p.0);
    assert(s.subrange(mid, mid + p.1.len() as int) =~= p.1);
}

/// Encoding a list of pairs and decoding the bytes gives the list back, in
/// order.
pub proof fn lemma_params_roundtrip(ps: Seq<PairView>)
    requires
        encodable(ps),
    ensures
        parse_pairs(pairs_bytes(ps)) == Some(ps),
    decreases ps.len(),
{
    if ps.len() == 0 {
    } else {
        let p = ps[0];
        let rest = ps.skip(1);
        assert(forall|i: int| 0 <= i < rest.len() ==> rest[i] == ps[i + 1]);
        assert(encodable(rest));
        lemma_params_roundtrip(rest);
        lemma_pair_roundtrip(p, pairs_bytes(rest));
        let s = pairs_bytes(ps);
        lemma_length_prefix_form(p.0.len());
        lemma_length_prefix_form(p.1.len());
        assert(pair_bytes(p).len() >= 2);
        assert(s.skip(pair_bytes(p).len() as int) =~= pairs_bytes(rest));
        assert(seq![p] + rest =~= ps);
    }
}

/// Adding a pair at the end of a list adds its bytes at the end.
pub proof fn lemma_pairs_bytes_push(ps: Seq<PairView>, p: PairView)
    ensures
        pairs_bytes(ps.push(p)) == pairs_bytes(ps) + pair_bytes(p),
    decreases ps.len(),
{
    if ps.len() == 0 {
        reveal_with_fuel(pairs_bytes, 2);
        assert(ps.push(p).skip(1) =~= Seq::<PairView>::empty());
        assert(pairs_bytes(ps.push(p)) =~= pair_bytes(p));
        assert(pairs_bytes(ps) + pair_bytes(p) =~= pair_bytes(p));
    } else {
        lemma_pairs_bytes_push(ps.skip(1), p);
        assert(ps.push(p).skip(1) =~= ps.skip(1).push(p));
        assert(pairs_bytes(ps.push(p)) =~= pairs_bytes(ps) + pair_bytes(p));
    }
}

/// Appends the prefix that spells `n`.
fn push_length(out: &mut Vec<u8>, n: usize)
    requires
        n <= MAX_LENGTH,
    ensures
        final(out)@ == old(out)@ + length_prefix(n as nat),
{
    if n <= 127 {
        out.push(n as u8);
    } else {
        out.push((128 + n / 0x100_0000) as u8);
        out.push(((n / 0x1_0000) % 256) as u8);
        out.push(((n / 256) % 256) as u8);
        out.push((n % 256) as u8);
    }
    reveal(length_prefix);
    assert(out@ =~= old(out)@ + length_prefix(n as nat));
}

/// Appends one encoded pair.
pub(crate) fn push_name_value(out: &mut Vec<u8>, name: &[u8], value: &[u8])
    requires
        name@.len() <= MAX_LENGTH,
        value@.len() <= MAX_LENGTH,
    ensures
        final(out)@ == old(out)@ + pair_bytes((name@, value@)),
{
    push_length(out, name.len());
    push_length(out, value.len());
    push_bytes(out, name);
    push_bytes(out, value);
    assert(out@ =~= old(out)@ + pair_bytes((name@, value@)));
}

/// Encodes one pair. Each length takes one byte when it is at most 127 and
/// four bytes otherwise.
pub fn encode_name_value(name: &[u8], value: &[u8]) -> (out: Vec<u8>)
    requires
        name@.len() <= MAX_LENGTH,
        value@.len() <= MAX_LENGTH,
    ensures
        out@ == pair_bytes((name@, value@)),
{
    let mut out: Vec<u8> = Vec::new();
    push_name_value(&mut out, name, value);
    assert(out@ =~= pair_bytes((name@, value@)));
    out
}

/// Encodes a list of pairs, in order.
pub fn encode_params(pairs: &Vec<NameValue>) -> (out: Vec<u8>)
    requires
        encodable(pair_views(pairs@)),
    ensures
        out@ == pairs_bytes(pair_views(pairs@)),
{
    let mut out: Vec<u8> = Vec::new();
    let n: usize = pairs.len();
    let mut i: usize = 0;
    while i < n
        invariant
            n == pairs@.len(),
            i <= n,
            encodable(pair_views(pairs@)),
            out@ == pairs_bytes(pair_views(pairs@).subrange(0, i as int)),
        decreases n - i,
    {
        let p = &pairs[i];
        proof {
            let vs = pair_views(pairs@);
            assert(vs[i as int] == p@);
            assert(vs[i as int].0.len() <= MAX_LENGTH && vs[i as int].1.len() <= MAX_LENGTH);
            lemma_pairs_bytes_push(vs.subrange(0, i as int), p@);
            assert(vs.subrange(0, i as int).push(p@) =~= vs.subrange(0, i + 1));
        }
        push_name_value(&mut out, p.name.as_slice(), p.value.as_slice());
        i = i + 1;
    }
    assert(pair_views(pairs@).subrange(0, n as int) =~= pair_views(pairs@));
    out
}

/// Reads the length prefix at `at`; gives the length and where the prefix
/// ends.
fn read_length(buf: &[u8], at: usize) -> (r: Option<(usize, usize)>)
    requires
        at <= buf@.len(),
    ensures
        match parse_length(buf@.skip(at as int)) {
            None => r is None,
            Some((n, used)) => r == Some((n as usize, (at + used) as usize)) && n <= MAX_LENGTH
                && at + used <= buf@.len(),
        },
{
    let len: usize = buf.len();
    if at == len {
        return None;
    }
    let b0: u8 = buf[at];
    if b0 < 128 {
        return Some((b0 as usize, at + 1));
    }
    if len - at < 4 {
        return None;
    }
    let b1: u8 = buf[at + 1];
    let b2: u8 = buf[at + 2];
    let b3: u8 = buf[at + 3];
    let n: usize = (b0 - 128) as usize * 0x100_0000 + b1 as usize * 0x1_0000 + b2 as usize * 256
        + b3 as usize;
    Some((n, at + 4))
}

/// Decodes the pair that starts at `cursor`, and says where the next one
/// starts. At or past the end of `bytes` there is no pair.
pub fn decode_name_value(bytes: &[u8], cursor: usize) -> (r: Result<
    Option<(NameValue, usize)>,
    ProtocolError,
>)
    ensures
        cursor >= bytes@.len() ==> r matches Ok(None),
        cursor < bytes@.len() ==> match parse_pair(bytes@.skip(cursor as int)) {
            None => r matches Err(ProtocolError::MalformedParams),
            Some((pair, used)) => r matches Ok(Some((nv, next))) && nv@ == pair && next == cursor
                + used,
        },
{
    let len: usize = bytes.len();
    if cursor >= len {
        return Ok(None);
    }
    let ghost s = bytes@.skip(cursor as int);
    let (name_len, after_name) = match read_length(bytes, cursor) {
        None => {
            return Err(ProtocolError::MalformedParams);
        },
        Some(x) => x,
    };
    assert(s.skip(after_name - cursor) =~= bytes@.skip(after_name as int));
    let (value_len, start) = match read_length(bytes, after_name) {
        None => {
            return Err(ProtocolError::MalformedParams);
        },
        Some(x) => x,
    };
    if len - start < name_len {
        return Err(ProtocolError::MalformedParams);
    }
    if len - start - name_len < value_len {
        return Err(ProtocolError::MalformedParams);
    }
    let name = copy_range(bytes, start, start + name_len);
    let value = copy_range(bytes, start + name_len, start + name_len + value_len);
    proof {
        let off = start - cursor;
        assert(s.subrange(off, off + name_len) =~= name@);
        assert(s.subrange(off + name_len, off + name_len + value_len) =~= value@);
    }
    Ok(Some((NameValue { name, value }, start + name_len + value_len)))
}

/// Decodes a whole name-value list, in order.
pub fn decode_params(bytes: &[u8]) -> (r: Result<Vec<NameValue>, ProtocolError>)
    ensures
        match parse_pairs(bytes@) {
            None => r matches Err(ProtocolError::MalformedParams),
            Some(ps) => r matches Ok(v) && pair_views(v@) == ps,
        },
{
    let mut out: Vec<NameValue> = Vec::new();
    let mut pos: usize = 0;
    let len: usize = bytes.len();
    assert(bytes@.skip(0) =~= bytes@);
    loop
        invariant
            len == bytes@.len(),
            pos <= len,
            match parse_pairs(bytes@.skip(pos as int)) {
                None => parse_pairs(bytes@) is None,
                Some(rest) => parse_pairs(bytes@) == Some(pair_views(out@) + rest),
            },
        decreases len - pos,
    {
        let ghost s = bytes@.skip(pos as int);
        match decode_name_value(bytes, pos) {
            Err(e) => {
                return Err(e);
            },
            Ok(None) => {
                assert(s.len() == 0);
                assert(pair_views(out@) + Seq::<PairView>::empty() =~= pair_views(out@));
                return Ok(out);
            },
            Ok(Some((nv, next))) => {
                proof {
                    assert(s.skip(next - pos) =~= bytes@.skip(next as int));
                    let before = pair_views(out@);
                    let after = pair_views(out@.push(nv));
                    assert(after =~= before.push(nv@));
                    match parse_pairs(bytes@.skip(next as int)) {
                        None => {},
                        Some(rest) => {
                            assert(before + (seq![nv@] + rest) =~= after + rest);
                        },
                    }
                }
                out.push(nv);
                pos = next;
            },
        }
    }
}

} // verus!
