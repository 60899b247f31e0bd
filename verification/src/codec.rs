//! The wire form of payload values.
//!
//! The byte-level primitives — writing and reading single markers, integers,
//! text and length prefixes — come from the `rmp` MessagePack codec and are
//! taken on the word of its source, stated here as exact byte sequences.  The
//! structure above the primitives (trees of values, and the message arrays in
//! `message`) is this crate's own logic and is verified against those
//! statements.

use vstd::prelude::*;
use crate::value::{Value, ValueV, value_view, seq_view, pairs_view, wf_value, wf_elems, wf_pairs};
use crate::value::{lemma_seq_view_index, lemma_wf_elems_index, lemma_pairs_view_index, lemma_wf_pairs_index};

verus! {

/// Why a byte buffer failed to decode.
#[derive(Debug, Clone, Copy, PartialEq, Eq, Structural)]
pub enum DecodeError {
    /// The buffer ended before the value did; more bytes may complete it.
    Truncated,
    /// The bytes cannot begin any value this codec accepts.
    Malformed,
}

/// The two bytes of `n` in big-endian order, for `0 <= n < 2^16`.
pub open spec fn be16(n: int) -> Seq<u8> {
    seq![((n / 0x100) % 0x100) as u8, (n % 0x100) as u8]
}

/// The four bytes of `n` in big-endian order, for `0 <= n < 2^32`.
pub open spec fn be32(n: int) -> Seq<u8> {
    seq![
        ((n / 0x100_0000) % 0x100) as u8,
        ((n / 0x1_0000) % 0x100) as u8,
        ((n / 0x100) % 0x100) as u8,
        (n % 0x100) as u8,
    ]
}

/// The eight bytes of `n` in big-endian order, for `0 <= n < 2^64`.
pub open spec fn be64(n: int) -> Seq<u8> {
    seq![
        ((n / 0x100_0000_0000_0000) % 0x100) as u8,
        ((n / 0x1_0000_0000_0000) % 0x100) as u8,
        ((n / 0x100_0000_0000) % 0x100) as u8,
        ((n / 0x1_0000_0000) % 0x100) as u8,
        ((n / 0x100_0000) % 0x100) as u8,
        ((n / 0x1_0000) % 0x100) as u8,
        ((n / 0x100) % 0x100) as u8,
        (n % 0x100) as u8,
    ]
}

/// The most compact wire form of a non-negative integer: a positive fixint,
/// or a marker `0xcc`/`0xcd`/`0xce`/`0xcf` followed by the value in
/// big-endian order.
pub open spec fn uint_enc(n: u64) -> Seq<u8> {
    if n < 0x80 {
        seq![n as u8]
    } else if n < 0x100 {
        seq![0xccu8, n as u8]
    } else if n < 0x1_0000 {
        seq![0xcdu8] + be16(n as int)
    } else if n < 0x1_0000_0000 {
        seq![0xceu8] + be32(n as int)
    } else {
        seq![0xcfu8] + be64(n as int)
    }
}

/// The most compact wire form of a negative integer: a negative fixint byte,
/// or a marker `0xd0`/`0xd1`/`0xd2`/`0xd3` followed by the value in
/// big-endian two's complement.  Meaningful for `n < 0` only.
pub open spec fn sint_enc(n: i64) -> Seq<u8> {
    if n >= -32 {
        seq![(n + 0x100) as u8]
    } else if n >= -0x80 {
        seq![0xd0u8, (n + 0x100) as u8]
    } else if n >= -0x8000 {
        seq![0xd1u8] + be16(n + 0x1_0000)
    } else if n >= -0x8000_0000 {
        seq![0xd2u8] + be32(n + 0x1_0000_0000)
    } else {
        seq![0xd3u8] + be64(n + 0x1_0000_0000_0000_0000)
    }
}

/// The wire form of a text length prefix of `n` bytes: a fixstr marker, or
/// `0xd9`/`0xda`/`0xdb` followed by the length.  Meaningful for
/// `0 <= n < 2^32`.
pub open spec fn strlen_enc(n: int) -> Seq<u8> {
    if n < 32 {
        seq![(0xa0 + n) as u8]
    } else if n < 0x100 {
        seq![0xd9u8, n as u8]
    } else if n < 0x1_0000 {
        seq![0xdau8] + be16(n)
    } else {
        seq![0xdbu8] + be32(n)
    }
}

/// The wire form of an array length prefix of `n` elements: a fixarray
/// marker, or `0xdc`/`0xdd` followed by the length.  Meaningful for
/// `0 <= n < 2^32`.
pub open spec fn arraylen_enc(n: int) -> Seq<u8> {
    if n < 16 {
        seq![(0x90 + n) as u8]
    } else if n < 0x1_0000 {
        seq![0xdcu8] + be16(n)
    } else {
        seq![0xddu8] + be32(n)
    }
}

/// The wire form of a map length prefix of `n` entries: a fixmap marker, or
/// `0xde`/`0xdf` followed by the length.  Meaningful for `0 <= n < 2^32`.
pub open spec fn maplen_enc(n: int) -> Seq<u8> {
    if n < 16 {
        seq![(0x80 + n) as u8]
    } else if n < 0x1_0000 {
        seq![0xdeu8] + be16(n)
    } else {
        seq![0xdfu8] + be32(n)
    }
}

/// The UTF-8 bytes of a sequence of characters, named after what
/// `str::as_bytes` and `String::from_utf8` compute; the trusted items below
/// state of it only what the UTF-8 documentation plainly gives.
pub uninterp spec fn utf8_of(s: Seq<char>) -> Seq<u8>;

/// The wire form of a piece of text: its UTF-8 byte length as a prefix, then
/// the UTF-8 bytes themselves.
pub open spec fn str_enc(s: Seq<char>) -> Seq<u8> {
    strlen_enc(utf8_of(s).len() as int) + utf8_of(s)
}

/// The wire form of a payload value.
pub open spec fn value_enc(v: ValueV) -> Seq<u8>
    decreases v,
{
    match v {
        ValueV::Nil => seq![0xc0u8],
        ValueV::Bool(b) => seq![if b { 0xc3u8 } else { 0xc2u8 }],
        ValueV::UInt(n) => uint_enc(n),
        ValueV::Int(n) => sint_enc(n),
        ValueV::Str(s) => str_enc(s),
        ValueV::Array(elems) => arraylen_enc(elems.len() as int) + elems_enc(elems),
        ValueV::Dict(entries) => maplen_enc(entries.len() as int) + pairs_enc(entries),
    }
}

/// The wire forms of a run of values, one after the other.
pub open spec fn elems_enc(s: Seq<ValueV>) -> Seq<u8>
    decreases s,
{
    if s.len() == 0 {
        Seq::empty()
    } else {
        value_enc(s[0]) + elems_enc(s.drop_first())
    }
}

/// The wire forms of a run of key/value pairs: each key directly before its
/// value, pair after pair.
pub open spec fn pairs_enc(s: Seq<(ValueV, ValueV)>) -> Seq<u8>
    decreases s,
{
    if s.len() == 0 {
        Seq::empty()
    } else {
        (value_enc(s[0].0) + value_enc(s[0].1)) + pairs_enc(s.drop_first())
    }
}

/// `p` is an initial segment of `s`.
pub open spec fn is_prefix(p: Seq<u8>, s: Seq<u8>) -> bool {
    p.len() <= s.len() && s.subrange(0, p.len() as int) == p
}

/// A prefix made of two parts splits: the first part is a prefix, and the
/// second is a prefix of what remains after it.
pub proof fn lemma_prefix_split(a: Seq<u8>, b: Seq<u8>, s: Seq<u8>)
    requires
        is_prefix(a + b, s),
    ensures
        is_prefix(a, s),
        is_prefix(b, s.skip(a.len() as int)),
{
    let ab = a + b;
    assert(s.subrange(0, ab.len() as int) == ab);
    assert forall|i: int| 0 <= i < ab.len() implies s[i] == ab[i] by {
        assert(s.subrange(0, ab.len() as int)[i] == s[i]);
    }
    assert(s.subrange(0, a.len() as int) =~= a);
    assert(s.skip(a.len() as int).subrange(0, b.len() as int) =~= b);
}

/// Dropping `a` bytes and then `b` more is dropping `a + b` bytes.
pub proof fn lemma_skip_skip(s: Seq<u8>, a: int, b: int)
    requires
        0 <= a,
        0 <= b,
        a + b <= s.len(),
    ensures
        s.skip(a).skip(b) == s.skip(a + b),
{
    assert(s.skip(a).skip(b) =~= s.skip(a + b));
}

/// Appending one more value to a run extends its wire form at the end.
pub proof fn lemma_elems_enc_push(s: Seq<ValueV>, v: ValueV)
    ensures
        elems_enc(s.push(v)) == elems_enc(s) + value_enc(v),
    decreases s.len(),
{
    if s.len() == 0 {
        reveal_with_fuel(elems_enc, 2);
        assert(s.push(v)[0] == v);
        assert(s.push(v).drop_first() =~= Seq::<ValueV>::empty());
        assert(elems_enc(s.push(v)) =~= elems_enc(s) + value_enc(v));
    } else {
        lemma_elems_enc_push(s.drop_first(), v);
        assert(s.push(v)[0] == s[0]);
        assert(s.push(v).drop_first() =~= s.drop_first().push(v));
        assert(elems_enc(s.push(v)) =~= elems_enc(s) + value_enc(v));
    }
}

/// Appending one more pair to a run extends its wire form at the end.
pub proof fn lemma_pairs_enc_push(s: Seq<(ValueV, ValueV)>, p: (ValueV, ValueV))
    ensures
        pairs_enc(s.push(p)) == pairs_enc(s) + (value_enc(p.0) + value_enc(p.1)),
    decreases s.len(),
{
    if s.len() == 0 {
        reveal_with_fuel(pairs_enc, 2);
        assert(s.push(p)[0] == p);
        assert(s.push(p).drop_first() =~= Seq::<(ValueV, ValueV)>::empty());
        assert(pairs_enc(s.push(p)) =~= pairs_enc(s) + (value_enc(p.0) + value_enc(p.1)));
    } else {
        lemma_pairs_enc_push(s.drop_first(), p);
        assert(s.push(p)[0] == s[0]);
        assert(s.push(p).drop_first() =~= s.drop_first().push(p));
        assert(pairs_enc(s.push(p)) =~= pairs_enc(s) + (value_enc(p.0) + value_enc(p.1)));
    }
}

// ---------------------------------------------------------------------------
// Trusted items: the rmp primitives that write and read single wire elements.
// ---------------------------------------------------------------------------

/// Relies on `rmp::encode::write_nil`: appends the single nil marker byte
/// `0xc0`.  Writing to a `Vec` cannot fail.
#[verifier::external_body]
pub(crate) fn w_nil(buf: &mut Vec<u8>)
    ensures
        final(buf)@ == old(buf)@ + seq![0xc0u8],
{
    let _ = rmp::encode::write_nil(buf);
}

/// Relies on `rmp::encode::write_bool`: appends `0xc3` for true, `0xc2` for
/// false.
#[verifier::external_body]
pub(crate) fn w_bool(buf: &mut Vec<u8>, b: bool)
    ensures
        final(buf)@ == old(buf)@ + seq![if b { 0xc3u8 } else { 0xc2u8 }],
{
    let _ = rmp::encode::write_bool(buf, b);
}

/// Relies on `rmp::encode::write_uint`: appends the most compact unsigned
/// integer form, exactly `uint_enc`.
#[verifier::external_body]
pub(crate) fn w_uint(buf: &mut Vec<u8>, n: u64)
    ensures
        final(buf)@ == old(buf)@ + uint_enc(n),
{
    let _ = rmp::encode::write_uint(buf, n);
}

/// Relies on `rmp::encode::write_sint`: for a negative value it appends the
/// most compact signed integer form, exactly `sint_enc`.
#[verifier::external_body]
pub(crate) fn w_sint(buf: &mut Vec<u8>, n: i64)
    requires
        n < 0,
    ensures
        final(buf)@ == old(buf)@ + sint_enc(n),
{
    let _ = rmp::encode::write_sint(buf, n);
}

/// Relies on `rmp::encode::write_str`: appends the byte length of the text's
/// UTF-8 form as a length prefix, then those bytes.  The length bound keeps
/// the byte length under the format's 32-bit field, since UTF-8 spends at
/// most four bytes per character.
#[verifier::external_body]
pub(crate) fn w_str(buf: &mut Vec<u8>, s: &str)
    requires
        s@.len() < 0x4000_0000,
    ensures
        final(buf)@ == old(buf)@ + str_enc(s@),
{
    let _ = rmp::encode::write_str(buf, s);
}

/// Relies on `rmp::encode::write_array_len`: appends the most compact array
/// length prefix, exactly `arraylen_enc`.
#[verifier::external_body]
pub(crate) fn w_array_len(buf: &mut Vec<u8>, n: u32)
    ensures
        final(buf)@ == old(buf)@ + arraylen_enc(n as int),
{
    let _ = rmp::encode::write_array_len(buf, n);
}


/// What `rd_u64` guarantees of its outcome on input `b`.
pub open spec fn rd_u64_post(r: (Result<u64, DecodeError>, usize), b: Seq<u8>) -> bool {
    &&& r.1 <= b.len()
    &&& (r.0 matches Ok(_) ==> r.1 < b.len())
    &&& forall|n: u64| is_prefix(uint_enc(n), b) ==> r.0 == Ok::<u64, DecodeError>(n)
        && b.len() - r.1 == uint_enc(n).len()
}

/// What `rd_i64` guarantees of its outcome on input `b`.
pub open spec fn rd_i64_post(r: (Result<i64, DecodeError>, usize), b: Seq<u8>) -> bool {
    &&& r.1 <= b.len()
    &&& (r.0 matches Ok(_) ==> r.1 < b.len())
    &&& forall|n: i64| n < 0 && is_prefix(sint_enc(n), b) ==> r.0 == Ok::<i64, DecodeError>(n)
        && b.len() - r.1 == sint_enc(n).len()
}

/// What `rd_str_len` guarantees of its outcome on input `b`.
pub open spec fn rd_str_len_post(r: (Result<u32, DecodeError>, usize), b: Seq<u8>) -> bool {
    &&& r.1 <= b.len()
    &&& (r.0 matches Ok(_) ==> r.1 < b.len())
    &&& forall|s: Seq<char>| s.len() < 0x4000_0000 && is_prefix(str_enc(s), b) ==> (
        r.0 matches Ok(n) && n == utf8_of(s).len()
            && b.len() - r.1 == strlen_enc(utf8_of(s).len() as int).len()
    )
}

/// What `rd_array_len` guarantees of its outcome on input `b`.
pub open spec fn rd_array_len_post(r: (Result<u32, DecodeError>, usize), b: Seq<u8>) -> bool {
    &&& r.1 <= b.len()
    &&& (r.0 matches Ok(_) ==> r.1 < b.len())
    &&& forall|n: u32| is_prefix(arraylen_enc(n as int), b) ==> r.0 == Ok::<u32, DecodeError>(n)
        && b.len() - r.1 == arraylen_enc(n as int).len()
}

/// Relies on `rmp::encode::write_map_len`: appends the most compact map
/// length prefix, exactly `maplen_enc`.
#[verifier::external_body]
pub(crate) fn w_map_len(buf: &mut Vec<u8>, n: u32)
    ensures
        final(buf)@ == old(buf)@ + maplen_enc(n as int),
{
    let _ = rmp::encode::write_map_len(buf, n);
}

/// What `rd_map_len` guarantees of its outcome on input `b`.
pub open spec fn rd_map_len_post(r: (Result<u32, DecodeError>, usize), b: Seq<u8>) -> bool {
    &&& r.1 <= b.len()
    &&& (r.0 matches Ok(_) ==> r.1 < b.len())
    &&& forall|n: u32| is_prefix(maplen_enc(n as int), b) ==> r.0 == Ok::<u32, DecodeError>(n)
        && b.len() - r.1 == maplen_enc(n as int).len()
}

/// Relies on `rmp::decode::read_int` over a byte slice: a slice that begins
/// with the wire form of an unsigned integer yields that integer and consumes
/// exactly its wire form; the second component is how many bytes remain
/// unconsumed.  A type-mismatched or out-of-range marker is malformed; a
/// short slice is truncated.
#[verifier::external_body]
pub(crate) fn rd_u64(b: &[u8]) -> (r: (Result<u64, DecodeError>, usize))
    ensures
        rd_u64_post(r, b@),
{
    let mut rd = rmp::decode::Bytes::new(b);
    let res = match rmp::decode::read_int::<u64, _>(&mut rd) {
        Ok(n) => Ok(n),
        Err(rmp::decode::NumValueReadError::TypeMismatch(_)) => Err(DecodeError::Malformed),
        Err(rmp::decode::NumValueReadError::OutOfRange) => Err(DecodeError::Malformed),
        Err(_) => Err(DecodeError::Truncated),
    };
    (res, rd.remaining_slice().len())
}

/// Relies on `rmp::decode::read_int` over a byte slice: a slice that begins
/// with the wire form of a negative integer yields that integer and consumes
/// exactly its wire form.
#[verifier::external_body]
pub(crate) fn rd_i64(b: &[u8]) -> (r: (Result<i64, DecodeError>, usize))
    ensures
        rd_i64_post(r, b@),
{
    let mut rd = rmp::decode::Bytes::new(b);
    let res = match rmp::decode::read_int::<i64, _>(&mut rd) {
        Ok(n) => Ok(n),
        Err(rmp::decode::NumValueReadError::TypeMismatch(_)) => Err(DecodeError::Malformed),
        Err(rmp::decode::NumValueReadError::OutOfRange) => Err(DecodeError::Malformed),
        Err(_) => Err(DecodeError::Truncated),
    };
    (res, rd.remaining_slice().len())
}

/// Relies on `rmp::decode::read_str_len` over a byte slice: a slice that
/// begins with the wire form of a piece of text yields the byte length of the
/// text's UTF-8 form and consumes exactly the length prefix.  The character
/// bound keeps that byte length inside the prefix's 32-bit field, since UTF-8
/// spends at most four bytes per character.
#[verifier::external_body]
pub(crate) fn rd_str_len(b: &[u8]) -> (r: (Result<u32, DecodeError>, usize))
    ensures
        rd_str_len_post(r, b@),
{
    let mut rd = rmp::decode::Bytes::new(b);
    let res = match rmp::decode::read_str_len(&mut rd) {
        Ok(n) => Ok(n),
        Err(rmp::decode::ValueReadError::TypeMismatch(_)) => Err(DecodeError::Malformed),
        Err(_) => Err(DecodeError::Truncated),
    };
    (res, rd.remaining_slice().len())
}

/// Relies on `rmp::decode::read_array_len` over a byte slice: a slice that
/// begins with an array length prefix yields the element count and consumes
/// exactly the prefix.
#[verifier::external_body]
pub(crate) fn rd_array_len(b: &[u8]) -> (r: (Result<u32, DecodeError>, usize))
    ensures
        rd_array_len_post(r, b@),
{
    let mut rd = rmp::decode::Bytes::new(b);
    let res = match rmp::decode::read_array_len(&mut rd) {
        Ok(n) => Ok(n),
        Err(rmp::decode::ValueReadError::TypeMismatch(_)) => Err(DecodeError::Malformed),
        Err(_) => Err(DecodeError::Truncated),
    };
    (res, rd.remaining_slice().len())
}

/// Relies on `rmp::decode::read_map_len` over a byte slice: a slice that
/// begins with a map length prefix yields the entry count and consumes
/// exactly the prefix.
#[verifier::external_body]
pub(crate) fn rd_map_len(b: &[u8]) -> (r: (Result<u32, DecodeError>, usize))
    ensures
        rd_map_len_post(r, b@),
{
    let mut rd = rmp::decode::Bytes::new(b);
    let res = match rmp::decode::read_map_len(&mut rd) {
        Ok(n) => Ok(n),
        Err(rmp::decode::ValueReadError::TypeMismatch(_)) => Err(DecodeError::Malformed),
        Err(_) => Err(DecodeError::Truncated),
    };
    (res, rd.remaining_slice().len())
}

/// Relies on `String::from_utf8`: it succeeds exactly on the UTF-8 form of
/// some text, returns the one piece of text with that form, and fails on
/// every other byte sequence.
#[verifier::external_body]
pub(crate) fn utf8_to_string(bytes: Vec<u8>) -> (r: Option<String>)
    ensures
        match r {
            Some(t) => bytes@ == utf8_of(t@) && forall|s: Seq<char>| utf8_of(s) == bytes@
                ==> s == t@,
            None => forall|s: Seq<char>| utf8_of(s) != bytes@,
        },
{
    match String::from_utf8(bytes) {
        Ok(t) => Some(t),
        Err(_) => None,
    }
}

// ---------------------------------------------------------------------------
// The verified encoder.
// ---------------------------------------------------------------------------

/// Append the wire form of one value.
pub fn encode_value(v: &Value, buf: &mut Vec<u8>)
    requires
        wf_value(v@),
    ensures
        final(buf)@ == old(buf)@ + value_enc(v@),
    decreases *v,
{
    match v {
        Value::Nil => w_nil(buf),
        Value::Bool(b) => w_bool(buf, *b),
        Value::UInt(n) => w_uint(buf, *n),
        Value::Int(n) => w_sint(buf, *n),
        Value::Str(s) => w_str(buf, s.as_str()),
        Value::Array(elems) => {
            proof {
                lemma_seq_view_index(elems@);
            }
            w_array_len(buf, elems.len() as u32);
            encode_elems(elems, buf);
            proof {
                assert(buf@ =~= old(buf)@ + value_enc(v@));
            }
        }
        Value::Dict(entries) => {
            proof {
                lemma_pairs_view_index(entries@);
            }
            w_map_len(buf, entries.len() as u32);
            encode_pairs(entries, buf);
            proof {
                assert(buf@ =~= old(buf)@ + value_enc(v@));
            }
        }
    }
}

/// Append the wire forms of a run of values, in order.
pub fn encode_elems(elems: &Vec<Value>, buf: &mut Vec<u8>)
    requires
        wf_elems(seq_view(elems@)),
    ensures
        final(buf)@ == old(buf)@ + elems_enc(seq_view(elems@)),
    decreases elems@,
{
    let ghost vs = seq_view(elems@);
    proof {
        lemma_seq_view_index(elems@);
        lemma_wf_elems_index(vs);
    }
    let mut i: usize = 0;
    while i < elems.len()
        invariant
            i <= elems@.len(),
            vs == seq_view(elems@),
            vs.len() == elems@.len(),
            forall|k: int| 0 <= k < elems@.len() ==> vs[k] == value_view(elems@[k]),
            forall|k: int| 0 <= k < vs.len() ==> wf_value(vs[k]),
            buf@ == old(buf)@ + elems_enc(vs.take(i as int)),
        decreases elems@.len() - i,
    {
        encode_value(&elems[i], buf);
        proof {
            lemma_elems_enc_push(vs.take(i as int), vs[i as int]);
            assert(vs.take(i as int).push(vs[i as int]) =~= vs.take(i + 1));
            assert(buf@ =~= old(buf)@ + elems_enc(vs.take(i + 1)));
        }
        i = i + 1;
    }
    proof {
        assert(vs.take(vs.len() as int) =~= vs);
    }
}

/// Append the wire forms of a run of key/value pairs, in order, each key
/// directly before its value.
pub fn encode_pairs(entries: &Vec<(Value, Value)>, buf: &mut Vec<u8>)
    requires
        wf_pairs(pairs_view(entries@)),
    ensures
        final(buf)@ == old(buf)@ + pairs_enc(pairs_view(entries@)),
    decreases entries@,
{
    let ghost ps = pairs_view(entries@);
    proof {
        lemma_pairs_view_index(entries@);
        lemma_wf_pairs_index(ps);
    }
    let mut i: usize = 0;
    while i < entries.len()
        invariant
            i <= entries@.len(),
            ps == pairs_view(entries@),
            ps.len() == entries@.len(),
            forall|k: int| 0 <= k < entries@.len() ==> ps[k] == (
                value_view(entries@[k].0),
                value_view(entries@[k].1),
            ),
            forall|k: int| 0 <= k < ps.len() ==> wf_value(ps[k].0) && wf_value(ps[k].1),
            buf@ == old(buf)@ + pairs_enc(ps.take(i as int)),
        decreases entries@.len() - i,
    {
        proof {
            assert(ps[i as int] == (
                value_view(entries@[i as int].0),
                value_view(entries@[i as int].1),
            ));
        }
        encode_value(&entries[i].0, buf);
        encode_value(&entries[i].1, buf);
        proof {
            lemma_pairs_enc_push(ps.take(i as int), ps[i as int]);
            assert(ps.take(i as int).push(ps[i as int]) =~= ps.take(i + 1));
            assert(buf@ =~= old(buf)@ + pairs_enc(ps.take(i + 1)));
        }
        i = i + 1;
    }
    proof {
        assert(ps.take(ps.len() as int) =~= ps);
    }
}

// ---------------------------------------------------------------------------
// The verified decoder.
// ---------------------------------------------------------------------------

/// The first byte of an unsigned integer's wire form: a positive fixint or
/// one of the four unsigned markers.
pub open spec fn head_is_uint(b: u8) -> bool {
    b < 0x80 || (0xcc <= b && b <= 0xcf)
}

/// The first byte of a negative integer's wire form: a negative fixint or one
/// of the four signed markers.
pub open spec fn head_is_int(b: u8) -> bool {
    b >= 0xe0 || (0xd0 <= b && b <= 0xd3)
}

/// The first byte of a piece of text's wire form.
pub open spec fn head_is_str(b: u8) -> bool {
    (0xa0 <= b && b <= 0xbf) || b == 0xd9 || b == 0xda || b == 0xdb
}

/// The first byte of an array's wire form.
pub open spec fn head_is_array(b: u8) -> bool {
    (0x90 <= b && b <= 0x9f) || b == 0xdc || b == 0xdd
}

/// The first byte of a map's wire form.
pub open spec fn head_is_map(b: u8) -> bool {
    (0x80 <= b && b <= 0x8f) || b == 0xde || b == 0xdf
}

/// The first wire byte of a well-formed value announces its variant, and no
/// wire form is empty.
pub proof fn lemma_value_enc_head(v: ValueV)
    requires
        wf_value(v),
    ensures
        value_enc(v).len() >= 1,
        v is Nil ==> value_enc(v)[0] == 0xc0,
        v is Bool ==> value_enc(v)[0] == 0xc2 || value_enc(v)[0] == 0xc3,
        v is UInt ==> head_is_uint(value_enc(v)[0]),
        v is Int ==> head_is_int(value_enc(v)[0]),
        v is Str ==> head_is_str(value_enc(v)[0]),
        v is Array ==> head_is_array(value_enc(v)[0]),
        v is Dict ==> head_is_map(value_enc(v)[0]),
{
    match v {
        ValueV::Nil => {}
        ValueV::Bool(_) => {}
        ValueV::UInt(_) => {}
        ValueV::Int(_) => {}
        ValueV::Str(s) => {
            assert(value_enc(v) == strlen_enc(utf8_of(s).len() as int) + utf8_of(s));
            assert(strlen_enc(utf8_of(s).len() as int).len() >= 1);
        }
        ValueV::Array(elems) => {
            assert(arraylen_enc(elems.len() as int).len() >= 1);
        }
        ValueV::Dict(entries) => {
            assert(maplen_enc(entries.len() as int).len() >= 1);
        }
    }
}

/// Copy the bytes of `buf` between positions `a` and `b` into a fresh vector.
fn take_bytes(buf: &Vec<u8>, a: usize, b: usize) -> (r: Vec<u8>)
    requires
        a <= b <= buf@.len(),
    ensures
        r@ == buf@.subrange(a as int, b as int),
{
    let mut out: Vec<u8> = Vec::new();
    proof {
        assert(out@ =~= buf@.subrange(a as int, a as int));
    }
    let mut i: usize = a;
    while i < b
        invariant
            a <= i <= b <= buf@.len(),
            out@ == buf@.subrange(a as int, i as int),
        decreases b - i,
    {
        out.push(buf[i]);
        proof {
            assert(buf@.subrange(a as int, i + 1) =~= buf@.subrange(a as int, i as int).push(
                buf@[i as int],
            ));
        }
        i = i + 1;
    }
    out
}

/// Decode one piece of text starting at `pos`: its length prefix, then that
/// many bytes as UTF-8.  On success the new position sits one past the text.
/// Any text of fewer than 2^30 characters whose wire form begins there is
/// recovered exactly.
pub(crate) fn decode_str(buf: &Vec<u8>, pos: usize) -> (r: Result<(String, usize), DecodeError>)
    requires
        pos <= buf@.len(),
    ensures
        (r matches Ok(p) ==> pos < p.1 <= buf@.len()),
        forall|s: Seq<char>|
            s.len() < 0x4000_0000 && #[trigger] is_prefix(str_enc(s), buf@.skip(pos as int))
                ==> (r matches Ok(p) && p.0@ == s && p.1 == pos + str_enc(s).len()),
{
    let ghost tail = buf@.skip(pos as int);
    let slice = vstd::slice::slice_subrange(buf.as_slice(), pos, buf.len());
    proof {
        assert(slice@ =~= tail);
    }
    let (lres, rem) = rd_str_len(slice);
    match lres {
        Err(e) => {
            proof {
                assert forall|s: Seq<char>|
                    s.len() < 0x4000_0000 && #[trigger] is_prefix(str_enc(s), tail)
                        implies false by {
                    assert(rd_str_len_post((lres, rem), slice@));
                }
            }
            Err(e)
        }
        Ok(len32) => {
            let data_start = buf.len() - rem;
            let len = len32 as usize;
            if buf.len() - data_start < len {
                proof {
                    assert forall|s: Seq<char>|
                        s.len() < 0x4000_0000 && #[trigger] is_prefix(str_enc(s), tail)
                            implies false by {
                        assert(str_enc(s).len() <= tail.len());
                    }
                }
                return Err(DecodeError::Truncated);
            }
            let sbytes = take_bytes(buf, data_start, data_start + len);
            let sres = utf8_to_string(sbytes);
            proof {
                assert forall|s: Seq<char>|
                    s.len() < 0x4000_0000 && #[trigger] is_prefix(str_enc(s), tail)
                        implies sres matches Some(t) && t@ == s by {
                    let ul = utf8_of(s).len() as int;
                    lemma_prefix_split(strlen_enc(ul), utf8_of(s), tail);
                    lemma_skip_skip(buf@, pos as int, strlen_enc(ul).len() as int);
                    assert(data_start == pos + strlen_enc(ul).len());
                    assert(is_prefix(utf8_of(s), buf@.skip(data_start as int)));
                    assert(sbytes@ =~= utf8_of(s)) by {
                        assert forall|i: int| 0 <= i < ul implies sbytes@[i] == utf8_of(s)[i] by {
                            assert(buf@.skip(data_start as int).subrange(0, ul)[i]
                                == buf@.skip(data_start as int)[i]);
                        }
                    }
                }
            }
            match sres {
                None => Err(DecodeError::Malformed),
                Some(t) => {
                    proof {
                        assert forall|s: Seq<char>|
                            s.len() < 0x4000_0000 && #[trigger] is_prefix(str_enc(s), tail)
                                implies t@ == s && data_start + len == pos + str_enc(s).len() by {
                            assert(strlen_enc(utf8_of(s).len() as int).len()
                                == (slice@.len() - rem));
                        }
                    }
                    Ok((t, data_start + len))
                }
            }
        }
    }
}


/// Decode one value starting at `pos`.  On success the new position sits one
/// past the value's wire form.  Any well-formed value whose wire form begins
/// there is recovered exactly; the decoder is deliberately liberal about
/// integer width, so non-minimal encodings are read too.  Where nothing it
/// accepts begins, the result is an error at run time, though the contract
/// pins only the recovery side.
pub fn decode_value(buf: &Vec<u8>, pos: usize) -> (r: Result<(Value, usize), DecodeError>)
    requires
        pos <= buf@.len(),
    ensures
        (r matches Ok(p) ==> pos < p.1 <= buf@.len()),
        forall|v: ValueV|
            wf_value(v) && #[trigger] is_prefix(value_enc(v), buf@.skip(pos as int))
                ==> (r matches Ok(p) && p.0@ == v && p.1 == pos + value_enc(v).len()),
    decreases buf@.len() - pos, 0int,
{
    let ghost tail = buf@.skip(pos as int);
    if pos == buf.len() {
        proof {
            assert forall|v: ValueV|
                wf_value(v) && #[trigger] is_prefix(value_enc(v), tail) implies false by {
                lemma_value_enc_head(v);
            }
        }
        return Err(DecodeError::Truncated);
    }
    let b0 = buf[pos];
    proof {
        assert(tail[0] == buf@[pos as int]);
        assert forall|v: ValueV|
            wf_value(v) && #[trigger] is_prefix(value_enc(v), tail)
                implies value_enc(v)[0] == b0 by {
            lemma_value_enc_head(v);
            assert(tail.subrange(0, value_enc(v).len() as int)[0] == tail[0]);
        }
    }
    if b0 == 0xc0 {
        proof {
            assert forall|v: ValueV|
                wf_value(v) && #[trigger] is_prefix(value_enc(v), tail)
                    implies v == ValueV::Nil && value_enc(v).len() == 1 by {
                lemma_value_enc_head(v);
            }
        }
        return Ok((Value::Nil, pos + 1));
    }
    if b0 == 0xc2 || b0 == 0xc3 {
        let bv = b0 == 0xc3;
        proof {
            assert forall|v: ValueV|
                wf_value(v) && #[trigger] is_prefix(value_enc(v), tail)
                    implies v == ValueV::Bool(bv) && value_enc(v).len() == 1 by {
                lemma_value_enc_head(v);
            }
        }
        return Ok((Value::Bool(bv), pos + 1));
    }
    if b0 < 0x80 || (0xcc <= b0 && b0 <= 0xcf) {
        let slice = vstd::slice::slice_subrange(buf.as_slice(), pos, buf.len());
        proof {
            assert(slice@ =~= tail);
        }
        let (res, rem) = rd_u64(slice);
        let newpos = buf.len() - rem;
        proof {
            assert forall|v: ValueV|
                wf_value(v) && #[trigger] is_prefix(value_enc(v), tail)
                    implies (res matches Ok(n) && v == ValueV::UInt(n)
                        && newpos == pos + value_enc(v).len()) by {
                lemma_value_enc_head(v);
                match v {
                    ValueV::UInt(n) => {
                        assert(is_prefix(uint_enc(n), slice@));
                        assert(rd_u64_post((res, rem), slice@));
                    }
                    _ => {}
                }
            }
        }
        match res {
            Ok(n) => {
                return Ok((Value::UInt(n), newpos));
            }
            Err(e) => {
                return Err(e);
            }
        }
    }
    if b0 >= 0xe0 || (0xd0 <= b0 && b0 <= 0xd3) {
        let slice = vstd::slice::slice_subrange(buf.as_slice(), pos, buf.len());
        proof {
            assert(slice@ =~= tail);
        }
        let (res, rem) = rd_i64(slice);
        let newpos = buf.len() - rem;
        proof {
            assert forall|v: ValueV|
                wf_value(v) && #[trigger] is_prefix(value_enc(v), tail)
                    implies (res matches Ok(n) && n < 0 && v == ValueV::Int(n)
                        && newpos == pos + value_enc(v).len()) by {
                lemma_value_enc_head(v);
                match v {
                    ValueV::Int(n) => {
                        assert(is_prefix(sint_enc(n), slice@));
                        assert(rd_i64_post((res, rem), slice@));
                    }
                    _ => {}
                }
            }
        }
        match res {
            Ok(n) => {
                if n < 0 {
                    return Ok((Value::Int(n), newpos));
                } else {
                    return Ok((Value::UInt(n as u64), newpos));
                }
            }
            Err(e) => {
                return Err(e);
            }
        }
    }
    if (0xa0 <= b0 && b0 <= 0xbf) || b0 == 0xd9 || b0 == 0xda || b0 == 0xdb {
        let sres = decode_str(buf, pos);
        proof {
            assert forall|v: ValueV|
                wf_value(v) && #[trigger] is_prefix(value_enc(v), tail)
                    implies (sres matches Ok(p) && v == ValueV::Str(p.0@)
                        && p.1 == pos + value_enc(v).len()) by {
                lemma_value_enc_head(v);
                match v {
                    ValueV::Str(cs) => {
                        assert(is_prefix(str_enc(cs), tail));
                    }
                    _ => {}
                }
            }
        }
        match sres {
            Ok((t, newpos)) => {
                return Ok((Value::Str(t), newpos));
            }
            Err(e) => {
                return Err(e);
            }
        }
    }
    if (0x90 <= b0 && b0 <= 0x9f) || b0 == 0xdc || b0 == 0xdd {
        let slice = vstd::slice::slice_subrange(buf.as_slice(), pos, buf.len());
        proof {
            assert(slice@ =~= tail);
        }
        let (res, rem) = rd_array_len(slice);
        let newpos = buf.len() - rem;
        proof {
            assert forall|v: ValueV|
                wf_value(v) && #[trigger] is_prefix(value_enc(v), tail)
                    implies (res matches Ok(k) && v matches ValueV::Array(es)
                        && es.len() == k && newpos == pos + arraylen_enc(k as int).len()
                        && is_prefix(elems_enc(es), buf@.skip(newpos as int))) by {
                lemma_value_enc_head(v);
                match v {
                    ValueV::Array(es) => {
                        let k32 = es.len() as u32;
                        lemma_prefix_split(arraylen_enc(es.len() as int), elems_enc(es), tail);
                        assert(is_prefix(arraylen_enc(k32 as int), slice@));
                        assert(rd_array_len_post((res, rem), slice@));
                        lemma_skip_skip(
                            buf@,
                            pos as int,
                            arraylen_enc(es.len() as int).len() as int,
                        );
                    }
                    _ => {}
                }
            }
        }
        match res {
            Ok(k) => {
                match decode_elems(buf, newpos, k) {
                    Ok((elems, endpos)) => {
                        proof {
                            lemma_seq_view_index(elems@);
                            assert forall|v: ValueV|
                                wf_value(v) && #[trigger] is_prefix(value_enc(v), tail)
                                    implies (value_view(Value::Array(elems)) == v
                                        && endpos == pos + value_enc(v).len()) by {
                                match v {
                                    ValueV::Array(es) => {
                                        assert(seq_view(elems@) == es);
                                    }
                                    _ => {}
                                }
                            }
                        }
                        return Ok((Value::Array(elems), endpos));
                    }
                    Err(e) => {
                        return Err(e);
                    }
                }
            }
            Err(e) => {
                return Err(e);
            }
        }
    }
    if (0x80 <= b0 && b0 <= 0x8f) || b0 == 0xde || b0 == 0xdf {
        let slice = vstd::slice::slice_subrange(buf.as_slice(), pos, buf.len());
        proof {
            assert(slice@ =~= tail);
        }
        let (res, rem) = rd_map_len(slice);
        let newpos = buf.len() - rem;
        proof {
            assert forall|v: ValueV|
                wf_value(v) && #[trigger] is_prefix(value_enc(v), tail)
                    implies (res matches Ok(k) && v matches ValueV::Dict(es)
                        && es.len() == k && newpos == pos + maplen_enc(k as int).len()
                        && is_prefix(pairs_enc(es), buf@.skip(newpos as int))) by {
                lemma_value_enc_head(v);
                match v {
                    ValueV::Dict(es) => {
                        let k32 = es.len() as u32;
                        lemma_prefix_split(maplen_enc(es.len() as int), pairs_enc(es), tail);
                        assert(is_prefix(maplen_enc(k32 as int), slice@));
                        assert(rd_map_len_post((res, rem), slice@));
                        lemma_skip_skip(
                            buf@,
                            pos as int,
                            maplen_enc(es.len() as int).len() as int,
                        );
                    }
                    _ => {}
                }
            }
        }
        match res {
            Ok(k) => {
                match decode_pairs(buf, newpos, k) {
                    Ok((entries, endpos)) => {
                        proof {
                            assert forall|v: ValueV|
                                wf_value(v) && #[trigger] is_prefix(value_enc(v), tail)
                                    implies (value_view(Value::Dict(entries)) == v
                                        && endpos == pos + value_enc(v).len()) by {
                                match v {
                                    ValueV::Dict(es) => {
                                        assert(pairs_view(entries@) == es);
                                    }
                                    _ => {}
                                }
                            }
                        }
                        return Ok((Value::Dict(entries), endpos));
                    }
                    Err(e) => {
                        return Err(e);
                    }
                }
            }
            Err(e) => {
                return Err(e);
            }
        }
    }
    proof {
        assert forall|v: ValueV|
            wf_value(v) && #[trigger] is_prefix(value_enc(v), tail) implies false by {
            lemma_value_enc_head(v);
        }
    }
    Err(DecodeError::Malformed)
}

/// Decode a run of exactly `n` values, one after the other, starting at
/// `pos`.  Any well-formed run of `n` values whose wire forms begin there is
/// recovered exactly, element by element and in order.
pub fn decode_elems(buf: &Vec<u8>, pos: usize, n: u32) -> (r: Result<
    (Vec<Value>, usize),
    DecodeError,
>)
    requires
        pos <= buf@.len(),
    ensures
        (r matches Ok(p) ==> pos <= p.1 <= buf@.len()),
        forall|vs: Seq<ValueV>|
            vs.len() == n && wf_elems(vs) && #[trigger] is_prefix(
                elems_enc(vs),
                buf@.skip(pos as int),
            ) ==> (r matches Ok(p) && seq_view(p.0@) == vs && p.1 == pos + elems_enc(vs).len()),
    decreases buf@.len() - pos, 1int + n,
{
    let ghost tail = buf@.skip(pos as int);
    if n == 0 {
        let out: Vec<Value> = Vec::new();
        proof {
            assert(seq_view(out@) =~= Seq::<ValueV>::empty());
        }
        return Ok((out, pos));
    }
    let first = decode_value(buf, pos);
    proof {
        assert forall|vs: Seq<ValueV>|
            vs.len() == n && wf_elems(vs) && #[trigger] is_prefix(elems_enc(vs), tail)
                implies (first matches Ok(p) && p.0@ == vs[0]
                    && p.1 == pos + value_enc(vs[0]).len()
                    && is_prefix(elems_enc(vs.drop_first()), buf@.skip(p.1 as int))) by {
            lemma_prefix_split(value_enc(vs[0]), elems_enc(vs.drop_first()), tail);
            lemma_skip_skip(buf@, pos as int, value_enc(vs[0]).len() as int);
        }
    }
    match first {
        Err(e) => Err(e),
        Ok((v0, p1)) => {
            let rest = decode_elems(buf, p1, n - 1);
            proof {
                assert forall|vs: Seq<ValueV>|
                    vs.len() == n && wf_elems(vs) && #[trigger] is_prefix(elems_enc(vs), tail)
                        implies (rest matches Ok(p) && seq_view(p.0@) == vs.drop_first()
                            && p.1 == pos + elems_enc(vs).len()) by {
                    assert(vs.drop_first().len() == n - 1);
                    assert(is_prefix(elems_enc(vs.drop_first()), buf@.skip(p1 as int)));
                }
            }
            match rest {
                Err(e) => Err(e),
                Ok((mut elems, endpos)) => {
                    let ghost pre = elems@;
                    elems.insert(0, v0);
                    proof {
                        lemma_seq_view_index(pre);
                        lemma_seq_view_index(elems@);
                        assert forall|vs: Seq<ValueV>|
                            vs.len() == n && wf_elems(vs) && #[trigger] is_prefix(
                                elems_enc(vs),
                                tail,
                            ) implies seq_view(elems@) == vs by {
                            assert(seq_view(pre) == vs.drop_first());
                            assert forall|i: int| 0 <= i < vs.len()
                                implies seq_view(elems@)[i] == vs[i] by {
                                if i == 0 {
                                    assert(elems@[0] == v0);
                                } else {
                                    assert(elems@[i] == pre[i - 1]);
                                    assert(vs.drop_first()[i - 1] == vs[i]);
                                }
                            }
                            assert(seq_view(elems@) =~= vs);
                        }
                    }
                    Ok((elems, endpos))
                }
            }
        }
    }
}


/// Decode a run of exactly `n` key/value pairs, each key directly before its
/// value, starting at `pos`.  Any well-formed run of `n` pairs whose wire
/// forms begin there is recovered exactly, pair by pair and in order.
pub fn decode_pairs(buf: &Vec<u8>, pos: usize, n: u32) -> (r: Result<
    (Vec<(Value, Value)>, usize),
    DecodeError,
>)
    requires
        pos <= buf@.len(),
    ensures
        (r matches Ok(p) ==> pos <= p.1 <= buf@.len()),
        forall|ps: Seq<(ValueV, ValueV)>|
            ps.len() == n && wf_pairs(ps) && #[trigger] is_prefix(
                pairs_enc(ps),
                buf@.skip(pos as int),
            ) ==> (r matches Ok(p) && pairs_view(p.0@) == ps && p.1 == pos + pairs_enc(ps).len()),
    decreases buf@.len() - pos, 1int + n,
{
    let ghost tail = buf@.skip(pos as int);
    if n == 0 {
        let out: Vec<(Value, Value)> = Vec::new();
        proof {
            assert(pairs_view(out@) =~= Seq::<(ValueV, ValueV)>::empty());
        }
        return Ok((out, pos));
    }
    let kres = decode_value(buf, pos);
    proof {
        assert forall|ps: Seq<(ValueV, ValueV)>|
            ps.len() == n && wf_pairs(ps) && #[trigger] is_prefix(pairs_enc(ps), tail)
                implies (kres matches Ok(kp) && kp.0@ == ps[0].0
                    && kp.1 == pos + value_enc(ps[0].0).len()
                    && is_prefix(value_enc(ps[0].1), buf@.skip(kp.1 as int))) by {
            lemma_prefix_split(
                value_enc(ps[0].0) + value_enc(ps[0].1),
                pairs_enc(ps.drop_first()),
                tail,
            );
            lemma_prefix_split(value_enc(ps[0].0), value_enc(ps[0].1), tail);
            lemma_skip_skip(buf@, pos as int, value_enc(ps[0].0).len() as int);
        }
    }
    match kres {
        Err(e) => Err(e),
        Ok((kv, p1)) => {
            let vres = decode_value(buf, p1);
            proof {
                assert forall|ps: Seq<(ValueV, ValueV)>|
                    ps.len() == n && wf_pairs(ps) && #[trigger] is_prefix(pairs_enc(ps), tail)
                        implies (vres matches Ok(vp) && vp.0@ == ps[0].1
                            && vp.1 == pos + (value_enc(ps[0].0) + value_enc(ps[0].1)).len()
                            && is_prefix(
                            pairs_enc(ps.drop_first()),
                            buf@.skip(vp.1 as int),
                        )) by {
                    lemma_prefix_split(
                        value_enc(ps[0].0) + value_enc(ps[0].1),
                        pairs_enc(ps.drop_first()),
                        tail,
                    );
                    lemma_skip_skip(
                        buf@,
                        pos as int,
                        (value_enc(ps[0].0) + value_enc(ps[0].1)).len() as int,
                    );
                    lemma_skip_skip(buf@, p1 as int, value_enc(ps[0].1).len() as int);
                }
            }
            match vres {
                Err(e) => Err(e),
                Ok((vv, p2)) => {
                    let rest = decode_pairs(buf, p2, n - 1);
                    proof {
                        assert forall|ps: Seq<(ValueV, ValueV)>|
                            ps.len() == n && wf_pairs(ps) && #[trigger] is_prefix(
                                pairs_enc(ps),
                                tail,
                            ) implies (rest matches Ok(rp) && pairs_view(rp.0@)
                                == ps.drop_first() && rp.1 == pos + pairs_enc(ps).len()) by {
                            assert(ps.drop_first().len() == n - 1);
                            assert(is_prefix(pairs_enc(ps.drop_first()), buf@.skip(p2 as int)));
                        }
                    }
                    match rest {
                        Err(e) => Err(e),
                        Ok((mut entries, endpos)) => {
                            let ghost pre = entries@;
                            entries.insert(0, (kv, vv));
                            proof {
                                lemma_pairs_view_index(pre);
                                lemma_pairs_view_index(entries@);
                                assert forall|ps: Seq<(ValueV, ValueV)>|
                                    ps.len() == n && wf_pairs(ps) && #[trigger] is_prefix(
                                        pairs_enc(ps),
                                        tail,
                                    ) implies pairs_view(entries@) == ps by {
                                    assert(pairs_view(pre) == ps.drop_first());
                                    assert forall|i: int| 0 <= i < ps.len()
                                        implies pairs_view(entries@)[i] == ps[i] by {
                                        if i == 0 {
                                            assert(entries@[0] == (kv, vv));
                                        } else {
                                            assert(entries@[i] == pre[i - 1]);
                                            assert(ps.drop_first()[i - 1] == ps[i]);
                                        }
                                    }
                                    assert(pairs_view(entries@) =~= ps);
                                }
                            }
                            Ok((entries, endpos))
                        }
                    }
                }
            }
        }
    }
}

} // verus!
