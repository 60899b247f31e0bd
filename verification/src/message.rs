//! The three wire messages and their exact framing.
//!
//! Every message travels as one array: a request is `[0, id, method,
//! params]`, a response is `[1, id, error, result]` with exactly one of the
//! two payload slots nil, and a notification is `[2, method, params]`.
//! `pack` produces exactly `msg_enc` of the message; `unpack` recovers any
//! well-formed message from its wire form, which is the round-trip law.

use vstd::prelude::*;
use crate::value::{Value, ValueV, seq_view, value_view, wf_value, wf_elems, lemma_seq_view_index, all_encodable};
use crate::codec::{
    DecodeError, arraylen_enc, uint_enc, str_enc, value_enc, is_prefix, lemma_prefix_split,
    lemma_skip_skip, rd_array_len, rd_array_len_post, rd_u64, rd_u64_post, w_array_len, w_uint,
    w_str, w_nil, encode_value, encode_elems, decode_str, decode_value,
};

verus! {

/// A call that expects exactly one response, correlated by its identifier.
#[derive(Debug, PartialEq)]
pub struct Request {
    /// The call identifier; the generator keeps it non-negative.
    pub id: i32,
    /// The name of the remote method.
    pub method: String,
    /// The call's arguments, in order.
    pub params: Vec<Value>,
}

/// The one answer to a request, carrying either a payload or an error.
#[derive(Debug, PartialEq)]
pub struct Response {
    /// The identifier of the request this answers.
    pub id: i32,
    /// The outcome: the remote payload, or the remote error payload.
    pub result: Result<Value, Value>,
}

/// A fire-and-forget message: no identifier, no response.
#[derive(Debug, PartialEq)]
pub struct Notification {
    /// The name of the remote method.
    pub method: String,
    /// The call's arguments, in order.
    pub params: Vec<Value>,
}

/// One wire message.
#[derive(Debug, PartialEq)]
pub enum Message {
    Request(Request),
    Response(Response),
    Notification(Notification),
}

/// The mathematical form of a `Request`.
pub struct RequestV {
    pub id: i32,
    pub method: Seq<char>,
    pub params: Seq<ValueV>,
}

/// The mathematical form of a `Response`.
pub struct ResponseV {
    pub id: i32,
    pub result: Result<ValueV, ValueV>,
}

/// The mathematical form of a `Notification`.
pub struct NotificationV {
    pub method: Seq<char>,
    pub params: Seq<ValueV>,
}

/// The mathematical form of a `Message`.
pub enum MessageV {
    Request(RequestV),
    Response(ResponseV),
    Notification(NotificationV),
}

impl View for Request {
    type V = RequestV;

    open spec fn view(&self) -> RequestV {
        RequestV { id: self.id, method: self.method@, params: seq_view(self.params@) }
    }
}

/// The mathematical form of a call outcome.
pub open spec fn result_view(r: Result<Value, Value>) -> Result<ValueV, ValueV> {
    match r {
        Ok(v) => Ok(value_view(v)),
        Err(e) => Err(value_view(e)),
    }
}

impl View for Response {
    type V = ResponseV;

    open spec fn view(&self) -> ResponseV {
        ResponseV { id: self.id, result: result_view(self.result) }
    }
}

impl View for Notification {
    type V = NotificationV;

    open spec fn view(&self) -> NotificationV {
        NotificationV { method: self.method@, params: seq_view(self.params@) }
    }
}

impl View for Message {
    type V = MessageV;

    open spec fn view(&self) -> MessageV {
        match self {
            Message::Request(r) => MessageV::Request(r@),
            Message::Response(r) => MessageV::Response(r@),
            Message::Notification(n) => MessageV::Notification(n@),
        }
    }
}

/// A message the wire format can carry and recover: identifiers are
/// non-negative, text and arrays fit the format's length fields, and a
/// failed response's error payload is not the nil sentinel — nil in the
/// error slot is exactly what marks success.
pub open spec fn wf_message(m: MessageV) -> bool {
    match m {
        MessageV::Request(r) => 0 <= r.id && r.method.len() < 0x4000_0000 && r.params.len()
            < 0x1_0000_0000 && wf_elems(r.params),
        MessageV::Response(r) => 0 <= r.id && match r.result {
            Ok(v) => wf_value(v),
            Err(e) => wf_value(e) && e != ValueV::Nil,
        },
        MessageV::Notification(n) => n.method.len() < 0x4000_0000 && n.params.len()
            < 0x1_0000_0000 && wf_elems(n.params),
    }
}

/// How many elements the message's wire array has.
pub open spec fn msg_count(m: MessageV) -> int {
    match m {
        MessageV::Request(_) => 4,
        MessageV::Response(_) => 4,
        MessageV::Notification(_) => 3,
    }
}

/// The wire discriminant: 0 for a request, 1 for a response, 2 for a
/// notification.
pub open spec fn msg_discr(m: MessageV) -> u64 {
    match m {
        MessageV::Request(_) => 0,
        MessageV::Response(_) => 1,
        MessageV::Notification(_) => 2,
    }
}

/// What a response carries in its error slot: the nil sentinel on success,
/// the error payload on failure.
pub open spec fn response_error_slot(result: Result<ValueV, ValueV>) -> ValueV {
    match result {
        Ok(_) => ValueV::Nil,
        Err(e) => e,
    }
}

/// What a response carries in its result slot: the payload on success, the
/// nil sentinel on failure.
pub open spec fn response_result_slot(result: Result<ValueV, ValueV>) -> ValueV {
    match result {
        Ok(v) => v,
        Err(_) => ValueV::Nil,
    }
}

/// The wire form of what follows a message's discriminant.
pub open spec fn msg_tail_enc(m: MessageV) -> Seq<u8> {
    match m {
        MessageV::Request(r) => uint_enc(r.id as u64) + (str_enc(r.method) + value_enc(
            ValueV::Array(r.params),
        )),
        MessageV::Response(r) => uint_enc(r.id as u64) + (value_enc(
            response_error_slot(r.result),
        ) + value_enc(response_result_slot(r.result))),
        MessageV::Notification(n) => str_enc(n.method) + value_enc(ValueV::Array(n.params)),
    }
}

/// The complete wire form of a message: its array length prefix, its
/// discriminant, then its fields.
pub open spec fn msg_enc(m: MessageV) -> Seq<u8> {
    arraylen_enc(msg_count(m)) + (uint_enc(msg_discr(m)) + msg_tail_enc(m))
}

/// Round-trip law, in the form callers compose it: a packed message is a
/// prefix of any buffer that starts with it — its own output included — so
/// `unpack`'s recovery clause applies to `pack`'s result and hands the very
/// same message back, whatever trails it on the stream.
pub proof fn lemma_packed_message_is_prefix(m: MessageV, stream: Seq<u8>)
    requires
        stream.subrange(0, msg_enc(m).len() as int) == msg_enc(m),
        msg_enc(m).len() <= stream.len(),
    ensures
        is_prefix(msg_enc(m), stream),
{
}

/// Law: a failed response packs its error payload into the error slot and
/// the nil sentinel into the result slot; a successful one packs nil and its
/// payload.  With `unpack`'s round-trip clause this makes the nil test on
/// the error slot — never any notion of emptiness of the payloads — the one
/// discriminant between the two arms.
pub proof fn lemma_response_discriminant(r: ResponseV)
    ensures
        r.result matches Err(e) ==> response_error_slot(r.result) == e
            && response_result_slot(r.result) == ValueV::Nil,
        r.result matches Ok(v) ==> response_error_slot(r.result) == ValueV::Nil
            && response_result_slot(r.result) == v,
        msg_enc(MessageV::Response(r)) == arraylen_enc(4) + (uint_enc(1) + (uint_enc(
            r.id as u64,
        ) + (value_enc(response_error_slot(r.result)) + value_enc(
            response_result_slot(r.result),
        )))),
{
}

impl Message {
    /// Whether the wire format can carry and recover this message: the
    /// executable form of `wf_message`, the condition `pack` asks for.
    pub fn is_encodable(&self) -> (b: bool)
        ensures
            b == wf_message(self@),
    {
        match self {
            Message::Request(r) => {
                proof {
                    lemma_seq_view_index(r.params@);
                }
                r.id >= 0 && r.method.as_str().unicode_len() < 0x4000_0000 && (r.params.len()
                    as u64) < 0x1_0000_0000 && all_encodable(&r.params)
            },
            Message::Response(r) => r.id >= 0 && match &r.result {
                Ok(v) => v.is_encodable(),
                Err(e) => e.is_encodable() && !(matches!(e, Value::Nil)),
            },
            Message::Notification(n) => {
                proof {
                    lemma_seq_view_index(n.params@);
                }
                n.method.as_str().unicode_len() < 0x4000_0000 && (n.params.len() as u64)
                    < 0x1_0000_0000 && all_encodable(&n.params)
            },
        }
    }
}

impl Request {
    /// The identifier that correlates this call with its response.
    pub fn id(&self) -> (r: i32)
        ensures
            r == self@.id,
    {
        self.id
    }

    /// The name of the remote method.
    pub fn method(&self) -> (r: &str)
        ensures
            r@ == self@.method,
    {
        self.method.as_str()
    }

    /// The call's arguments, in order.
    pub fn params(&self) -> (r: &Vec<Value>)
        ensures
            seq_view(r@) == self@.params,
    {
        &self.params
    }
}

impl Message {
    /// The wire discriminant of this message's variant.
    pub fn msgtype(&self) -> (t: i32)
        ensures
            t == msg_discr(self@),
    {
        match self {
            Message::Request(..) => 0,
            Message::Response(..) => 1,
            Message::Notification(..) => 2,
        }
    }

    /// Encode this message: exactly `msg_enc` of it.
    pub fn pack(&self) -> (r: Vec<u8>)
        requires
            wf_message(self@),
        ensures
            r@ == msg_enc(self@),
    {
        let mut buf: Vec<u8> = Vec::new();
        match self {
            Message::Request(req) => {
                proof {
                    lemma_seq_view_index(req.params@);
                }
                w_array_len(&mut buf, 4);
                w_uint(&mut buf, 0);
                w_uint(&mut buf, req.id as u64);
                w_str(&mut buf, req.method.as_str());
                w_array_len(&mut buf, req.params.len() as u32);
                encode_elems(&req.params, &mut buf);
                proof {
                    assert(buf@ =~= msg_enc(self@));
                }
            }
            Message::Response(resp) => {
                w_array_len(&mut buf, 4);
                w_uint(&mut buf, 1);
                w_uint(&mut buf, resp.id as u64);
                match &resp.result {
                    Ok(v) => {
                        w_nil(&mut buf);
                        encode_value(v, &mut buf);
                    }
                    Err(e) => {
                        encode_value(e, &mut buf);
                        w_nil(&mut buf);
                    }
                }
                proof {
                    assert(buf@ =~= msg_enc(self@));
                }
            }
            Message::Notification(note) => {
                proof {
                    lemma_seq_view_index(note.params@);
                }
                w_array_len(&mut buf, 3);
                w_uint(&mut buf, 2);
                w_str(&mut buf, note.method.as_str());
                w_array_len(&mut buf, note.params.len() as u32);
                encode_elems(&note.params, &mut buf);
                proof {
                    assert(buf@ =~= msg_enc(self@));
                }
            }
        }
        buf
    }
}


impl Message {
    /// Decode one message from the front of `bytes`.  On success the second
    /// component counts the bytes the message occupied: the stream's next
    /// message starts exactly there.  Any well-formed message whose wire
    /// form begins the buffer is recovered exactly, so decoding inverts
    /// `pack`; the decoder is deliberately liberal about integer width, so
    /// a peer's non-minimal encodings are read as well.  The error side is
    /// pinned where the trusted primitives allow: an empty buffer fails,
    /// and a wire array whose length and discriminant fit no message kind
    /// is malformed.  Other bad input — a non-array head, a field of the
    /// wrong shape, bytes that run short — also yields an error at run
    /// time, though those cases are not forced by contract.
    pub fn unpack(bytes: &Vec<u8>) -> (r: Result<(Message, usize), DecodeError>)
        ensures
            (r matches Ok(p) ==> p.1 <= bytes@.len()),
            forall|m: MessageV|
                wf_message(m) && #[trigger] is_prefix(msg_enc(m), bytes@) ==> (r matches Ok(p)
                    && p.0@ == m && p.1 == msg_enc(m).len()),
            bytes@.len() == 0 ==> r matches Err(_),
            forall|k: u32, t: u64|
                #[trigger] is_prefix(arraylen_enc(k as int) + uint_enc(t), bytes@) && !(k == 4
                    && t == 0) && !(k == 4 && t == 1) && !(k == 3 && t == 2) ==> r == Err::<
                    (Message, usize),
                    DecodeError,
                >(DecodeError::Malformed),
    {
        let whole_slice = vstd::slice::slice_subrange(bytes.as_slice(), 0, bytes.len());
        proof {
            assert(whole_slice@ =~= bytes@);
        }
        let (hres, rem0) = rd_array_len(whole_slice);
        let p1 = bytes.len() - rem0;
        proof {
            assert forall|m: MessageV|
                wf_message(m) && #[trigger] is_prefix(msg_enc(m), bytes@) implies (
                hres matches Ok(k) && k == msg_count(m) && p1 == arraylen_enc(
                    msg_count(m),
                ).len() && is_prefix(
                    uint_enc(msg_discr(m)) + msg_tail_enc(m),
                    bytes@.skip(p1 as int),
                )) by {
                lemma_prefix_split(
                    arraylen_enc(msg_count(m)),
                    uint_enc(msg_discr(m)) + msg_tail_enc(m),
                    bytes@,
                );
                let k32: u32 = msg_count(m) as u32;
                assert(is_prefix(arraylen_enc(k32 as int), whole_slice@));
                assert(rd_array_len_post((hres, rem0), whole_slice@));
                assert(bytes@.skip(0) =~= bytes@);
            }
            assert forall|k: u32, t: u64|
                #[trigger] is_prefix(arraylen_enc(k as int) + uint_enc(t), bytes@) implies (
                hres == Ok::<u32, DecodeError>(k) && p1 == arraylen_enc(k as int).len()
                    && is_prefix(uint_enc(t), bytes@.skip(p1 as int))) by {
                lemma_prefix_split(arraylen_enc(k as int), uint_enc(t), bytes@);
                assert(rd_array_len_post((hres, rem0), whole_slice@));
            }
        }
        let k = match hres {
            Ok(k) => k,
            Err(e) => {
                return Err(e);
            }
        };
        let slice1 = vstd::slice::slice_subrange(bytes.as_slice(), p1, bytes.len());
        proof {
            assert(slice1@ =~= bytes@.skip(p1 as int));
        }
        let (dres, rem1) = rd_u64(slice1);
        let p2 = bytes.len() - rem1;
        proof {
            assert forall|m: MessageV|
                wf_message(m) && #[trigger] is_prefix(msg_enc(m), bytes@) implies (
                dres matches Ok(t) && t == msg_discr(m) && p2 == p1 + uint_enc(
                    msg_discr(m),
                ).len() && is_prefix(msg_tail_enc(m), bytes@.skip(p2 as int))) by {
                lemma_prefix_split(
                    uint_enc(msg_discr(m)),
                    msg_tail_enc(m),
                    bytes@.skip(p1 as int),
                );
                assert(rd_u64_post((dres, rem1), slice1@));
                lemma_skip_skip(bytes@, p1 as int, uint_enc(msg_discr(m)).len() as int);
            }
            assert forall|k: u32, t: u64|
                #[trigger] is_prefix(arraylen_enc(k as int) + uint_enc(t), bytes@)
                    implies dres == Ok::<u64, DecodeError>(t) by {
                assert(rd_u64_post((dres, rem1), slice1@));
            }
        }
        let t = match dres {
            Ok(t) => t,
            Err(e) => {
                return Err(e);
            }
        };
        if t == 0 {
            if k != 4 {
                return Err(DecodeError::Malformed);
            }
            let slice2 = vstd::slice::slice_subrange(bytes.as_slice(), p2, bytes.len());
            proof {
                assert(slice2@ =~= bytes@.skip(p2 as int));
            }
            let (idres, rem2) = rd_u64(slice2);
            let p3 = bytes.len() - rem2;
            proof {
                assert forall|m: MessageV|
                    wf_message(m) && #[trigger] is_prefix(msg_enc(m), bytes@) implies (
                    m matches MessageV::Request(rq) && idres matches Ok(idu) && idu == rq.id
                        as u64 && p3 == p2 + uint_enc(rq.id as u64).len() && is_prefix(
                        str_enc(rq.method) + value_enc(ValueV::Array(rq.params)),
                        bytes@.skip(p3 as int),
                    )) by {
                    match m {
                        MessageV::Request(rq) => {
                            lemma_prefix_split(
                                uint_enc(rq.id as u64),
                                str_enc(rq.method) + value_enc(ValueV::Array(rq.params)),
                                bytes@.skip(p2 as int),
                            );
                            assert(rd_u64_post((idres, rem2), slice2@));
                            lemma_skip_skip(bytes@, p2 as int, uint_enc(rq.id as u64).len() as int);
                        }
                        _ => {}
                    }
                }
            }
            let idu = match idres {
                Ok(v) => v,
                Err(e) => {
                    return Err(e);
                }
            };
            if idu > 0x7fff_ffff {
                return Err(DecodeError::Malformed);
            }
            let idv = idu as i32;
            let sres = decode_str(bytes, p3);
            proof {
                assert forall|m: MessageV|
                    wf_message(m) && #[trigger] is_prefix(msg_enc(m), bytes@) implies (
                    m matches MessageV::Request(rq) && sres matches Ok(sp) && sp.0@ == rq.method
                        && sp.1 == p3 + str_enc(rq.method).len() && is_prefix(
                        value_enc(ValueV::Array(rq.params)),
                        bytes@.skip(sp.1 as int),
                    )) by {
                    match m {
                        MessageV::Request(rq) => {
                            lemma_prefix_split(
                                str_enc(rq.method),
                                value_enc(ValueV::Array(rq.params)),
                                bytes@.skip(p3 as int),
                            );
                            lemma_skip_skip(bytes@, p3 as int, str_enc(rq.method).len() as int);
                        }
                        _ => {}
                    }
                }
            }
            let (method, p4) = match sres {
                Ok(pair) => pair,
                Err(e) => {
                    return Err(e);
                }
            };
            let vres = decode_value(bytes, p4);
            proof {
                assert forall|m: MessageV|
                    wf_message(m) && #[trigger] is_prefix(msg_enc(m), bytes@) implies (
                    m matches MessageV::Request(rq) && vres matches Ok(vp) && vp.0@
                        == ValueV::Array(rq.params) && vp.1 == msg_enc(m).len()) by {
                    match m {
                        MessageV::Request(rq) => {
                            assert(wf_value(ValueV::Array(rq.params)));
                        }
                        _ => {}
                    }
                }
            }
            let (pv, p5) = match vres {
                Ok(pair) => pair,
                Err(e) => {
                    return Err(e);
                }
            };
            match pv {
                Value::Array(params) => {
                    let msg = Message::Request(Request { id: idv, method, params });
                    proof {
                        assert forall|m: MessageV|
                            wf_message(m) && #[trigger] is_prefix(msg_enc(m), bytes@) implies (
                            msg@ == m && p5 == msg_enc(m).len()) by {
                            match m {
                                MessageV::Request(rq) => {
                                    assert(msg@ matches MessageV::Request(got)
                                        && got.id == rq.id && got.method == rq.method
                                        && got.params == rq.params);
                                }
                                _ => {}
                            }
                        }
                    }
                    Ok((msg, p5))
                }
                _ => {
                    Err(DecodeError::Malformed)
                }
            }
        } else if t == 1 {
            if k != 4 {
                return Err(DecodeError::Malformed);
            }
            let slice2 = vstd::slice::slice_subrange(bytes.as_slice(), p2, bytes.len());
            proof {
                assert(slice2@ =~= bytes@.skip(p2 as int));
            }
            let (idres, rem2) = rd_u64(slice2);
            let p3 = bytes.len() - rem2;
            proof {
                assert forall|m: MessageV|
                    wf_message(m) && #[trigger] is_prefix(msg_enc(m), bytes@) implies (
                    m matches MessageV::Response(rs) && idres matches Ok(idu) && idu == rs.id
                        as u64 && p3 == p2 + uint_enc(rs.id as u64).len() && is_prefix(
                        value_enc(response_error_slot(rs.result)) + value_enc(
                            response_result_slot(rs.result),
                        ),
                        bytes@.skip(p3 as int),
                    )) by {
                    match m {
                        MessageV::Response(rs) => {
                            lemma_prefix_split(
                                uint_enc(rs.id as u64),
                                value_enc(response_error_slot(rs.result)) + value_enc(
                                    response_result_slot(rs.result),
                                ),
                                bytes@.skip(p2 as int),
                            );
                            assert(rd_u64_post((idres, rem2), slice2@));
                            lemma_skip_skip(bytes@, p2 as int, uint_enc(rs.id as u64).len() as int);
                        }
                        _ => {}
                    }
                }
            }
            let idu = match idres {
                Ok(v) => v,
                Err(e) => {
                    return Err(e);
                }
            };
            if idu > 0x7fff_ffff {
                return Err(DecodeError::Malformed);
            }
            let idv = idu as i32;
            let eres = decode_value(bytes, p3);
            proof {
                assert forall|m: MessageV|
                    wf_message(m) && #[trigger] is_prefix(msg_enc(m), bytes@) implies (
                    m matches MessageV::Response(rs) && eres matches Ok(ep) && ep.0@
                        == response_error_slot(rs.result) && ep.1 == p3 + value_enc(
                        response_error_slot(rs.result),
                    ).len() && is_prefix(
                        value_enc(response_result_slot(rs.result)),
                        bytes@.skip(ep.1 as int),
                    )) by {
                    match m {
                        MessageV::Response(rs) => {
                            assert(wf_value(response_error_slot(rs.result)));
                            lemma_prefix_split(
                                value_enc(response_error_slot(rs.result)),
                                value_enc(response_result_slot(rs.result)),
                                bytes@.skip(p3 as int),
                            );
                            lemma_skip_skip(
                                bytes@,
                                p3 as int,
                                value_enc(response_error_slot(rs.result)).len() as int,
                            );
                        }
                        _ => {}
                    }
                }
            }
            let (ev, p4) = match eres {
                Ok(pair) => pair,
                Err(e) => {
                    return Err(e);
                }
            };
            let rres = decode_value(bytes, p4);
            proof {
                assert forall|m: MessageV|
                    wf_message(m) && #[trigger] is_prefix(msg_enc(m), bytes@) implies (
                    m matches MessageV::Response(rs) && rres matches Ok(rp) && rp.0@
                        == response_result_slot(rs.result) && rp.1 == msg_enc(m).len()) by {
                    match m {
                        MessageV::Response(rs) => {
                            assert(wf_value(response_result_slot(rs.result)));
                        }
                        _ => {}
                    }
                }
            }
            let (rv, p5) = match rres {
                Ok(pair) => pair,
                Err(e) => {
                    return Err(e);
                }
            };
            let outcome = match ev {
                Value::Nil => Ok(rv),
                other => Err(other),
            };
            let msg = Message::Response(Response { id: idv, result: outcome });
            proof {
                assert forall|m: MessageV|
                    wf_message(m) && #[trigger] is_prefix(msg_enc(m), bytes@) implies (msg@ == m
                        && p5 == msg_enc(m).len()) by {
                    match m {
                        MessageV::Response(rs) => {
                            match rs.result {
                                Ok(v) => {
                                    assert(msg@ matches MessageV::Response(got)
                                        && got.id == rs.id && got.result == rs.result);
                                }
                                Err(e) => {
                                    assert(msg@ matches MessageV::Response(got)
                                        && got.id == rs.id && got.result == rs.result);
                                }
                            }
                        }
                        _ => {}
                    }
                }
            }
            Ok((msg, p5))
        } else if t == 2 {
            if k != 3 {
                return Err(DecodeError::Malformed);
            }
            let sres = decode_str(bytes, p2);
            proof {
                assert forall|m: MessageV|
                    wf_message(m) && #[trigger] is_prefix(msg_enc(m), bytes@) implies (
                    m matches MessageV::Notification(nt) && sres matches Ok(sp) && sp.0@
                        == nt.method && sp.1 == p2 + str_enc(nt.method).len() && is_prefix(
                        value_enc(ValueV::Array(nt.params)),
                        bytes@.skip(sp.1 as int),
                    )) by {
                    match m {
                        MessageV::Notification(nt) => {
                            lemma_prefix_split(
                                str_enc(nt.method),
                                value_enc(ValueV::Array(nt.params)),
                                bytes@.skip(p2 as int),
                            );
                            lemma_skip_skip(bytes@, p2 as int, str_enc(nt.method).len() as int);
                        }
                        _ => {}
                    }
                }
            }
            let (method, p3) = match sres {
                Ok(pair) => pair,
                Err(e) => {
                    return Err(e);
                }
            };
            let vres = decode_value(bytes, p3);
            proof {
                assert forall|m: MessageV|
                    wf_message(m) && #[trigger] is_prefix(msg_enc(m), bytes@) implies (
                    m matches MessageV::Notification(nt) && vres matches Ok(vp) && vp.0@
                        == ValueV::Array(nt.params) && vp.1 == msg_enc(m).len()) by {
                    match m {
                        MessageV::Notification(nt) => {
                            assert(wf_value(ValueV::Array(nt.params)));
                        }
                        _ => {}
                    }
                }
            }
            let (pv, p4) = match vres {
                Ok(pair) => pair,
                Err(e) => {
                    return Err(e);
                }
            };
            match pv {
                Value::Array(params) => {
                    let msg = Message::Notification(Notification { method, params });
                    proof {
                        assert forall|m: MessageV|
                            wf_message(m) && #[trigger] is_prefix(msg_enc(m), bytes@) implies (
                            msg@ == m && p4 == msg_enc(m).len()) by {
                            match m {
                                MessageV::Notification(nt) => {
                                    assert(msg@ matches MessageV::Notification(got)
                                        && got.method == nt.method && got.params == nt.params);
                                }
                                _ => {}
                            }
                        }
                    }
                    Ok((msg, p4))
                }
                _ => {
                    Err(DecodeError::Malformed)
                }
            }
        } else {
            Err(DecodeError::Malformed)
        }
    }
}

} // verus!
