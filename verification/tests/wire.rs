//! Round trips and exact wire bytes for the three message kinds.

use msgpack_rpc_client::codec::DecodeError;
use msgpack_rpc_client::message::{Message, Notification, Request, Response};
use msgpack_rpc_client::value::Value;

#[test]
fn pack_unpack_request() {
    let request = Message::Request(Request {
        id: 0,
        method: "echo".to_owned(),
        params: vec![Value::Str("hello world!".to_owned())],
    });

    let bytes = request.pack();
    let (unpacked_request, used) = Message::unpack(&bytes).unwrap();

    assert_eq!(request, unpacked_request);
    assert_eq!(used, bytes.len());
}

#[test]
fn pack_unpack_response() {
    let response = Message::Response(Response {
        id: 0,
        result: Ok(Value::Str("test".to_owned())),
    });

    let bytes = response.pack();
    let (unpacked_response, used) = Message::unpack(&bytes).unwrap();

    assert_eq!(response, unpacked_response);
    assert_eq!(used, bytes.len());
}

#[test]
fn pack_unpack_notification() {
    let notification = Message::Notification(Notification {
        method: "ping".to_owned(),
        params: vec![Value::Str("hi".to_owned())],
    });

    let bytes = notification.pack();
    let (unpacked_notification, used) = Message::unpack(&bytes).unwrap();

    assert_eq!(notification, unpacked_notification);
    assert_eq!(used, bytes.len());
}

#[test]
fn pack_unpack_all_value_kinds() {
    let request = Message::Request(Request {
        id: 2147483647,
        method: "mixed".to_owned(),
        params: vec![
            Value::Nil,
            Value::Bool(true),
            Value::Bool(false),
            Value::UInt(0),
            Value::UInt(127),
            Value::UInt(128),
            Value::UInt(65535),
            Value::UInt(65536),
            Value::UInt(4294967296),
            Value::Int(-1),
            Value::Int(-32),
            Value::Int(-33),
            Value::Int(-129),
            Value::Int(-32769),
            Value::Int(-2147483649),
            Value::Str(String::new()),
            Value::Str("déjà vu ✓".to_owned()),
            Value::Array(vec![Value::UInt(1), Value::Array(vec![Value::Nil])]),
        ],
    });

    let bytes = request.pack();
    let (unpacked, used) = Message::unpack(&bytes).unwrap();

    assert_eq!(request, unpacked);
    assert_eq!(used, bytes.len());
}

#[test]
fn request_wire_bytes_are_exact() {
    let notification = Message::Notification(Notification {
        method: "ping".to_owned(),
        params: vec![],
    });

    // [2, "ping", []] — fixarray(3), fixint 2, fixstr(4) "ping", fixarray(0).
    let expected = vec![0x93, 0x02, 0xa4, b'p', b'i', b'n', b'g', 0x90];
    assert_eq!(notification.pack(), expected);
}

#[test]
fn response_error_slot_decides_the_arm() {
    // An empty string is a perfectly legitimate error payload: only the nil
    // sentinel in the error slot means success.
    let failed = Message::Response(Response {
        id: 7,
        result: Err(Value::Str(String::new())),
    });
    let bytes = failed.pack();
    let (unpacked, _) = Message::unpack(&bytes).unwrap();
    match unpacked {
        Message::Response(r) => {
            assert_eq!(r.id, 7);
            assert_eq!(r.result, Err(Value::Str(String::new())));
        }
        other => panic!("expected a response, got {:?}", other),
    }

    // A nil payload in the result slot still reads back as success.
    let succeeded = Message::Response(Response { id: 8, result: Ok(Value::Nil) });
    let bytes = succeeded.pack();
    let (unpacked, _) = Message::unpack(&bytes).unwrap();
    assert_eq!(unpacked, Message::Response(Response { id: 8, result: Ok(Value::Nil) }));
}

#[test]
fn unpack_reports_truncation() {
    assert_eq!(Message::unpack(&vec![]), Err(DecodeError::Truncated));

    // A full request, cut short anywhere, wants more bytes.
    let request = Message::Request(Request {
        id: 5,
        method: "echo".to_owned(),
        params: vec![Value::UInt(300)],
    });
    let bytes = request.pack();
    let cut = bytes[..bytes.len() - 1].to_vec();
    assert_eq!(Message::unpack(&cut), Err(DecodeError::Truncated));
}

#[test]
fn unpack_rejects_malformed_input() {
    // Top-level value is not an array.
    assert_eq!(Message::unpack(&vec![0xa3, b'a', b'b', b'c']), Err(DecodeError::Malformed));
    // Unknown discriminant 5.
    assert_eq!(Message::unpack(&vec![0x91, 0x05]), Err(DecodeError::Malformed));
    // Request with the wrong arity.
    assert_eq!(Message::unpack(&vec![0x92, 0x00, 0x01]), Err(DecodeError::Malformed));
    // Request whose method slot is not text.
    assert_eq!(
        Message::unpack(&vec![0x94, 0x00, 0x01, 0x07, 0x90]),
        Err(DecodeError::Malformed)
    );
    // Request whose params slot is not an array.
    assert_eq!(
        Message::unpack(&vec![0x94, 0x00, 0x01, 0xa1, b'm', 0x07]),
        Err(DecodeError::Malformed)
    );
}

#[test]
fn unpack_leaves_the_stream_at_the_next_boundary() {
    let first = Message::Notification(Notification {
        method: "a".to_owned(),
        params: vec![],
    });
    let second = Message::Notification(Notification {
        method: "b".to_owned(),
        params: vec![Value::UInt(9)],
    });
    let mut stream = first.pack();
    let first_len = stream.len();
    stream.extend(second.pack());

    let (got_first, used) = Message::unpack(&stream).unwrap();
    assert_eq!(got_first, first);
    assert_eq!(used, first_len);

    let rest = stream[used..].to_vec();
    let (got_second, used_second) = Message::unpack(&rest).unwrap();
    assert_eq!(got_second, second);
    assert_eq!(used_second, rest.len());
}

#[test]
fn msgtype_names_the_variant() {
    let request = Message::Request(Request {
        id: 1,
        method: "m".to_owned(),
        params: vec![],
    });
    let response = Message::Response(Response { id: 1, result: Ok(Value::Nil) });
    let notification = Message::Notification(Notification {
        method: "m".to_owned(),
        params: vec![],
    });
    assert_eq!(request.msgtype(), 0);
    assert_eq!(response.msgtype(), 1);
    assert_eq!(notification.msgtype(), 2);
}

#[test]
fn request_accessors_return_the_fields() {
    let request = Request {
        id: 42,
        method: "sum".to_owned(),
        params: vec![Value::UInt(1), Value::UInt(2)],
    };
    assert_eq!(request.id(), 42);
    assert_eq!(request.method(), "sum");
    assert_eq!(request.params().len(), 2);
    assert_eq!(request.params()[0], Value::UInt(1));
}

#[test]
fn encodability_guards_the_encoder() {
    // A failed response may not carry the nil sentinel as its error payload:
    // that very sentinel is what marks success on the wire.
    let err_nil = Message::Response(Response { id: 1, result: Err(Value::Nil) });
    assert!(!err_nil.is_encodable());

    // Non-negative numbers travel as unsigned integers; only negatives
    // belong in the signed variant.
    let positive_int = Message::Notification(Notification {
        method: "n".to_owned(),
        params: vec![Value::Int(5)],
    });
    assert!(!positive_int.is_encodable());
    let negative_int = Message::Notification(Notification {
        method: "n".to_owned(),
        params: vec![Value::Int(-5)],
    });
    assert!(negative_int.is_encodable());

    // Identifiers on the wire are non-negative.
    let negative_id = Message::Request(Request {
        id: -1,
        method: "m".to_owned(),
        params: vec![],
    });
    assert!(!negative_id.is_encodable());

    let ordinary = Message::Request(Request {
        id: 0,
        method: "m".to_owned(),
        params: vec![Value::Str("x".to_owned())],
    });
    assert!(ordinary.is_encodable());
}

#[test]
fn unpack_accepts_non_minimal_integers() {
    // A peer may spend more bytes on an integer than it must; the
    // notification discriminant here arrives as a two-byte unsigned int.
    let bytes = vec![0x93, 0xcc, 0x02, 0xa1, b'p', 0x90];
    let (message, used) = Message::unpack(&bytes).unwrap();
    assert_eq!(used, bytes.len());
    assert_eq!(
        message,
        Message::Notification(Notification { method: "p".to_owned(), params: vec![] })
    );
}

#[test]
fn pack_unpack_map_payload() {
    let request = Message::Request(Request {
        id: 3,
        method: "configure".to_owned(),
        params: vec![Value::Dict(vec![
            (Value::Str("depth".to_owned()), Value::UInt(8)),
            (Value::Str("verbose".to_owned()), Value::Bool(false)),
            (
                Value::Str("nested".to_owned()),
                Value::Dict(vec![(Value::UInt(1), Value::Array(vec![Value::Nil]))]),
            ),
        ])],
    });

    let bytes = request.pack();
    let (unpacked, used) = Message::unpack(&bytes).unwrap();

    assert_eq!(request, unpacked);
    assert_eq!(used, bytes.len());
}

#[test]
fn map_wire_bytes_are_exact() {
    let notification = Message::Notification(Notification {
        method: "m".to_owned(),
        params: vec![Value::Dict(vec![(Value::UInt(1), Value::Bool(true))])],
    });

    // [2, "m", [{1: true}]] — fixarray(3), 2, fixstr(1) "m", fixarray(1),
    // fixmap(1), 1, true.
    let expected = vec![0x93, 0x02, 0xa1, b'm', 0x91, 0x81, 0x01, 0xc3];
    assert_eq!(notification.pack(), expected);
}
