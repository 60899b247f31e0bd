//! Identifier generation, correlation and whole-call scenarios.

use msgpack_rpc_client::client::{ClientCore, Delivery};
use msgpack_rpc_client::ids::IdGenerator;
use msgpack_rpc_client::message::{Message, Request, Response};
use msgpack_rpc_client::table::CorrelationTable;
use msgpack_rpc_client::value::Value;

#[test]
fn ids_count_up_and_are_distinct() {
    let mut generator = IdGenerator::new();
    let mut seen: Vec<i32> = Vec::new();
    for expected in 0..100 {
        let id = generator.next_id();
        assert_eq!(id, expected);
        assert!(!seen.contains(&id));
        seen.push(id);
    }
}

#[test]
fn ids_wrap_to_zero_after_the_maximum() {
    let mut generator = IdGenerator::starting_at(i32::MAX);
    assert_eq!(generator.next_id(), i32::MAX);
    assert_eq!(generator.next_id(), 0);
    assert_eq!(generator.next_id(), 1);
}

#[test]
fn table_registers_and_resolves_exactly_once() {
    let mut table: CorrelationTable<&'static str> = CorrelationTable::new();
    assert!(table.register(3, "slot three"));
    assert_eq!(table.len(), 1);
    assert!(table.contains(3));

    // A second registration under a live identifier is refused.
    assert!(!table.register(3, "impostor"));
    assert_eq!(table.len(), 1);

    assert_eq!(table.resolve(3), Some("slot three"));
    assert_eq!(table.len(), 0);
    assert_eq!(table.resolve(3), None);
}

#[test]
fn unsolicited_resolution_disturbs_nothing() {
    let mut table: CorrelationTable<u32> = CorrelationTable::new();
    assert!(table.register(1, 10));
    assert_eq!(table.resolve(99), None);
    assert_eq!(table.len(), 1);
    assert_eq!(table.resolve(1), Some(10));
}

#[test]
fn responses_out_of_order_resolve_the_right_callers() {
    let mut core: ClientCore<&'static str> = ClientCore::new();

    let call_a = core.async_call("first".to_owned(), vec![], "slot a").unwrap();
    let call_b = core.async_call("second".to_owned(), vec![], "slot b").unwrap();
    assert_ne!(call_a.id, call_b.id);

    // B's response arrives first; it must take B's slot with B's payload.
    let response_b = Message::Response(Response {
        id: call_b.id,
        result: Ok(Value::Str("for b".to_owned())),
    });
    match core.accept(response_b) {
        Delivery::Resolved(slot, outcome) => {
            assert_eq!(slot, "slot b");
            assert_eq!(outcome, Ok(Value::Str("for b".to_owned())));
        }
        _ => panic!("b's response should resolve b"),
    }

    let response_a = Message::Response(Response {
        id: call_a.id,
        result: Ok(Value::Str("for a".to_owned())),
    });
    match core.accept(response_a) {
        Delivery::Resolved(slot, outcome) => {
            assert_eq!(slot, "slot a");
            assert_eq!(outcome, Ok(Value::Str("for a".to_owned())));
        }
        _ => panic!("a's response should resolve a"),
    }
}

#[test]
fn unsolicited_response_leaves_pending_calls_alone() {
    let mut core: ClientCore<u32> = ClientCore::new();
    let call = core.async_call("only".to_owned(), vec![], 7).unwrap();

    let stray = Message::Response(Response { id: call.id + 1, result: Ok(Value::Nil) });
    match core.accept(stray) {
        Delivery::Unsolicited => {}
        _ => panic!("a stray response is dropped"),
    }

    let real = Message::Response(Response { id: call.id, result: Ok(Value::Nil) });
    match core.accept(real) {
        Delivery::Resolved(slot, outcome) => {
            assert_eq!(slot, 7);
            assert_eq!(outcome, Ok(Value::Nil));
        }
        _ => panic!("the real response still resolves"),
    }
}

#[test]
fn non_response_in_the_reply_position_is_a_protocol_violation() {
    let mut core: ClientCore<u32> = ClientCore::new();
    let call = core.async_call("only".to_owned(), vec![], 7).unwrap();

    let wrong = Message::Request(Request {
        id: call.id,
        method: "intruder".to_owned(),
        params: vec![],
    });
    match core.accept(wrong) {
        Delivery::ProtocolViolation => {}
        _ => panic!("a request is never a reply"),
    }

    // The pending call is untouched by the violation.
    let real = Message::Response(Response { id: call.id, result: Ok(Value::Nil) });
    match core.accept(real) {
        Delivery::Resolved(slot, _) => assert_eq!(slot, 7),
        _ => panic!("the call is still pending"),
    }
}

/// A server that answers an "echo" request by mirroring the first parameter
/// back as the success payload.
fn echo_server(wire_request: &Vec<u8>) -> Vec<u8> {
    let (message, _) = Message::unpack(wire_request).unwrap();
    let request = match message {
        Message::Request(r) => r,
        other => panic!("server expected a request, got {:?}", other),
    };
    let mut params = request.params;
    let first = params.remove(0);
    Message::Response(Response { id: request.id, result: Ok(first) }).pack()
}

/// A server that fails every call with the error payload "boom".
fn failing_server(wire_request: &Vec<u8>) -> Vec<u8> {
    let (message, _) = Message::unpack(wire_request).unwrap();
    let request = match message {
        Message::Request(r) => r,
        other => panic!("server expected a request, got {:?}", other),
    };
    Message::Response(Response {
        id: request.id,
        result: Err(Value::Str("boom".to_owned())),
    })
    .pack()
}

#[test]
fn echo_call_comes_back_ok() {
    let mut core: ClientCore<u32> = ClientCore::new();
    let request = core
        .async_call(
            "echo".to_owned(),
            vec![Value::Str("Hello, world!".to_owned())],
            1,
        )
        .unwrap();

    let wire = Message::Request(request).pack();
    let reply = echo_server(&wire);
    let (message, used) = Message::unpack(&reply).unwrap();
    assert_eq!(used, reply.len());

    match core.accept(message) {
        Delivery::Resolved(slot, outcome) => {
            assert_eq!(slot, 1);
            assert_eq!(outcome, Ok(Value::Str("Hello, world!".to_owned())));
        }
        _ => panic!("the echo response resolves the caller"),
    }
}

#[test]
fn failing_call_comes_back_err() {
    let mut core: ClientCore<u32> = ClientCore::new();
    let request = core.async_call("fail".to_owned(), vec![], 1).unwrap();

    let wire = Message::Request(request).pack();
    let reply = failing_server(&wire);
    let (message, _) = Message::unpack(&reply).unwrap();

    match core.accept(message) {
        Delivery::Resolved(slot, outcome) => {
            assert_eq!(slot, 1);
            assert_eq!(outcome, Err(Value::Str("boom".to_owned())));
        }
        _ => panic!("the failure response resolves the caller"),
    }
}

#[test]
fn notify_registers_nothing() {
    let mut core: ClientCore<u32> = ClientCore::new();
    let keep = core.async_call("keep".to_owned(), vec![], 5).unwrap();

    let note = core.notify("ping".to_owned(), vec![]);
    assert_eq!(note.method, "ping");
    assert!(note.params.is_empty());

    // The notification consumed no identifier and made no table entry: the
    // next call gets the next identifier, and only these two are pending.
    let next = core.async_call("next".to_owned(), vec![], 6).unwrap();
    assert_eq!(next.id, keep.id + 1);
    match core.accept(Message::Response(Response { id: keep.id, result: Ok(Value::Nil) })) {
        Delivery::Resolved(slot, _) => assert_eq!(slot, 5),
        _ => panic!("the kept call is pending"),
    }
    match core.accept(Message::Response(Response { id: next.id, result: Ok(Value::Nil) })) {
        Delivery::Resolved(slot, _) => assert_eq!(slot, 6),
        _ => panic!("the next call is pending"),
    }
}
