use socketio_core::engine::{
    decode_batch, decode_frame, encode_batch, encode_frame, EnginePacket, EnginePacketType,
    Payload,
};
use socketio_core::packet::{Assembly, Packet, PacketType};
use socketio_core::reconnect::{poll_step, PollStep, ReconnectAction, ReconnectPolicy};
use socketio_core::server::{ConnectOutcome, Server};
use socketio_core::sid::SidGenerator;
use socketio_core::socket::{parse_event, Action, Socket};
use socketio_core::transport::{emit_status_result, ClientPolling};
use socketio_core::Error;

fn v(s: &[u8]) -> Vec<u8> {
    s.to_vec()
}

#[test]
fn test_sid_generator() {
    let mut generator = SidGenerator::new();
    let engine_sid = v(b"engine_sid");
    let sid = generator.generate(&engine_sid);

    assert_eq!(SidGenerator::decode(&sid), Some(engine_sid));
}

#[test]
fn sid_matches_base64_crate() {
    let mut generator = SidGenerator::new();
    let sid = generator.generate(&v(b"engine_sid"));
    assert_eq!(sid, base64::encode("engine_sid-0").into_bytes());
    let sid2 = generator.generate(&v(b"engine_sid"));
    assert_eq!(sid2, base64::encode("engine_sid-1").into_bytes());
}

#[test]
fn sid_decode_rejects_garbage() {
    assert_eq!(SidGenerator::decode(&v(b"!!not base64!!")), None);
}

#[test]
fn polling_transport_url() {
    let url = v(b"http://127.0.0.1");
    let transport = ClientPolling::new(url.clone()).unwrap();
    let mut expected = url.clone();
    expected.push(b'/');
    expected.extend_from_slice(b"?transport=polling");
    assert_eq!(transport.url(), &expected);
}

#[test]
fn polling_url_keeps_existing_query() {
    let t = ClientPolling::new(v(b"http://h/p?a=b")).unwrap();
    assert_eq!(t.url(), &v(b"http://h/p?a=b&transport=polling"));

    // The exact pair already present: nothing to append.
    let t = ClientPolling::new(v(b"http://h/?transport=polling")).unwrap();
    assert_eq!(t.url(), &v(b"http://h/?transport=polling"));

    // A lookalike chunk does not satisfy the invariant: the pair is owed.
    let t = ClientPolling::new(v(b"http://h/?x=polling")).unwrap();
    assert_eq!(t.url(), &v(b"http://h/?x=polling&transport=polling"));

    let t = ClientPolling::new(v(b"http://h/?transport=websocket")).unwrap();
    assert_eq!(
        t.url(),
        &v(b"http://h/?transport=websocket&transport=polling")
    );

    assert_eq!(
        ClientPolling::new(v(b"no scheme here")),
        Err(Error::InvalidUrl)
    );
}

#[test]
fn emit_status() {
    assert_eq!(emit_status_result(200), Ok(()));
    assert_eq!(
        emit_status_result(404),
        Err(Error::InvalidHttpResponseStatus(404))
    );
}

#[test]
fn packet_round_trip_event_args() {
    // Zero, one and many JSON arguments.
    for data in [
        &b"[\"echo\"]"[..],
        &b"[\"echo\",\"x\"]"[..],
        &b"[\"echo\",1,2,{\"a\":true}]"[..],
    ] {
        let p = Packet::new(
            PacketType::Event,
            v(b"/"),
            Some(v(data)),
            None,
            0,
            Vec::new(),
        );
        let wire = p.encode();
        let back = Packet::decode(&wire).unwrap();
        assert_eq!(back, p);
    }
}

#[test]
fn packet_round_trip_with_id() {
    let p = Packet::new(
        PacketType::Ack,
        v(b"/admin"),
        Some(v(b"[\"done\"]")),
        Some(12345),
        0,
        Vec::new(),
    );
    let wire = p.encode();
    assert_eq!(wire, v(b"3/admin,12345[\"done\"]"));
    assert_eq!(Packet::decode(&wire).unwrap(), p);
}

#[test]
fn packet_round_trip_namespaces() {
    for nsp in [&b"/"[..], &b"/admin"[..], &b"/a/b"[..]] {
        let p = Packet::new(
            PacketType::Event,
            v(nsp),
            Some(v(b"[\"e\"]")),
            None,
            0,
            Vec::new(),
        );
        let back = Packet::decode(&p.encode()).unwrap();
        assert_eq!(back.nsp, v(nsp));
        assert_eq!(back, p);
    }
}

#[test]
fn packet_round_trip_binary_attachments() {
    // One attachment, and several holding the record separator byte.
    let one = Packet::new(
        PacketType::BinaryEvent,
        v(b"/"),
        Some(v(b"[\"test\",{\"_placeholder\":true,\"num\":0}]")),
        None,
        1,
        vec![v(&[1, 2, 3])],
    );
    let many = Packet::new(
        PacketType::BinaryAck,
        v(b"/x"),
        Some(v(b"[\"b\"]")),
        Some(7),
        3,
        vec![v(&[0x1e]), v(&[]), v(&[9, 0x1e, 9])],
    );
    for p in [one, many] {
        let wire = p.encode();
        let header = Packet::decode(&wire).unwrap();
        assert_eq!(header.attachment_count, p.attachments.len() as u64);
        assert!(header.attachments.is_empty());
        let mut buffer = Assembly::new();
        let mut done = buffer.absorb_header(header);
        assert!(done.is_none());
        for (i, att) in p.attachments.iter().enumerate() {
            done = buffer.absorb_binary(att.clone());
            if i + 1 < p.attachments.len() {
                assert!(done.is_none());
            }
        }
        assert_eq!(done.unwrap(), p);
    }
}

#[test]
fn packet_decode_errors() {
    assert_eq!(Packet::decode(&v(b"")), Err(Error::InvalidPacket));
    assert_eq!(Packet::decode(&v(b"9")), Err(Error::InvalidPacket));
    // Binary type with no attachment count or no dash.
    assert_eq!(Packet::decode(&v(b"5abc")), Err(Error::InvalidPacket));
    assert_eq!(Packet::decode(&v(b"512")), Err(Error::InvalidPacket));
    // Namespace with no closing comma.
    assert_eq!(Packet::decode(&v(b"2/admin")), Err(Error::InvalidPacket));
    // Id too large for u64.
    assert_eq!(
        Packet::decode(&v(b"2/a,99999999999999999999999")),
        Err(Error::InvalidPacket)
    );
}

#[test]
fn engine_packet_round_trip() {
    let p = EnginePacket {
        ptype: EnginePacketType::Message,
        data: v(b"hello"),
    };
    let wire = p.encode();
    assert_eq!(wire, v(b"4hello"));
    let back = EnginePacket::decode(&wire).unwrap();
    assert_eq!(back.ptype, EnginePacketType::Message);
    assert_eq!(back.data, v(b"hello"));
    assert_eq!(EnginePacket::decode(&v(b"")), Err(Error::InvalidPacket));
}

#[test]
fn test_server_polling_transport() {
    // One long-poll body carries frames joined by the record separator,
    // and comes back apart in order.
    let frames = vec![Payload::Text(v(b"1Hello")), Payload::Text(v(b"1HelloWorld"))];
    let body = encode_batch(&frames);
    assert_eq!(body, v(b"1Hello\x1e1HelloWorld"));
    let out = decode_batch(&body).unwrap();
    assert_eq!(out.len(), 2);
    assert!(matches!(&out[0], Payload::Text(d) if *d == v(b"1Hello")));
    assert!(matches!(&out[1], Payload::Text(d) if *d == v(b"1HelloWorld")));
}

#[test]
fn batch_round_trip_with_binary() {
    // A binary frame travels base64-encoded and comes back byte for byte,
    // the record separator byte included.
    let frames = vec![
        Payload::Text(v(b"4abc")),
        Payload::Binary(v(&[1, 0x1e, 2, 255])),
        Payload::Text(v(b"2probe")),
    ];
    let body = encode_batch(&frames);
    let out = decode_batch(&body).unwrap();
    assert_eq!(out.len(), 3);
    assert!(matches!(&out[0], Payload::Text(d) if *d == v(b"4abc")));
    assert!(matches!(&out[1], Payload::Binary(d) if *d == v(&[1, 0x1e, 2, 255])));
    assert!(matches!(&out[2], Payload::Text(d) if *d == v(b"2probe")));
}

#[test]
fn frame_binary_uses_base64() {
    let body = encode_frame(&Payload::Binary(v(&[1, 2, 3])));
    let mut expected = v(b"b");
    expected.extend_from_slice(base64::encode([1u8, 2, 3]).as_bytes());
    assert_eq!(body, expected);
    assert!(matches!(decode_frame(&body), Ok(Payload::Binary(d)) if d == v(&[1, 2, 3])));
    assert_eq!(decode_frame(&v(b"")), Err(Error::InvalidPacket));
}

#[test]
fn emit_empty_payload_succeeds() {
    let socket = Socket::new(v(b"/"), true);
    let p = socket.emit(&v(b"echo"), &Payload::Text(Vec::new())).unwrap();
    assert_eq!(p.ptype, PacketType::Event);
    assert_eq!(p.data, Some(v(b"[\"echo\"]")));
    assert_eq!(p.encode(), v(b"2[\"echo\"]"));
}

#[test]
fn emit_binary_wire_format() {
    let socket = Socket::new(v(b"/"), true);
    let p = socket
        .emit(&v(b"test"), &Payload::Binary(v(&[1, 2, 3])))
        .unwrap();
    assert_eq!(p.ptype, PacketType::BinaryEvent);
    assert_eq!(p.attachment_count, 1);
    assert_eq!(p.attachments, vec![v(&[1, 2, 3])]);
    assert_eq!(
        p.encode(),
        v(b"51-[\"test\",{\"_placeholder\":true,\"num\":0}]")
    );
}

#[test]
fn parse_event_name_and_args() {
    let socket = Socket::new(v(b"/"), true);
    let p = socket
        .emit(&v(b"echo"), &Payload::Text(v(b"\"data\"")))
        .unwrap();
    let (name, args) = parse_event(&p.data.unwrap()).unwrap();
    assert_eq!(name, v(b"echo"));
    assert_eq!(args, v(b"\"data\""));
}

#[test]
fn ack_resolves_exactly_once() {
    let mut socket = Socket::new(v(b"/"), true);
    let (_p, id) = socket
        .emit_with_ack(&v(b"q"), &Payload::Text(v(b"\"x\"")), 200, 1000)
        .unwrap();
    assert_eq!(id, 0);

    let ack = Packet::new(
        PacketType::Ack,
        v(b"/"),
        Some(v(b"[\"r\"]")),
        Some(id),
        0,
        Vec::new(),
    );
    // First ACK fires the callback and removes the entry.
    assert!(matches!(
        socket.handle_packet(&ack),
        Action::AckCb { id: 0, .. }
    ));
    // A second ACK with the same id is dropped.
    assert!(matches!(socket.handle_packet(&ack), Action::Drop));
}

#[test]
fn ack_timeout_fires_once_and_late_ack_dropped() {
    let mut socket = Socket::new(v(b"/"), true);
    let (_p, id) = socket
        .emit_with_ack(&v(b"q"), &Payload::Text(v(b"\"x\"")), 200, 1000)
        .unwrap();

    // Not yet expired.
    assert!(socket.sweep_acks(1100).is_empty());
    // Expired: resolved exactly once, with the id handed back.
    assert_eq!(socket.sweep_acks(1200), vec![id]);
    assert!(socket.sweep_acks(5000).is_empty());
    // The ACK arriving afterward is dropped.
    let ack = Packet::new(PacketType::Ack, v(b"/"), None, Some(id), 0, Vec::new());
    assert!(matches!(socket.handle_packet(&ack), Action::Drop));
}

#[test]
fn no_callbacks_after_disconnect() {
    let mut socket = Socket::new(v(b"/"), true);
    let (_p, id) = socket
        .emit_with_ack(&v(b"q"), &Payload::Text(v(b"\"x\"")), 200, 0)
        .unwrap();

    let (packet, drained) = socket.disconnect().unwrap();
    assert_eq!(packet.ptype, PacketType::Disconnect);
    assert_eq!(packet.encode(), v(b"1"));
    assert_eq!(drained, vec![id]);

    // Disconnecting again does nothing.
    assert!(socket.disconnect().is_none());
    // Every inbound packet but CONNECT is dropped now.
    let ev = Packet::new(
        PacketType::Event,
        v(b"/"),
        Some(v(b"[\"e\"]")),
        None,
        0,
        Vec::new(),
    );
    assert!(matches!(socket.handle_packet(&ev), Action::Drop));
    // And emitting fails fast.
    assert_eq!(
        socket.emit(&v(b"e"), &Payload::Text(Vec::new())),
        Err(Error::ConnectionClosed)
    );
}

#[test]
fn inbound_event_dispatch() {
    let mut socket = Socket::new(v(b"/"), true);
    let ev = Packet::new(
        PacketType::Event,
        v(b"/"),
        Some(v(b"[\"echo\",\"\"]")),
        Some(3),
        0,
        Vec::new(),
    );
    match socket.handle_packet(&ev) {
        Action::EventCb {
            data, need_ack, ..
        } => {
            let (name, args) = parse_event(&data).unwrap();
            assert_eq!(name, v(b"echo"));
            assert_eq!(args, v(b"\"\""));
            assert_eq!(need_ack, Some(3));
        }
        _ => panic!("expected an event callback"),
    }
}

#[test]
fn reconnect_zero_attempts_is_terminal() {
    let mut policy = ReconnectPolicy::new(true, 1000, 5000, Some(0));
    assert_eq!(policy.next_action(), ReconnectAction::GiveUp);
}

#[test]
fn reconnect_backoff_doubles_and_caps() {
    let mut policy = ReconnectPolicy::new(true, 100, 450, None);
    assert_eq!(policy.next_action(), ReconnectAction::Retry { delay_ms: 100 });
    assert_eq!(policy.next_action(), ReconnectAction::Retry { delay_ms: 200 });
    assert_eq!(policy.next_action(), ReconnectAction::Retry { delay_ms: 400 });
    assert_eq!(policy.next_action(), ReconnectAction::Retry { delay_ms: 450 });
    assert_eq!(policy.next_action(), ReconnectAction::Retry { delay_ms: 450 });

    let mut capped = ReconnectPolicy::new(true, 100, 5000, Some(2));
    assert_eq!(capped.next_action(), ReconnectAction::Retry { delay_ms: 100 });
    assert_eq!(capped.next_action(), ReconnectAction::Retry { delay_ms: 200 });
    assert_eq!(capped.next_action(), ReconnectAction::GiveUp);

    let mut off = ReconnectPolicy::new(false, 100, 5000, None);
    assert_eq!(off.next_action(), ReconnectAction::GiveUp);
}

#[test]
fn poll_loop_steps() {
    assert_eq!(poll_step(true, true), PollStep::ReconnectNow);
    assert_eq!(poll_step(false, false), PollStep::Stop);
    assert_eq!(poll_step(true, false), PollStep::Continue);
}

fn connect_client(server: &mut Server, esid: &[u8]) -> Vec<u8> {
    let connect = Packet::new(PacketType::Connect, v(b"/admin"), None, None, 0, Vec::new());
    match server.handle_connect(&v(esid), &connect) {
        ConnectOutcome::Accepted { sid, reply } => {
            assert_eq!(reply.ptype, PacketType::Connect);
            let mut expected = v(b"{\"sid\":\"");
            expected.extend_from_slice(&sid);
            expected.extend_from_slice(b"\"}");
            assert_eq!(reply.data, Some(expected));
            sid
        }
        _ => panic!("connect refused"),
    }
}

#[test]
fn server_connect_and_refusal() {
    let mut server = Server::new();
    assert!(server.register_namespace(v(b"/admin")));
    assert!(!server.register_namespace(v(b"no slash")));

    let sid = connect_client(&mut server, b"esid1");
    assert!(server.has_client(&sid, &v(b"/admin")));

    // A CONNECT to a namespace with no event table is refused.
    let connect = Packet::new(PacketType::Connect, v(b"/other"), None, None, 0, Vec::new());
    match server.handle_connect(&v(b"esid2"), &connect) {
        ConnectOutcome::Refused { reply } => {
            assert_eq!(reply.ptype, PacketType::ConnectError);
            assert_eq!(reply.nsp, v(b"/other"));
        }
        _ => panic!("expected a refusal"),
    }

    // A CONNECT whose namespace is not even well-formed is refused too.
    let bad = Packet::new(PacketType::Connect, v(b"admin"), None, None, 0, Vec::new());
    match server.handle_connect(&v(b"esid4"), &bad) {
        ConnectOutcome::Refused { reply } => {
            assert_eq!(reply.ptype, PacketType::ConnectError);
        }
        _ => panic!("expected a refusal"),
    }

    // Any other packet is ignored while waiting for CONNECT.
    let ping = Packet::new(PacketType::Event, v(b"/admin"), Some(v(b"[\"e\"]")), None, 0, Vec::new());
    assert!(matches!(
        server.handle_connect(&v(b"esid3"), &ping),
        ConnectOutcome::Ignored
    ));
}

#[test]
fn broadcast_fan_out() {
    let mut server = Server::new();
    server.register_namespace(v(b"/admin"));
    let nsp = v(b"/admin");

    let s1 = connect_client(&mut server, b"e1");
    let s2 = connect_client(&mut server, b"e2");
    let s3 = connect_client(&mut server, b"e3");
    let s4 = connect_client(&mut server, b"e4");

    // Three clients join "r"; the emitter is not in the room.
    for s in [&s1, &s2, &s3] {
        assert!(server.join(&nsp, &vec![v(b"r")], s));
    }
    let (recipients, packet) =
        server.emit_to(&nsp, &vec![v(b"r")], &v(b"hi"), &Payload::Text(v(b"\"x\"")));
    assert_eq!(recipients.len(), 3);
    for s in [&s1, &s2, &s3] {
        assert!(recipients.contains(s));
    }
    assert!(!recipients.contains(&s4));
    assert_eq!(packet.data, Some(v(b"[\"hi\",\"x\"]")));

    // Joining twice does not double the fan-out.
    assert!(server.join(&nsp, &vec![v(b"r")], &s1));
    let (again, _) = server.emit_to(&nsp, &vec![v(b"r")], &v(b"hi"), &Payload::Text(Vec::new()));
    assert_eq!(again.len(), 3);

    // Only a registered client may join.
    assert!(!server.join(&nsp, &vec![v(b"r")], &v(b"stranger")));

    // Leaving takes a sid out of the room.
    server.leave(&nsp, &vec![v(b"r")], &s2);
    let (fewer, _) = server.emit_to(&nsp, &vec![v(b"r")], &v(b"hi"), &Payload::Text(Vec::new()));
    assert_eq!(fewer.len(), 2);
    assert!(!fewer.contains(&s2));
}

#[test]
fn ghost_room_is_noop_or_direct_send() {
    let mut server = Server::new();
    server.register_namespace(v(b"/admin"));
    let nsp = v(b"/admin");
    let s1 = connect_client(&mut server, b"e1");

    // A name that is neither a room nor a sid reaches nobody.
    let (none, _) = server.emit_to(&nsp, &vec![v(b"ghost")], &v(b"hi"), &Payload::Text(Vec::new()));
    assert!(none.is_empty());

    // A name that happens to be a client sid is a direct send.
    let (direct, _) = server.emit_to(&nsp, &vec![s1.clone()], &v(b"hi"), &Payload::Text(Vec::new()));
    assert_eq!(direct, vec![s1.clone()]);

    // The acknowledging broadcast selects the same recipients.
    let with_ack = server.emit_to_with_ack(
        &nsp,
        &vec![s1.clone()],
        &v(b"hi"),
        &Payload::Text(Vec::new()),
        400,
    );
    assert_eq!(with_ack, vec![s1]);
}

#[test]
fn drop_client_clears_rooms_and_table() {
    let mut server = Server::new();
    server.register_namespace(v(b"/admin"));
    let nsp = v(b"/admin");
    let s1 = connect_client(&mut server, b"e1");
    let s2 = connect_client(&mut server, b"e2");
    assert!(server.join(&nsp, &vec![v(b"r")], &s1));
    assert!(server.join(&nsp, &vec![v(b"r")], &s2));

    let info = server.polling_transport_info(&v(b"e1"));
    assert_eq!(info, Some((s1.clone(), nsp.clone())));

    let dropped = server.drop_client(&v(b"e1"));
    assert_eq!(dropped, vec![s1.clone()]);
    assert!(!server.has_client(&s1, &nsp));
    assert!(server.has_client(&s2, &nsp));
    assert_eq!(server.polling_transport_info(&v(b"e1")), None);

    let (recipients, _) = server.emit_to(&nsp, &vec![v(b"r")], &v(b"hi"), &Payload::Text(Vec::new()));
    assert_eq!(recipients, vec![s2]);
}

#[test]
fn client_ack_reply_packet() {
    // A server-side handler answering an inbound event that carried an id.
    let socket = Socket::new(v(b"/admin"), true);
    let reply = socket
        .ack(9, &Payload::Text(v(b"\"ack to client\"")))
        .unwrap();
    assert_eq!(reply.ptype, PacketType::Ack);
    assert_eq!(reply.id, Some(9));
    assert_eq!(reply.encode(), v(b"3/admin,9[\"ack to client\"]"));
}

#[test]
fn polling_echo_scenario() {
    // A polling-only echo, walked through the codec and both state
    // machines: the client emits "echo", the server handler joins a room
    // and broadcasts back, and the client's echo handler sees the empty
    // JSON string.
    let mut server = Server::new();
    server.register_namespace(v(b"/admin"));
    let nsp = v(b"/admin");

    // Engine handshake done; the first Socket.IO packet is CONNECT.
    let connect = Packet::new(PacketType::Connect, nsp.clone(), None, None, 0, Vec::new());
    let sid = match server.handle_connect(&v(b"esid"), &connect) {
        ConnectOutcome::Accepted { sid, .. } => sid,
        _ => panic!("connect refused"),
    };
    let mut client = Socket::new(nsp.clone(), true);
    let mut server_socket = Socket::new(nsp.clone(), true);

    // Client emits echo "data"; one polling batch carries the frame.
    let emitted = client
        .emit(&v(b"echo"), &Payload::Text(v(b"\"data\"")))
        .unwrap();
    let batch = encode_batch(&vec![Payload::Text(emitted.encode())]);
    let frames = decode_batch(&batch).unwrap();
    let wire = match &frames[0] {
        Payload::Text(d) => d.clone(),
        _ => panic!("expected a text frame"),
    };
    let inbound = Packet::decode(&wire).unwrap();
    let (name, _args) = match server_socket.handle_packet(&inbound) {
        Action::EventCb { data, .. } => parse_event(&data).unwrap(),
        _ => panic!("expected an event"),
    };
    assert_eq!(name, v(b"echo"));

    // The handler joins "room 1" and broadcasts an empty echo to it.
    assert!(server.join(&nsp, &vec![v(b"room 1")], &sid));
    let (recipients, reply) = server.emit_to(
        &nsp,
        &vec![v(b"room 1")],
        &v(b"echo"),
        &Payload::Text(v(b"\"\"")),
    );
    assert_eq!(recipients, vec![sid.clone()]);
    server.leave(&nsp, &vec![v(b"room 1")], &sid);

    // Back over the wire; the client's echo callback fires once with "".
    let back = Packet::decode(&reply.encode()).unwrap();
    match client.handle_packet(&back) {
        Action::EventCb { data, .. } => {
            let (name, args) = parse_event(&data).unwrap();
            assert_eq!(name, v(b"echo"));
            assert_eq!(args, v(b"\"\""));
        }
        _ => panic!("expected the echo event"),
    }
}

#[test]
fn server_ack_scenario() {
    // The server broadcasts with an acknowledgment; the client replies via
    // ack(id, ""); the server's callback resolves exactly once.
    let mut server = Server::new();
    server.register_namespace(v(b"/admin"));
    let nsp = v(b"/admin");
    let connect = Packet::new(PacketType::Connect, nsp.clone(), None, None, 0, Vec::new());
    let sid = match server.handle_connect(&v(b"esid"), &connect) {
        ConnectOutcome::Accepted { sid, .. } => sid,
        _ => panic!("connect refused"),
    };
    let mut client = Socket::new(nsp.clone(), true);
    let mut per_client = Socket::new(nsp.clone(), true);

    assert!(server.join(&nsp, &vec![v(b"room 2")], &sid));
    let recipients = server.emit_to_with_ack(
        &nsp,
        &vec![v(b"room 2")],
        &v(b"server_ask_ack"),
        &Payload::Text(v(b"true")),
        400,
    );
    assert_eq!(recipients, vec![sid]);

    // The recipient's socket registers its own ledger entry.
    let (ask, id) = per_client
        .emit_with_ack(&v(b"server_ask_ack"), &Payload::Text(v(b"true")), 400, 0)
        .unwrap();
    let inbound = Packet::decode(&ask.encode()).unwrap();
    let need_ack = match client.handle_packet(&inbound) {
        Action::EventCb { need_ack, .. } => need_ack.unwrap(),
        _ => panic!("expected an event"),
    };
    assert_eq!(need_ack, id);

    // The client answers; the server-side socket resolves the ack once.
    let reply = client.ack(need_ack, &Payload::Text(v(b"\"\""))).unwrap();
    let reply_wire = Packet::decode(&reply.encode()).unwrap();
    assert!(matches!(
        per_client.handle_packet(&reply_wire),
        Action::AckCb { .. }
    ));
    assert!(matches!(
        per_client.handle_packet(&reply_wire),
        Action::Drop
    ));
}
