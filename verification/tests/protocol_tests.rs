use file_protocol::{is_terminal, transition, Message, Protocol, ProtocolError, Role, State};

fn new_client() -> Protocol {
    Protocol::new(String::from("127.0.0.1"), 7000, Role::Client)
}

fn new_server() -> Protocol {
    Protocol::new(String::from("127.0.0.1"), 0, Role::Server)
}

#[test]
fn end_to_end_transmit() {
    // Client asks for /a.bin on channel 42; the file holds three chunks.
    let data: Vec<u8> = (0..9000usize).map(|i| (i * 7 % 256) as u8).collect();
    let mut server = new_server();
    let mut client = new_client();

    let request = Message::ReqTransmit(42, String::from("/a.bin"));
    let handed_back = server.process_message(request.clone(), None).unwrap();
    assert_eq!(handed_back, Some(request.clone()));

    // The surrounding layer reads the file and answers the request.
    let (hash, num_chunks) = server.import_result(42, &data).unwrap();
    assert_eq!(num_chunks, 3);
    let reply = server.outbox.pop().unwrap();
    assert_eq!(
        reply,
        Message::SuccessTransmit(42, hash.clone(), 3, Some(0))
    );
    let mut server_state = transition(State::initial(), &request, false, Some(&hash));
    assert!(matches!(server_state, State::Transmitting { .. }));

    // The client learns hash and count and reports its gaps.
    client.store_meta(&hash, num_chunks).unwrap();
    client.process_message(reply, Some(&hash)).unwrap();
    let status = client.outbox.pop().unwrap();
    assert_eq!(status, Message::NAK(hash.clone(), Some(vec![(0, 2)])));

    // The server answers the NAK with the three chunks.
    server.process_message(status, Some(&hash)).unwrap();
    let chunks: Vec<Message> = std::mem::take(&mut server.outbox);
    assert_eq!(chunks.len(), 3);

    // The client stores them; completion flips the state to Done.
    let mut client_state = State::Receiving { hash: hash.clone(), num_chunks: Some(3) };
    for msg in chunks {
        assert!(matches!(msg, Message::ReceiveChunk(_, _, _)));
        client.process_message(msg.clone(), Some(&hash)).unwrap();
        let (complete, _) = client.local_sync(&hash, None).unwrap();
        client_state = transition(client_state, &msg, complete, None);
    }
    assert!(matches!(client_state, State::Done));

    let (complete, n) = client.local_sync(&hash, None).unwrap();
    assert!(complete);
    assert_eq!(n, 3);

    // Finalizing reconstructs the transmitted bytes exactly.
    let rebuilt = client.finalize_file(&hash).unwrap();
    assert_eq!(rebuilt, data);

    // The client reports success on the request's channel.
    client.send_success(42).unwrap();
    assert_eq!(client.outbox.pop().unwrap(), Message::SuccessReceive(42));

    // The server closes its session on the acknowledgment.
    server_state = transition(server_state, &Message::ACK(hash.clone()), false, None);
    assert!(matches!(server_state, State::Done));
}

#[test]
fn failure_aborts_without_retrying() {
    let mut client = new_client();
    let failure = Message::Failure(7, String::from("file not found"));
    let result = client.process_message(failure.clone(), None);
    assert_eq!(
        result,
        Err(ProtocolError::RemoteFailure(7, String::from("file not found")))
    );
    // nothing was queued: the session does not retry
    assert!(client.outbox.is_empty());
    // and the state machine is terminal on a failure, whatever the state
    let next = transition(State::initial(), &failure, false, None);
    assert!(matches!(next, State::Done));
    let next = transition(
        State::Receiving { hash: String::from("ff"), num_chunks: None },
        &failure,
        false,
        None,
    );
    assert!(matches!(next, State::Done));
}

#[test]
fn send_sync_queues_announcement() {
    let mut p = new_client();
    p.send_sync("cafe", 5).unwrap();
    assert_eq!(
        p.outbox,
        vec![
            Message::Sync(String::from("cafe")),
            Message::Metadata(String::from("cafe"), 5)
        ]
    );
}

#[test]
fn send_export_queues_request_with_bounded_channel() {
    let mut p = new_client();
    p.send_export("cafe", "/tmp/out", 0o644).unwrap();
    match p.outbox.pop().unwrap() {
        Message::ReqReceive(c, h, path, mode) => {
            assert!(c < 100000);
            assert_eq!(h, "cafe");
            assert_eq!(path, "/tmp/out");
            assert_eq!(mode, Some(0o644));
        }
        other => panic!("unexpected message {:?}", other),
    }
}

#[test]
fn send_import_queues_request_with_bounded_channel() {
    let mut p = new_client();
    p.send_import("/a.bin").unwrap();
    match p.outbox.pop().unwrap() {
        Message::ReqTransmit(c, path) => {
            assert!(c < 100000);
            assert_eq!(path, "/a.bin");
        }
        other => panic!("unexpected message {:?}", other),
    }
}

#[test]
fn channel_ids_stay_below_modulus() {
    for _ in 0..16 {
        assert!(file_protocol::gen_channel_id() < 100000);
    }
}

#[test]
fn send_chunks_skips_absent_indices() {
    let mut p = new_server();
    p.store.store_chunk("ff", 0, b"zero");
    p.store.store_chunk("ff", 2, b"two");
    p.send_chunks("ff", &[(0, 2)]).unwrap();
    assert_eq!(
        p.outbox,
        vec![
            Message::ReceiveChunk(String::from("ff"), 0, b"zero".to_vec()),
            Message::ReceiveChunk(String::from("ff"), 2, b"two".to_vec())
        ]
    );
}

#[test]
fn nak_without_ranges_is_ignored() {
    let mut p = new_server();
    p.store.store_chunk("ff", 0, b"zero");
    let msg = Message::NAK(String::from("ff"), None);
    let r = p.process_message(msg.clone(), None).unwrap();
    assert_eq!(r, Some(msg));
    assert!(p.outbox.is_empty());
}

#[test]
fn nak_with_ranges_queues_requested_chunks() {
    let mut p = new_server();
    p.store.store_chunk("ff", 0, b"zero");
    p.store.store_chunk("ff", 1, b"one");
    p.process_message(Message::NAK(String::from("ff"), Some(vec![(1, 1)])), None)
        .unwrap();
    assert_eq!(
        p.outbox,
        vec![Message::ReceiveChunk(String::from("ff"), 1, b"one".to_vec())]
    );
}

#[test]
fn metadata_message_stores_count() {
    let mut p = new_server();
    p.process_message(Message::Metadata(String::from("ff"), 4), None)
        .unwrap();
    assert_eq!(p.store.load_meta("ff"), Some(4));
}

#[test]
fn receive_chunk_message_stores_payload() {
    let mut p = new_server();
    p.process_message(
        Message::ReceiveChunk(String::from("ff"), 9, vec![1, 2, 3]),
        None,
    )
    .unwrap();
    assert_eq!(p.store.load_chunk("ff", 9).unwrap(), vec![1, 2, 3]);
}

#[test]
fn req_receive_with_mode_queues_status() {
    let mut p = new_server();
    let msg = Message::ReqReceive(5, String::from("ff"), String::from("/out"), Some(0));
    p.process_message(msg, None).unwrap();
    // nothing is known about the file yet: an empty request-all NAK
    assert_eq!(p.outbox, vec![Message::NAK(String::from("ff"), Some(Vec::new()))]);
}

#[test]
fn success_transmit_queues_gap_status() {
    let mut p = new_client();
    p.store.store_chunk("ff", 0, b"zero");
    let msg = Message::SuccessTransmit(5, String::from("ff"), 3, None);
    p.process_message(msg, None).unwrap();
    assert_eq!(
        p.outbox,
        vec![Message::NAK(String::from("ff"), Some(vec![(1, 2)]))]
    );
}

#[test]
fn sync_and_send_reports_completion() {
    let mut p = new_client();
    let data = vec![9u8; 100];
    let (h, n, _) = p.local_import(&data).unwrap();
    assert_eq!(n, 1);
    let complete = p.sync_and_send(&h, Some(1)).unwrap();
    assert!(complete);
    assert_eq!(p.outbox.pop().unwrap(), Message::ACK(h.clone()));
    let complete = p.sync_and_send("0123", Some(2)).unwrap();
    assert!(!complete);
    assert_eq!(
        p.outbox.pop().unwrap(),
        Message::NAK(String::from("0123"), Some(vec![(0, 1)]))
    );
}

#[test]
fn terminal_messages_close_a_pumped_engine() {
    assert!(is_terminal(&Message::ACK(String::from("ff"))));
    assert!(is_terminal(&Message::SuccessReceive(1)));
    assert!(is_terminal(&Message::SuccessTransmit(1, String::from("ff"), 1, None)));
    assert!(!is_terminal(&Message::Sync(String::from("ff"))));
    assert!(!is_terminal(&Message::ReceiveChunk(String::from("ff"), 0, Vec::new())));
}

#[test]
fn req_receive_moves_holding_to_receiving() {
    let msg = Message::ReqReceive(1, String::from("ff"), String::from("/out"), Some(0));
    let next = transition(State::initial(), &msg, false, None);
    match next {
        State::Receiving { hash, num_chunks } => {
            assert_eq!(hash, "ff");
            assert_eq!(num_chunks, None);
        }
        _ => panic!("expected a receiving state"),
    }
}

#[test]
fn ack_with_other_hash_keeps_transmitting() {
    let state = State::Transmitting { hash: String::from("aa") };
    let next = transition(state, &Message::ACK(String::from("bb")), false, None);
    assert!(matches!(next, State::Transmitting { .. }));
}

#[test]
fn set_dest_port_tracks_peer() {
    let mut p = new_server();
    assert_eq!(p.dest_port, 0);
    p.set_dest_port(8101);
    assert_eq!(p.dest_port, 8101);
}
