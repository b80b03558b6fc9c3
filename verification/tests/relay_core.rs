use chat_relay::backlog::MessageLog;
use chat_relay::chaos::ChaosConfig;
use chat_relay::codec::{frame, frame_len, Message, ReceiveMessageError};
use chat_relay::handshake::{hello_name, try_user_handshake};
use chat_relay::hub::ConnectedClients;
use chat_relay::metrics::Metrics;
use chat_relay::net::MessageType;
use chat_relay::reader::{process_received, reader_step, ReaderStep};

fn text(from: &str, content: &str) -> Message {
    Message::Text { from: from.into(), content: content.into() }
}

#[test]
fn round_trip_every_variant() {
    let chaos = ChaosConfig::disabled();
    let messages = vec![
        text("alice", "hello there"),
        Message::Image { from: "alice".into(), content: vec![0, 1, 2, 255] },
        Message::File { from: "bob".into(), name: "notes.txt".into(), content: vec![9, 8] },
        Message::ClientHello { from: "carol".into() },
        Message::ServerHello,
        Message::ClientQuit { from: "carol".into() },
        // empty payloads round-trip too
        text("", ""),
        Message::Image { from: "a".into(), content: vec![] },
        Message::File { from: "".into(), name: "".into(), content: vec![] },
    ];
    for m in messages {
        let bytes = m.serialize(&chaos);
        let back = Message::deserialize(&bytes, &chaos).unwrap();
        assert_eq!(back, m);
    }
}

#[test]
fn frame_layout_is_length_prefixed() {
    let payload = Message::ServerHello.serialize(&ChaosConfig::disabled());
    assert_eq!(payload, vec![4u8]);
    let framed = frame(&payload);
    assert_eq!(framed, vec![0u8, 0, 0, 1, 4]);
    assert_eq!(frame_len(&framed[0..4]), 1);

    let full = Message::ServerHello.to_frame(&ChaosConfig::disabled());
    assert_eq!(full, vec![0u8, 0, 0, 1, 4]);
}

#[test]
fn corrupt_frame_is_a_decode_error() {
    let chaos = ChaosConfig::disabled();
    let bytes = text("alice", "hi").serialize(&chaos);
    // the corruption hook drops the leading byte; a decoder must reject that
    let truncated = &bytes[1..];
    assert!(Message::deserialize(truncated, &chaos).is_err());
    assert!(Message::deserialize(&[], &chaos).is_err());
    assert!(Message::deserialize(&[99, 0, 0], &chaos).is_err());
}

#[test]
fn chaos_disabled_never_corrupts() {
    let chaos = ChaosConfig::disabled();
    assert!(!chaos.is_time_for_random_error());
    let enabled = ChaosConfig::new(true);
    // with the hook enabled the draw may or may not fire; it must not panic
    let _ = enabled.is_time_for_random_error();
}

#[test]
fn name_uniqueness_second_hello_rejected() {
    let mut clients = ConnectedClients::new();

    let first = Ok(Message::ClientHello { from: "alice".into() });
    let name = hello_name(&first).unwrap();
    assert_eq!(name, "alice");
    let can = clients.check_user_can_connect(&name);
    assert!(can);
    let accepted = try_user_handshake(first, can).unwrap();
    clients.register_client(accepted, &Vec::new());

    // a concurrent second hello for the same name: processed later, rejected
    let second = Ok(Message::ClientHello { from: "alice".into() });
    let can2 = clients.check_user_can_connect("alice");
    assert!(!can2);
    assert!(try_user_handshake(second, can2).is_none());

    // the registry still holds exactly one entry for alice
    let names = clients.get_clients();
    assert_eq!(names, vec![String::from("alice")]);
}

#[test]
fn handshake_rejects_non_hello_first_frame() {
    assert!(hello_name(&Ok(text("alice", "hi"))).is_none());
    assert!(hello_name(&Err(ReceiveMessageError::RemoteDisconnected)).is_none());
    assert!(try_user_handshake(Ok(text("alice", "hi")), true).is_none());
    assert!(try_user_handshake(Err(ReceiveMessageError::GeneralStreamError), true).is_none());
}

#[test]
fn no_self_delivery() {
    let mut clients = ConnectedClients::new();
    clients.register_client("alice".into(), &Vec::new());
    clients.register_client("bob".into(), &Vec::new());
    clients.register_client("carol".into(), &Vec::new());

    let out = clients.handle_incomming_chat_message("bob".into(), text("bob", "hi all"));
    let targets: Vec<&str> = out.sends.iter().map(|(n, _)| n.as_str()).collect();
    assert_eq!(targets, vec!["alice", "carol"]);
    for (_, m) in &out.sends {
        assert_eq!(m, &text("bob", "hi all"));
    }
    assert_eq!(out.to_persist, Some(text("bob", "hi all")));
    assert_eq!(out.touch, vec![
        String::from("alice"),
        String::from("bob"),
        String::from("carol"),
    ]);
}

#[test]
fn quit_is_idempotent() {
    let mut clients = ConnectedClients::new();
    clients.register_client("alice".into(), &Vec::new());
    clients.register_client("bob".into(), &Vec::new());

    let quit = Message::ClientQuit { from: "alice".into() };
    let out1 = clients.handle_incomming_chat_message("alice".into(), quit.clone());
    assert!(out1.sends.is_empty());
    assert!(out1.to_persist.is_none());
    assert_eq!(clients.get_clients(), vec![String::from("bob")]);

    // a second quit for the same name is a no-op, not an error
    let out2 = clients.handle_incomming_chat_message("alice".into(), quit);
    assert!(out2.sends.is_empty());
    assert_eq!(clients.get_clients(), vec![String::from("bob")]);
}

#[test]
fn reader_classifies_outcomes() {
    match reader_step("alice", Ok(text("alice", "hi"))) {
        ReaderStep::Forward(icm) => {
            assert_eq!(icm.user_name, "alice");
            assert_eq!(icm.message, text("alice", "hi"));
        },
        _ => panic!("a decoded message must be forwarded"),
    }
    assert!(matches!(
        reader_step("alice", Err(ReceiveMessageError::DeserializationError)),
        ReaderStep::Skip
    ));
    match reader_step("alice", Err(ReceiveMessageError::RemoteDisconnected)) {
        ReaderStep::Terminate(icm) => {
            assert_eq!(icm.message, Message::ClientQuit { from: "alice".into() });
        },
        _ => panic!("a closed stream must terminate the connection"),
    }
}

#[test]
fn malformed_frame_survival() {
    // one corrupted frame, then a valid text: the valid message is still
    // forwarded, and the connection is not terminated
    let outcomes = vec![
        Err(ReceiveMessageError::DeserializationError),
        Ok(text("bob", "hi")),
    ];
    let forwarded = process_received("bob", outcomes);
    assert_eq!(forwarded.len(), 2);
    assert_eq!(forwarded[0].message, Message::ClientHello { from: "bob".into() });
    assert_eq!(forwarded[1].message, text("bob", "hi"));

    // and the hub delivers that valid message to every other peer
    let mut clients = ConnectedClients::new();
    clients.register_client("bob".into(), &Vec::new());
    clients.register_client("carol".into(), &Vec::new());
    let out = clients.handle_incomming_chat_message(
        forwarded[1].user_name.clone(),
        forwarded[1].message.clone(),
    );
    assert_eq!(out.sends.len(), 1);
    assert_eq!(out.sends[0].0, "carol");
    assert_eq!(out.sends[0].1, text("bob", "hi"));
}

#[test]
fn reader_stops_at_terminal_failure() {
    let outcomes = vec![
        Ok(text("bob", "one")),
        Err(ReceiveMessageError::GeneralStreamError),
        Ok(text("bob", "never read")),
    ];
    let forwarded = process_received("bob", outcomes);
    assert_eq!(forwarded.len(), 3);
    assert_eq!(forwarded[0].message, Message::ClientHello { from: "bob".into() });
    assert_eq!(forwarded[1].message, text("bob", "one"));
    assert_eq!(forwarded[2].message, Message::ClientQuit { from: "bob".into() });
}

#[test]
fn scenario_single_delivery() {
    // Client C is already connected; client B connects and sends one text.
    let mut clients = ConnectedClients::new();
    let mut log = MessageLog::new();
    clients.register_client("C".into(), &Vec::new());

    let backlog = log.get_missing_messages("B");
    assert!(backlog.is_empty());
    let sends_on_join = clients.register_client("B".into(), &backlog);
    assert!(sends_on_join.is_empty());

    let out = clients.handle_incomming_chat_message("B".into(), text("B", "hi"));
    if let Some(p) = &out.to_persist {
        log.store_message(10, "B", p);
    }
    log.update_online_users(&out.touch, 10);

    // C receives exactly one frame, the text from B, and no duplicate
    let to_c: Vec<_> = out.sends.iter().filter(|(n, _)| n == "C").collect();
    assert_eq!(to_c.len(), 1);
    assert_eq!(to_c[0].1, text("B", "hi"));
    // and nothing is written back to B
    assert!(out.sends.iter().all(|(n, _)| n != "B"));
}

#[test]
fn backlog_completeness_and_exclusivity() {
    // A was last seen at time 10; five messages arrive while A is away.
    let mut log = MessageLog::new();
    log.store_message(5, "A", &text("A", "before leaving"));
    log.update_online_users(&vec![String::from("A")], 10);

    log.store_message(20, "B", &text("B", "m1"));
    log.store_message(30, "C", &text("C", "m2"));
    log.store_message(40, "A", &text("A", "m3 from A itself"));
    log.store_message(50, "B", &text("B", "m4"));
    log.store_message(60, "C", &text("C", "m5"));

    let missing = log.get_missing_messages("A");
    assert_eq!(missing, vec![
        text("B", "m1"),
        text("C", "m2"),
        text("B", "m4"),
        text("C", "m5"),
    ]);
}

#[test]
fn backlog_orders_by_time_then_sender() {
    let mut log = MessageLog::new();
    log.update_online_users(&vec![String::from("A")], 0);
    // stored out of order, equal times broken by sender name
    log.store_message(30, "z", &text("z", "late"));
    log.store_message(10, "b", &text("b", "tie two"));
    log.store_message(10, "a", &text("a", "tie one"));
    log.store_message(20, "c", &text("c", "middle"));

    let missing = log.get_missing_messages("A");
    assert_eq!(missing, vec![
        text("a", "tie one"),
        text("b", "tie two"),
        text("c", "middle"),
        text("z", "late"),
    ]);
}

#[test]
fn first_time_connect_yields_empty_backlog() {
    let mut log = MessageLog::new();
    log.store_message(5, "B", &text("B", "history"));
    log.store_message(6, "C", &text("C", "more history"));
    log.update_online_users(&vec![String::from("B"), String::from("C")], 7);

    // D has no last-seen watermark: no history is replayed
    assert!(log.get_missing_messages("D").is_empty());
    assert_eq!(log.get_last_online_time("D"), None);
}

#[test]
fn watermark_updates_only_listed_names() {
    let mut log = MessageLog::new();
    log.update_online_users(&vec![String::from("a"), String::from("b")], 10);
    log.update_online_users(&vec![String::from("a")], 20);
    assert_eq!(log.get_last_online_time("a"), Some(20));
    assert_eq!(log.get_last_online_time("b"), Some(10));
    assert_eq!(log.get_last_online_time("c"), None);
}

#[test]
fn metrics_counts() {
    let mut m = Metrics::new();
    m.messages_up();
    m.messages_up();
    m.users_up();
    m.users_up();
    m.users_down();
    assert_eq!(m.messages_count, 2);
    assert_eq!(m.connected_users, 1);
}

#[test]
fn message_type_round_trip() {
    let cases = vec![
        MessageType::Text("Hello World".into()),
        MessageType::Image(vec![1, 2, 3]),
        MessageType::File { name: "f.bin".into(), content: vec![0, 255] },
    ];
    for m in cases {
        let bytes = m.serialize();
        let back = MessageType::deserialize(&bytes).unwrap();
        assert_eq!(back, m);
    }
    assert!(MessageType::deserialize(&[]).is_err());
    assert!(MessageType::deserialize(&[77]).is_err());
}
