//! The client's end of a connection.

use std::borrow::Cow;
use stompoxide::client::{
    answered, connect_frame, read_reply, take_answer, Arrival, ClientAction, ClientConfig,
    ClientEvent, ClientSession, Command, Incoming, Reply, SubscriptionNames,
};
use stompoxide::convert::{IntoBytes, IntoText};
use stompoxide::error::{describe_io, StompError};
use stompoxide::frame::{StompFrame, StompVersion};
use stompoxide::handshake::incoming_timeout;
use stompoxide::request::{
    ack_headers, nack_headers, send_request_to_frame, subscribe_request_to_frame, upsert_header,
    AckMode, AckRequest, SendRequest, SubscribeRequest,
};

fn header(name: &str, value: &str) -> (String, String) {
    (name.to_string(), value.to_string())
}

fn frame(command: &'static str, headers: &[(&str, &str)]) -> StompFrame<'static> {
    StompFrame {
        command: Cow::Borrowed(command),
        headers: headers.iter().map(|(k, v)| header(k, v)).collect(),
        body: None,
    }
}

#[test]
fn send_request_headers_replace_existing_headers_and_receipt_upserts() {
    let frame = send_request_to_frame(
        SendRequest::new("/queue/jobs", "hello")
            .receipt("receipt-1")
            .headers(vec![("content-type".to_string(), "text/plain".to_string())])
            .receipt("receipt-2"),
    );

    assert_eq!(frame.command, "SEND");
    assert_eq!(
        frame.headers,
        vec![
            ("content-type".to_string(), "text/plain".to_string()),
            ("receipt".to_string(), "receipt-2".to_string()),
            ("destination".to_string(), "/queue/jobs".to_string()),
        ]
    );
}

#[test]
fn subscribe_request_defaults_to_auto_ack() {
    let frame = subscribe_request_to_frame(SubscribeRequest::new("/queue/jobs"), "sub-1".into());

    assert_eq!(frame.command, "SUBSCRIBE");
    assert!(frame
        .headers
        .contains(&("ack".to_string(), "auto".to_string())));
}

#[test]
fn subscribe_request_headers_replace_existing_headers_and_ack_upserts() {
    let frame = subscribe_request_to_frame(
        SubscribeRequest::new("/queue/jobs")
            .ack(AckMode::Client)
            .headers(vec![("receipt".to_string(), "receipt-1".to_string())])
            .ack(AckMode::ClientIndividual),
        "sub-1".into(),
    );

    assert_eq!(
        frame.headers,
        vec![
            ("receipt".to_string(), "receipt-1".to_string()),
            ("ack".to_string(), "client-individual".to_string()),
            ("id".to_string(), "sub-1".to_string()),
            ("destination".to_string(), "/queue/jobs".to_string()),
        ]
    );
}

#[test]
fn test_client_connect_send_subscribe() {
    let config = ClientConfig {
        host: "localhost".to_string(),
        ..Default::default()
    };
    let connect = connect_frame(&config);
    assert_eq!(connect.command, "CONNECT");
    let connected = frame("CONNECTED", &[("version", "1.2"), ("heart-beat", "0,0")]);
    let mut session = match read_reply(&config, &connected) {
        Reply::Open {
            session,
            outgoing_hb,
            incoming_hb,
        } => {
            assert_eq!((outgoing_hb, incoming_hb), (0, 0));
            session
        }
        _ => panic!("not open"),
    };
    assert_eq!(session.version(), StompVersion::V1_2);

    let mut names = SubscriptionNames::new();
    let (request, id) = names.assign(SubscribeRequest::new("/topic/test"));
    assert_eq!(id, "1");
    let subscribe = session
        .command(Command::Subscribe { request, sender: 42 })
        .unwrap();
    assert_eq!(subscribe.command, "SUBSCRIBE");
    let sub_id = subscribe.get_header("id").unwrap().to_string();

    let send = session
        .command(Command::Send(SendRequest::new(
            "/topic/test",
            b"hello server".to_vec(),
        )))
        .unwrap();
    assert_eq!(send.command, "SEND");
    assert_eq!(send.body.as_ref().unwrap().as_ref(), b"hello server");

    let message = StompFrame {
        command: Cow::Borrowed("MESSAGE"),
        headers: vec![
            ("subscription".to_string(), sub_id),
            ("message-id".to_string(), "msg-001".to_string()),
            ("destination".to_string(), "/topic/test".to_string()),
        ],
        body: Some(Cow::Borrowed(b"hello client")),
    };
    match session.receive(message) {
        Incoming::Message { sender, frame } => {
            assert_eq!(sender, 42);
            assert_eq!(frame.command, "MESSAGE");
            assert_eq!(frame.body.unwrap().as_ref(), b"hello client");
        }
        _ => panic!("not passed on"),
    }
}

#[test]
fn test_client_heartbeat_timeout() {
    let config = ClientConfig {
        host: "localhost".to_string(),
        login: None,
        passcode: None,
        heartbeat_cx: 0,
        heartbeat_cy: 100,
        accept_versions: vec!["1.0".to_string(), "1.1".to_string(), "1.2".to_string()],
    };
    let connected = frame(
        "CONNECTED",
        &[("version", "1.2"), ("heart-beat", "100,100")],
    );
    match read_reply(&config, &connected) {
        Reply::Open {
            mut session,
            outgoing_hb,
            incoming_hb,
        } => {
            assert_eq!((outgoing_hb, incoming_hb), (0, 100));
            assert_eq!(incoming_timeout(incoming_hb), Some(150));
            assert_eq!(session.check_micros(), Some(75_000));
            let check = |silent_nanos: u128| ClientEvent::CheckDue { silent_nanos };
            assert!(matches!(
                session.step(check(150_000_000)),
                ClientAction::Nothing
            ));
            match session.step(check(150_000_001)) {
                ClientAction::Fail(StompError::Protocol(msg)) => {
                    assert!(msg.contains("Heartbeat timeout"))
                }
                _ => panic!("no timeout"),
            }
        }
        _ => panic!("not open"),
    }
}

#[test]
fn test_client_send_ack_nack() {
    let mut session = ClientSession::new(StompVersion::V1_2, 0);
    let ack = session
        .command(Command::Ack(AckRequest::new("msg-1")))
        .unwrap();
    assert_eq!(ack.command, "ACK");
    assert_eq!(ack.get_header("id"), Some("msg-1"));
    let nack = session
        .command(Command::Nack(AckRequest::new("msg-2")))
        .unwrap();
    assert_eq!(nack.command, "NACK");
    assert_eq!(nack.get_header("id"), Some("msg-2"));
}

#[test]
fn test_client_stomp_1_1_enforces_subscription_regression() {
    let mut session = ClientSession::new(StompVersion::V1_1, 0);
    match session.command(Command::Ack(AckRequest::new("some-msg-id"))) {
        Err(StompError::Protocol(msg)) => {
            assert!(msg.contains("STOMP 1.1 ACK requires a subscription header"))
        }
        _ => panic!("expected protocol error"),
    }
    match session.command(Command::Nack(AckRequest::new("some-msg-id"))) {
        Err(StompError::Protocol(msg)) => {
            assert!(msg.contains("STOMP 1.1 NACK requires a subscription header"))
        }
        _ => panic!("expected protocol error"),
    }
}

#[test]
fn acknowledgements_follow_the_version() {
    let request = AckRequest::new("m").subscription("s").transaction("t");
    assert_eq!(
        ack_headers(request.clone(), StompVersion::V1_0).unwrap(),
        vec![header("message-id", "m"), header("transaction", "t")]
    );
    assert_eq!(
        ack_headers(request.clone(), StompVersion::V1_1).unwrap(),
        vec![
            header("message-id", "m"),
            header("subscription", "s"),
            header("transaction", "t"),
        ]
    );
    assert_eq!(
        nack_headers(request.clone(), StompVersion::V1_2).unwrap(),
        vec![header("id", "m"), header("transaction", "t")]
    );
    assert_eq!(
        nack_headers(request.clone(), StompVersion::V1_1).unwrap(),
        vec![
            header("message-id", "m"),
            header("subscription", "s"),
            header("transaction", "t"),
        ]
    );
    assert_eq!(
        nack_headers(request, StompVersion::V1_0)
            .unwrap_err()
            .describe(),
        "Protocol error: STOMP 1.0 does not support NACK"
    );
}

#[test]
fn modes_have_names() {
    assert_eq!(AckMode::Auto.as_header_value(), "auto");
    assert_eq!(AckMode::Client.as_header_value(), "client");
    assert_eq!(AckMode::ClientIndividual.as_header_value(), "client-individual");
}

#[test]
fn headers_are_set_in_place() {
    let mut headers = vec![header("a", "1"), header("b", "2"), header("a", "3")];
    upsert_header(&mut headers, "a", "9".to_string());
    assert_eq!(
        headers,
        vec![header("a", "9"), header("b", "2"), header("a", "3")]
    );
    upsert_header(&mut headers, "c", "4".to_string());
    assert_eq!(headers.len(), 4);
    assert_eq!(headers[3], header("c", "4"));
}

#[test]
fn requests_take_text_and_bytes_in_several_forms() {
    let frame = send_request_to_frame(
        SendRequest::new("/queue/a".to_string(), "h\u{e9}".to_string())
            .transaction("tx-1".to_string())
            .transaction("tx-2"),
    );
    assert_eq!(frame.body.as_ref().unwrap().as_ref(), "h\u{e9}".as_bytes());
    assert_eq!(frame.get_header("transaction"), Some("tx-2"));
    let frame = send_request_to_frame(SendRequest::new("/queue/a", &b"\xff\x00"[..]).clone());
    assert_eq!(frame.body.as_ref().unwrap().as_ref(), b"\xff\x00");
    let frame = subscribe_request_to_frame(
        SubscribeRequest::new("/queue/a").receipt("r").clone(),
        "x".to_string(),
    );
    assert_eq!(frame.get_header("receipt"), Some("r"));
}

#[test]
fn a_client_says_what_it_accepts() {
    let connect = connect_frame(&ClientConfig::default());
    assert_eq!(
        connect.headers,
        vec![
            header("accept-version", "1.0,1.1,1.2"),
            header("host", "localhost"),
            header("heart-beat", "0,0"),
        ]
    );
    let config = ClientConfig {
        host: "example".to_string(),
        login: Some("me".to_string()),
        passcode: Some("pw".to_string()),
        heartbeat_cx: 10,
        heartbeat_cy: 4294967295,
        accept_versions: vec!["1.2".to_string()],
    };
    assert_eq!(
        connect_frame(&config.clone()).headers,
        vec![
            header("accept-version", "1.2"),
            header("host", "example"),
            header("heart-beat", "10,4294967295"),
            header("login", "me"),
            header("passcode", "pw"),
        ]
    );
}

#[test]
fn a_client_of_the_oldest_version_connects_in_its_way() {
    let config = ClientConfig {
        login: Some("me".to_string()),
        accept_versions: vec!["1.0".to_string()],
        ..ClientConfig::default()
    };
    assert_eq!(connect_frame(&config).headers, vec![header("login", "me")]);
}

#[test]
fn replies_before_the_connection_is_open() {
    let config = ClientConfig {
        heartbeat_cx: 7000,
        heartbeat_cy: 1000,
        ..ClientConfig::default()
    };
    assert!(matches!(
        read_reply(&config, &frame("HEARTBEAT", &[])),
        Reply::Waiting
    ));
    match read_reply(&config, &frame("ERROR", &[])) {
        Reply::Failed(e) => assert_eq!(
            e.describe(),
            "Protocol error: Expected CONNECTED frame, got ERROR"
        ),
        _ => panic!("not refused"),
    }
    let open = |headers: &[(&str, &str)]| match read_reply(&config, &frame("CONNECTED", headers)) {
        Reply::Open {
            session,
            outgoing_hb,
            incoming_hb,
        } => (session.version(), outgoing_hb, incoming_hb),
        _ => panic!("not open"),
    };
    assert_eq!(
        open(&[("version", "1.1"), ("heart-beat", "5000,5000")]),
        (StompVersion::V1_1, 7000, 5000)
    );
    assert_eq!(
        open(&[("version", "1.2"), ("heart-beat", "0,5000")]),
        (StompVersion::V1_2, 7000, 0)
    );
    assert_eq!(
        open(&[("version", "1.2"), ("heart-beat", "5000, 5000")]),
        (StompVersion::V1_2, 0, 5000)
    );
    assert_eq!(
        open(&[("heart-beat", "5000,5000")]),
        (StompVersion::V1_0, 0, 0)
    );
    assert_eq!(open(&[("version", "9.9")]), (StompVersion::V1_2, 0, 0));
    assert_eq!(
        open(&[("version", "1.0"), ("heart-beat", "1,2,3")]),
        (StompVersion::V1_0, 0, 0)
    );
}

#[test]
fn subscriptions_are_numbered() {
    let mut names = SubscriptionNames::new();
    let (_, id) = names.assign(SubscribeRequest::new("/a"));
    assert_eq!(id, "1");
    let (request, id) = names.assign(SubscribeRequest::new("/a").id("mine"));
    assert_eq!(id, "mine");
    assert_eq!(request.requested_id(), Some("mine"));
    let (request, id) = names.assign(SubscribeRequest::new("/a"));
    assert_eq!(id, "2");
    assert_eq!(request.requested_id(), Some("2"));
}

#[test]
fn messages_go_to_their_subscription() {
    let mut session = ClientSession::new(StompVersion::V1_2, 0);
    let subscribe = |id: &str, sender: u64| Command::Subscribe {
        request: SubscribeRequest::new("/topic/x").id(id),
        sender,
    };
    session.command(subscribe("a", 1)).unwrap();
    session.command(subscribe("b", 2)).unwrap();
    session.command(subscribe("a", 3)).unwrap();
    let to = |session: &ClientSession, id: &str| match session
        .receive(frame("MESSAGE", &[("subscription", id)]))
    {
        Incoming::Message { sender, .. } => Some(sender),
        _ => None,
    };
    assert_eq!(to(&session, "a"), Some(3));
    assert_eq!(to(&session, "b"), Some(2));
    assert_eq!(to(&session, "c"), None);
    let unsubscribe = session
        .command(Command::Unsubscribe("a".to_string()))
        .unwrap();
    assert_eq!(unsubscribe.command, "UNSUBSCRIBE");
    assert_eq!(unsubscribe.headers, vec![header("id", "a")]);
    assert_eq!(to(&session, "a"), None);
    assert_eq!(to(&session, "b"), Some(2));
    assert!(matches!(
        session.receive(frame("MESSAGE", &[])),
        Incoming::Ignored
    ));
    assert!(matches!(
        session.receive(frame("RECEIPT", &[])),
        Incoming::Ignored
    ));
    assert!(matches!(
        session.receive(frame("ERROR", &[("message", "no")])),
        Incoming::ServerError(_)
    ));
}

#[test]
fn a_subscription_without_a_name_is_the_first() {
    let mut session = ClientSession::new(StompVersion::V1_2, 0);
    let subscribe = session
        .command(Command::Subscribe {
            request: SubscribeRequest::new("/topic/x"),
            sender: 5,
        })
        .unwrap();
    assert_eq!(subscribe.get_header("id"), Some("1"));
}

#[test]
fn transactions_and_the_end_have_frames() {
    let mut session = ClientSession::new(StompVersion::V1_2, 0);
    for (command, name) in [
        (Command::Begin("t".to_string()), "BEGIN"),
        (Command::Commit("t".to_string()), "COMMIT"),
        (Command::Abort("t".to_string()), "ABORT"),
    ] {
        let frame = session.command(command).unwrap();
        assert_eq!(frame.command, name);
        assert_eq!(frame.headers, vec![header("transaction", "t")]);
        assert!(frame.body.is_none());
    }
    let frame = session.command(Command::Disconnect).unwrap();
    assert_eq!(frame.command, "DISCONNECT");
    assert!(frame.headers.is_empty());
}

#[test]
fn errors_are_described() {
    assert_eq!(
        StompError::Disconnected.describe(),
        "Disconnected from server"
    );
    assert_eq!(StompError::ReceiptTimeout.describe(), "Receipt timeout");
    let io = StompError::from(std::io::Error::new(std::io::ErrorKind::Other, "broken"));
    assert!(matches!(io, StompError::Io(_)));
    assert_eq!(io.describe(), "IO error: broken");
}

#[test]
fn checks_come_at_least_once_a_second() {
    assert_eq!(incoming_timeout(0), None);
    assert_eq!(incoming_timeout(5000), Some(7500));
    assert_eq!(incoming_timeout(1), Some(1));
    assert_eq!(incoming_timeout(3), Some(4));
    assert_eq!(incoming_timeout(4294967295), Some(6442450942));
    let micros = |hb: u32| ClientSession::new(StompVersion::V1_2, hb).check_micros();
    assert_eq!(micros(0), None);
    assert_eq!(micros(1333), Some(999_500));
    assert_eq!(micros(1334), Some(1_000_000));
    assert_eq!(micros(5000), Some(1_000_000));
}

#[test]
fn events_call_for_actions() {
    let mut session = ClientSession::new(StompVersion::V1_2, 0);
    assert!(matches!(
        session.step(ClientEvent::HeartbeatDue),
        ClientAction::Beat
    ));
    assert!(matches!(
        session.step(ClientEvent::CheckDue {
            silent_nanos: u128::MAX
        }),
        ClientAction::Nothing
    ));
    assert!(matches!(
        session.step(ClientEvent::NoMoreCommands),
        ClientAction::Finish
    ));
    assert!(matches!(
        session.step(ClientEvent::Closed),
        ClientAction::Fail(StompError::Disconnected)
    ));
    let broken = std::io::Error::new(std::io::ErrorKind::Other, "broken");
    assert!(matches!(
        session.step(ClientEvent::ReadFailed(broken)),
        ClientAction::Fail(StompError::Io(_))
    ));
    match session.step(ClientEvent::Command(Command::Begin("t".to_string()))) {
        ClientAction::Write { frame, last } => {
            assert_eq!(frame.command, "BEGIN");
            assert!(!last);
        }
        _ => panic!("nothing to write"),
    }
    match session.step(ClientEvent::Command(Command::Disconnect)) {
        ClientAction::Write { frame, last } => {
            assert_eq!(frame.command, "DISCONNECT");
            assert!(last);
        }
        _ => panic!("nothing to write"),
    }
    let mut older = ClientSession::new(StompVersion::V1_0, 0);
    assert!(matches!(
        older.step(ClientEvent::Command(Command::Nack(AckRequest::new("m")))),
        ClientAction::Reject(StompError::Protocol(_))
    ));
    let request = SubscribeRequest::new("/topic/x").id("a");
    session.step(ClientEvent::Command(Command::Subscribe { request, sender: 8 }));
    assert!(session.uses_sender(8) && !session.uses_sender(9));
    assert!(matches!(
        session.step(ClientEvent::Frame(frame("MESSAGE", &[("subscription", "a")]))),
        ClientAction::Deliver { sender: 8, .. }
    ));
    assert!(matches!(
        session.step(ClientEvent::Frame(frame("MESSAGE", &[("subscription", "b")]))),
        ClientAction::Nothing
    ));
    assert!(matches!(
        session.step(ClientEvent::Frame(frame("ERROR", &[]))),
        ClientAction::ServerError(_)
    ));
}

#[test]
fn arrivals_before_the_connection_is_open() {
    let config = ClientConfig::default();
    assert!(matches!(
        take_answer(&config, Arrival::Frame(frame("HEARTBEAT", &[]))),
        Reply::Waiting
    ));
    assert!(matches!(
        take_answer(&config, Arrival::Frame(frame("CONNECTED", &[]))),
        Reply::Open { .. }
    ));
    match take_answer(&config, Arrival::Frame(frame("MESSAGE", &[]))) {
        Reply::Failed(e) => assert_eq!(
            e.describe(),
            "Protocol error: Expected CONNECTED frame, got MESSAGE"
        ),
        _ => panic!("not failed"),
    }
    let broken = std::io::Error::new(std::io::ErrorKind::InvalidData, "broken");
    match take_answer(&config, Arrival::ReadFailed(broken)) {
        Reply::Failed(StompError::Io(e)) => {
            assert_eq!(e.kind(), std::io::ErrorKind::InvalidData);
        }
        _ => panic!("not failed"),
    }
    assert!(matches!(
        take_answer(&config, Arrival::Closed),
        Reply::Failed(StompError::Disconnected)
    ));
}

#[test]
fn requests_without_an_answer_are_disconnected() {
    assert!(matches!(answered(Some(Ok(()))), Ok(())));
    assert!(matches!(
        answered(Some(Err(StompError::ReceiptTimeout))),
        Err(StompError::ReceiptTimeout)
    ));
    assert!(matches!(answered(None), Err(StompError::Disconnected)));
}

#[test]
fn generated_names_count_up_over_a_run() {
    let mut names = SubscriptionNames::new();
    let wanted = [None, Some("a"), None, None, Some("2"), None];
    let given: Vec<String> = wanted
        .iter()
        .map(|id| {
            let request = SubscribeRequest::new("/topic/a");
            let request = match id {
                Some(id) => request.id(*id),
                None => request,
            };
            names.assign(request).1
        })
        .collect();
    assert_eq!(given, ["1", "a", "2", "3", "2", "4"]);
}

#[test]
fn failures_to_read_are_described() {
    assert_eq!(describe_io("broken pipe"), "IO error: broken pipe");
    assert_eq!(describe_io(""), "IO error: ");
}

#[test]
fn text_and_bytes_can_be_given_in_many_ways() {
    let owned = "\u{e9}t".to_string();
    assert_eq!((&owned).into_text(), owned);
    assert_eq!(Cow::Borrowed("ab").into_text(), "ab");
    assert_eq!(Cow::<str>::Owned(owned.clone()).into_text(), owned);
    assert_eq!(owned.clone().into_boxed_str().into_text(), owned);
    assert_eq!('\u{e9}'.into_text(), "\u{e9}");
    assert_eq!([1u8, 2].into_bytes(), vec![1, 2]);
    assert_eq!(b"abc".into_bytes(), b"abc".to_vec());
    assert_eq!(Cow::<[u8]>::Owned(vec![3]).into_bytes(), vec![3]);
    assert_eq!(vec![4u8].into_boxed_slice().into_bytes(), vec![4]);
    let request = SendRequest::new('q', b"body").receipt(&owned);
    assert_eq!(send_request_to_frame(request).get_header("destination"), Some("q"));
}
