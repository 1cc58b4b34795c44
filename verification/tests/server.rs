//! The server's end of a connection.

use std::borrow::Cow;
use stompoxide::client::{connect_frame, read_reply, ClientConfig, Reply};
use stompoxide::codec::StompCodec;
use stompoxide::destination::{
    classify_destination, contains_wildcard, matches_destination, DestinationKind,
};
use stompoxide::frame::{StompFrame, StompVersion};
use stompoxide::handshake::{
    asks_to_connect, credentials, negotiate_version, open_connection, version_text,
};
use stompoxide::ident::{new_connection_id, IdSupply};
use stompoxide::parse::parse_frame;
use stompoxide::request::{
    send_request_to_frame, subscribe_request_to_frame, AckMode, SendRequest, SubscribeRequest,
};
use stompoxide::router::PubSubRouter;
use stompoxide::session::{
    ack_id_and_subscription, create_error_frame, create_receipt_frame, message_from, Event,
    Output, Session,
};
use stompoxide::websocket::{
    bytes_from_message, message_from_bytes, select_stomp_subprotocol, WsMessage,
    STOMP_SUBPROTOCOLS,
};

fn header(name: &str, value: &str) -> (String, String) {
    (name.to_string(), value.to_string())
}

fn frame(command: &'static str, headers: &[(&str, &str)]) -> StompFrame<'static> {
    StompFrame {
        command: Cow::Borrowed(command),
        headers: headers.iter().map(|(k, v)| header(k, v)).collect(),
        body: None,
    }
}

fn with_body(
    command: &'static str,
    headers: &[(&str, &str)],
    body: &'static [u8],
) -> StompFrame<'static> {
    StompFrame {
        body: Some(Cow::Borrowed(body)),
        ..frame(command, headers)
    }
}

/// A server without a network: what it sends is kept, by connection.
struct Server {
    router: PubSubRouter,
    ids: IdSupply,
    sent: Vec<Vec<StompFrame<'static>>>,
    open: Vec<bool>,
    sessions: Vec<Session>,
}

impl Server {
    fn new() -> Self {
        Self::with_ids(IdSupply::new())
    }

    fn with_ids(ids: IdSupply) -> Self {
        Server {
            router: PubSubRouter::new(),
            ids,
            sent: Vec::new(),
            open: Vec::new(),
            sessions: Vec::new(),
        }
    }

    fn connect(&mut self, headers: &[(&str, &str)]) -> usize {
        let number = self.sessions.len();
        let conn_id = number as u128 + 1;
        let opening = open_connection(conn_id, number as u64, &frame("CONNECT", headers), None);
        let opening = opening.unwrap_or_else(|_| panic!("refused"));
        assert_eq!(opening.connected.command, "CONNECTED");
        self.sessions.push(opening.session);
        self.sent.push(Vec::new());
        self.open.push(true);
        number
    }

    fn connect_newest(&mut self) -> usize {
        self.connect(&[("accept-version", "1.2"), ("host", "localhost")])
    }

    fn step(&mut self, number: usize, event: Event) {
        assert!(self.open[number]);
        let mut out = Vec::new();
        let close =
            self.sessions[number].step(&mut self.router, &mut self.ids, event, &mut out);
        for o in out {
            match o {
                Output::Deliver(d) => self.sent[d.sender as usize].push(d.frame),
                Output::Reply(f) => self.sent[number].push(f),
            }
        }
        self.open[number] = !close;
    }

    fn send(&mut self, number: usize, frame: StompFrame<'static>) {
        self.step(number, Event::Frame(frame));
    }

    fn take(&mut self, number: usize) -> StompFrame<'static> {
        assert!(!self.sent[number].is_empty(), "nothing was sent");
        self.sent[number].remove(0)
    }

    fn quiet(&self, number: usize) -> bool {
        self.sent[number].is_empty()
    }

    fn refuses(&mut self, number: usize, frame: StompFrame<'static>, message: &str) {
        self.send(number, frame);
        let error = self.take(number);
        assert_eq!(error.command, "ERROR");
        assert_eq!(error.get_header("message"), Some(message));
        assert!(!self.open[number]);
    }
}

fn subscribe(destination: &str) -> StompFrame<'static> {
    subscribe_request_to_frame(SubscribeRequest::new(destination), "1".to_string())
}

fn subscribe_with(destination: &str, id: &str, mode: AckMode) -> StompFrame<'static> {
    subscribe_request_to_frame(
        SubscribeRequest::new(destination).ack(mode),
        id.to_string(),
    )
}

fn send(destination: &str, body: &'static [u8]) -> StompFrame<'static> {
    send_request_to_frame(SendRequest::new(destination, body))
}

#[test]
fn test_stompoxide_server_pub_sub() {
    let mut server = Server::new();
    let one = server.connect_newest();
    server.send(one, subscribe("/topic/*"));
    let two = server.connect_newest();
    server.send(two, send("/topic/hello", b"hello pubsub"));
    let msg = server.take(one);
    assert_eq!(msg.command, "MESSAGE");
    assert_eq!(msg.body.unwrap().as_ref(), b"hello pubsub");
    assert!(server.quiet(one) && server.quiet(two));
}

#[test]
fn test_stompoxide_server_topic_broadcasts_to_all_matching_subscribers() {
    let mut server = Server::new();
    let one = server.connect_newest();
    server.send(one, subscribe("/topic/events"));
    let two = server.connect_newest();
    server.send(two, subscribe("/topic/*"));
    let three = server.connect_newest();
    server.send(three, send("/topic/events", b"broadcast"));
    assert_eq!(server.take(one).body.unwrap().as_ref(), b"broadcast");
    assert_eq!(server.take(two).body.unwrap().as_ref(), b"broadcast");
    assert!(server.quiet(one) && server.quiet(two) && server.quiet(three));
}

#[test]
fn test_stompoxide_server_queue_round_robins_to_one_subscriber() {
    let mut server = Server::new();
    let one = server.connect_newest();
    server.send(one, subscribe("/queue/jobs"));
    let two = server.connect_newest();
    server.send(two, subscribe("/queue/jobs"));
    let three = server.connect_newest();
    server.send(three, send("/queue/jobs", b"first"));
    server.send(three, send("/queue/jobs", b"second"));
    server.send(three, send("/queue/jobs", b"third"));
    assert_eq!(server.take(one).body.unwrap().as_ref(), b"first");
    assert_eq!(server.take(two).body.unwrap().as_ref(), b"second");
    assert_eq!(server.take(one).body.unwrap().as_ref(), b"third");
    assert!(server.quiet(one) && server.quiet(two));
}

#[test]
fn test_stompoxide_server_queue_without_subscribers_drops_message() {
    let mut server = Server::new();
    let one = server.connect_newest();
    server.send(one, send("/queue/no-consumers", b"drop"));
    server.send(one, send("/queue/no-consumers", b"still connected"));
    assert!(server.open[one]);
    server.send(one, subscribe("/queue/no-consumers"));
    assert!(server.quiet(one));
}

#[test]
fn test_stompoxide_server_rejects_unknown_send_destination() {
    let mut server = Server::new();
    let one = server.connect_newest();
    server.refuses(
        one,
        with_body("SEND", &[("destination", "/unknown/test")], b"bad"),
        "Unknown destination",
    );
}

#[test]
fn test_stompoxide_server_rejects_unknown_subscribe_destination() {
    let mut server = Server::new();
    let one = server.connect_newest();
    server.refuses(
        one,
        frame(
            "SUBSCRIBE",
            &[("id", "sub-1"), ("destination", "/unknown/test")],
        ),
        "Unknown destination",
    );
}

#[test]
fn test_stompoxide_server_rejects_queue_wildcard_subscription() {
    let mut server = Server::new();
    let one = server.connect_newest();
    server.refuses(
        one,
        frame("SUBSCRIBE", &[("id", "sub-1"), ("destination", "/queue/*")]),
        "Queue subscriptions must use an exact destination",
    );
}

#[test]
fn test_stompoxide_server_version_negotiation_failure() {
    let (_, connect) = parse_frame(b"CONNECT\naccept-version:2.0\n\n\0").unwrap();
    let error = open_connection(1, 0, &connect, None)
        .err()
        .expect("let in");
    assert_eq!(error.command, "ERROR");
    assert_eq!(
        error.headers,
        vec![
            header("message", "Supported versions: 1.0, 1.1, 1.2"),
            header("version", "1.2,1.1,1.0"),
        ]
    );
}

#[test]
fn test_stompoxide_server_version_negotiation_success() {
    let (_, connect) =
        parse_frame(b"CONNECT\naccept-version:1.2\nhost:localhost\n\n\0").unwrap();
    let opening = open_connection(1, 0, &connect, None).ok().unwrap();
    assert_eq!(opening.connected.command, "CONNECTED");
    assert_eq!(opening.connected.get_header("version"), Some("1.2"));
    assert_eq!(opening.session.version(), StompVersion::V1_2);
}

#[test]
fn test_stompoxide_server_version_negotiation_success_1_1() {
    let (_, connect) =
        parse_frame(b"CONNECT\naccept-version:1.0,1.1\nhost:localhost\n\n\0").unwrap();
    let opening = open_connection(1, 0, &connect, None).ok().unwrap();
    assert_eq!(opening.connected.command, "CONNECTED");
    assert_eq!(opening.connected.get_header("version"), Some("1.1"));
}

#[test]
fn test_stompoxide_server_receipt() {
    let mut server = Server::new();
    let one = server.connect_newest();
    server.send(
        one,
        with_body(
            "SEND",
            &[("destination", "/topic/test"), ("receipt", "receipt-789")],
            b"hello",
        ),
    );
    let receipt = server.take(one);
    assert_eq!(receipt.command, "RECEIPT");
    assert_eq!(receipt.get_header("receipt-id"), Some("receipt-789"));
}

#[test]
fn test_duplicate_headers() {
    let mut server = Server::new();
    let one = server.connect(&[
        ("accept-version", "1.2"),
        ("accept-version", "1.0"),
        ("host", "localhost"),
    ]);
    server.send(
        one,
        with_body(
            "SEND",
            &[
                ("destination", "/topic/test"),
                ("receipt", "receipt-first"),
                ("receipt", "receipt-second"),
            ],
            b"hello",
        ),
    );
    let receipt = server.take(one);
    assert_eq!(receipt.command, "RECEIPT");
    assert_eq!(receipt.get_header("receipt-id"), Some("receipt-first"));
}

#[test]
fn test_server_ack_nack_and_message_ack_header() {
    let mut server = Server::new();
    let one = server.connect_newest();
    server.send(
        one,
        frame(
            "SUBSCRIBE",
            &[
                ("id", "sub-1"),
                ("destination", "/topic/ack-test"),
                ("ack", "client"),
            ],
        ),
    );
    server.send(
        one,
        with_body("SEND", &[("destination", "/topic/ack-test")], b"hello ack"),
    );
    let message = server.take(one);
    assert_eq!(message.command, "MESSAGE");
    let ack_id = message.get_header("ack").map(String::from).unwrap();

    server.send(
        one,
        frame("ACK", &[("id", &ack_id), ("receipt", "receipt-ack")]),
    );
    let receipt = server.take(one);
    assert_eq!(receipt.command, "RECEIPT");
    assert_eq!(receipt.get_header("receipt-id"), Some("receipt-ack"));

    server.send(
        one,
        frame("NACK", &[("id", &ack_id), ("receipt", "receipt-nack")]),
    );
    let receipt2 = server.take(one);
    assert_eq!(receipt2.command, "RECEIPT");
    assert_eq!(receipt2.get_header("receipt-id"), Some("receipt-nack"));
    assert!(server.quiet(one));
}

#[test]
fn test_server_message_no_ack_header_for_auto_ack() {
    let mut server = Server::new();
    let one = server.connect_newest();
    server.send(
        one,
        frame(
            "SUBSCRIBE",
            &[("id", "sub-1"), ("destination", "/topic/auto-ack-test")],
        ),
    );
    server.send(
        one,
        with_body(
            "SEND",
            &[
                ("destination", "/topic/auto-ack-test"),
                ("ack", "sender-supplied-ack"),
            ],
            b"hello auto",
        ),
    );
    let message = server.take(one);
    assert_eq!(message.command, "MESSAGE");
    assert!(message.get_header("ack").is_none());
}

#[test]
fn test_stompoxide_transactions() {
    let mut server = Server::new();
    let one = server.connect_newest();
    server.send(one, subscribe("/topic/tx-test"));
    let in_tx = |body: &'static [u8], id: &str| {
        send_request_to_frame(SendRequest::new("/topic/tx-test", body).transaction(id))
    };
    server.send(one, frame("BEGIN", &[("transaction", "tx-1")]));
    server.send(one, in_tx(b"tx message 1", "tx-1"));
    assert!(server.quiet(one), "Message was received before commit!");
    server.send(one, frame("ABORT", &[("transaction", "tx-1")]));
    assert!(server.quiet(one), "Message was received after abort!");
    server.send(one, frame("BEGIN", &[("transaction", "tx-2")]));
    server.send(one, in_tx(b"tx message 2", "tx-2"));
    server.send(one, in_tx(b"tx message 3", "tx-2"));
    server.send(one, frame("COMMIT", &[("transaction", "tx-2")]));
    let msg = server.take(one);
    assert_eq!(msg.get_header("transaction"), None);
    assert_eq!(msg.body.unwrap().as_ref(), b"tx message 2");
    assert_eq!(server.take(one).body.unwrap().as_ref(), b"tx message 3");
    assert!(server.quiet(one));
}

#[test]
fn test_stompoxide_ack_nack_redelivery() {
    let mut server = Server::new();
    let one = server.connect_newest();
    server.send(
        one,
        subscribe_with("/queue/ack-nack-test", "1", AckMode::ClientIndividual),
    );
    let two = server.connect_newest();
    server.send(two, send("/queue/ack-nack-test", b"hello redelivery"));
    let msg1 = server.take(one);
    assert_eq!(msg1.body.as_ref().unwrap().as_ref(), b"hello redelivery");
    let ack_id = msg1.get_header("ack").unwrap().to_string();

    server.send(one, frame("NACK", &[("id", &ack_id)]));
    let msg2 = server.take(one);
    assert_eq!(msg2.body.as_ref().unwrap().as_ref(), b"hello redelivery");
    assert_ne!(msg2.get_header("ack"), Some(ack_id.as_str()));

    let three = server.connect_newest();
    server.send(three, subscribe_with("/queue/ack-nack-test", "1", AckMode::Auto));
    server.send(one, frame("UNSUBSCRIBE", &[("id", "1")]));
    assert!(server.quiet(three));
    server.step(one, Event::Closed);
    let msg3 = server.take(three);
    assert_eq!(msg3.body.as_ref().unwrap().as_ref(), b"hello redelivery");
    assert!(server.quiet(one) && server.quiet(two) && server.quiet(three));
}

fn login(passcode: &str) -> StompFrame<'static> {
    let config = ClientConfig {
        login: Some("admin".to_string()),
        passcode: Some(passcode.to_string()),
        ..ClientConfig::default()
    };
    connect_frame(&config)
}

fn admin(frame: &StompFrame<'_>) -> bool {
    let (login, passcode) = credentials(frame);
    login == "admin" && passcode == "secret"
}

#[test]
fn test_stompoxide_server_authentication_success() {
    let connect = login("secret");
    let verdict = admin(&connect);
    let opening = open_connection(1, 0, &connect, Some(verdict)).ok().unwrap();
    let reply = read_reply(&ClientConfig::default(), &opening.connected);
    assert!(matches!(reply, Reply::Open { .. }));
}

#[test]
fn test_stompoxide_server_authentication_failure() {
    let connect = login("wrong_secret");
    let verdict = admin(&connect);
    let error = open_connection(1, 0, &connect, Some(verdict)).err().unwrap();
    assert_eq!(error.get_header("message"), Some("Authentication failed"));
    let reply = read_reply(&ClientConfig::default(), &error);
    assert!(matches!(reply, Reply::Failed(_)));
}

#[test]
fn test_stomp_1_1_ack_nack_requires_subscription_regression() {
    for command in ["ACK", "NACK"] {
        let mut server = Server::new();
        let one = server.connect(&[("accept-version", "1.1"), ("host", "localhost")]);
        server.refuses(
            one,
            frame(command, &[("message-id", "some-msg-id")]),
            &format!("Missing subscription header in {command} for STOMP 1.1"),
        );
    }
}

#[test]
fn test_stomp_1_0_nack_rejected_regression() {
    let mut server = Server::new();
    let one = server.connect(&[]);
    server.refuses(
        one,
        frame("NACK", &[("message-id", "some-msg-id")]),
        "STOMP 1.0 does not support NACK",
    );
}

#[test]
fn test_stomp_1_2_ack_requires_id_regression() {
    let mut server = Server::new();
    let one = server.connect_newest();
    server.refuses(
        one,
        frame("ACK", &[("message-id", "some-msg-id")]),
        "Missing id header in ACK",
    );
}

#[test]
fn test_stomp_1_1_transaction_ack_requires_subscription_regression() {
    let mut server = Server::new();
    let one = server.connect(&[("accept-version", "1.1"), ("host", "localhost")]);
    server.send(one, frame("BEGIN", &[("transaction", "tx-1")]));
    server.refuses(
        one,
        frame(
            "ACK",
            &[("message-id", "some-msg-id"), ("transaction", "tx-1")],
        ),
        "Missing subscription header in ACK for STOMP 1.1",
    );
}

#[test]
fn malformed_requests_are_refused() {
    let cases: Vec<(StompFrame<'static>, &str)> = vec![
        (frame("SEND", &[]), "Missing destination header"),
        (frame("SUBSCRIBE", &[("id", "1")]), "Missing SUBSCRIBE headers"),
        (
            frame("SUBSCRIBE", &[("destination", "/topic/a")]),
            "Missing SUBSCRIBE headers",
        ),
        (frame("UNSUBSCRIBE", &[]), "Missing UNSUBSCRIBE id"),
        (frame("BEGIN", &[]), "Missing transaction header"),
        (frame("COMMIT", &[]), "Missing transaction header"),
        (frame("ABORT", &[]), "Missing transaction header"),
        (
            frame("COMMIT", &[("transaction", "t")]),
            "Transaction 't' not active",
        ),
        (
            frame("ABORT", &[("transaction", "t")]),
            "Transaction 't' not active",
        ),
        (
            send_request_to_frame(SendRequest::new("/topic/a", "x").transaction("t")),
            "Transaction 't' not active",
        ),
        (frame("CONNECT", &[]), "Unsupported command: CONNECT"),
        (frame("send", &[]), "Unsupported command: send"),
    ];
    for (request, message) in cases {
        let mut server = Server::new();
        let one = server.connect_newest();
        server.refuses(one, request, message);
    }
}

#[test]
fn transactions_begin_once() {
    let mut server = Server::new();
    let one = server.connect_newest();
    server.send(
        one,
        frame("BEGIN", &[("transaction", "t"), ("receipt", "r")]),
    );
    assert_eq!(server.take(one).get_header("receipt-id"), Some("r"));
    server.refuses(
        one,
        frame("BEGIN", &[("transaction", "t")]),
        "Transaction 't' already active",
    );
}

#[test]
fn a_commit_stops_at_the_first_failure() {
    let mut server = Server::new();
    let one = server.connect_newest();
    server.send(one, subscribe("/topic/a"));
    let two = server.connect_newest();
    server.send(two, frame("BEGIN", &[("transaction", "t")]));
    for (destination, receipt) in [("/topic/a", "r1"), ("/nowhere", "r2"), ("/topic/a", "r3")] {
        server.send(
            two,
            frame(
                "SEND",
                &[
                    ("destination", destination),
                    ("transaction", "t"),
                    ("receipt", receipt),
                ],
            ),
        );
        assert!(server.quiet(two));
    }
    server.send(
        two,
        frame("COMMIT", &[("transaction", "t"), ("receipt", "r4")]),
    );
    assert_eq!(server.take(one).command, "MESSAGE");
    assert!(server.quiet(one));
    assert_eq!(server.take(two).get_header("receipt-id"), Some("r1"));
    let error = server.take(two);
    assert_eq!(error.get_header("message"), Some("Unknown destination"));
    assert!(server.quiet(two));
    assert!(!server.open[two]);
}

#[test]
fn acknowledgements_can_be_part_of_a_transaction() {
    let mut server = Server::new();
    let one = server.connect_newest();
    server.send(one, subscribe_with("/queue/a", "s", AckMode::ClientIndividual));
    server.send(one, send("/queue/a", b"x"));
    let ack = server.take(one).get_header("ack").unwrap().to_string();
    server.send(one, frame("BEGIN", &[("transaction", "t")]));
    server.send(one, frame("NACK", &[("id", &ack), ("transaction", "t")]));
    assert!(server.quiet(one));
    server.send(one, frame("COMMIT", &[("transaction", "t")]));
    assert_eq!(server.take(one).body.unwrap().as_ref(), b"x");
}

#[test]
fn disconnecting_is_confirmed() {
    let mut server = Server::new();
    let one = server.connect_newest();
    server.send(one, frame("DISCONNECT", &[("receipt", "bye")]));
    let receipt = server.take(one);
    assert_eq!(receipt.command, "RECEIPT");
    assert_eq!(receipt.headers, vec![header("receipt-id", "bye")]);
    assert!(!server.open[one]);
    let two = server.connect_newest();
    server.send(two, frame("DISCONNECT", &[]));
    assert!(server.quiet(two) && !server.open[two]);
}

#[test]
fn heartbeats_are_taken_in_silence() {
    let mut server = Server::new();
    let one = server.connect_newest();
    server.send(one, frame("HEARTBEAT", &[]));
    assert!(server.quiet(one) && server.open[one]);
}

#[test]
fn every_end_closes_the_connection() {
    for event in [Event::Closed, Event::ReadError, Event::TimedOut] {
        let mut server = Server::new();
        let one = server.connect_newest();
        server.send(one, subscribe("/topic/a"));
        server.step(one, event);
        assert!(!server.open[one]);
        let two = server.connect_newest();
        server.send(two, send("/topic/a", b"x"));
        assert!(server.quiet(one));
    }
}

#[test]
fn individual_acknowledgement_is_new_in_1_1() {
    let mut server = Server::new();
    let one = server.connect(&[]);
    server.refuses(
        one,
        subscribe_with("/queue/a", "s", AckMode::ClientIndividual),
        "STOMP 1.0 does not support client-individual ack mode",
    );
    let two = server.connect(&[("accept-version", "1.1"), ("host", "h")]);
    server.send(two, subscribe_with("/queue/a", "s", AckMode::ClientIndividual));
    assert!(server.open[two]);
}

#[test]
fn deliveries_are_named() {
    let ids = ["m1", "d1", "d2", "m2"];
    let supply = IdSupply::starting_with(ids.iter().map(|s| s.to_string()).collect());
    let mut server = Server::with_ids(supply);
    let one = server.connect_newest();
    server.send(one, subscribe_with("/topic/a", "s1", AckMode::Client));
    server.send(one, subscribe_with("/topic/*", "s2", AckMode::ClientIndividual));
    server.send(one, subscribe_with("/topic/**", "s3", AckMode::Auto));
    server.send(
        one,
        with_body(
            "SEND",
            &[
                ("destination", "/topic/a"),
                ("subscription", "forged"),
                ("x", "y"),
                ("receipt", "r"),
            ],
            b"b",
        ),
    );
    let first = server.take(one);
    assert_eq!(
        first.headers,
        vec![
            header("destination", "/topic/a"),
            header("x", "y"),
            header("message-id", "m1"),
            header("subscription", "s1"),
            header("ack", "d1"),
        ]
    );
    let second = server.take(one);
    assert_eq!(second.get_header("subscription"), Some("s2"));
    assert_eq!(second.get_header("ack"), Some("d2"));
    let third = server.take(one);
    assert_eq!(third.get_header("subscription"), Some("s3"));
    assert_eq!(third.get_header("ack"), None);
    assert_eq!(server.take(one).command, "RECEIPT");
    server.send(one, send("/topic/b", b"c"));
    assert_eq!(server.take(one).get_header("message-id"), Some("m2"));
    let drawn = server.take(one);
    assert_eq!(drawn.get_header("subscription"), Some("s3"));
}

#[test]
fn identifiers_are_random_uuids() {
    let mut ids = IdSupply::starting_with(vec!["given".to_string()]);
    assert_eq!(ids.next_id(), "given");
    let a = ids.next_id();
    let b = ids.next_id();
    assert_ne!(a, b);
    for id in [a, b] {
        assert_eq!(id.len(), 36);
        for (i, c) in id.chars().enumerate() {
            match i {
                8 | 13 | 18 | 23 => assert_eq!(c, '-'),
                14 => assert_eq!(c, '4'),
                19 => assert!("89ab".contains(c)),
                _ => assert!(c.is_ascii_digit() || ('a'..='f').contains(&c)),
            }
        }
    }
    let c = new_connection_id();
    assert_ne!(c, new_connection_id());
    assert_eq!((c >> 76) & 0xf, 4);
    assert_eq!((c >> 62) & 3, 2);
}

#[test]
fn the_session_is_named_after_the_connection() {
    let connect = frame("STOMP", &[("accept-version", "1.2"), ("host", "h")]);
    let id: u128 = 0x0123_4567_89ab_cdef_0123_4567_89ab_cdef;
    let opening = open_connection(id, 0, &connect, None).ok().unwrap();
    assert_eq!(
        opening.connected.headers,
        vec![
            header("version", "1.2"),
            header("heart-beat", "5000,5000"),
            header("server", "stompoxide/0.1.0"),
            header("session", "01234567-89ab-cdef-0123-456789abcdef"),
        ]
    );
    let connect = frame("CONNECT", &[("accept-version", "1.1"), ("host", "h")]);
    let opening = open_connection(1, 0, &connect, None).ok().unwrap();
    assert_eq!(
        opening.connected.headers,
        vec![
            header("version", "1.1"),
            header("heart-beat", "5000,5000"),
            header("session", "00000000-0000-0000-0000-000000000001"),
        ]
    );
    let opening = open_connection(1, 0, &frame("CONNECT", &[]), None).ok().unwrap();
    assert_eq!(
        opening.connected.headers,
        vec![header("session", "00000000-0000-0000-0000-000000000001")]
    );
}

#[test]
fn connections_are_refused_with_a_reason() {
    let message = |frame: &StompFrame<'_>, verdict: Option<bool>| {
        open_connection(1, 0, frame, verdict)
            .err()
            .unwrap()
            .get_header("message")
            .unwrap()
            .to_string()
    };
    assert_eq!(
        message(&frame("SEND", &[]), Some(false)),
        "Missing CONNECT frame"
    );
    assert_eq!(
        message(&frame("HEARTBEAT", &[]), None),
        "Missing CONNECT frame"
    );
    assert_eq!(
        message(&frame("CONNECT", &[]), Some(false)),
        "Authentication failed"
    );
    for version in ["1.1", "1.2"] {
        assert_eq!(
            message(&frame("CONNECT", &[("accept-version", version)]), None),
            "Missing required host header"
        );
    }
    assert!(open_connection(1, 0, &frame("CONNECT", &[]), Some(true)).is_ok());
    assert!(asks_to_connect(&frame("STOMP", &[])));
    assert!(!asks_to_connect(&frame("SEND", &[])));
    assert_eq!(credentials(&frame("CONNECT", &[])), ("", ""));
}

#[test]
fn versions_are_negotiated() {
    assert_eq!(negotiate_version(None), Some(StompVersion::V1_0));
    assert_eq!(negotiate_version(Some("1.0, 1.1 ,9")), Some(StompVersion::V1_1));
    assert_eq!(negotiate_version(Some("1.2,1.0")), Some(StompVersion::V1_2));
    assert_eq!(negotiate_version(Some("1.0")), Some(StompVersion::V1_0));
    assert_eq!(negotiate_version(Some("")), None);
    assert_eq!(negotiate_version(Some("1.20")), None);
    assert_eq!(version_text(StompVersion::V1_0), "1.0");
    assert_eq!(version_text(StompVersion::V1_1), "1.1");
    assert_eq!(version_text(StompVersion::V1_2), "1.2");
}

#[test]
fn heartbeats_are_negotiated() {
    let open = |version: &str, value: &str| {
        let connect = frame(
            "CONNECT",
            &[
                ("accept-version", version),
                ("host", "h"),
                ("heart-beat", value),
            ],
        );
        let opening = open_connection(1, 0, &connect, None).ok().unwrap();
        (opening.outgoing_hb, opening.incoming_hb)
    };
    assert_eq!(open("1.2", "0,0"), (0, 0));
    assert_eq!(open("1.2", "1000,0"), (0, 5000));
    assert_eq!(open("1.2", "0,1000"), (5000, 0));
    assert_eq!(open("1.2", "6000,7000"), (7000, 6000));
    assert_eq!(open("1.2", "-1,2147483647"), (2147483647, 0));
    assert_eq!(open("1.2", "2147483648,x"), (0, 0));
    assert_eq!(open("1.2", "6000"), (0, 0));
    assert_eq!(open("1.0", "6000,7000"), (0, 0));
}

#[test]
fn both_ends_agree() {
    for (versions, cx, cy) in [
        (vec!["1.0", "1.1", "1.2"], 0, 0),
        (vec!["1.1"], 100, 8000),
        (vec!["1.2"], 9000, 20),
        (vec!["1.0"], 9000, 20),
    ] {
        let config = ClientConfig {
            heartbeat_cx: cx,
            heartbeat_cy: cy,
            accept_versions: versions.iter().map(|v| v.to_string()).collect(),
            ..ClientConfig::default()
        };
        let opening = open_connection(1, 0, &connect_frame(&config), None).ok().unwrap();
        match read_reply(&config, &opening.connected) {
            Reply::Open {
                session,
                outgoing_hb,
                incoming_hb,
            } => {
                assert_eq!(session.version(), opening.session.version());
                assert_eq!(outgoing_hb, opening.incoming_hb);
                assert_eq!(incoming_hb, opening.outgoing_hb);
            }
            _ => panic!("not open"),
        }
    }
}

#[test]
fn older_versions_acknowledge_by_message() {
    let mut server = Server::new();
    let one = server.connect(&[("accept-version", "1.1"), ("host", "h")]);
    server.send(one, subscribe_with("/topic/a", "s1", AckMode::ClientIndividual));
    server.send(one, subscribe_with("/topic/a", "s2", AckMode::ClientIndividual));
    server.send(one, send("/topic/a", b"x"));
    let first = server.take(one);
    let second = server.take(one);
    assert_eq!(first.get_header("ack"), None);
    let message_id = first.get_header("message-id").unwrap().to_string();
    assert_eq!(second.get_header("message-id"), Some(message_id.as_str()));
    // The wrong subscription speaks of nothing.
    server.send(
        one,
        frame("NACK", &[("message-id", &message_id), ("subscription", "s3")]),
    );
    assert!(server.quiet(one));
    // A rejected message goes to all who listen.
    server.send(
        one,
        frame("NACK", &[("message-id", &message_id), ("subscription", "s2")]),
    );
    assert_eq!(server.take(one).get_header("subscription"), Some("s1"));
    assert_eq!(server.take(one).get_header("subscription"), Some("s2"));
    assert!(server.quiet(one));
}

#[test]
fn client_mode_acknowledges_all_before() {
    let mut server = Server::new();
    let one = server.connect_newest();
    let two = server.connect_newest();
    server.send(one, subscribe_with("/queue/a", "s", AckMode::Client));
    for body in [&b"1"[..], b"2", b"3"] {
        server.send(two, with_body("SEND", &[("destination", "/queue/a")], body));
    }
    let acks: Vec<String> = (0..3)
        .map(|_| server.take(one).get_header("ack").unwrap().to_string())
        .collect();
    server.send(one, frame("ACK", &[("id", &acks[1])]));
    server.send(two, subscribe("/queue/a"));
    server.step(one, Event::Closed);
    assert_eq!(server.take(two).body.unwrap().as_ref(), b"3");
    assert!(server.quiet(two));
}

#[test]
fn client_mode_rejects_all_before() {
    let mut server = Server::new();
    let one = server.connect_newest();
    let two = server.connect_newest();
    server.send(one, subscribe_with("/queue/a", "s", AckMode::Client));
    for body in [&b"1"[..], b"2", b"3"] {
        server.send(two, with_body("SEND", &[("destination", "/queue/a")], body));
    }
    let acks: Vec<String> = (0..3)
        .map(|_| server.take(one).get_header("ack").unwrap().to_string())
        .collect();
    server.send(one, frame("NACK", &[("id", &acks[1])]));
    assert_eq!(server.take(one).body.unwrap().as_ref(), b"1");
    assert_eq!(server.take(one).body.unwrap().as_ref(), b"2");
    assert!(server.quiet(one));
}

#[test]
fn individual_mode_acknowledges_one() {
    let mut server = Server::new();
    let one = server.connect_newest();
    let two = server.connect_newest();
    server.send(one, subscribe_with("/queue/a", "s", AckMode::ClientIndividual));
    for body in [&b"1"[..], b"2", b"3"] {
        server.send(two, with_body("SEND", &[("destination", "/queue/a")], body));
    }
    let acks: Vec<String> = (0..3)
        .map(|_| server.take(one).get_header("ack").unwrap().to_string())
        .collect();
    server.send(one, frame("ACK", &[("id", &acks[1])]));
    // Someone else's acknowledgement does not count.
    server.send(two, frame("ACK", &[("id", &acks[0])]));
    server.send(two, subscribe("/queue/a"));
    server.step(one, Event::Closed);
    assert_eq!(server.take(two).body.unwrap().as_ref(), b"1");
    assert_eq!(server.take(two).body.unwrap().as_ref(), b"3");
    assert!(server.quiet(two));
}

#[test]
fn the_turn_survives_the_end_of_a_subscription() {
    let mut server = Server::new();
    let numbers: Vec<usize> = (0..3).map(|_| server.connect_newest()).collect();
    for &n in &numbers {
        server.send(n, subscribe("/queue/a"));
    }
    let from = server.connect_newest();
    server.send(from, send("/queue/a", b"x"));
    server.send(from, send("/queue/a", b"x"));
    server.send(numbers[2], frame("UNSUBSCRIBE", &[("id", "1")]));
    server.send(from, send("/queue/a", b"y"));
    assert_eq!(server.sent[numbers[0]].len(), 2);
    assert_eq!(server.sent[numbers[1]].len(), 1);
    assert_eq!(server.sent[numbers[2]].len(), 0);
}

#[test]
fn a_router_can_be_used_by_itself() {
    let mut router = PubSubRouter::new();
    let mut ids = IdSupply::new();
    let text = |s: &str| s.to_string();
    assert_eq!(
        router.subscribe(7, text("s"), text("/x"), text("auto"), StompVersion::V1_2, 1),
        Err("Unknown destination")
    );
    assert_eq!(
        router.subscribe(
            7,
            text("s"),
            text("/queue/**"),
            text("auto"),
            StompVersion::V1_2,
            1
        ),
        Err("Queue subscriptions must use an exact destination")
    );
    assert_eq!(
        router.subscribe(
            7,
            text("s"),
            text("/topic/a/*"),
            text("client"),
            StompVersion::V1_2,
            9
        ),
        Ok(())
    );
    assert_eq!(
        router
            .publish("/x", frame("MESSAGE", &[]), &mut ids)
            .err(),
        Some("Unknown destination")
    );
    let out = router
        .publish("/topic/a/b", frame("MESSAGE", &[]), &mut ids)
        .ok()
        .unwrap();
    assert_eq!(out.len(), 1);
    assert_eq!(out[0].sender, 9);
    assert!(router.uses_sender(9) && !router.uses_sender(1));
    let out = router
        .publish("/topic/a/b/c", frame("MESSAGE", &[]), &mut ids)
        .ok()
        .unwrap();
    assert!(out.is_empty());
    router.unsubscribe(7, "other");
    router.unsubscribe(8, "s");
    let mut out = Vec::new();
    router.clean_connection(8, &mut ids, &mut out);
    assert!(out.is_empty());
    let out = router
        .publish("/topic/a/b", frame("MESSAGE", &[]), &mut ids)
        .ok()
        .unwrap();
    assert_eq!(out.len(), 1);
    router.unsubscribe(7, "s");
    let out = router
        .publish("/topic/a/b", frame("MESSAGE", &[]), &mut ids)
        .ok()
        .unwrap();
    assert!(out.is_empty());
}

#[test]
fn destinations_have_kinds() {
    assert_eq!(
        classify_destination("/topic/a"),
        Some(DestinationKind::Topic)
    );
    assert_eq!(
        classify_destination("/queue/a"),
        Some(DestinationKind::Queue)
    );
    assert_eq!(classify_destination("/topic"), None);
    assert_eq!(classify_destination(""), None);
    assert!(contains_wildcard("/queue/*"));
    assert!(contains_wildcard("/queue/**/a"));
    assert!(!contains_wildcard("/queue/a*"));
}

#[test]
fn patterns_match_paths() {
    assert!(matches_destination("/topic/orders/*", "/topic/orders/created"));
    assert!(!matches_destination("/topic/orders/*", "/topic/orders/eu/created"));
    assert!(matches_destination("/topic/orders/**", "/topic/orders/eu/created"));
    assert!(matches_destination("/topic/orders/**", "/topic/orders/created"));
    assert!(matches_destination("/topic/orders/**", "/topic/orders"));
    assert!(!matches_destination("/topic/orders/*", "/topic/orders"));
    assert!(matches_destination("/topic/a", "/topic/a"));
    assert!(!matches_destination("/topic/a", "/topic/b"));
    assert!(!matches_destination("/topic/a/b", "/topic/a"));
    assert!(matches_destination("/topic/*/x", "/topic/a/x"));
    assert!(!matches_destination("/topic/*/x", "/topic/a/y"));
    assert!(matches_destination("/topic/**/ignored", "/topic/a/b/c"));
}

#[test]
fn acknowledgements_are_read() {
    let target = |frame: &StompFrame<'_>, version: StompVersion| {
        ack_id_and_subscription(frame, version)
            .map(|t| (t.id.to_string(), t.subscription.map(String::from)))
            .map_err(|e| e.to_string())
    };
    let full = frame(
        "ACK",
        &[("message-id", "m"), ("subscription", "s"), ("id", "i")],
    );
    assert_eq!(target(&full, StompVersion::V1_0), Ok(("m".into(), None)));
    assert_eq!(
        target(&full, StompVersion::V1_1),
        Ok(("m".into(), Some("s".into())))
    );
    assert_eq!(
        target(&full, StompVersion::V1_2),
        Ok(("i".into(), Some("s".into())))
    );
    let empty = frame("NACK", &[]);
    assert_eq!(
        target(&empty, StompVersion::V1_0),
        Err("STOMP 1.0 does not support NACK".into())
    );
    assert_eq!(
        target(&empty, StompVersion::V1_1),
        Err("Missing message-id header in NACK".into())
    );
    assert_eq!(
        target(&empty, StompVersion::V1_2),
        Err("Missing id header in NACK".into())
    );
    assert_eq!(
        target(&frame("ACK", &[]), StompVersion::V1_0),
        Err("Missing message-id header in ACK".into())
    );
}

#[test]
fn replies_have_frames() {
    let error = create_error_frame("no");
    assert_eq!(error.command, "ERROR");
    assert_eq!(error.headers, vec![header("message", "no")]);
    assert!(error.body.is_none());
    let receipt = create_receipt_frame("r".to_string());
    assert_eq!(receipt.command, "RECEIPT");
    assert_eq!(receipt.headers, vec![header("receipt-id", "r")]);
    let message = message_from(
        &with_body(
            "SEND",
            &[
                ("receipt", "r"),
                ("a", "b"),
                ("ack", "x"),
                ("transaction", "t"),
            ],
            b"body",
        ),
        "m".to_string(),
    );
    assert_eq!(message.command, "MESSAGE");
    assert_eq!(
        message.headers,
        vec![header("a", "b"), header("message-id", "m")]
    );
    assert_eq!(message.body.unwrap().as_ref(), b"body");
}

#[test]
fn subprotocols_are_selected() {
    assert_eq!(STOMP_SUBPROTOCOLS, ["v12.stomp", "v11.stomp", "v10.stomp"]);
    assert_eq!(select_stomp_subprotocol(None), "v12.stomp");
    assert_eq!(select_stomp_subprotocol(Some("")), "v12.stomp");
    assert_eq!(select_stomp_subprotocol(Some("chat")), "v12.stomp");
    assert_eq!(
        select_stomp_subprotocol(Some("v10.stomp, v11.stomp")),
        "v11.stomp"
    );
    assert_eq!(
        select_stomp_subprotocol(Some("v10.stomp,\tv12.stomp ")),
        "v12.stomp"
    );
    assert_eq!(select_stomp_subprotocol(Some("v10.stomp")), "v10.stomp");
}

#[test]
fn websocket_messages_carry_bytes() {
    for bytes in [&b""[..], b"SEND\n\n\0", b"\xff\xfe", "caf\u{e9}".as_bytes()] {
        let message = message_from_bytes(bytes);
        assert_eq!(
            matches!(message, WsMessage::Text(_)),
            std::str::from_utf8(bytes).is_ok()
        );
        assert_eq!(bytes_from_message(message), Some(bytes.to_vec()));
    }
    assert_eq!(bytes_from_message(WsMessage::Binary(vec![])), None);
    assert_eq!(bytes_from_message(WsMessage::Control), None);
    assert_eq!(
        bytes_from_message(WsMessage::Binary(vec![65])),
        Some(vec![65])
    );
}

#[test]
fn a_conversation_over_the_wire() {
    let mut wire = bytes::BytesMut::new();
    let mut codec = StompCodec::default();
    codec
        .encode(connect_frame(&ClientConfig::default()), &mut wire)
        .unwrap();
    let connect = codec.decode(&mut wire).unwrap().unwrap();
    let opening = open_connection(new_connection_id(), 0, &connect, None).ok().unwrap();
    codec.encode(opening.connected, &mut wire).unwrap();
    let connected = codec.decode(&mut wire).unwrap().unwrap();
    assert!(matches!(
        read_reply(&ClientConfig::default(), &connected),
        Reply::Open { .. }
    ));
    assert!(wire.is_empty());
}
