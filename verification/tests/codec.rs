//! Frames as bytes.

use bytes::BytesMut;
use std::borrow::Cow;
use stompoxide::codec::StompCodec;
use stompoxide::frame::{StompFrame, StompVersion};
use stompoxide::parse::{
    get_content_length, map_empty_slice, parse_frame, parse_frame_stream,
    parse_frame_with_version, parse_frame_with_version_and_max_body_size, parse_header_value,
    unescape, Needed, ParseError, DEFAULT_MAX_BODY_SIZE,
};

fn pairs(frame: &StompFrame<'_>) -> Vec<(Vec<u8>, Vec<u8>)> {
    frame
        .headers
        .iter()
        .map(|(k, v)| (k.as_bytes().to_vec(), v.as_bytes().to_vec()))
        .collect()
}

fn expected(headers: &[(&[u8], &[u8])]) -> Vec<(Vec<u8>, Vec<u8>)> {
    headers
        .iter()
        .map(|(k, v)| (k.to_vec(), v.to_vec()))
        .collect()
}

fn incomplete(input: &[u8]) -> bool {
    matches!(parse_frame(input), Err(ParseError::Incomplete(_)))
}

fn header(name: &str, value: &str) -> (String, String) {
    (name.to_string(), value.to_string())
}

#[test]
fn parse_and_serialize_connect() {
    let data = b"CONNECT
accept-version:1.2
host:datafeeds.here.co.uk
login:user
heart-beat:6,7
passcode:password\\c123\n\n\x00"
        .to_vec();
    let (_, frame) = parse_frame(&data).unwrap();
    assert_eq!(frame.command.as_ref(), "CONNECT");
    let headers_expect = expected(&[
        (b"accept-version", b"1.2"),
        (b"host", b"datafeeds.here.co.uk"),
        (b"login", b"user"),
        (b"heart-beat", b"6,7"),
        (b"passcode", b"password:123"),
    ]);
    assert_eq!(pairs(&frame), headers_expect);
    assert_eq!(frame.body, None);
}

#[test]
fn parse_and_serialize_message() {
    let mut data = b"\nMESSAGE
destination:datafeeds.here.co.uk
message-id:12345
subscription:some-id
"
    .to_vec();
    let body = "this body contains \x00 nulls \n and \r\n newlines \x00 OK?";
    let rest = format!("content-length:{}\n\n{}\x00", body.len(), body);
    data.extend_from_slice(rest.as_bytes());
    let (_, frame) = parse_frame(&data).unwrap();
    assert_eq!(frame.command.as_bytes(), b"MESSAGE");
    let headers_expect = expected(&[
        (b"destination", b"datafeeds.here.co.uk"),
        (b"message-id", b"12345"),
        (b"subscription", b"some-id"),
        (b"content-length", b"50"),
    ]);
    assert_eq!(pairs(&frame), headers_expect);
    assert_eq!(frame.body.as_ref().unwrap().as_ref(), body.as_bytes());
}

#[test]
fn parse_and_serialize_message_with_body_start_with_newline() {
    let mut data = b"MESSAGE
destination:datafeeds.here.co.uk
message-id:12345
subscription:some-id"
        .to_vec();
    let body = "\n\n\nthis body contains  nulls \n and \r\n newlines OK?";
    let rest = format!("\n\n{body}\x00\r\n");
    data.extend_from_slice(rest.as_bytes());
    let (_, frame) = parse_frame(&data).unwrap();
    assert_eq!(frame.command.as_bytes(), b"MESSAGE");
    let headers_expect = expected(&[
        (b"destination", b"datafeeds.here.co.uk"),
        (b"message-id", b"12345"),
        (b"subscription", b"some-id"),
    ]);
    assert_eq!(pairs(&frame), headers_expect);
    assert_eq!(frame.body.unwrap().as_ref(), body.as_bytes());
}

#[test]
fn parse_and_serialize_message_body_like_header() {
    let data = b"\nMESSAGE\r
destination:datafeeds.here.co.uk
message-id:12345
empty-header:
subscription:some-id\n\nsomething-like-header:1\x00\r\n"
        .to_vec();
    let (_, frame) = parse_frame(&data).unwrap();
    assert_eq!(frame.command.as_bytes(), b"MESSAGE");
    let headers_expect = expected(&[
        (b"destination", b"datafeeds.here.co.uk"),
        (b"message-id", b"12345"),
        (b"empty-header", b""),
        (b"subscription", b"some-id"),
    ]);
    assert_eq!(pairs(&frame), headers_expect);
    assert_eq!(
        frame.body.as_ref().unwrap().as_ref(),
        "something-like-header:1".as_bytes()
    );
}

#[test]
fn parse_a_incomplete_message() {
    assert!(incomplete(b"\nMESSAG"));

    assert!(incomplete(b"\nMESSAGE\n\n"));

    let (_, frame) = parse_frame(b"\nMESSAG\n\n\0").unwrap();
    assert!(frame.body.is_none());
    assert_eq!(frame.headers, vec![]);
    assert_eq!(frame.command, "MESSAG");

    assert!(incomplete(b"\nMESSAGE\r\ndestination:datafeeds.here.co.uk"));

    let (rest, _) = parse_frame(b"MESSAGE\r\ndestination:datafeeds.here.co.uk\n\n\0").unwrap();
    assert!(rest.is_empty());

    assert!(incomplete(
        b"\nMESSAGE\r\ndestination:datafeeds.here.co.uk\n\n"
    ));

    let (rest, frame) =
        parse_frame(b"\nMESSAGE\r\nheader:da\\ctafeeds.here.co.uk\n\n\0").unwrap();
    assert_eq!(rest, b"");
    assert_eq!(
        frame.headers,
        vec![header("header", "da:tafeeds.here.co.uk")]
    );

    assert!(incomplete(b"\nMESSAGE\r\ndestination:datafeeds.here.co.uk"));

    let (rest, _) =
        parse_frame(b"\nMESSAGE\r\ndestination:datafeeds.here.co.uk\n\n\0remain").unwrap();
    assert_eq!(
        rest, b"remain",
        "stream with other after body end, should return remain text"
    );

    assert!(
        incomplete(b"\nMESSAGE\ncontent-length:10000\n\n\0remain"),
        "content-length:10000, body size<10000, return incomplete"
    );

    let (rest, frame) = parse_frame(b"\nMESSAGE\ncontent-length:0\n\n\0remain").unwrap();
    assert_eq!(rest, b"remain");
    let b = frame
        .body
        .expect("empty body with content-length:0, body should be Some([])");
    assert_eq!(b.len(), 0);

    let (rest, frame) = parse_frame(b"\nMESSAGE\n\n\0remain").unwrap();
    assert_eq!(rest, b"remain");
    assert!(
        frame.body.is_none(),
        "empty body without content-length header, body should be None"
    );
}

#[test]
fn parse_and_serialize_message_header_value_with_colon() {
    let data = b"CONNECTED
server:ActiveMQ/6.0.0
heart-beat:0,0
session:ID:orbstack-45879-1702220142549-3:2
version:1.2

\0\n"
        .to_vec();
    let (_, frame) = parse_frame(&data).unwrap();
    assert_eq!(frame.command.as_bytes(), b"CONNECTED");
    let headers_expect = expected(&[
        (b"server", b"ActiveMQ/6.0.0"),
        (b"heart-beat", b"0,0"),
        (b"session", b"ID:orbstack-45879-1702220142549-3:2"),
        (b"version", b"1.2"),
    ]);
    assert_eq!(pairs(&frame), headers_expect);
}

#[test]
fn test_parser_header_unescape() {
    let h = parse_frame(
        b"MESSAGE
subscription:11
message-id:0.4.0
destination:now\\c Instant {\\n    tv_sec\\c 5740,\\n    tv_nsec\\c 164006416,\\n}
content-type:application/json
server:tokio-stomp/0.4.0

body\0",
    );
    let (rest, frame) = h.unwrap();
    assert_eq!(rest, b"");
    assert_eq!(frame.body.as_ref().unwrap().as_ref(), b"body");
    assert_eq!(
        frame.get_header("destination"),
        Some("now: Instant {\n    tv_sec: 5740,\n    tv_nsec: 164006416,\n}")
    );
}

#[test]
fn test_serialize1() {
    let f = StompFrame {
        command: "MESSAGE".into(),
        body: None,
        headers: vec![],
    };

    assert_eq!(
        f.serialize().as_ref(),
        b"MESSAGE

\0"
    );
}

#[test]
fn test_serialize2() {
    let f = StompFrame {
        command: "MESSAGE".into(),
        body: Some(b"body".as_slice().into()),
        headers: vec![],
    };

    assert_eq!(
        f.serialize().as_ref(),
        b"MESSAGE
content-length:4

body\0"
    );
}

#[test]
fn test_serialize3() {
    let f = StompFrame {
        command: "MESSAGE".into(),
        body: Some(b"body".as_slice().into()),
        headers: vec![("name\r\n:\\end".to_string(), "value\r\n:".to_string())],
    };

    assert_eq!(
        f.serialize().as_ref(),
        b"MESSAGE
name\\r\\n\\c\\\\end:value\\r\\n\\c
content-length:4

body\0"
    );
}

#[test]
fn test_long_body() {
    let body = "b\ndy".repeat(1000);
    let f = StompFrame {
        command: "MESSAGE".into(),
        body: Some(body.as_bytes().into()),
        headers: vec![("name\r\n:\\end".to_string(), "value\r\n:".to_string())],
    };

    assert_eq!(
        f.serialize().as_ref(),
        format!(
            "MESSAGE
name\\r\\n\\c\\\\end:value\\r\\n\\c
content-length:{}

{}\0",
            body.len(),
            body
        )
        .as_bytes()
    );
}

#[test]
fn readme_frame_is_read() {
    let input = b"SEND\ndestination:/queue/demo\n\nhello\0";
    let (remaining, frame) = parse_frame(input).unwrap();
    assert!(remaining.is_empty());
    assert_eq!(frame.command, "SEND");
    assert_eq!(frame.body.as_deref(), Some(&b"hello"[..]));
}

#[test]
fn escapes_depend_on_the_version() {
    let f = StompFrame {
        command: "SEND".into(),
        headers: vec![header("a:b", "c\r\n\\d")],
        body: None,
    };
    assert_eq!(
        f.serialize_with_version(StompVersion::V1_0).as_ref(),
        b"SEND\na:b:c\r\n\\d\n\n\0"
    );
    assert_eq!(
        f.serialize_with_version(StompVersion::V1_1).as_ref(),
        b"SEND\na\\cb:c\r\\n\\\\d\n\n\0"
    );
    assert_eq!(
        f.serialize_with_version(StompVersion::V1_2).as_ref(),
        b"SEND\na\\cb:c\\r\\n\\\\d\n\n\0"
    );
}

#[test]
fn connection_frames_are_written_without_escapes() {
    for command in ["CONNECT", "CONNECTED", "STOMP"] {
        let f = StompFrame {
            command: command.into(),
            headers: vec![header("k", "a:b\\c")],
            body: None,
        };
        assert_eq!(
            f.serialize().as_ref(),
            format!("{command}\nk:a:b\\c\n\n\0").as_bytes()
        );
    }
}

#[test]
fn a_wrong_length_is_replaced() {
    let f = StompFrame {
        command: "SEND".into(),
        headers: vec![header("content-length", "99"), header("x", "y")],
        body: Some(Cow::Borrowed(b"abc")),
    };
    assert_eq!(
        f.serialize().as_ref(),
        b"SEND\nx:y\ncontent-length:3\n\nabc\0"
    );
}

#[test]
fn written_frames_are_read_back() {
    for version in [StompVersion::V1_0, StompVersion::V1_1, StompVersion::V1_2] {
        let f = StompFrame {
            command: "MESSAGE".into(),
            headers: vec![header("subject", "caf\u{e9} \u{1f600}"), header("x", "")],
            body: Some(Cow::Borrowed(b"a\0b\nc")),
        };
        let mut bytes = f.serialize_with_version(version).into_owned();
        bytes.extend_from_slice(b"\r\nSEND");
        let (rest, g) = parse_frame_with_version(&bytes, version).unwrap();
        assert_eq!(rest, b"SEND");
        assert_eq!(g.command, "MESSAGE");
        assert_eq!(
            g.headers,
            vec![
                header("subject", "caf\u{e9} \u{1f600}"),
                header("x", ""),
                header("content-length", "5"),
            ]
        );
        assert_eq!(g.body.as_deref(), Some(&b"a\0b\nc"[..]));
    }
}

#[test]
fn every_part_of_a_frame_waits() {
    let f = StompFrame {
        command: "MESSAGE".into(),
        headers: vec![header("na:me", "va\r\nlue")],
        body: Some(Cow::Borrowed(b"0123456789")),
    };
    let bytes = f.serialize().into_owned();
    for k in 0..bytes.len() {
        assert!(incomplete(&bytes[..k]), "decided after {k} bytes");
    }
    assert!(parse_frame(&bytes).is_ok());
}

#[test]
fn invalid_escapes_are_refused() {
    assert_eq!(
        parse_frame(b"SEND\na:b\\tc\n\n\0").unwrap_err(),
        ParseError::Backtrack
    );
    assert_eq!(
        parse_frame(b"SEND\na:b\\\n\n\0").unwrap_err(),
        ParseError::Backtrack
    );
    assert_eq!(
        parse_frame_with_version(b"SEND\na:b\\rc\n\n\0", StompVersion::V1_1).unwrap_err(),
        ParseError::Backtrack
    );
    let (_, frame) =
        parse_frame_with_version(b"SEND\na:b\\rc\n\n\0", StompVersion::V1_2).unwrap();
    assert_eq!(frame.get_header("a"), Some("b\rc"));
    let (_, frame) =
        parse_frame_with_version(b"SEND\na:b\\rc\n\n\0", StompVersion::V1_0).unwrap();
    assert_eq!(frame.get_header("a"), Some("b\\rc"));
}

#[test]
fn bytes_that_are_no_text_are_refused() {
    assert_eq!(
        parse_frame(b"SEND\na:\xff\n\n\0").unwrap_err(),
        ParseError::Backtrack
    );
    assert_eq!(
        parse_frame(b"SEND\n\xc3\\n\xa9:a\n\n\0").unwrap_err(),
        ParseError::Backtrack
    );
}

#[test]
fn unescape_gives_text() {
    let text = |s: &str| Some(s.to_string());
    assert_eq!(
        unescape(b"a\\c\\n\\\\\\r", StompVersion::V1_2),
        text("a:\n\\\r")
    );
    assert_eq!(unescape(b"\\r", StompVersion::V1_1), None);
    assert_eq!(unescape(b"\\", StompVersion::V1_1), None);
    assert_eq!(unescape(b"a\\", StompVersion::V1_2), None);
    assert_eq!(unescape(b"\\x", StompVersion::V1_2), None);
    assert_eq!(unescape(b"", StompVersion::V1_2), text(""));
    assert_eq!(unescape(b"\xc3\xa9\\c", StompVersion::V1_1), text("\u{e9}:"));
    assert_eq!(unescape(b"\xff", StompVersion::V1_2), None);
    assert_eq!(unescape(b"\xc3\\n\xa9", StompVersion::V1_2), None);
    assert_eq!(unescape(b"\\x", StompVersion::V1_0), None);
    assert_eq!(unescape(b"\\c", StompVersion::V1_0), text(":"));
}

#[test]
fn the_oldest_version_has_no_escapes() {
    assert_eq!(
        parse_header_value(b"\\x", StompVersion::V1_0),
        Some("\\x".to_string())
    );
    assert_eq!(parse_header_value(b"\xff", StompVersion::V1_0), None);
    assert_eq!(parse_header_value(b"\\x", StompVersion::V1_1), None);
    assert_eq!(
        parse_header_value(b"\\c", StompVersion::V1_1),
        Some(":".to_string())
    );
}

#[test]
fn every_part_of_received_bytes_waits() {
    let input = b"\r\nSEND\r\ncontent-length:3\r\nx: y\r\n\r\na\0b\0\n";
    assert!(parse_frame(input).is_ok());
    let end = input.len() - 2;
    assert_eq!(input[end], 0);
    for k in 0..=end {
        assert!(incomplete(&input[..k]));
    }
    assert!(parse_frame(&input[..end + 1]).is_ok());
}

#[test]
fn a_frame_is_written_where_it_fits() {
    let mut codec = StompCodec::default();
    let mut buffer = BytesMut::from(&b"x"[..]);
    let frame = StompFrame {
        command: Cow::Borrowed("BEGIN"),
        headers: vec![header("transaction", "a:b")],
        body: None,
    };
    assert!(codec.try_encode(frame, &mut buffer));
    assert_eq!(&buffer[..], &b"xBEGIN\ntransaction:a\\cb\n\n\0"[..]);
}

#[test]
fn the_first_length_counts() {
    let headers = vec![header("content-length", "+7"), header("content-length", "9")];
    assert_eq!(get_content_length(&headers), Some(7));
    assert_eq!(get_content_length(&vec![header("content-length", "x")]), None);
    assert_eq!(
        get_content_length(&vec![header("content-length", "99999999999999999999")]),
        None
    );
    assert_eq!(get_content_length(&vec![]), None);
    assert_eq!(map_empty_slice(b""), None);
    assert_eq!(map_empty_slice(b"x"), Some(&b"x"[..]));
}

#[test]
fn large_bodies_are_cut_off() {
    assert_eq!(DEFAULT_MAX_BODY_SIZE, 64 * 1024 * 1024);
    let data = b"SEND\ncontent-length:5\n\nhello\0";
    assert_eq!(
        parse_frame_with_version_and_max_body_size(data, StompVersion::V1_2, 4).unwrap_err(),
        ParseError::Cut
    );
    assert!(parse_frame_with_version_and_max_body_size(data, StompVersion::V1_2, 5).is_ok());
    assert_eq!(
        parse_frame(b"SEND\ncontent-length:67108865\n\n").unwrap_err(),
        ParseError::Cut
    );
}

#[test]
fn missing_bytes_are_counted() {
    assert_eq!(
        parse_frame(b"SEND\ncontent-length:10\n\nabc").unwrap_err(),
        ParseError::Incomplete(Needed::Size(7))
    );
    assert_eq!(
        parse_frame(b"SEN").unwrap_err(),
        ParseError::Incomplete(Needed::Size(1))
    );
    assert_eq!(
        parse_frame(b"").unwrap_err(),
        ParseError::Incomplete(Needed::Unknown)
    );
    assert_eq!(
        parse_frame(b"SEND\r").unwrap_err(),
        ParseError::Incomplete(Needed::Unknown)
    );
}

#[test]
fn what_is_no_frame_is_refused() {
    assert_eq!(parse_frame(b"123\n\n\0").unwrap_err(), ParseError::Backtrack);
    assert_eq!(
        parse_frame(b"SEND\rX\n\n\0").unwrap_err(),
        ParseError::Backtrack
    );
    assert_eq!(
        parse_frame(b"SEND\nno colon\n\n\0").unwrap_err(),
        ParseError::Backtrack
    );
    assert_eq!(
        parse_frame(b"SEND\ncontent-length:1\n\nab\0").unwrap_err(),
        ParseError::Backtrack
    );
}

#[test]
fn the_input_is_left_where_reading_stopped() {
    let mut input: &[u8] = b"\nSEND\na:b\n\nx\0\nREST";
    let frame = parse_frame_stream(&mut input, StompVersion::V1_2, 100).unwrap();
    assert_eq!(frame.command, "SEND");
    assert_eq!(input, b"REST");

    let mut input: &[u8] = b"\n\n1";
    assert_eq!(
        parse_frame_stream(&mut input, StompVersion::V1_2, 100).unwrap_err(),
        ParseError::Backtrack
    );
    assert_eq!(input, b"1");
}

#[test]
fn commands_and_values_are_borrowed() {
    let data = b"SEND\na:b\n\nbody\0".to_vec();
    let (_, frame) = parse_frame(&data).unwrap();
    assert!(matches!(frame.command, Cow::Borrowed(_)));
    assert!(matches!(frame.body, Some(Cow::Borrowed(_))));
    let owned = frame.into_owned();
    drop(data);
    assert!(matches!(owned.command, Cow::Owned(_)));
    assert_eq!(owned.body.as_deref(), Some(&b"body"[..]));
    assert_eq!(owned.clone().get_header("a"), Some("b"));
    assert_eq!(owned.get_header("b"), None);
}

#[test]
fn a_decoder_takes_frames_off_a_stream() {
    let mut codec = StompCodec::default();
    assert_eq!(codec.version, StompVersion::V1_2);
    assert_eq!(codec.max_body_size, DEFAULT_MAX_BODY_SIZE);
    let mut buffer = BytesMut::new();
    assert!(codec.decode(&mut buffer).unwrap().is_none());

    let first = StompFrame {
        command: "SEND".into(),
        headers: vec![header("destination", "/queue/a")],
        body: Some(Cow::Borrowed(b"one")),
    };
    let second = StompFrame {
        command: "DISCONNECT".into(),
        headers: vec![],
        body: None,
    };
    codec.encode(first, &mut buffer).unwrap();
    codec.encode(second, &mut buffer).unwrap();
    buffer.extend_from_slice(b"\r\n\nSEN");

    let frame = codec.decode(&mut buffer).unwrap().unwrap();
    assert_eq!(frame.command, "SEND");
    assert_eq!(frame.body.as_deref(), Some(&b"one"[..]));
    let frame = codec.decode(&mut buffer).unwrap().unwrap();
    assert_eq!(frame.command, "DISCONNECT");
    let frame = codec.decode(&mut buffer).unwrap().unwrap();
    assert_eq!(frame.command, "HEARTBEAT");
    assert!(frame.headers.is_empty() && frame.body.is_none());
    assert!(codec.decode(&mut buffer).unwrap().is_none());
    assert_eq!(buffer.as_ref(), b"SEN");
    buffer.extend_from_slice(b"D\n\n\0");
    assert_eq!(codec.decode(&mut buffer).unwrap().unwrap().command, "SEND");
    assert!(buffer.is_empty());
}

#[test]
fn line_ends_are_heartbeats() {
    let mut codec = StompCodec::default();
    let mut buffer = BytesMut::from(&b"\n\r\n\r\rSEND\n\n\0"[..]);
    assert_eq!(
        codec.decode(&mut buffer).unwrap().unwrap().command,
        "HEARTBEAT"
    );
    assert_eq!(buffer.as_ref(), b"SEND\n\n\0");
}

#[test]
fn a_decoder_refuses_what_is_no_frame() {
    let mut codec = StompCodec::with_max_body_size(3);
    assert_eq!(codec.version, StompVersion::V1_2);
    let mut buffer = BytesMut::from(&b"SEND\ncontent-length:4\n\nabcd\0"[..]);
    assert_eq!(codec.decode(&mut buffer).unwrap_err(), ParseError::Cut);
    assert_eq!(buffer.as_ref(), b"SEND\ncontent-length:4\n\nabcd\0");
    let mut buffer = BytesMut::from(&b"?"[..]);
    assert_eq!(
        codec.decode(&mut buffer).unwrap_err(),
        ParseError::Backtrack
    );
}

#[test]
fn the_default_version_is_the_newest() {
    assert_eq!(StompVersion::default(), StompVersion::V1_2);
}

#[test]
fn writing_again_changes_nothing() {
    let f = StompFrame {
        command: "SEND".into(),
        headers: vec![header("content-length", "77"), header("a", "b:c")],
        body: Some(Cow::Borrowed(b"xyz")),
    };
    let bytes = f.serialize().into_owned();
    let (_, again) = parse_frame(&bytes).unwrap();
    assert_eq!(again.serialize().as_ref(), bytes.as_slice());
}

#[test]
fn more_input_keeps_decisions() {
    let whole = b"SEND\na:b\n\nbody\0";
    let (rest, frame) = parse_frame(whole).unwrap();
    assert!(rest.is_empty());
    for more in [&b"\n"[..], b"\r\nX", b"X", b"\rX"] {
        let input = [&whole[..], more].concat();
        let (_, again) = parse_frame(&input).unwrap();
        assert_eq!(again.headers, frame.headers);
        assert_eq!(again.body, frame.body);
    }
    let refused = b"SEND\nbad\n";
    for more in [&b""[..], b"\0", b"a:b\n\n\0"] {
        let input = [&refused[..], more].concat();
        assert_eq!(parse_frame(&input).unwrap_err(), ParseError::Backtrack);
    }
}
