# stompoxide

STOMP 1.0, 1.1, and 1.2 in Rust, with the protocol logic verified by
[Verus](https://github.com/verus-lang/verus).

## Layout

- `src/` is the library: the frame codec, version and heartbeat negotiation, the
  client's and the server's end of a connection, and the in-memory router for
  topics and queues. Every function has a contract; Verus proves all of them but
  those under "What is trusted".
- `app/` puts the library on asynchronous streams with Tokio: `StompClient`,
  `StompServer`, Tower services, and WebSockets.
- `tests/` runs the library on concrete frames and conversations.

## What is proved

- A frame that is written is read back, whatever follows it on the stream, and no
  part of it is taken for a whole frame (`src/wire.rs`).
- Messages to a topic reach every subscription whose pattern matches; messages to
  a queue reach one subscriber, in turn. What is rejected, or not acknowledged
  when a connection ends, is delivered again (`src/routing.rs`).
- A server closes a connection only on request or after it has reported an error.
  Receipts, transactions, and acknowledgements do what they say
  (`src/conversation.rs`).
- Client and server agree on the version and on heartbeats, and understand each
  other's frames (`src/agreement.rs`).

## What is trusted

Contracts without a proof stand where the library calls other code:
`std::str::from_utf8` (`src/text.rs`), the text of `std::io::Error`
(`src/error.rs`), a `String` made of one `char` (`src/convert.rs`),
`bytes::BytesMut` (`src/codec.rs`), and random identifiers from `uuid`
(`src/ident.rs`).

## Destinations

| Pattern | Kind | Behaviour |
| --- | --- | --- |
| `/topic/**` | Topic | Each message goes to all matching subscribers. |
| `/queue/**` | Queue | Each message goes to one subscriber, in turn. |

Subscriptions to topics may use `*` for one segment and `**` for the rest of a
path. Subscriptions to queues name one queue. Messages to a queue without
subscribers are dropped.
