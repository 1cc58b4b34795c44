//! A verified implementation of the STOMP messaging protocol.
//!
//! Frames and the wire: [`frame`], [`encode`], [`parse`], [`codec`]; in
//! [`grammar`] what a frame is on the wire, and in [`wire`] what holds of writing
//! and reading together.
//!
//! The server: [`handshake`] opens a connection, [`session`] handles what comes
//! on it, [`router`] knows who gets which message, by [`destination`] and under
//! the names that [`ident`] gives. [`routing`], [`deliveries`] and
//! [`conversation`] say what can be relied on.
//!
//! The client: [`request`] says what can be asked for, [`client`] turns it into
//! frames and sorts what comes back, [`error`] tells what can go wrong.
//! [`agreement`] says what both ends can rely on of each other.
//!
//! [`websocket`] is about STOMP over WebSockets; [`text`] and [`convert`] serve
//! the other modules.

pub mod agreement;
pub mod client;
pub mod codec;
pub mod conversation;
pub mod convert;
pub mod deliveries;
pub mod destination;
pub mod encode;
pub mod error;
pub mod frame;
pub mod grammar;
pub mod handshake;
pub mod ident;
mod lists;
pub mod parse;
pub mod request;
pub mod router;
pub mod routing;
pub mod session;
pub mod text;
pub mod websocket;
pub mod wire;
