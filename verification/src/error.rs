//! What can go wrong for a client.

use crate::text;
use vstd::prelude::*;

verus! {

/// The error of the standard library for input and output.
#[verifier::external_type_specification]
#[verifier::external_body]
pub struct ExIoError(std::io::Error);

/// Why a client failed.
#[derive(Debug)]
pub enum StompError {
    /// Reading or writing failed.
    Io(std::io::Error),
    /// The peer, or a request, broke the protocol.
    Protocol(String),
    /// The connection is gone.
    Disconnected,
    /// A receipt did not come in time.
    ReceiptTimeout,
}

impl From<std::io::Error> for StompError {
    fn from(err: std::io::Error) -> (e: Self) {
        StompError::Io(err)
    }
}

impl vstd::std_specs::convert::FromSpecImpl<std::io::Error> for StompError {
    open spec fn obeys_from_spec() -> bool {
        true
    }

    open spec fn from_spec(err: std::io::Error) -> Self {
        StompError::Io(err)
    }
}

/// What an error of the standard library says.
///
/// Calls `to_string` on `std::io::Error`. Nothing is claimed of the text, which
/// depends on the system.
#[verifier::external_body]
fn io_error_text(err: &std::io::Error) -> (s: String) {
    err.to_string()
}

/// A failure to read or write in words, for what the system says of it.
pub fn describe_io(detail: &str) -> (s: String)
    ensures
        s@ == "IO error: "@ + detail@,
{
    text::pair("IO error: ", detail)
}

impl StompError {
    /// The error in words.
    pub fn describe(&self) -> (s: String)
        ensures
            match self {
                StompError::Io(_) => text::begins_with(s@, "IO error: "@),
                StompError::Protocol(message) => s@ == "Protocol error: "@ + message@,
                StompError::Disconnected => s@ == "Disconnected from server"@,
                StompError::ReceiptTimeout => s@ == "Receipt timeout"@,
            },
    {
        match self {
            StompError::Io(e) => {
                let detail = io_error_text(e);
                let s = describe_io(detail.as_str());
                proof {
                    let front = "IO error: "@;
                    assert(s@.take(front.len() as int) =~= front);
                }
                s
            },
            StompError::Protocol(message) => text::pair("Protocol error: ", message.as_str()),
            StompError::Disconnected => "Disconnected from server".to_string(),
            StompError::ReceiptTimeout => "Receipt timeout".to_string(),
        }
    }

    /// Whether the error is a breach of the protocol with this explanation.
    pub open spec fn is_protocol(self, message: Seq<char>) -> bool {
        self matches StompError::Protocol(m) && m@ == message
    }
}

} // verus!
