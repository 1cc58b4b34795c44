//! STOMP over WebSockets: the name of the subprotocol, and bytes in messages.

use crate::frame;
use crate::text;
use vstd::prelude::*;
use vstd::utf8::*;

verus! {

/// The names of the subprotocols, newest version first.
pub const STOMP_SUBPROTOCOLS: [&'static str; 3] = ["v12.stomp", "v11.stomp", "v10.stomp"];

/// Whether a client offers a subprotocol.
pub open spec fn offers(header_value: Option<Seq<char>>, name: Seq<char>) -> bool {
    text::list_names(
        match header_value {
            Some(list) => list,
            None => ""@,
        },
        name,
    )
}

/// The subprotocol that is spoken: the newest that the client offers, or the
/// newest of all where it offers none that is known.
pub open spec fn selected(header_value: Option<Seq<char>>) -> Seq<char> {
    if offers(header_value, "v12.stomp"@) {
        "v12.stomp"@
    } else if offers(header_value, "v11.stomp"@) {
        "v11.stomp"@
    } else if offers(header_value, "v10.stomp"@) {
        "v10.stomp"@
    } else {
        "v12.stomp"@
    }
}

/// Selects the subprotocol to speak.
pub fn select_stomp_subprotocol(header_value: Option<&str>) -> (name: &'static str)
    ensures
        name@ == selected(
            match header_value {
                Some(list) => Some(list@),
                None => None,
            },
        ),
{
    let list = match header_value {
        Some(list) => list,
        None => "",
    };
    let newest = STOMP_SUBPROTOCOLS[0];
    let middle = STOMP_SUBPROTOCOLS[1];
    let oldest = STOMP_SUBPROTOCOLS[2];
    if text::list_contains(list, newest) {
        newest
    } else if text::list_contains(list, middle) {
        middle
    } else if text::list_contains(list, oldest) {
        oldest
    } else {
        newest
    }
}

/// A message on a WebSocket.
pub enum WsMessage {
    Text(String),
    Binary(Vec<u8>),
    /// A message that carries no data.
    Control,
}

/// What a message says.
#[verifier::ext_equal]
pub enum WsMessageView {
    Text(Seq<char>),
    Binary(Seq<u8>),
    Control,
}

impl View for WsMessage {
    type V = WsMessageView;

    open spec fn view(&self) -> WsMessageView {
        match self {
            WsMessage::Text(s) => WsMessageView::Text(s@),
            WsMessage::Binary(b) => WsMessageView::Binary(b@),
            WsMessage::Control => WsMessageView::Control,
        }
    }
}

/// The message that carries some bytes: as text where they are text.
pub open spec fn carrying(bytes: Seq<u8>) -> WsMessageView {
    if valid_utf8(bytes) {
        WsMessageView::Text(decode_utf8(bytes))
    } else {
        WsMessageView::Binary(bytes)
    }
}

/// The bytes that a message carries. An empty binary message carries none, and
/// neither does one without data.
pub open spec fn carried(message: WsMessageView) -> Option<Seq<u8>> {
    match message {
        WsMessageView::Text(s) => Some(encode_utf8(s)),
        WsMessageView::Binary(b) => if b.len() > 0 {
            Some(b)
        } else {
            None
        },
        WsMessageView::Control => None,
    }
}

/// Makes a message that carries some bytes.
pub fn message_from_bytes(bytes: &[u8]) -> (message: WsMessage)
    ensures
        message@ == carrying(bytes@),
{
    match text::utf8_str(bytes) {
        Some(s) => WsMessage::Text(s.to_owned()),
        None => WsMessage::Binary(frame::copy_bytes(bytes)),
    }
}

/// Takes the bytes out of a message.
pub fn bytes_from_message(message: WsMessage) -> (bytes: Option<Vec<u8>>)
    ensures
        match bytes {
            Some(b) => carried(message@) == Some(b@),
            None => carried(message@) is None,
        },
{
    match message {
        WsMessage::Text(s) => Some(frame::copy_bytes(s.as_str().as_bytes())),
        WsMessage::Binary(b) => if b.len() > 0 {
            Some(b)
        } else {
            None
        },
        WsMessage::Control => None,
    }
}

/// Bytes come out of a message as they went in.
pub proof fn messages_carry_their_bytes(bytes: Seq<u8>)
    ensures
        carried(carrying(bytes)) == Some(bytes),
{
    if valid_utf8(bytes) {
        decode_utf8_encode_utf8(bytes);
    }
}

/// A subprotocol that a client offers is never passed over for one that it does
/// not offer, nor for an older one.
pub proof fn offers_are_honoured(header_value: Option<Seq<char>>)
    ensures
        offers(header_value, "v12.stomp"@) || offers(header_value, "v11.stomp"@) || offers(
            header_value,
            "v10.stomp"@,
        ) ==> offers(header_value, selected(header_value)),
        offers(header_value, "v12.stomp"@) ==> selected(header_value) == "v12.stomp"@,
        offers(header_value, "v11.stomp"@) ==> selected(header_value) != "v10.stomp"@,
{
    reveal_strlit("v12.stomp");
    reveal_strlit("v11.stomp");
    reveal_strlit("v10.stomp");
    assert("v12.stomp"@[2] == '2' && "v11.stomp"@[2] == '1' && "v10.stomp"@[2] == '0');
}

/// Which subprotocol is spoken: of those that are offered the newest, and the
/// newest of all where none is offered that is known.
pub proof fn the_newest_offer_is_taken(header_value: Option<Seq<char>>)
    ensures
        ({
            let list = match header_value {
                Some(list) => list,
                None => Seq::empty(),
            };
            let new = text::list_names(list, "v12.stomp"@);
            let middle = text::list_names(list, "v11.stomp"@);
            let old = text::list_names(list, "v10.stomp"@);
            selected(header_value) == if !new && middle {
                "v11.stomp"@
            } else if !new && old {
                "v10.stomp"@
            } else {
                "v12.stomp"@
            }
        }),
{
    reveal_strlit("");
    assert(""@ =~= Seq::<char>::empty());
}

/// What messages carry: a text its bytes, a binary message its bytes if it has
/// any, and a control message nothing. Bytes that are text are sent as text.
pub proof fn messages_carry_bytes(message: WsMessageView, bytes: Seq<u8>)
    ensures
        message matches WsMessageView::Text(s) ==> carried(message) == Some(encode_utf8(s)),
        message matches WsMessageView::Binary(b) ==> carried(message) == if b.len() == 0 {
            None
        } else {
            Some(b)
        },
        message is Control ==> carried(message) is None,
        valid_utf8(bytes) <==> carrying(bytes) is Text,
        carrying(bytes) !is Control,
{
}

/// What a message says is all that it holds.
pub proof fn messages_say_all_that_they_hold(message: WsMessage)
    ensures
        match message {
            WsMessage::Text(s) => message@ == WsMessageView::Text(s@),
            WsMessage::Binary(b) => message@ == WsMessageView::Binary(b@),
            WsMessage::Control => message@ is Control,
        },
{
}

} // verus!
