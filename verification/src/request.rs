//! What a client asks for, and the frames that ask for it.

use crate::convert::{IntoBytes, IntoText};
use crate::error::StompError;
use crate::frame::{self, FrameView, Header, StompFrame, StompVersion};
use crate::router;
use std::borrow::Cow;
use vstd::prelude::*;

verus! {

/// How the deliveries on a subscription are acknowledged.
#[derive(Clone, Copy, Debug, Eq, PartialEq, Structural)]
pub enum AckMode {
    /// Not at all.
    Auto,
    /// Each acknowledgement covers what was delivered before.
    Client,
    /// One by one.
    ClientIndividual,
}

/// The name of a mode on the wire.
pub open spec fn mode_name(mode: AckMode) -> Seq<char> {
    match mode {
        AckMode::Auto => "auto"@,
        AckMode::Client => "client"@,
        AckMode::ClientIndividual => "client-individual"@,
    }
}

impl AckMode {
    /// The name of the mode on the wire.
    pub fn as_header_value(self) -> (name: &'static str)
        ensures
            name@ == mode_name(self),
    {
        match self {
            AckMode::Auto => "auto",
            AckMode::Client => "client",
            AckMode::ClientIndividual => "client-individual",
        }
    }
}

/// The position of the first header called `name`; the length of the list where
/// there is none.
pub open spec fn header_position(headers: Seq<Header>, name: Seq<char>) -> int
    decreases headers.len(),
{
    if headers.len() == 0 {
        0
    } else if headers[0].0 == name {
        0
    } else {
        1 + header_position(headers.drop_first(), name)
    }
}

/// Headers in which `name` has a given value: the first header of that name gets
/// it, or one is added at the end.
pub open spec fn upserted(headers: Seq<Header>, name: Seq<char>, value: Seq<char>) -> Seq<Header> {
    let i = header_position(headers, name);
    if i < headers.len() {
        headers.update(i, (name, value))
    } else {
        headers.push((name, value))
    }
}

/// Where the position of a header leads.
proof fn header_position_is(headers: Seq<Header>, name: Seq<char>, i: int)
    requires
        0 <= i <= headers.len(),
        i < headers.len() ==> headers[i].0 == name,
        forall|j: int| 0 <= j < i ==> (#[trigger] headers[j]).0 != name,
    ensures
        header_position(headers, name) == i,
    decreases headers.len(),
{
    if i > 0 {
        assert(headers[0].0 != name);
        let rest = headers.drop_first();
        assert forall|j: int| 0 <= j < i - 1 implies (#[trigger] rest[j]).0 != name by {
            assert(rest[j] == headers[j + 1]);
        }
        header_position_is(rest, name, i - 1);
    }
}

/// The position of a header is one of the list, or its end.
proof fn header_position_bounds(headers: Seq<Header>, name: Seq<char>)
    ensures
        0 <= header_position(headers, name) <= headers.len(),
    decreases headers.len(),
{
    if headers.len() > 0 {
        header_position_bounds(headers.drop_first(), name);
    }
}

/// A header that was set is seen with its value, and all others as before.
pub proof fn upserted_headers_are_seen(
    headers: Seq<Header>,
    name: Seq<char>,
    value: Seq<char>,
    other: Seq<char>,
)
    ensures
        frame::header(upserted(headers, name, value), name) == Some(value),
        other != name ==> frame::header(upserted(headers, name, value), other) == frame::header(
            headers,
            other,
        ),
    decreases headers.len(),
{
    if headers.len() == 0 {
        frame::header_of_push(headers, (name, value), name);
        frame::header_of_push(headers, (name, value), other);
    } else {
        let rest = headers.drop_first();
        let after = upserted(headers, name, value);
        if headers[0].0 == name {
            assert(after.drop_first() =~= rest);
        } else {
            upserted_headers_are_seen(rest, name, value, other);
            header_position_bounds(rest, name);
            assert(after.drop_first() =~= upserted(rest, name, value));
            assert(after[0] == headers[0]);
        }
    }
}

/// Gives a header a value.
pub fn upsert_header(headers: &mut Vec<(String, String)>, name: &str, value: String)
    ensures
        frame::headers_view(final(headers)@) == upserted(
            frame::headers_view(old(headers)@),
            name@,
            value@,
        ),
{
    let ghost before = frame::headers_view(headers@);
    match frame::find_header(headers, name) {
        Some(i) => {
            proof {
                assert forall|j: int| 0 <= j < i implies (#[trigger] before[j]).0 != name@ by {
                    assert(before[j] == frame::header_view(headers@[j]));
                }
                header_position_is(before, name@, i as int);
            }
            headers[i].1 = value;
            assert(frame::headers_view(headers@) =~= before.update(i as int, (name@, value@)));
        },
        None => {
            proof {
                assert forall|j: int| 0 <= j < before.len() implies (#[trigger] before[j]).0
                    != name@ by {
                    assert(before[j] == frame::header_view(headers@[j]));
                }
                header_position_is(before, name@, before.len() as int);
            }
            frame::push_header(headers, name, value);
        },
    }
}

/// A request to send a message.
#[derive(Debug)]
pub struct SendRequest {
    destination: String,
    headers: Vec<(String, String)>,
    body: Vec<u8>,
}

/// What a request to send says.
#[verifier::ext_equal]
pub struct SendView {
    pub destination: Seq<char>,
    pub headers: Seq<Header>,
    pub body: Seq<u8>,
}

impl View for SendRequest {
    type V = SendView;

    closed spec fn view(&self) -> SendView {
        SendView {
            destination: self.destination@,
            headers: frame::headers_view(self.headers@),
            body: self.body@,
        }
    }
}

impl Clone for SendRequest {
    fn clone(&self) -> (copy: Self)
        ensures
            copy@ == self@,
    {
        SendRequest {
            destination: self.destination.clone(),
            headers: frame::copy_headers(&self.headers),
            body: frame::copy_bytes(self.body.as_slice()),
        }
    }
}

impl SendRequest {
    /// A request to send `body` to `destination`.
    pub fn new<D: IntoText, B: IntoBytes>(destination: D, body: B) -> (request: Self)
        ensures
            request@ == (SendView {
                destination: destination.text(),
                headers: seq![],
                body: body.bytes(),
            }),
    {
        let request = SendRequest {
            destination: destination.into_text(),
            headers: Vec::new(),
            body: body.into_bytes(),
        };
        assert(request@.headers =~= seq![]);
        request
    }

    /// The request with these headers in place of those it had.
    pub fn headers(self, headers: Vec<(String, String)>) -> (request: Self)
        ensures
            request@ == (SendView { headers: frame::headers_view(headers@), ..self@ }),
    {
        SendRequest { destination: self.destination, headers, body: self.body }
    }

    /// The request with a receipt asked for.
    pub fn receipt<T: IntoText>(self, receipt_id: T) -> (request: Self)
        ensures
            request@ == (SendView {
                headers: upserted(self@.headers, "receipt"@, receipt_id.text()),
                ..self@
            }),
    {
        let mut headers = self.headers;
        upsert_header(&mut headers, "receipt", receipt_id.into_text());
        SendRequest { destination: self.destination, headers, body: self.body }
    }

    /// The request as part of a transaction.
    pub fn transaction<T: IntoText>(self, transaction_id: T) -> (request: Self)
        ensures
            request@ == (SendView {
                headers: upserted(self@.headers, "transaction"@, transaction_id.text()),
                ..self@
            }),
    {
        let mut headers = self.headers;
        upsert_header(&mut headers, "transaction", transaction_id.into_text());
        SendRequest { destination: self.destination, headers, body: self.body }
    }
}

/// A request to subscribe.
#[derive(Debug)]
pub struct SubscribeRequest {
    destination: String,
    headers: Vec<(String, String)>,
    id: Option<String>,
}

/// What a request to subscribe says.
#[verifier::ext_equal]
pub struct SubscribeView {
    pub destination: Seq<char>,
    pub headers: Seq<Header>,
    pub id: Option<Seq<char>>,
}

/// What an optional text says.
pub open spec fn text_of(s: Option<String>) -> Option<Seq<char>> {
    match s {
        Some(t) => Some(t@),
        None => None,
    }
}

/// A copy of an optional text.
pub fn copy_text(s: &Option<String>) -> (copy: Option<String>)
    ensures
        text_of(copy) == text_of(*s),
{
    match s {
        Some(t) => Some(t.clone()),
        None => None,
    }
}

impl View for SubscribeRequest {
    type V = SubscribeView;

    closed spec fn view(&self) -> SubscribeView {
        SubscribeView {
            destination: self.destination@,
            headers: frame::headers_view(self.headers@),
            id: text_of(self.id),
        }
    }
}

impl Clone for SubscribeRequest {
    fn clone(&self) -> (copy: Self)
        ensures
            copy@ == self@,
    {
        SubscribeRequest {
            destination: self.destination.clone(),
            headers: frame::copy_headers(&self.headers),
            id: copy_text(&self.id),
        }
    }
}

impl SubscribeRequest {
    /// A request to subscribe to `destination`.
    pub fn new<D: IntoText>(destination: D) -> (request: Self)
        ensures
            request@ == (SubscribeView {
                destination: destination.text(),
                headers: seq![],
                id: None,
            }),
    {
        let request = SubscribeRequest {
            destination: destination.into_text(),
            headers: Vec::new(),
            id: None,
        };
        assert(request@.headers =~= seq![]);
        request
    }

    /// The request with a name for the subscription.
    pub fn id<T: IntoText>(self, id: T) -> (request: Self)
        ensures
            request@ == (SubscribeView { id: Some(id.text()), ..self@ }),
    {
        SubscribeRequest {
            destination: self.destination,
            headers: self.headers,
            id: Some(id.into_text()),
        }
    }

    /// The request with these headers in place of those it had.
    pub fn headers(self, headers: Vec<(String, String)>) -> (request: Self)
        ensures
            request@ == (SubscribeView { headers: frame::headers_view(headers@), ..self@ }),
    {
        SubscribeRequest { destination: self.destination, headers, id: self.id }
    }

    /// The request with a receipt asked for.
    pub fn receipt<T: IntoText>(self, receipt_id: T) -> (request: Self)
        ensures
            request@ == (SubscribeView {
                headers: upserted(self@.headers, "receipt"@, receipt_id.text()),
                ..self@
            }),
    {
        let mut headers = self.headers;
        upsert_header(&mut headers, "receipt", receipt_id.into_text());
        SubscribeRequest { destination: self.destination, headers, id: self.id }
    }

    /// The request with a mode of acknowledgement.
    pub fn ack(self, ack: AckMode) -> (request: Self)
        ensures
            request@ == (SubscribeView {
                headers: upserted(self@.headers, "ack"@, mode_name(ack)),
                ..self@
            }),
    {
        let mut headers = self.headers;
        upsert_header(&mut headers, "ack", ack.as_header_value().to_string());
        SubscribeRequest { destination: self.destination, headers, id: self.id }
    }

    /// The name asked for, if any.
    pub fn requested_id(&self) -> (id: Option<&str>)
        ensures
            match id {
                Some(s) => self@.id == Some(s@),
                None => self@.id is None,
            },
    {
        match &self.id {
            Some(s) => Some(s.as_str()),
            None => None,
        }
    }
}

/// An acknowledgement, positive or negative, of a delivery.
#[derive(Debug)]
pub struct AckRequest {
    id: String,
    subscription: Option<String>,
    transaction: Option<String>,
}

/// What an acknowledgement says.
#[verifier::ext_equal]
pub struct AckView {
    pub id: Seq<char>,
    pub subscription: Option<Seq<char>>,
    pub transaction: Option<Seq<char>>,
}

impl View for AckRequest {
    type V = AckView;

    closed spec fn view(&self) -> AckView {
        AckView {
            id: self.id@,
            subscription: text_of(self.subscription),
            transaction: text_of(self.transaction),
        }
    }
}

impl Clone for AckRequest {
    fn clone(&self) -> (copy: Self)
        ensures
            copy@ == self@,
    {
        AckRequest {
            id: self.id.clone(),
            subscription: copy_text(&self.subscription),
            transaction: copy_text(&self.transaction),
        }
    }
}

impl AckRequest {
    /// An acknowledgement of the delivery or message `id`.
    pub fn new<T: IntoText>(id: T) -> (request: Self)
        ensures
            request@ == (AckView { id: id.text(), subscription: None, transaction: None }),
    {
        AckRequest { id: id.into_text(), subscription: None, transaction: None }
    }

    /// The acknowledgement with the subscription it belongs to.
    pub fn subscription<T: IntoText>(self, subscription: T) -> (request: Self)
        ensures
            request@ == (AckView { subscription: Some(subscription.text()), ..self@ }),
    {
        AckRequest {
            id: self.id,
            subscription: Some(subscription.into_text()),
            transaction: self.transaction,
        }
    }

    /// The acknowledgement as part of a transaction.
    pub fn transaction<T: IntoText>(self, transaction: T) -> (request: Self)
        ensures
            request@ == (AckView { transaction: Some(transaction.text()), ..self@ }),
    {
        AckRequest {
            id: self.id,
            subscription: self.subscription,
            transaction: Some(transaction.into_text()),
        }
    }
}

/// The headers of an acknowledgement, or what is missing from it. Version 1.0
/// has no negative one; version 1.1 wants to know the subscription.
pub open spec fn acknowledging_headers(
    request: AckView,
    negative: bool,
    version: StompVersion,
) -> Result<Seq<Header>, Seq<char>> {
    let tail: Seq<Header> = match request.transaction {
        Some(id) => seq![("transaction"@, id)],
        None => seq![],
    };
    match version {
        StompVersion::V1_0 => if negative {
            Err("STOMP 1.0 does not support NACK"@)
        } else {
            Ok(seq![("message-id"@, request.id)] + tail)
        },
        StompVersion::V1_1 => match request.subscription {
            None => if negative {
                Err("STOMP 1.1 NACK requires a subscription header"@)
            } else {
                Err("STOMP 1.1 ACK requires a subscription header"@)
            },
            Some(subscription) => Ok(
                seq![("message-id"@, request.id), ("subscription"@, subscription)] + tail,
            ),
        },
        StompVersion::V1_2 => Ok(seq![("id"@, request.id)] + tail),
    }
}

/// Whether a result holds the headers that are called for, or the error.
pub open spec fn holds_headers(
    result: Result<Vec<(String, String)>, StompError>,
    wanted: Result<Seq<Header>, Seq<char>>,
) -> bool {
    match wanted {
        Ok(headers) => result matches Ok(hs) && frame::headers_view(hs@) == headers,
        Err(message) => result matches Err(e) && e.is_protocol(message),
    }
}

/// Adds the transaction that an acknowledgement is part of.
fn push_transaction(headers: &mut Vec<(String, String)>, transaction: Option<String>)
    ensures
        frame::headers_view(final(headers)@) == frame::headers_view(old(headers)@) + (
        match transaction {
            Some(id) => seq![("transaction"@, id@)],
            None => seq![],
        }),
{
    let ghost before = frame::headers_view(headers@);
    if let Some(id) = transaction {
        frame::push_header(headers, "transaction", id);
    }
    assert(frame::headers_view(headers@) =~= before + (match transaction {
        Some(id) => seq![("transaction"@, id@)],
        None => seq![],
    }));
}

/// The headers of an `ACK` frame, or what is missing from the request.
pub fn ack_headers(request: AckRequest, negotiated_version: StompVersion) -> (headers: Result<
    Vec<(String, String)>,
    StompError,
>)
    ensures
        holds_headers(headers, acknowledging_headers(request@, false, negotiated_version)),
{
    let ghost asked = request@;
    let mut headers: Vec<(String, String)> = Vec::new();
    match negotiated_version {
        StompVersion::V1_0 => {
            frame::push_header(&mut headers, "message-id", request.id);
        },
        StompVersion::V1_1 => match request.subscription {
            None => {
                return Err(
                    StompError::Protocol(
                        "STOMP 1.1 ACK requires a subscription header".to_string(),
                    ),
                );
            },
            Some(subscription) => {
                frame::push_header(&mut headers, "message-id", request.id);
                frame::push_header(&mut headers, "subscription", subscription);
            },
        },
        StompVersion::V1_2 => {
            frame::push_header(&mut headers, "id", request.id);
        },
    }
    push_transaction(&mut headers, request.transaction);
    assert(frame::headers_view(headers@) =~= acknowledging_headers(
        asked,
        false,
        negotiated_version,
    )->Ok_0);
    Ok(headers)
}

/// The headers of a `NACK` frame, or what is missing from the request.
pub fn nack_headers(request: AckRequest, negotiated_version: StompVersion) -> (headers: Result<
    Vec<(String, String)>,
    StompError,
>)
    ensures
        holds_headers(headers, acknowledging_headers(request@, true, negotiated_version)),
{
    let ghost asked = request@;
    let mut headers: Vec<(String, String)> = Vec::new();
    match negotiated_version {
        StompVersion::V1_0 => {
            return Err(StompError::Protocol("STOMP 1.0 does not support NACK".to_string()));
        },
        StompVersion::V1_1 => match request.subscription {
            None => {
                return Err(
                    StompError::Protocol(
                        "STOMP 1.1 NACK requires a subscription header".to_string(),
                    ),
                );
            },
            Some(subscription) => {
                frame::push_header(&mut headers, "message-id", request.id);
                frame::push_header(&mut headers, "subscription", subscription);
            },
        },
        StompVersion::V1_2 => {
            frame::push_header(&mut headers, "id", request.id);
        },
    }
    push_transaction(&mut headers, request.transaction);
    assert(frame::headers_view(headers@) =~= acknowledging_headers(
        asked,
        true,
        negotiated_version,
    )->Ok_0);
    Ok(headers)
}

/// The frame for a request to send.
pub open spec fn send_frame(request: SendView) -> FrameView {
    FrameView {
        command: "SEND"@,
        headers: upserted(request.headers, "destination"@, request.destination),
        body: Some(request.body),
    }
}

/// The frame for a request to send.
pub fn send_request_to_frame(request: SendRequest) -> (frame: StompFrame<'static>)
    ensures
        frame@ == send_frame(request@),
{
    let mut headers = request.headers;
    upsert_header(&mut headers, "destination", request.destination);
    StompFrame { command: Cow::Borrowed("SEND"), headers, body: Some(Cow::Owned(request.body)) }
}

/// The frame for a request to subscribe under the name `id`. Without a mode of
/// acknowledgement, nothing is to be acknowledged.
pub open spec fn subscribe_frame(request: SubscribeView, id: Seq<char>) -> FrameView {
    let named = upserted(
        upserted(request.headers, "id"@, id),
        "destination"@,
        request.destination,
    );
    FrameView {
        command: "SUBSCRIBE"@,
        headers: if frame::header(named, "ack"@) is None {
            named.push(("ack"@, "auto"@))
        } else {
            named
        },
        body: None,
    }
}

/// The frame for a request to subscribe.
pub fn subscribe_request_to_frame(request: SubscribeRequest, id: String) -> (frame: StompFrame<
    'static,
>)
    ensures
        frame@ == subscribe_frame(request@, id@),
{
    let mut headers = request.headers;
    upsert_header(&mut headers, "id", id);
    upsert_header(&mut headers, "destination", request.destination);
    if frame::find_header(&headers, "ack").is_none() {
        frame::push_header(&mut headers, "ack", AckMode::Auto.as_header_value().to_string());
    }
    frame::bodiless("SUBSCRIBE", headers)
}

/// Setting a header changes the first of that name, where it stands, or adds one
/// at the end where there is none. All others stay where they are.
pub proof fn setting_a_header_moves_none(headers: Seq<Header>, name: Seq<char>, value: Seq<char>)
    ensures
        ({
            let after = upserted(headers, name, value);
            let known = exists|i: int| 0 <= i < headers.len() && (#[trigger] headers[i]).0 == name;
            &&& after.len() == if known {
                headers.len()
            } else {
                headers.len() + 1
            }
            &&& !known ==> after.last() == (name, value)
            &&& forall|i: int|
                0 <= i < headers.len() ==> {
                    let first = headers[i].0 == name && forall|j: int|
                        0 <= j < i ==> (#[trigger] headers[j]).0 != name;
                    #[trigger] after[i] == if first {
                        (name, value)
                    } else {
                        headers[i]
                    }
                }
        }),
    decreases headers.len(),
{
    let after = upserted(headers, name, value);
    let p = header_position(headers, name);
    header_position_bounds(headers, name);
    header_position_leads(headers, name);
    assert forall|i: int| 0 <= i < headers.len() implies {
        let first = headers[i].0 == name && forall|j: int|
            0 <= j < i ==> (#[trigger] headers[j]).0 != name;
        #[trigger] after[i] == if first {
            (name, value)
        } else {
            headers[i]
        }
    } by {
        if i < p {
            assert(headers[i].0 != name);
        } else if i > p {
            assert(headers[p].0 == name);
        }
    }
}

proof fn header_position_leads(headers: Seq<Header>, name: Seq<char>)
    ensures
        ({
            let p = header_position(headers, name);
            &&& p < headers.len() ==> headers[p].0 == name
            &&& forall|j: int| 0 <= j < p ==> (#[trigger] headers[j]).0 != name
        }),
    decreases headers.len(),
{
    if headers.len() > 0 && headers[0].0 != name {
        let rest = headers.drop_first();
        header_position_leads(rest, name);
        header_position_bounds(rest, name);
        assert forall|j: int| 0 <= j < header_position(headers, name) implies (
        #[trigger] headers[j]).0 != name by {
            if j > 0 {
                assert(rest[j - 1] == headers[j]);
            }
        }
    }
}

/// What an acknowledgement is on the wire. Version 1.0 names the message and has
/// no negative one; version 1.1 names the message and the subscription, which must
/// be given; version 1.2 names the delivery. The transaction comes last.
pub proof fn acknowledgements_are_written_by_version(asked: AckView, negative: bool)
    ensures
        ({
            let tail: Seq<Header> = match asked.transaction {
                Some(id) => seq![("transaction"@, id)],
                None => seq![],
            };
            let first = acknowledging_headers(asked, negative, StompVersion::V1_0);
            let second = acknowledging_headers(asked, negative, StompVersion::V1_1);
            let third = acknowledging_headers(asked, negative, StompVersion::V1_2);
            &&& first is Err <==> negative
            &&& first matches Err(e) ==> e == "STOMP 1.0 does not support NACK"@
            &&& first matches Ok(hs) ==> hs == seq![("message-id"@, asked.id)] + tail
            &&& second is Err <==> asked.subscription is None
            &&& second matches Err(e) ==> e == if negative {
                "STOMP 1.1 NACK requires a subscription header"@
            } else {
                "STOMP 1.1 ACK requires a subscription header"@
            }
            &&& second matches Ok(hs) ==> hs == seq![
                ("message-id"@, asked.id),
                ("subscription"@, asked.subscription->0),
            ] + tail
            &&& third matches Ok(hs) && hs == seq![("id"@, asked.id)] + tail
        }),
{
}

/// A request to send is written with the headers that were asked for, the
/// destination among them, and the body.
pub proof fn requests_to_send_are_written_out(asked: SendView)
    ensures
        send_frame(asked).command == "SEND"@,
        send_frame(asked).body == Some(asked.body),
        send_frame(asked).headers == upserted(
            asked.headers,
            "destination"@,
            asked.destination,
        ),
{
}

/// A request to subscribe is written with the headers that were asked for, and
/// with its name, its destination, and a mode, of which `auto` is that of those
/// who ask for none.
pub proof fn requests_to_subscribe_are_written_out(asked: SubscribeView, id: Seq<char>)
    ensures
        ({
            let frame = subscribe_frame(asked, id);
            let named = upserted(
                upserted(asked.headers, "id"@, id),
                "destination"@,
                asked.destination,
            );
            &&& frame.command == "SUBSCRIBE"@
            &&& frame.body is None
            &&& frame.headers == if frame::header(asked.headers, "ack"@) is Some {
                named
            } else {
                named.push(("ack"@, "auto"@))
            }
        }),
{
    reveal_strlit("id");
    reveal_strlit("destination");
    reveal_strlit("ack");
    assert("id"@.len() == 2 && "destination"@.len() == 11 && "ack"@.len() == 3);
    let first = upserted(asked.headers, "id"@, id);
    upserted_headers_are_seen(asked.headers, "id"@, id, "ack"@);
    upserted_headers_are_seen(first, "destination"@, asked.destination, "ack"@);
}

/// No two modes have the same name, and only those that ask for acknowledgement
/// are such that a server waits for one.
pub proof fn modes_are_told_apart(mode: AckMode)
    ensures
        mode_name(AckMode::Auto) == "auto"@,
        mode_name(AckMode::Client) == "client"@,
        mode_name(AckMode::ClientIndividual) == "client-individual"@,
        router::waits_for_ack(mode_name(mode)) <==> mode != AckMode::Auto,
{
    reveal_strlit("auto");
    reveal_strlit("client");
    reveal_strlit("client-individual");
    assert("auto"@.len() == 4 && "client"@.len() == 6 && "client-individual"@.len() == 17);
}

/// Who asks for the headers of an acknowledgement gets them, or the error.
pub proof fn headers_are_handed_out(
    result: Result<Vec<(String, String)>, StompError>,
    wanted: Result<Seq<Header>, Seq<char>>,
    i: int,
)
    requires
        holds_headers(result, wanted),
    ensures
        match wanted {
            Ok(headers) => {
                &&& result matches Ok(hs)
                &&& hs@.len() == headers.len()
                &&& 0 <= i < headers.len() ==> hs@[i].0@ == headers[i].0 && hs@[i].1@
                    == headers[i].1
            },
            Err(m) => result matches Err(StompError::Protocol(text)) && text@ == m,
        },
{
    if let Ok(hs) = result {
        if let Ok(headers) = wanted {
            if 0 <= i < headers.len() {
                assert(frame::headers_view(hs@)[i] == frame::header_view(hs@[i]));
            }
        }
    }
}

} // verus!
