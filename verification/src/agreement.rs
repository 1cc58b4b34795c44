//! What client and server can rely on of each other.

use crate::client::{self, ClientView, Command, ConfigView, ReplyView};
use crate::frame::{self, FrameView, Header, StompVersion};
use crate::handshake::{self, SERVER_HEARTBEAT_MS};
use crate::request::{self, AckView, SendView, SubscribeView};
use crate::router::{self, SubscriptionView};
use crate::routing;
use crate::session;
use crate::text;
use vstd::prelude::*;

verus! {

/// Text without the separator is one piece.
pub proof fn split_of_plain_text(s: Seq<char>, sep: char)
    requires
        !s.contains(sep),
    ensures
        text::split(s, sep) == seq![s],
    decreases s.len(),
{
    if s.len() == 0 {
        assert(s =~= seq![]);
    } else {
        let rest = s.drop_last();
        assert(!rest.contains(sep)) by {
            if rest.contains(sep) {
                let k = choose|k: int| 0 <= k < rest.len() && rest[k] == sep;
                assert(s[k] == sep);
            }
        }
        split_of_plain_text(rest, sep);
        assert(s.contains(s.last()));
        assert(rest.push(s.last()) =~= s);
        assert(text::split(s, sep) =~= seq![s]);
    }
}

/// A separator and text without one add a piece.
proof fn split_of_appended_text(a: Seq<char>, b: Seq<char>, sep: char)
    requires
        !b.contains(sep),
    ensures
        text::split(a + seq![sep] + b, sep) == text::split(a, sep).push(b),
    decreases b.len(),
{
    let s = a + seq![sep] + b;
    if b.len() == 0 {
        assert(s.drop_last() =~= a);
        assert(s.last() == sep);
        assert(b =~= seq![]);
    } else {
        let rest = b.drop_last();
        assert(!rest.contains(sep)) by {
            if rest.contains(sep) {
                let k = choose|k: int| 0 <= k < rest.len() && rest[k] == sep;
                assert(b[k] == sep);
            }
        }
        split_of_appended_text(a, rest, sep);
        assert(s.drop_last() =~= a + seq![sep] + rest);
        assert(s.last() == b.last());
        assert(b.contains(b.last()));
        let pieces = text::split(a, sep).push(rest);
        assert(pieces.drop_last() =~= text::split(a, sep));
        assert(rest.push(b.last()) =~= b);
    }
}

/// Pieces with commas between them come apart again.
pub proof fn separated_pieces_come_apart(pieces: Seq<Seq<char>>)
    requires
        pieces.len() > 0,
        forall|i: int| 0 <= i < pieces.len() ==> !(#[trigger] pieces[i]).contains(','),
    ensures
        text::split(client::comma_separated(pieces), ',') == pieces,
    decreases pieces.len(),
{
    reveal_strlit(",");
    if pieces.len() == 1 {
        split_of_plain_text(pieces[0], ',');
        assert(pieces =~= seq![pieces[0]]);
    } else {
        let rest = pieces.drop_last();
        separated_pieces_come_apart(rest);
        let front = client::comma_separated(rest);
        assert(","@ =~= seq![',']);
        split_of_appended_text(front, pieces.last(), ',');
        assert(rest.push(pieces.last()) =~= pieces);
    }
}

/// Two numbers with a comma between them come apart again.
proof fn intervals_come_apart(a: nat, b: nat)
    ensures
        text::split(text::decimal(a) + ","@ + text::decimal(b), ',') == seq![
            text::decimal(a),
            text::decimal(b),
        ],
{
    let pieces = seq![text::decimal(a), text::decimal(b)];
    text::decimal_reads_back(a, a);
    text::decimal_reads_back(b, b);
    assert forall|i: int| 0 <= i < pieces.len() implies !(#[trigger] pieces[i]).contains(',') by {
        if pieces[i].contains(',') {
            let k = choose|k: int| 0 <= k < pieces[i].len() && pieces[i][k] == ',';
            assert(text::is_digit(pieces[i][k]));
        }
    }
    separated_pieces_come_apart(pieces);
    assert(pieces.drop_last() =~= seq![text::decimal(a)]);
    assert(client::comma_separated(pieces.drop_last()) == text::decimal(a));
}

/// The value of a header that may be the first.
proof fn header_of_first(first: Header, rest: Seq<Header>, name: Seq<char>)
    ensures
        frame::header(seq![first] + rest, name) == if first.0 == name {
            Some(first.1)
        } else {
            frame::header(rest, name)
        },
{
    assert((seq![first] + rest).drop_first() =~= rest);
}

/// The names of headers in a handshake are different from each other.
proof fn handshake_names()
    ensures
        "accept-version"@.len() == 14,
        "host"@.len() == 4,
        "heart-beat"@.len() == 10,
        "login"@.len() == 5,
        "passcode"@.len() == 8,
        "version"@.len() == 7,
        "session"@.len() == 7,
        "version"@ != "session"@,
        "server"@.len() == 6,
{
    reveal_strlit("accept-version");
    reveal_strlit("host");
    reveal_strlit("heart-beat");
    reveal_strlit("login");
    reveal_strlit("passcode");
    reveal_strlit("version");
    reveal_strlit("session");
    reveal_strlit("server");
    assert("version"@[0] == 'v' && "session"@[0] == 's');
}

/// What a server finds in the frame with which a client asks to connect.
proof fn what_a_client_offers(config: ConfigView)
    ensures
        ({
            let headers = client::connecting(config).headers;
            let old = client::oldest_only(config);
            &&& frame::header(headers, "accept-version"@) == if old {
                None
            } else {
                Some(client::comma_separated(config.accept_versions))
            }
            &&& !old ==> frame::header(headers, "host"@) == Some(config.host)
            &&& frame::header(headers, "heart-beat"@) == if old {
                None
            } else {
                Some(
                    text::decimal(config.heartbeat_cx as nat) + ","@ + text::decimal(
                        config.heartbeat_cy as nat,
                    ),
                )
            }
        }),
{
    handshake_names();
    let headers = client::connecting(config).headers;
    let login = client::optional_header("login"@, config.login);
    let passcode = client::optional_header("passcode"@, config.passcode);
    let tail = login + passcode;
    let names = seq!["accept-version"@, "host"@, "heart-beat"@];
    assert forall|k: int| 0 <= k < 3 implies frame::header(tail, #[trigger] names[k]) is None by {
        if let Some(p) = config.passcode {
            header_of_first(("passcode"@, p), seq![], names[k]);
            assert(seq![("passcode"@, p)] + Seq::<Header>::empty() =~= passcode);
        }
        if let Some(l) = config.login {
            header_of_first(("login"@, l), passcode, names[k]);
        } else {
            assert(tail =~= passcode);
        }
    }
    assert(frame::header(tail, names[0]) is None);
    assert(frame::header(tail, names[1]) is None);
    assert(frame::header(tail, names[2]) is None);
    if client::oldest_only(config) {
        assert(headers =~= tail);
    } else {
        let a: Header = ("accept-version"@, client::comma_separated(config.accept_versions));
        let b: Header = ("host"@, config.host);
        let c: Header = (
            "heart-beat"@,
            text::decimal(config.heartbeat_cx as nat) + ","@ + text::decimal(
                config.heartbeat_cy as nat,
            ),
        );
        assert(headers =~= seq![a] + (seq![b] + (seq![c] + tail)));
        header_of_first(a, seq![b] + (seq![c] + tail), "accept-version"@);
        header_of_first(a, seq![b] + (seq![c] + tail), "host"@);
        header_of_first(a, seq![b] + (seq![c] + tail), "heart-beat"@);
        header_of_first(b, seq![c] + tail, "host"@);
        header_of_first(b, seq![c] + tail, "heart-beat"@);
        header_of_first(c, tail, "heart-beat"@);
    }
}

/// What a client finds in the frame with which a server lets it in.
proof fn what_a_server_answers(version: StompVersion, conn_id: u128)
    ensures
        ({
            let headers = handshake::connected_headers(version, conn_id);
            let interval = text::decimal(SERVER_HEARTBEAT_MS as nat);
            let quiet = version == StompVersion::V1_0;
            &&& frame::header(headers, "version"@) == if quiet {
                None
            } else {
                Some(handshake::version_name(version))
            }
            &&& frame::header(headers, "heart-beat"@) == if quiet {
                None
            } else {
                Some(interval + ","@ + interval)
            }
        }),
{
    handshake_names();
    let headers = handshake::connected_headers(version, conn_id);
    let interval = text::decimal(SERVER_HEARTBEAT_MS as nat);
    if version == StompVersion::V1_0 {
        header_of_first(headers[0], seq![], "version"@);
        header_of_first(headers[0], seq![], "heart-beat"@);
        assert(seq![headers[0]] + Seq::<Header>::empty() =~= headers);
    } else {
        let a: Header = ("version"@, handshake::version_name(version));
        let b: Header = ("heart-beat"@, interval + ","@ + interval);
        let tail = headers.skip(2);
        assert(headers =~= seq![a] + (seq![b] + tail));
        header_of_first(a, seq![b] + tail, "version"@);
        header_of_first(a, seq![b] + tail, "heart-beat"@);
        header_of_first(b, tail, "heart-beat"@);
    }
}

/// When a server lets a client in, both speak the same version, and each sends
/// heartbeats as often as the other expects them. A server reads no interval
/// above the largest signed number of 32 bits; where heartbeats are sent at all,
/// they are agreed on up to that.
pub proof fn both_ends_agree(config: ConfigView, verdict: Option<bool>, conn_id: u128)
    ensures
        match handshake::opening(client::connecting(config), verdict, conn_id) {
            Ok(o) => {
                let quiet = o.version == StompVersion::V1_0;
                &&& client::reply(config, o.connected) matches ReplyView::Open {
                    version,
                    outgoing,
                    incoming,
                }
                &&& version == o.version
                &&& quiet || config.heartbeat_cx <= i32::MAX ==> outgoing == o.incoming
                &&& quiet || config.heartbeat_cy <= i32::MAX ==> incoming == o.outgoing
            },
            Err(_) => true,
        },
{
    reveal_strlit("HEARTBEAT");
    reveal_strlit("CONNECTED");
    assert("HEARTBEAT"@[0] != "CONNECTED"@[0]);
    reveal_strlit("1.0");
    reveal_strlit("1.1");
    reveal_strlit("1.2");
    assert("1.0"@[2] == '0' && "1.1"@[2] == '1' && "1.2"@[2] == '2');
    what_a_client_offers(config);
    if let Ok(o) = handshake::opening(client::connecting(config), verdict, conn_id) {
        what_a_server_answers(o.version, conn_id);
        let ours = SERVER_HEARTBEAT_MS as nat;
        intervals_come_apart(config.heartbeat_cx as nat, config.heartbeat_cy as nat);
        intervals_come_apart(ours, ours);
        text::decimal_reads_back(ours, u32::MAX as nat);
        if config.heartbeat_cx <= i32::MAX {
            reads_as_signed(config.heartbeat_cx as nat);
        }
        if config.heartbeat_cy <= i32::MAX {
            reads_as_signed(config.heartbeat_cy as nat);
        }
    }
}

/// What a client writes for an interval, a server reads as that interval.
proof fn reads_as_signed(n: nat)
    requires
        n <= i32::MAX,
    ensures
        handshake::signed_interval(text::decimal(n)) == n,
{
    text::decimal_reads_back(n, i32::MAX as nat);
    let s = text::decimal(n);
    assert(text::is_digit(s[0]));
}

/// Whether a client accepts a version. Each entry of its configuration may name
/// several, with commas between them.
pub open spec fn accepts(config: ConfigView, version: StompVersion) -> bool {
    exists|i: int|
        0 <= i < config.accept_versions.len() && text::list_names(
            #[trigger] config.accept_versions[i],
            handshake::version_name(version),
        )
}

/// The pieces of two texts with a separator between them.
pub proof fn split_of_joined_text(a: Seq<char>, b: Seq<char>, sep: char)
    ensures
        text::split(a + seq![sep] + b, sep) == text::split(a, sep) + text::split(b, sep),
    decreases b.len(),
{
    let s = a + seq![sep] + b;
    text::split_is_never_empty(a, sep);
    if b.len() == 0 {
        assert(s.drop_last() =~= a);
        assert(s.last() == sep);
        assert(text::split(s, sep) =~= text::split(a, sep) + text::split(b, sep));
    } else {
        let rest = b.drop_last();
        split_of_joined_text(a, rest, sep);
        text::split_is_never_empty(rest, sep);
        assert(s.drop_last() =~= a + seq![sep] + rest);
        assert(s.last() == b.last());
        assert(text::split(s, sep) =~= text::split(a, sep) + text::split(b, sep));
    }
}

/// A list of lists names what one of them names.
proof fn names_in_joined_lists(lists: Seq<Seq<char>>, name: Seq<char>)
    requires
        lists.len() > 0,
    ensures
        text::list_names(client::comma_separated(lists), name) <==> exists|i: int|
            0 <= i < lists.len() && text::list_names(#[trigger] lists[i], name),
    decreases lists.len(),
{
    reveal_strlit(",");
    let all = client::comma_separated(lists);
    if lists.len() == 1 {
        assert(all == lists[0]);
    } else {
        let rest = lists.drop_last();
        let last = lists.last();
        let front = client::comma_separated(rest);
        names_in_joined_lists(rest, name);
        assert(","@ =~= seq![',']);
        split_of_joined_text(front, last, ',');
        let x = text::split(front, ',');
        let y = text::split(last, ',');
        let z = text::split(all, ',');
        assert(z == x + y);
        if text::list_names(all, name) {
            let i = choose|i: int| 0 <= i < z.len() && text::trim(#[trigger] z[i]) == name;
            if i < x.len() {
                assert(text::trim(x[i]) == name);
                assert(text::list_names(front, name));
                let k = choose|k: int|
                    0 <= k < rest.len() && text::list_names(#[trigger] rest[k], name);
                assert(lists[k] == rest[k]);
            } else {
                assert(text::trim(y[i - x.len()]) == name);
                assert(text::list_names(lists[lists.len() - 1], name));
            }
        }
        if exists|i: int| 0 <= i < lists.len() && text::list_names(#[trigger] lists[i], name) {
            let i = choose|i: int|
                0 <= i < lists.len() && text::list_names(#[trigger] lists[i], name);
            if i < rest.len() {
                assert(rest[i] == lists[i]);
                assert(text::list_names(front, name));
                let k = choose|k: int| 0 <= k < x.len() && text::trim(#[trigger] x[k]) == name;
                assert(text::trim(z[k]) == name);
            } else {
                let k = choose|k: int| 0 <= k < y.len() && text::trim(#[trigger] y[k]) == name;
                assert(text::trim(z[x.len() + k]) == name);
            }
        }
    }
}

/// Of the versions that a client accepts, the server picks the newest; it lets
/// the client in if it accepts one, and is not refused for its login.
pub proof fn servers_pick_the_newest_version(
    config: ConfigView,
    verdict: Option<bool>,
    conn_id: u128,
)
    requires
        verdict != Some(false),
    ensures
        ({
            let answer = handshake::opening(client::connecting(config), verdict, conn_id);
            if accepts(config, StompVersion::V1_2) {
                answer matches Ok(o) && o.version == StompVersion::V1_2
            } else if accepts(config, StompVersion::V1_1) {
                answer matches Ok(o) && o.version == StompVersion::V1_1
            } else if accepts(config, StompVersion::V1_0) {
                answer matches Ok(o) && o.version == StompVersion::V1_0
            } else {
                answer is Err
            }
        }),
{
    what_a_client_offers(config);
    let vs = config.accept_versions;
    reveal_strlit("1.0");
    reveal_strlit("1.1");
    reveal_strlit("1.2");
    assert("1.0"@[2] == '0' && "1.1"@[2] == '1' && "1.2"@[2] == '2');
    if vs.len() > 0 {
        names_in_joined_lists(vs, "1.0"@);
        names_in_joined_lists(vs, "1.1"@);
        names_in_joined_lists(vs, "1.2"@);
    } else {
        let list = client::comma_separated(vs);
        assert(list =~= seq![]);
        assert(text::split(list, ',') =~= seq![Seq::<char>::empty()]);
        assert(text::trim(Seq::<char>::empty()) =~= seq![]);
        assert forall|name: Seq<char>| name.len() > 0 implies !text::list_names(list, name) by {
            if text::list_names(list, name) {
                let i = choose|i: int|
                    0 <= i < text::split(list, ',').len() && text::trim(
                        #[trigger] text::split(list, ',')[i],
                    ) == name;
                assert(i == 0);
            }
        }
    }
    if client::oldest_only(config) {
        let only = vs[0];
        assert(!only.contains(','));
        split_of_plain_text(only, ',');
        assert(text::split(only, ',') =~= seq![only]);
        assert(only[0] == '1' && only.last() == '0');
        assert(text::trim(text::split(only, ',')[0]) == only);
        assert(text::list_names(only, "1.0"@));
        assert(accepts(config, StompVersion::V1_0));
        assert forall|name: Seq<char>| name != only implies !text::list_names(only, name) by {
            if text::list_names(only, name) {
                let i = choose|i: int|
                    0 <= i < text::split(only, ',').len() && text::trim(
                        #[trigger] text::split(only, ',')[i],
                    ) == name;
                assert(i == 0);
            }
        }
    }
}

/// The acknowledgement that a client sends is one that a server of the same
/// version understands, and it speaks of what was to be acknowledged.
pub proof fn acknowledgements_are_understood(
    asked: AckView,
    negative: bool,
    version: StompVersion,
)
    ensures
        match request::acknowledging_headers(asked, negative, version) {
            Ok(headers) => {
                let frame = FrameView {
                    command: if negative {
                        "NACK"@
                    } else {
                        "ACK"@
                    },
                    headers,
                    body: None,
                };
                &&& session::ack_target(frame, version) matches Ok(target)
                &&& target.id == asked.id
                &&& target.version == version
                &&& version == StompVersion::V1_1 ==> target.subscription == asked.subscription
                &&& frame::header(headers, "transaction"@) == asked.transaction
            },
            Err(_) => true,
        },
{
    reveal_strlit("NACK");
    reveal_strlit("ACK");
    reveal_strlit("message-id");
    reveal_strlit("subscription");
    reveal_strlit("id");
    reveal_strlit("transaction");
    assert("NACK"@.len() == 4 && "ACK"@.len() == 3);
    assert("message-id"@.len() == 10 && "subscription"@.len() == 12 && "id"@.len() == 2
        && "transaction"@.len() == 11);
    if let Ok(headers) = request::acknowledging_headers(asked, negative, version) {
        let tail: Seq<Header> = match asked.transaction {
            Some(id) => seq![("transaction"@, id)],
            None => seq![],
        };
        let names = seq!["message-id"@, "subscription"@, "id"@, "transaction"@];
        assert forall|k: int| 0 <= k < 4 implies frame::header(tail, #[trigger] names[k]) == if k
            == 3 {
            asked.transaction
        } else {
            None
        } by {
            if let Some(id) = asked.transaction {
                header_of_first(("transaction"@, id), seq![], names[k]);
                assert(seq![("transaction"@, id)] + Seq::<Header>::empty() =~= tail);
            }
        }
        assert(frame::header(tail, names[3]) == asked.transaction);
        match version {
            StompVersion::V1_0 => {
                header_of_first(("message-id"@, asked.id), tail, "message-id"@);
                header_of_first(("message-id"@, asked.id), tail, "transaction"@);
            },
            StompVersion::V1_1 => {
                let sub = asked.subscription->0;
                let rest = seq![("subscription"@, sub)] + tail;
                assert(headers =~= seq![("message-id"@, asked.id)] + rest);
                header_of_first(("message-id"@, asked.id), rest, "message-id"@);
                header_of_first(("message-id"@, asked.id), rest, "subscription"@);
                header_of_first(("message-id"@, asked.id), rest, "transaction"@);
                header_of_first(("subscription"@, sub), tail, "subscription"@);
                header_of_first(("subscription"@, sub), tail, "transaction"@);
            },
            StompVersion::V1_2 => {
                header_of_first(("id"@, asked.id), tail, "id"@);
                header_of_first(("id"@, asked.id), tail, "transaction"@);
            },
        }
    }
}

/// A frame that sends a message names its destination, holds the body, and
/// keeps the headers that were asked for.
pub proof fn sent_frames_say_what_was_asked(asked: SendView, name: Seq<char>)
    ensures
        request::send_frame(asked).body == Some(asked.body),
        frame::header(request::send_frame(asked).headers, "destination"@) == Some(
            asked.destination,
        ),
        name != "destination"@ ==> frame::header(request::send_frame(asked).headers, name)
            == frame::header(asked.headers, name),
{
    request::upserted_headers_are_seen(asked.headers, "destination"@, asked.destination, name);
}

/// A frame that subscribes names the destination and the subscription, and how
/// deliveries are acknowledged: as asked for, or not at all.
pub proof fn subscriptions_say_what_was_asked(asked: SubscribeView, id: Seq<char>)
    ensures
        ({
            let frame = request::subscribe_frame(asked, id);
            &&& frame::header(frame.headers, "id"@) == Some(id)
            &&& frame::header(frame.headers, "destination"@) == Some(asked.destination)
            &&& session::requested_mode(frame) == (match frame::header(asked.headers, "ack"@) {
                Some(mode) => mode,
                None => "auto"@,
            })
        }),
{
    reveal_strlit("id");
    reveal_strlit("destination");
    reveal_strlit("ack");
    assert("id"@.len() == 2 && "destination"@.len() == 11 && "ack"@.len() == 3);
    let first = request::upserted(asked.headers, "id"@, id);
    let named = request::upserted(first, "destination"@, asked.destination);
    request::upserted_headers_are_seen(asked.headers, "id"@, id, "ack"@);
    request::upserted_headers_are_seen(first, "destination"@, asked.destination, "ack"@);
    request::upserted_headers_are_seen(first, "destination"@, asked.destination, "id"@);
    let last: Header = ("ack"@, "auto"@);
    frame::header_of_push(named, last, "id"@);
    frame::header_of_push(named, last, "destination"@);
    frame::header_of_push(named, last, "ack"@);
}

/// A message that a server delivers on a subscription reaches the one who
/// subscribed.
pub proof fn messages_reach_the_subscriber(
    session: ClientView,
    asked: request::SubscribeRequest,
    sender: u64,
    message: FrameView,
    sub: SubscriptionView,
    delivery_id: Option<Seq<char>>,
)
    requires
        sub.sub_id == client::subscription_name(asked@),
    ensures
        client::recipient(
            client::commanded(session, Command::Subscribe { request: asked, sender }),
            router::message_for(message, sub, delivery_id),
        ) == Some(sender),
{
    let id = client::subscription_name(asked@);
    let subs = session.subscriptions;
    let after = client::subscribers_with(subs, id, sender);
    client::subscriber_position_bounds(subs, id);
    client::subscriber_position_bounds(after, id);
    routing::messages_are_marked(message, sub, delivery_id, seq![]);
    let i = client::subscriber_position(subs, id);
    let j = client::subscriber_position(after, id);
    assert(after[i].id == id);
    assert(j == i) by {
        if j < i {
            assert(after[j] == subs[j]);
        }
    }
}

/// Once a client has ended a subscription, nothing that comes for it is passed
/// on.
pub proof fn ended_subscriptions_get_nothing(session: ClientView, id: String, frame: FrameView)
    requires
        session.wf(),
        frame::header(frame.headers, "subscription"@) == Some(id@),
    ensures
        client::recipient(
            client::commanded(session, Command::Unsubscribe(id)),
            frame,
        ) is None,
{
    let subs = session.subscriptions;
    let after = client::subscribers_without(subs, id@);
    client::subscriber_position_bounds(subs, id@);
    client::subscriber_position_bounds(after, id@);
    let i = client::subscriber_position(subs, id@);
    let j = client::subscriber_position(after, id@);
    if i < subs.len() && j < after.len() {
        if j < i {
            assert(after[j] == subs[j]);
        } else {
            assert(after[j] == subs[j + 1]);
            assert(subs[i].id != subs[j + 1].id);
        }
    }
}

} // verus!
