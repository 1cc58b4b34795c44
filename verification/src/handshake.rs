//! How a connection is opened: which version both ends speak, and how often each
//! lets the other know that it is there.

use crate::agreement;
use crate::frame::{self, FrameView, Header, StompFrame, StompVersion};
use crate::ident;
use crate::session::{self, Session, SessionView};
use crate::text;
use vstd::prelude::*;

verus! {

/// How often, in milliseconds, the server sends a heartbeat, and how often it
/// wants one.
pub const SERVER_HEARTBEAT_MS: i32 = 5000;

/// The name of a version.
pub open spec fn version_name(version: StompVersion) -> Seq<char> {
    match version {
        StompVersion::V1_0 => "1.0"@,
        StompVersion::V1_1 => "1.1"@,
        StompVersion::V1_2 => "1.2"@,
    }
}

/// The name of a version.
pub fn version_text(version: StompVersion) -> (name: &'static str)
    ensures
        name@ == version_name(version),
{
    match version {
        StompVersion::V1_0 => "1.0",
        StompVersion::V1_1 => "1.1",
        StompVersion::V1_2 => "1.2",
    }
}

/// The version that a server picks: the newest that the client accepts, or the
/// oldest where the client does not say.
pub open spec fn chosen_version(accepted: Option<Seq<char>>) -> Option<StompVersion> {
    match accepted {
        None => Some(StompVersion::V1_0),
        Some(list) => if text::list_names(list, "1.2"@) {
            Some(StompVersion::V1_2)
        } else if text::list_names(list, "1.1"@) {
            Some(StompVersion::V1_1)
        } else if text::list_names(list, "1.0"@) {
            Some(StompVersion::V1_0)
        } else {
            None
        },
    }
}

/// Picks the version to speak.
pub fn negotiate_version(accepted: Option<&str>) -> (version: Option<StompVersion>)
    ensures
        version == chosen_version(
            match accepted {
                Some(list) => Some(list@),
                None => None,
            },
        ),
{
    match accepted {
        None => Some(StompVersion::V1_0),
        Some(list) => if text::list_contains(list, "1.2") {
            Some(StompVersion::V1_2)
        } else if text::list_contains(list, "1.1") {
            Some(StompVersion::V1_1)
        } else if text::list_contains(list, "1.0") {
            Some(StompVersion::V1_0)
        } else {
            None
        },
    }
}

/// One of the two numbers of a `heart-beat` header, as a server reads it. What
/// is no number counts as zero.
pub open spec fn signed_interval(s: Seq<char>) -> int {
    match text::parse_signed(s, i32::MIN as int, i32::MAX as nat) {
        Some(n) => n,
        None => 0,
    }
}

/// The two numbers of a `heart-beat` header, as a server reads them: how often
/// the client sends a heartbeat, and how often it wants one.
pub open spec fn client_intervals(value: Option<Seq<char>>) -> (int, int) {
    match value {
        Some(v) => {
            let parts = text::split(v, ',');
            if parts.len() == 2 {
                (signed_interval(parts[0]), signed_interval(parts[1]))
            } else {
                (0, 0)
            }
        },
        None => (0, 0),
    }
}

fn read_signed_interval(s: &Vec<char>) -> (n: i32)
    ensures
        n == signed_interval(s@),
{
    match text::read_i32(s) {
        Some(n) => n,
        None => 0,
    }
}

fn read_client_intervals(value: Option<&str>) -> (intervals: (i32, i32))
    ensures
        (intervals.0 as int, intervals.1 as int) == client_intervals(
            match value {
                Some(v) => Some(v@),
                None => None,
            },
        ),
{
    match value {
        Some(v) => {
            let parts = text::split_text(v, ',');
            assert(text::runs(parts@).len() == parts@.len());
            if parts.len() == 2 {
                assert(text::runs(parts@)[0] == parts@[0]@);
                assert(text::runs(parts@)[1] == parts@[1]@);
                (read_signed_interval(&parts[0]), read_signed_interval(&parts[1]))
            } else {
                (0, 0)
            }
        },
        None => (0, 0),
    }
}

/// The interval that two ends agree on, where one can send as often as `can`
/// says and the other wants what `wants` says. Zero stands for not at all.
pub open spec fn agreed_interval(can: int, wants: int) -> int {
    if can > 0 && wants > 0 {
        if can >= wants {
            can
        } else {
            wants
        }
    } else {
        0
    }
}

/// How long to wait for a heartbeat: half as long again as the interval.
pub open spec fn patience(interval: nat) -> nat {
    interval * 3 / 2
}

/// How long, in milliseconds, to wait for a heartbeat. Without an interval there
/// is no limit.
pub fn incoming_timeout(interval: u32) -> (timeout: Option<u64>)
    ensures
        timeout == if interval == 0 {
            None
        } else {
            Some(patience(interval as nat) as u64)
        },
{
    if interval == 0 {
        None
    } else {
        Some(interval as u64 * 3 / 2)
    }
}

/// What a server answers to a client that it lets in.
#[verifier::ext_equal]
pub struct OpeningView {
    pub version: StompVersion,
    /// How often the server sends a heartbeat.
    pub outgoing: int,
    /// How often the client sends one.
    pub incoming: int,
    pub connected: FrameView,
}

/// The headers of a `CONNECTED` frame.
pub open spec fn connected_headers(version: StompVersion, conn_id: u128) -> Seq<Header> {
    let interval = text::decimal(SERVER_HEARTBEAT_MS as nat);
    let session: Seq<Header> = seq![("session"@, ident::identifier_text(conn_id))];
    let about: Seq<Header> = seq![
        ("version"@, version_name(version)),
        ("heart-beat"@, interval + ","@ + interval),
    ];
    match version {
        StompVersion::V1_0 => session,
        StompVersion::V1_1 => about + session,
        StompVersion::V1_2 => about + seq![("server"@, "stompoxide/0.1.0"@)] + session,
    }
}

/// What a server answers to the first frame of a connection: it lets the client
/// in, or sends it away with an error. `verdict` is that on the client's login
/// and passcode, where they are checked.
pub open spec fn opening(frame: FrameView, verdict: Option<bool>, conn_id: u128) -> Result<
    OpeningView,
    FrameView,
> {
    if frame.command != "CONNECT"@ && frame.command != "STOMP"@ {
        Err(session::error_frame("Missing CONNECT frame"@))
    } else if verdict == Some(false) {
        Err(session::error_frame("Authentication failed"@))
    } else {
        match chosen_version(frame::header(frame.headers, "accept-version"@)) {
            None => {
                let error = session::error_frame("Supported versions: 1.0, 1.1, 1.2"@);
                Err(
                    FrameView {
                        headers: error.headers.push(("version"@, "1.2,1.1,1.0"@)),
                        ..error
                    },
                )
            },
            Some(version) => if version != StompVersion::V1_0 && frame::header(
                frame.headers,
                "host"@,
            ) is None {
                Err(session::error_frame("Missing required host header"@))
            } else {
                let (sends, wants) = client_intervals(
                    frame::header(frame.headers, "heart-beat"@),
                );
                let quiet = version == StompVersion::V1_0;
                Ok(
                    OpeningView {
                        version,
                        outgoing: if quiet {
                            0
                        } else {
                            agreed_interval(SERVER_HEARTBEAT_MS as int, wants)
                        },
                        incoming: if quiet {
                            0
                        } else {
                            agreed_interval(sends, SERVER_HEARTBEAT_MS as int)
                        },
                        connected: FrameView {
                            command: "CONNECTED"@,
                            headers: connected_headers(version, conn_id),
                            body: None,
                        },
                    },
                )
            },
        }
    }
}

/// A connection that a server has opened.
pub struct Opening {
    pub session: Session,
    /// The frame that tells the client so.
    pub connected: StompFrame<'static>,
    /// How often, in milliseconds, to send a heartbeat; zero for never.
    pub outgoing_hb: u32,
    /// How often, in milliseconds, the client sends one; zero for never.
    pub incoming_hb: u32,
}

/// Whether the first frame of a connection asks to open it.
pub fn asks_to_connect(frame: &StompFrame<'_>) -> (yes: bool)
    ensures
        yes == (frame@.command == "CONNECT"@ || frame@.command == "STOMP"@),
{
    frame.is_command("CONNECT") || frame.is_command("STOMP")
}

/// What a client gives for a login and a passcode; nothing given counts as empty.
pub fn credentials<'b>(frame: &'b StompFrame<'_>) -> (given: (&'b str, &'b str))
    ensures
        given.0@ == (match frame::header(frame@.headers, "login"@) {
            Some(s) => s,
            None => ""@,
        }),
        given.1@ == (match frame::header(frame@.headers, "passcode"@) {
            Some(s) => s,
            None => ""@,
        }),
{
    let login = match frame.get_header("login") {
        Some(s) => s,
        None => "",
    };
    let passcode = match frame.get_header("passcode") {
        Some(s) => s,
        None => "",
    };
    (login, passcode)
}

fn connected_frame(version: StompVersion, conn_id: u128) -> (frame: StompFrame<'static>)
    ensures
        frame@ == (FrameView {
            command: "CONNECTED"@,
            headers: connected_headers(version, conn_id),
            body: None,
        }),
{
    let mut headers: Vec<(String, String)> = Vec::new();
    if version != StompVersion::V1_0 {
        frame::push_header(&mut headers, "version", version_text(version).to_string());
        let interval = text::decimal_text(SERVER_HEARTBEAT_MS as u64);
        frame::push_header(
            &mut headers,
            "heart-beat",
            text::join(interval.as_str(), ",", interval.as_str()),
        );
        if version == StompVersion::V1_2 {
            frame::push_header(&mut headers, "server", "stompoxide/0.1.0".to_string());
        }
    }
    frame::push_header(&mut headers, "session", ident::text_of_identifier(conn_id));
    assert(frame::headers_view(headers@) =~= connected_headers(version, conn_id));
    frame::bodiless("CONNECTED", headers)
}

/// The interval that both sides keep to.
pub(crate) fn agree(can: i64, wants: i64) -> (interval: u32)
    requires
        can <= u32::MAX,
        wants <= u32::MAX,
    ensures
        interval == agreed_interval(can as int, wants as int),
{
    if can > 0 && wants > 0 {
        if can >= wants {
            can as u32
        } else {
            wants as u32
        }
    } else {
        0
    }
}

/// Answers the first frame of a connection.
pub fn open_connection(
    conn_id: u128,
    sender: u64,
    frame: &StompFrame<'_>,
    verdict: Option<bool>,
) -> (result: Result<Opening, StompFrame<'static>>)
    ensures
        match opening(frame@, verdict, conn_id) {
            Ok(o) => {
                &&& result matches Ok(r)
                &&& r.session@ == (SessionView {
                    conn_id,
                    version: o.version,
                    sender,
                    transactions: seq![],
                })
                &&& r.session@.wf()
                &&& r.connected@ == o.connected
                &&& r.outgoing_hb == o.outgoing
                &&& r.incoming_hb == o.incoming
            },
            Err(e) => result matches Err(f) && f@ == e,
        },
{
    if !asks_to_connect(frame) {
        return Err(session::create_error_frame("Missing CONNECT frame"));
    }
    if let Some(accepted) = verdict {
        if !accepted {
            return Err(session::create_error_frame("Authentication failed"));
        }
    }
    let version = match negotiate_version(frame.get_header("accept-version")) {
        Some(version) => version,
        None => {
            let mut error = session::create_error_frame("Supported versions: 1.0, 1.1, 1.2");
            frame::push_header(&mut error.headers, "version", "1.2,1.1,1.0".to_string());
            return Err(error);
        },
    };
    let quiet = version == StompVersion::V1_0;
    if !quiet && frame.get_header("host").is_none() {
        return Err(session::create_error_frame("Missing required host header"));
    }
    let (sends, wants) = read_client_intervals(frame.get_header("heart-beat"));
    let outgoing_hb = if quiet {
        0
    } else {
        agree(SERVER_HEARTBEAT_MS as i64, wants as i64)
    };
    let incoming_hb = if quiet {
        0
    } else {
        agree(sends as i64, SERVER_HEARTBEAT_MS as i64)
    };
    Ok(
        Opening {
            session: Session::new(conn_id, version, sender),
            connected: connected_frame(version, conn_id),
            outgoing_hb,
            incoming_hb,
        },
    )
}

/// Both ends keep to the slower of two intervals. Where one of them is none,
/// there are no heartbeats.
pub proof fn the_slower_interval_counts(can: int, wants: int)
    ensures
        can <= 0 || wants <= 0 ==> agreed_interval(can, wants) == 0,
        can > 0 && wants > 0 ==> {
            &&& agreed_interval(can, wants) >= can
            &&& agreed_interval(can, wants) >= wants
            &&& agreed_interval(can, wants) == can || agreed_interval(can, wants) == wants
        },
{
}

/// A heartbeat may be late by half the interval, in whole milliseconds.
pub proof fn heartbeats_may_be_late_by_half(interval: nat)
    ensures
        2 * patience(interval) <= 3 * interval < 2 * patience(interval) + 2,
{
}

/// Of the versions that a list names the newest is picked, and none where it
/// names none that is known. Without a list it is the oldest.
pub proof fn the_newest_named_version_is_picked(accepted: Option<Seq<char>>)
    ensures
        match accepted {
            None => chosen_version(accepted) == Some(StompVersion::V1_0),
            Some(list) => {
                &&& text::list_names(list, "1.2"@) ==> chosen_version(accepted) == Some(
                    StompVersion::V1_2,
                )
                &&& !text::list_names(list, "1.2"@) && text::list_names(list, "1.1"@)
                    ==> chosen_version(accepted) == Some(StompVersion::V1_1)
                &&& !text::list_names(list, "1.2"@) && !text::list_names(list, "1.1"@)
                    && text::list_names(list, "1.0"@) ==> chosen_version(accepted) == Some(
                    StompVersion::V1_0,
                )
                &&& chosen_version(accepted) is None <==> !text::list_names(list, "1.2"@)
                    && !text::list_names(list, "1.1"@) && !text::list_names(list, "1.0"@)
            },
        },
{
}

/// A server reads two numbers with a comma between them. What is no number, or is
/// too large, counts as zero; and so do both without exactly one comma.
pub proof fn servers_read_two_intervals(a: Seq<char>, b: Seq<char>, c: Seq<char>)
    requires
        !a.contains(','),
        !b.contains(','),
    ensures
        client_intervals(None) == (0int, 0int),
        client_intervals(Some(a)) == (0int, 0int),
        client_intervals(Some(a + seq![','] + b + seq![','] + c)) == (0int, 0int),
        ({
            let read = client_intervals(Some(a + seq![','] + b));
            &&& read.0 == match text::parse_signed(a, -0x8000_0000, 0x7fff_ffff) {
                Some(n) => n,
                None => 0,
            }
            &&& read.1 == match text::parse_signed(b, -0x8000_0000, 0x7fff_ffff) {
                Some(n) => n,
                None => 0,
            }
        }),
{
    agreement::split_of_plain_text(a, ',');
    agreement::split_of_plain_text(b, ',');
    agreement::split_of_joined_text(a, b, ',');
    agreement::split_of_joined_text(a + seq![','] + b, c, ',');
    text::split_is_never_empty(c, ',');
    assert(text::split(a + seq![','] + b, ',') =~= seq![a, b]);
}

/// Who is let in: whoever asks to connect, is not turned away for the login,
/// accepts a version that is known, and, for any but the oldest, names the host.
/// All others get one error that says why.
pub proof fn clients_are_let_in_or_told_why(
    frame: FrameView,
    verdict: Option<bool>,
    conn_id: u128,
)
    ensures
        ({
            let accepted = frame::header(frame.headers, "accept-version"@);
            let host = frame::header(frame.headers, "host"@);
            let version = chosen_version(accepted);
            let asks = frame.command == "CONNECT"@ || frame.command == "STOMP"@;
            let answer = opening(frame, verdict, conn_id);
            &&& answer is Ok <==> asks && verdict != Some(false) && version is Some && (version
                == Some(StompVersion::V1_0) || host is Some)
            &&& answer matches Ok(o) ==> Some(o.version) == version
            &&& answer matches Err(e) ==> {
                let reason = if !asks {
                    "Missing CONNECT frame"@
                } else if verdict == Some(false) {
                    "Authentication failed"@
                } else if version is None {
                    "Supported versions: 1.0, 1.1, 1.2"@
                } else {
                    "Missing required host header"@
                };
                let told: Seq<Header> = seq![("message"@, reason)];
                &&& e.command == "ERROR"@
                &&& e.body is None
                &&& e.headers == if asks && verdict != Some(false) && version is None {
                    told.push(("version"@, "1.2,1.1,1.0"@))
                } else {
                    told
                }
            }
        }),
{
}

/// What is agreed on with a client that is let in: no heartbeats in version 1.0;
/// otherwise, in each direction, the slower of what the client says and the five
/// seconds of the server.
pub proof fn heartbeats_are_agreed_on(frame: FrameView, verdict: Option<bool>, conn_id: u128)
    ensures
        opening(frame, verdict, conn_id) matches Ok(o) ==> {
            let (sends, wants) = client_intervals(frame::header(frame.headers, "heart-beat"@));
            if o.version == StompVersion::V1_0 {
                o.outgoing == 0 && o.incoming == 0
            } else {
                &&& o.outgoing == if wants <= 0 {
                    0
                } else if wants > 5000 {
                    wants
                } else {
                    5000
                }
                &&& o.incoming == if sends <= 0 {
                    0
                } else if sends > 5000 {
                    sends
                } else {
                    5000
                }
            }
        },
{
}

/// What a client is told that is let in: the name of its session; from version
/// 1.1 on, also the version and the heartbeats of the server; and in version 1.2
/// what the server is.
pub proof fn clients_are_told_what_holds(frame: FrameView, verdict: Option<bool>, conn_id: u128)
    ensures
        opening(frame, verdict, conn_id) matches Ok(o) ==> {
            let session: Header = ("session"@, ident::identifier_text(conn_id));
            let beats: Header = (
                "heart-beat"@,
                text::decimal(5000) + ","@ + text::decimal(5000),
            );
            &&& o.connected.command == "CONNECTED"@
            &&& o.connected.body is None
            &&& o.connected.headers == match o.version {
                StompVersion::V1_0 => seq![session],
                StompVersion::V1_1 => seq![("version"@, "1.1"@), beats, session],
                StompVersion::V1_2 => seq![
                    ("version"@, "1.2"@),
                    beats,
                    ("server"@, "stompoxide/0.1.0"@),
                    session,
                ],
            }
        },
{
    if let Ok(o) = opening(frame, verdict, conn_id) {
        let session: Header = ("session"@, ident::identifier_text(conn_id));
        let beats: Header = ("heart-beat"@, text::decimal(5000) + ","@ + text::decimal(5000));
        match o.version {
            StompVersion::V1_0 => {},
            StompVersion::V1_1 => {
                assert(o.connected.headers =~= seq![("version"@, "1.1"@), beats, session]);
            },
            StompVersion::V1_2 => {
                assert(o.connected.headers =~= seq![
                    ("version"@, "1.2"@),
                    beats,
                    ("server"@, "stompoxide/0.1.0"@),
                    session,
                ]);
            },
        }
    }
}

} // verus!
