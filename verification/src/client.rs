//! The client's end of a connection.

use crate::agreement;
use crate::error::StompError;
use crate::frame::{self, FrameView, Header, StompFrame, StompVersion};
use crate::handshake;
use crate::request::{self, AckRequest, SendRequest, SubscribeRequest};
use crate::text;
use vstd::prelude::*;

verus! {

/// How a client connects.
///
/// What it says is written without escapes. A server that takes a backslash in a
/// request to connect for an escape reads a host, login, or passcode that holds
/// one differently, or refuses the request.
#[derive(Debug)]
pub struct ClientConfig {
    pub host: String,
    pub login: Option<String>,
    pub passcode: Option<String>,
    /// How often, in milliseconds, the client can send a heartbeat.
    pub heartbeat_cx: u32,
    /// How often, in milliseconds, the client wants one.
    pub heartbeat_cy: u32,
    pub accept_versions: Vec<String>,
}

/// What a configuration says.
#[verifier::ext_equal]
pub struct ConfigView {
    pub host: Seq<char>,
    pub login: Option<Seq<char>>,
    pub passcode: Option<Seq<char>>,
    pub heartbeat_cx: u32,
    pub heartbeat_cy: u32,
    pub accept_versions: Seq<Seq<char>>,
}

impl View for ClientConfig {
    type V = ConfigView;

    open spec fn view(&self) -> ConfigView {
        ConfigView {
            host: self.host@,
            login: request::text_of(self.login),
            passcode: request::text_of(self.passcode),
            heartbeat_cx: self.heartbeat_cx,
            heartbeat_cy: self.heartbeat_cy,
            accept_versions: text::texts(self.accept_versions@),
        }
    }
}

impl Default for ClientConfig {
    fn default() -> (config: Self)
        ensures
            config@ == (ConfigView {
                host: "localhost"@,
                login: None,
                passcode: None,
                heartbeat_cx: 0,
                heartbeat_cy: 0,
                accept_versions: seq!["1.0"@, "1.1"@, "1.2"@],
            }),
    {
        let mut accept_versions: Vec<String> = Vec::new();
        accept_versions.push("1.0".to_string());
        accept_versions.push("1.1".to_string());
        accept_versions.push("1.2".to_string());
        assert(text::texts(accept_versions@) =~= seq!["1.0"@, "1.1"@, "1.2"@]);
        ClientConfig {
            host: "localhost".to_string(),
            login: None,
            passcode: None,
            heartbeat_cx: 0,
            heartbeat_cy: 0,
            accept_versions,
        }
    }
}

impl Clone for ClientConfig {
    fn clone(&self) -> (copy: Self)
        ensures
            copy@ == self@,
    {
        let mut accept_versions: Vec<String> = Vec::new();
        let mut i: usize = 0;
        while i < self.accept_versions.len()
            invariant
                i <= self.accept_versions@.len(),
                accept_versions@ == self.accept_versions@.take(i as int),
            decreases self.accept_versions@.len() - i,
        {
            accept_versions.push(self.accept_versions[i].clone());
            assert(accept_versions@ =~= self.accept_versions@.take(i as int + 1));
            i += 1;
        }
        assert(accept_versions@ =~= self.accept_versions@);
        ClientConfig {
            host: self.host.clone(),
            login: request::copy_text(&self.login),
            passcode: request::copy_text(&self.passcode),
            heartbeat_cx: self.heartbeat_cx,
            heartbeat_cy: self.heartbeat_cy,
            accept_versions,
        }
    }
}

/// Pieces of text with commas between them.
pub open spec fn comma_separated(pieces: Seq<Seq<char>>) -> Seq<char>
    decreases pieces.len(),
{
    if pieces.len() == 0 {
        seq![]
    } else if pieces.len() == 1 {
        pieces[0]
    } else {
        comma_separated(pieces.drop_last()) + ","@ + pieces.last()
    }
}

fn join_with_commas(pieces: &Vec<String>) -> (s: String)
    ensures
        s@ == comma_separated(text::texts(pieces@)),
{
    let ghost all = text::texts(pieces@);
    let mut s = String::new();
    let mut i: usize = 0;
    assert(s@ =~= comma_separated(all.take(0)));
    while i < pieces.len()
        invariant
            i <= pieces@.len(),
            all == text::texts(pieces@),
            s@ == comma_separated(all.take(i as int)),
        decreases pieces@.len() - i,
    {
        proof {
            assert(all.take(i as int + 1).drop_last() =~= all.take(i as int));
            assert(all.take(i as int + 1).last() == pieces@[i as int]@);
        }
        if i > 0 {
            s.append(",");
        }
        s.append(pieces[i].as_str());
        assert(s@ =~= comma_separated(all.take(i as int + 1)));
        i += 1;
    }
    assert(all.take(i as int) =~= all);
    s
}

/// Whether a client speaks the oldest version only.
pub open spec fn oldest_only(config: ConfigView) -> bool {
    config.accept_versions.len() == 1 && config.accept_versions[0] == "1.0"@
}

/// A header for a value, if there is one.
pub open spec fn optional_header(name: Seq<char>, value: Option<Seq<char>>) -> Seq<Header> {
    match value {
        Some(v) => seq![(name, v)],
        None => seq![],
    }
}

/// The frame that asks to open a connection. A client that speaks the oldest
/// version only asks in the way of that version.
pub open spec fn connecting(config: ConfigView) -> FrameView {
    let offer: Seq<Header> = if oldest_only(config) {
        seq![]
    } else {
        seq![
            ("accept-version"@, comma_separated(config.accept_versions)),
            ("host"@, config.host),
            (
                "heart-beat"@,
                text::decimal(config.heartbeat_cx as nat) + ","@ + text::decimal(
                    config.heartbeat_cy as nat,
                ),
            ),
        ]
    };
    FrameView {
        command: "CONNECT"@,
        headers: offer + optional_header("login"@, config.login) + optional_header(
            "passcode"@,
            config.passcode,
        ),
        body: None,
    }
}

/// Makes the frame that asks to open a connection.
pub fn connect_frame(config: &ClientConfig) -> (frame: StompFrame<'static>)
    ensures
        frame@ == connecting(config@),
{
    let mut headers: Vec<(String, String)> = Vec::new();
    assert(text::texts(config.accept_versions@).len() == config.accept_versions@.len());
    let old = config.accept_versions.len() == 1 && text::text_eq(
        config.accept_versions[0].as_str(),
        "1.0",
    );
    if !old {
        frame::push_header(
            &mut headers,
            "accept-version",
            join_with_commas(&config.accept_versions),
        );
        frame::push_header(&mut headers, "host", config.host.clone());
        let sends = text::decimal_text(config.heartbeat_cx as u64);
        let wants = text::decimal_text(config.heartbeat_cy as u64);
        frame::push_header(
            &mut headers,
            "heart-beat",
            text::join(sends.as_str(), ",", wants.as_str()),
        );
    }
    if let Some(login) = &config.login {
        frame::push_header(&mut headers, "login", login.clone());
    }
    if let Some(passcode) = &config.passcode {
        frame::push_header(&mut headers, "passcode", passcode.clone());
    }
    assert(frame::headers_view(headers@) =~= connecting(config@).headers);
    frame::bodiless("CONNECT", headers)
}

/// The version that a server has picked. Where it does not say, it is the oldest;
/// where it names none that is known, the newest is assumed.
pub open spec fn named_version(value: Option<Seq<char>>) -> StompVersion {
    match value {
        None => StompVersion::V1_0,
        Some(v) => if v == "1.0"@ {
            StompVersion::V1_0
        } else if v == "1.1"@ {
            StompVersion::V1_1
        } else {
            StompVersion::V1_2
        },
    }
}

/// One of the two numbers of a `heart-beat` header, as a client reads it. What
/// is no number counts as zero.
pub open spec fn unsigned_interval(s: Seq<char>) -> int {
    match text::parse_unsigned(s, u32::MAX as nat) {
        Some(n) => n as int,
        None => 0,
    }
}

/// The two numbers of a `heart-beat` header, as a client reads them: how often
/// the server sends a heartbeat, and how often it wants one.
pub open spec fn server_intervals(value: Option<Seq<char>>) -> (int, int) {
    match value {
        Some(v) => {
            let parts = text::split(v, ',');
            if parts.len() == 2 {
                (unsigned_interval(parts[0]), unsigned_interval(parts[1]))
            } else {
                (0, 0)
            }
        },
        None => (0, 0),
    }
}

fn read_unsigned_interval(s: &Vec<char>) -> (n: u32)
    ensures
        n == unsigned_interval(s@),
{
    match text::read_unsigned(s, u32::MAX as u64) {
        Some(n) => n as u32,
        None => 0,
    }
}

fn read_server_intervals(value: Option<&str>) -> (intervals: (u32, u32))
    ensures
        (intervals.0 as int, intervals.1 as int) == server_intervals(
            match value {
                Some(v) => Some(v@),
                None => None,
            },
        ),
{
    match value {
        Some(v) => {
            let parts = text::split_text(v, ',');
            assert(text::runs(parts@).len() == parts@.len());
            if parts.len() == 2 {
                assert(text::runs(parts@)[0] == parts@[0]@);
                assert(text::runs(parts@)[1] == parts@[1]@);
                (read_unsigned_interval(&parts[0]), read_unsigned_interval(&parts[1]))
            } else {
                (0, 0)
            }
        },
        None => (0, 0),
    }
}

/// What a client makes of what comes before the connection is open.
#[verifier::ext_equal]
pub enum ReplyView {
    /// The wait goes on.
    Waiting,
    /// The connection is open.
    Open {
        version: StompVersion,
        /// How often the client sends a heartbeat.
        outgoing: int,
        /// How often the server sends one.
        incoming: int,
    },
    /// The server did not open it.
    Refused(Seq<char>),
    /// What came could not be read.
    Unread(std::io::Error),
    /// The server closed the connection.
    Closed,
}

/// What a client makes of a frame that comes before the connection is open.
pub open spec fn reply(config: ConfigView, frame: FrameView) -> ReplyView {
    if frame.command == "HEARTBEAT"@ {
        ReplyView::Waiting
    } else if frame.command != "CONNECTED"@ {
        ReplyView::Refused("Expected CONNECTED frame, got "@ + frame.command)
    } else {
        let version = named_version(frame::header(frame.headers, "version"@));
        let (sends, wants) = server_intervals(frame::header(frame.headers, "heart-beat"@));
        let quiet = version == StompVersion::V1_0;
        ReplyView::Open {
            version,
            outgoing: if quiet {
                0
            } else {
                handshake::agreed_interval(config.heartbeat_cx as int, wants)
            },
            incoming: if quiet {
                0
            } else {
                handshake::agreed_interval(sends, config.heartbeat_cy as int)
            },
        }
    }
}

/// What a client makes of what comes before the connection is open.
pub enum Reply {
    /// The wait goes on.
    Waiting,
    /// The connection is open.
    Open { session: ClientSession, outgoing_hb: u32, incoming_hb: u32 },
    /// The connection does not open.
    Failed(StompError),
}

/// Whether a reply is the one that is called for.
pub open spec fn is_reply(result: Reply, view: ReplyView) -> bool {
    match view {
        ReplyView::Waiting => result is Waiting,
        ReplyView::Open { version, outgoing, incoming } => {
            &&& result matches Reply::Open { session, outgoing_hb, incoming_hb }
            &&& outgoing_hb == outgoing
            &&& incoming_hb == incoming
            &&& session@ == opened(version, incoming_hb)
            &&& session@.wf()
        },
        ReplyView::Refused(message) => result matches Reply::Failed(e) && e.is_protocol(message),
        ReplyView::Unread(err) => result == Reply::Failed(StompError::Io(err)),
        ReplyView::Closed => result == Reply::Failed(StompError::Disconnected),
    }
}

/// Reads a frame that comes before the connection is open.
pub fn read_reply(config: &ClientConfig, frame: &StompFrame<'_>) -> (result: Reply)
    ensures
        is_reply(result, reply(config@, frame@)),
{
    if frame.is_command("HEARTBEAT") {
        return Reply::Waiting;
    }
    if !frame.is_command("CONNECTED") {
        let message = text::pair(
            "Expected CONNECTED frame, got ",
            frame::cow_text(&frame.command),
        );
        return Reply::Failed(StompError::Protocol(message));
    }
    let version = match frame.get_header("version") {
        None => StompVersion::V1_0,
        Some(v) => if text::text_eq(v, "1.0") {
            StompVersion::V1_0
        } else if text::text_eq(v, "1.1") {
            StompVersion::V1_1
        } else {
            StompVersion::V1_2
        },
    };
    let (sends, wants) = read_server_intervals(frame.get_header("heart-beat"));
    let quiet = version == StompVersion::V1_0;
    let outgoing_hb = if quiet {
        0
    } else {
        handshake::agree(config.heartbeat_cx as i64, wants as i64)
    };
    let incoming_hb = if quiet {
        0
    } else {
        handshake::agree(sends as i64, config.heartbeat_cy as i64)
    };
    Reply::Open { session: ClientSession::new(version, incoming_hb), outgoing_hb, incoming_hb }
}

/// What comes before the connection is open.
pub enum Arrival {
    /// A frame.
    Frame(StompFrame<'static>),
    /// What came was no frame, or reading failed.
    ReadFailed(std::io::Error),
    /// The end of what the server sends.
    Closed,
}

/// What an arrival is.
#[verifier::ext_equal]
pub enum ArrivalView {
    Frame(FrameView),
    ReadFailed(std::io::Error),
    Closed,
}

impl View for Arrival {
    type V = ArrivalView;

    open spec fn view(&self) -> ArrivalView {
        match *self {
            Arrival::Frame(frame) => ArrivalView::Frame(frame@),
            Arrival::ReadFailed(err) => ArrivalView::ReadFailed(err),
            Arrival::Closed => ArrivalView::Closed,
        }
    }
}

/// What a client makes of what comes before the connection is open.
pub open spec fn answer(config: ConfigView, arrival: ArrivalView) -> ReplyView {
    match arrival {
        ArrivalView::Frame(frame) => reply(config, frame),
        ArrivalView::ReadFailed(err) => ReplyView::Unread(err),
        ArrivalView::Closed => ReplyView::Closed,
    }
}

/// Takes what comes before the connection is open.
pub fn take_answer(config: &ClientConfig, arrival: Arrival) -> (result: Reply)
    ensures
        is_reply(result, answer(config@, arrival@)),
{
    match arrival {
        Arrival::Frame(frame) => read_reply(config, &frame),
        Arrival::ReadFailed(err) => Reply::Failed(StompError::Io(err)),
        Arrival::Closed => Reply::Failed(StompError::Disconnected),
    }
}

/// What a client makes of all that comes, in order: the first arrival that ends
/// the wait decides.
pub open spec fn outcome(config: ConfigView, arrivals: Seq<ArrivalView>) -> ReplyView
    decreases arrivals.len(),
{
    if arrivals.len() == 0 {
        ReplyView::Waiting
    } else {
        match answer(config, arrivals[0]) {
            ReplyView::Waiting => outcome(config, arrivals.drop_first()),
            decision => decision,
        }
    }
}

/// Whether an arrival is a heartbeat.
pub open spec fn is_heartbeat(arrival: ArrivalView) -> bool {
    arrival matches ArrivalView::Frame(frame) && frame.command == "HEARTBEAT"@
}

/// Heartbeats before the answer are skipped. After them the connection opens if
/// a `CONNECTED` frame comes, and only then. Any other frame is refused by name;
/// where reading fails the client fails with that error, and where the server
/// closes the connection it is disconnected.
pub proof fn heartbeats_are_skipped(
    config: ConfigView,
    heartbeats: Seq<ArrivalView>,
    arrival: ArrivalView,
    rest: Seq<ArrivalView>,
)
    requires
        forall|i: int| 0 <= i < heartbeats.len() ==> is_heartbeat(#[trigger] heartbeats[i]),
        !is_heartbeat(arrival),
    ensures
        ({
            let result = outcome(config, heartbeats + seq![arrival] + rest);
            match arrival {
                ArrivalView::Frame(frame) => if frame.command == "CONNECTED"@ {
                    result is Open && result == reply(config, frame)
                } else {
                    result == ReplyView::Refused(
                        "Expected CONNECTED frame, got "@ + frame.command,
                    )
                },
                ArrivalView::ReadFailed(err) => result == ReplyView::Unread(err),
                ArrivalView::Closed => result is Closed,
            }
        }),
    decreases heartbeats.len(),
{
    let all = heartbeats + seq![arrival] + rest;
    reveal_strlit("HEARTBEAT");
    reveal_strlit("CONNECTED");
    assert("HEARTBEAT"@[0] != "CONNECTED"@[0]);
    if heartbeats.len() == 0 {
        assert(all[0] == arrival);
    } else {
        assert(all[0] == heartbeats[0]);
        assert(all.drop_first() =~= heartbeats.drop_first() + seq![arrival] + rest);
        heartbeats_are_skipped(config, heartbeats.drop_first(), arrival, rest);
    }
}

/// How often, in microseconds, to look whether the server is still there, where
/// it may be silent for `timeout_ms`: twice within that time, and at least once a
/// second.
pub open spec fn check_interval(timeout_ms: u64) -> int {
    if timeout_ms * 500 < 1_000_000 {
        timeout_ms * 500
    } else {
        1_000_000
    }
}

/// How many numbers there are for subscriptions before they start over.
pub open spec fn name_count() -> nat {
    u64::MAX as nat + 1
}

/// The name of a subscription, where it is asked for as `wanted` and `next` is
/// the number for one without a name.
pub open spec fn name_for(next: u64, wanted: Option<Seq<char>>) -> Seq<char> {
    match wanted {
        Some(id) => id,
        None => text::decimal(next as nat),
    }
}

/// The number for the subscription after that.
pub open spec fn number_after(next: u64, wanted: Option<Seq<char>>) -> u64 {
    if wanted is Some {
        next
    } else if next == u64::MAX {
        0
    } else {
        (next + 1) as u64
    }
}

/// Names for subscriptions that were given none: numbers, counted up.
pub struct SubscriptionNames {
    next: u64,
}

impl SubscriptionNames {
    /// The number that is given out next.
    pub closed spec fn next(self) -> u64 {
        self.next
    }

    /// Names that start with `1`.
    pub fn new() -> (names: Self)
        ensures
            names.next() == 1,
    {
        SubscriptionNames { next: 1 }
    }

    /// Gives a subscription a name if it has none.
    pub fn assign(&mut self, request: SubscribeRequest) -> (named: (SubscribeRequest, String))
        ensures
            named.1@ == name_for(old(self).next(), request@.id),
            named.0@ == (request::SubscribeView { id: Some(named.1@), ..request@ }),
            final(self).next() == number_after(old(self).next(), request@.id),
    {
        let given = match request.requested_id() {
            Some(id) => Some(id.to_string()),
            None => None,
        };
        match given {
            Some(id) => (request, id),
            None => {
                let id = text::decimal_text(self.next);
                self.next = if self.next == u64::MAX {
                    0
                } else {
                    self.next + 1
                };
                (request.id(id.clone()), id)
            },
        }
    }
}

/// The number that comes next after subscriptions were asked for, one after the
/// other, on a new connection.
pub open spec fn number_after_all(wanted: Seq<Option<Seq<char>>>) -> u64
    decreases wanted.len(),
{
    if wanted.len() == 0 {
        1
    } else {
        number_after(number_after_all(wanted.drop_last()), wanted.last())
    }
}

/// The name that the `i`-th of these subscriptions gets.
pub open spec fn given_name(wanted: Seq<Option<Seq<char>>>, i: int) -> Seq<char> {
    name_for(number_after_all(wanted.take(i)), wanted[i])
}

/// How many of these subscriptions were asked for without a name.
pub open spec fn unnamed(wanted: Seq<Option<Seq<char>>>) -> nat
    decreases wanted.len(),
{
    if wanted.len() == 0 {
        0
    } else if wanted.last() is None {
        unnamed(wanted.drop_last()) + 1
    } else {
        unnamed(wanted.drop_last())
    }
}

/// The number that comes next is one more than there were subscriptions without
/// a name, until the numbers start over.
proof fn numbers_count_subscriptions(wanted: Seq<Option<Seq<char>>>)
    ensures
        number_after_all(wanted) == (unnamed(wanted) + 1) % name_count(),
    decreases wanted.len(),
{
    vstd::arithmetic::div_mod::lemma_small_mod(1, name_count());
    if wanted.len() > 0 {
        let rest = wanted.drop_last();
        numbers_count_subscriptions(rest);
        let n = (unnamed(rest) + 1) as int;
        let m = name_count() as int;
        vstd::arithmetic::div_mod::lemma_add_mod_noop(n, 1, m);
        assert((n + 1) % m == (n % m + 1) % m);
        if n % m + 1 < m {
            vstd::arithmetic::div_mod::lemma_small_mod((n % m + 1) as nat, name_count());
        } else {
            vstd::arithmetic::div_mod::lemma_mod_self_0(m);
        }
    }
}

/// The `k`-th subscription on a connection that is asked for without a name is
/// called `k`, counted from one; after the largest number of 64 bits the count
/// goes on with zero. One that is asked for by name gets that name, and is not
/// counted.
pub proof fn generated_names_count_up(wanted: Seq<Option<Seq<char>>>, i: int)
    requires
        0 <= i < wanted.len(),
    ensures
        wanted[i] matches Some(id) ==> {
            &&& given_name(wanted, i) == id
            &&& number_after_all(wanted.take(i + 1)) == number_after_all(wanted.take(i))
        },
        wanted[i] is None ==> {
            let k = unnamed(wanted.take(i + 1));
            &&& given_name(wanted, i) == text::decimal(k % name_count())
            &&& k <= u64::MAX ==> given_name(wanted, i) == text::decimal(k)
        },
{
    assert(wanted.take(i + 1).drop_last() =~= wanted.take(i));
    assert(wanted.take(i + 1).last() == wanted[i]);
    numbers_count_subscriptions(wanted.take(i));
    let k = unnamed(wanted.take(i + 1));
    if k <= u64::MAX {
        vstd::arithmetic::div_mod::lemma_small_mod(k, name_count());
    }
}

/// Two subscriptions that were asked for without a name share one only where the
/// numbers have started over between them.
pub proof fn generated_names_differ(wanted: Seq<Option<Seq<char>>>, i: int, j: int)
    requires
        0 <= i < j < wanted.len(),
        wanted[i] is None,
        wanted[j] is None,
    ensures
        given_name(wanted, i) == given_name(wanted, j) <==> (unnamed(wanted.take(j + 1))
            - unnamed(wanted.take(i + 1))) % name_count() as int == 0,
        unnamed(wanted) <= u64::MAX ==> given_name(wanted, i) != given_name(wanted, j),
{
    let m = name_count();
    let a = unnamed(wanted.take(i + 1));
    let b = unnamed(wanted.take(j + 1));
    generated_names_count_up(wanted, i);
    generated_names_count_up(wanted, j);
    unnamed_grows(wanted, i, j);
    unnamed_grows(wanted, j, wanted.len() - 1);
    assert(wanted.take(wanted.len() as int) =~= wanted);
    text::decimal_reads_back(a % m, u64::MAX as nat);
    text::decimal_reads_back(b % m, u64::MAX as nat);
    vstd::arithmetic::div_mod::lemma_mod_equivalence(b as int, a as int, m as int);
    if unnamed(wanted) <= u64::MAX {
        vstd::arithmetic::div_mod::lemma_small_mod((b - a) as nat, m);
    }
}

/// The count of subscriptions without a name never falls, and rises with each.
proof fn unnamed_grows(wanted: Seq<Option<Seq<char>>>, i: int, j: int)
    requires
        0 <= i <= j < wanted.len(),
    ensures
        unnamed(wanted.take(i + 1)) <= unnamed(wanted.take(j + 1)),
        i < j && wanted[j] is None ==> unnamed(wanted.take(i + 1)) < unnamed(wanted.take(j + 1)),
    decreases j - i,
{
    if i < j {
        assert(wanted.take(j + 1).drop_last() =~= wanted.take(j));
        assert(wanted.take(j + 1).last() == wanted[j]);
        unnamed_grows(wanted, i, j - 1);
    }
}

/// What a request on a connection comes to, for what was answered. Once the
/// connection has ended there is no answer.
pub fn answered(answer: Option<Result<(), StompError>>) -> (result: Result<(), StompError>)
    ensures
        result == match answer {
            Some(result) => result,
            None => Err(StompError::Disconnected),
        },
{
    match answer {
        Some(result) => result,
        None => Err(StompError::Disconnected),
    }
}

struct Subscriber {
    id: String,
    sender: u64,
}

/// Where the messages of a subscription go.
#[verifier::ext_equal]
pub struct SubscriberView {
    pub id: Seq<char>,
    pub sender: u64,
}

impl Subscriber {
    spec fn view(self) -> SubscriberView {
        SubscriberView { id: self.id@, sender: self.sender }
    }
}

spec fn subscribers_view(s: Seq<Subscriber>) -> Seq<SubscriberView> {
    s.map_values(|x: Subscriber| x.view())
}

/// The client's end of an open connection.
pub struct ClientSession {
    version: StompVersion,
    timeout: Option<u64>,
    subscriptions: Vec<Subscriber>,
}

/// What a client's session knows.
#[verifier::ext_equal]
pub struct ClientView {
    pub version: StompVersion,
    /// How long, in milliseconds, the server may be silent.
    pub timeout: Option<u64>,
    pub subscriptions: Seq<SubscriberView>,
}

/// What a session knows that has just opened, where the server sends a heartbeat
/// as often as `incoming_hb` says.
pub open spec fn opened(version: StompVersion, incoming_hb: u32) -> ClientView {
    ClientView {
        version,
        timeout: if incoming_hb == 0 {
            None
        } else {
            Some(handshake::patience(incoming_hb as nat) as u64)
        },
        subscriptions: seq![],
    }
}

impl ClientView {
    /// Whether the session is in order: no subscription is listed twice.
    pub open spec fn wf(self) -> bool {
        forall|i: int, j: int|
            0 <= i < j < self.subscriptions.len() ==> (#[trigger] self.subscriptions[i]).id != (
            #[trigger] self.subscriptions[j]).id
    }
}

impl View for ClientSession {
    type V = ClientView;

    closed spec fn view(&self) -> ClientView {
        ClientView {
            version: self.version,
            timeout: self.timeout,
            subscriptions: subscribers_view(self.subscriptions@),
        }
    }
}

/// The position of a subscription; the length of the list where there is none.
pub open spec fn subscriber_position(subs: Seq<SubscriberView>, id: Seq<char>) -> int
    decreases subs.len(),
{
    if subs.len() == 0 {
        0
    } else if subs[0].id == id {
        0
    } else {
        1 + subscriber_position(subs.drop_first(), id)
    }
}

/// Where the position of a subscription leads.
pub proof fn subscriber_position_bounds(subs: Seq<SubscriberView>, id: Seq<char>)
    ensures
        ({
            let i = subscriber_position(subs, id);
            &&& 0 <= i <= subs.len()
            &&& i < subs.len() ==> subs[i].id == id
            &&& forall|j: int| 0 <= j < i ==> (#[trigger] subs[j]).id != id
        }),
    decreases subs.len(),
{
    if subs.len() > 0 && subs[0].id != id {
        let rest = subs.drop_first();
        subscriber_position_bounds(rest, id);
        assert forall|j: int| 0 <= j < subscriber_position(subs, id) implies (
        #[trigger] subs[j]).id != id by {
            if j > 0 {
                assert(rest[j - 1] == subs[j]);
            }
        }
    }
}

/// The subscriptions with one more; one of the same name gives way to it.
pub open spec fn subscribers_with(
    subs: Seq<SubscriberView>,
    id: Seq<char>,
    sender: u64,
) -> Seq<SubscriberView> {
    let i = subscriber_position(subs, id);
    if i < subs.len() {
        subs.update(i, SubscriberView { id, sender })
    } else {
        subs.push(SubscriberView { id, sender })
    }
}

/// The subscriptions without the one of that name.
pub open spec fn subscribers_without(subs: Seq<SubscriberView>, id: Seq<char>) -> Seq<
    SubscriberView,
> {
    let i = subscriber_position(subs, id);
    if i < subs.len() {
        subs.remove(i)
    } else {
        subs
    }
}

/// What a client is told to do.
pub enum Command {
    Send(SendRequest),
    Subscribe { request: SubscribeRequest, sender: u64 },
    Unsubscribe(String),
    Ack(AckRequest),
    Nack(AckRequest),
    Begin(String),
    Commit(String),
    Abort(String),
    Disconnect,
}

/// A frame with one header.
pub open spec fn with_header(command: Seq<char>, name: Seq<char>, value: Seq<char>) -> FrameView {
    FrameView { command, headers: seq![(name, value)], body: None }
}

/// The name under which a subscription is made.
pub open spec fn subscription_name(request: request::SubscribeView) -> Seq<char> {
    match request.id {
        Some(id) => id,
        None => "1"@,
    }
}

/// The frame that carries out a command, or what is wrong with the command.
pub open spec fn command_frame(version: StompVersion, command: Command) -> Result<
    FrameView,
    Seq<char>,
> {
    match command {
        Command::Send(r) => Ok(request::send_frame(r@)),
        Command::Subscribe { request: r, sender: _ } => Ok(
            request::subscribe_frame(r@, subscription_name(r@)),
        ),
        Command::Unsubscribe(id) => Ok(with_header("UNSUBSCRIBE"@, "id"@, id@)),
        Command::Ack(r) => match request::acknowledging_headers(r@, false, version) {
            Ok(headers) => Ok(FrameView { command: "ACK"@, headers, body: None }),
            Err(message) => Err(message),
        },
        Command::Nack(r) => match request::acknowledging_headers(r@, true, version) {
            Ok(headers) => Ok(FrameView { command: "NACK"@, headers, body: None }),
            Err(message) => Err(message),
        },
        Command::Begin(id) => Ok(with_header("BEGIN"@, "transaction"@, id@)),
        Command::Commit(id) => Ok(with_header("COMMIT"@, "transaction"@, id@)),
        Command::Abort(id) => Ok(with_header("ABORT"@, "transaction"@, id@)),
        Command::Disconnect => Ok(
            FrameView { command: "DISCONNECT"@, headers: seq![], body: None },
        ),
    }
}

/// The session after a command.
pub open spec fn commanded(session: ClientView, command: Command) -> ClientView {
    match command {
        Command::Subscribe { request: r, sender } => ClientView {
            subscriptions: subscribers_with(
                session.subscriptions,
                subscription_name(r@),
                sender,
            ),
            ..session
        },
        Command::Unsubscribe(id) => ClientView {
            subscriptions: subscribers_without(session.subscriptions, id@),
            ..session
        },
        _ => session,
    }
}

/// What becomes of a frame from the server.
pub enum Incoming {
    /// Nothing.
    Ignored,
    /// It is a message for a subscription.
    Message { sender: u64, frame: StompFrame<'static> },
    /// It reports an error, and ends the connection.
    ServerError(StompFrame<'static>),
}

/// The subscription that a message is for.
pub open spec fn recipient(session: ClientView, frame: FrameView) -> Option<u64> {
    match frame::header(frame.headers, "subscription"@) {
        None => None,
        Some(id) => {
            let i = subscriber_position(session.subscriptions, id);
            if i < session.subscriptions.len() {
                Some(session.subscriptions[i].sender)
            } else {
                None
            }
        },
    }
}

fn one_header(command: &'static str, name: &str, value: String) -> (frame: StompFrame<'static>)
    ensures
        frame@ == with_header(command@, name@, value@),
{
    let mut headers: Vec<(String, String)> = Vec::new();
    frame::push_header(&mut headers, name, value);
    assert(frame::headers_view(headers@) =~= seq![(name@, value@)]);
    frame::bodiless(command, headers)
}

impl ClientSession {
    /// A session that has just opened.
    pub fn new(version: StompVersion, incoming_hb: u32) -> (session: Self)
        ensures
            session@ == opened(version, incoming_hb),
            session@.wf(),
    {
        let session = ClientSession {
            version,
            timeout: handshake::incoming_timeout(incoming_hb),
            subscriptions: Vec::new(),
        };
        assert(session@ =~= opened(version, incoming_hb));
        session
    }

    /// The version of the protocol that was agreed on.
    pub fn version(&self) -> (version: StompVersion)
        ensures
            version == self@.version,
    {
        self.version
    }

    fn find_subscriber(&self, id: &str) -> (at: usize)
        ensures
            at == subscriber_position(self@.subscriptions, id@),
            at <= self@.subscriptions.len(),
            self@.subscriptions.len() == self.subscriptions@.len(),
    {
        let ghost all = self@.subscriptions;
        let mut i: usize = 0;
        assert(all.skip(0) =~= all);
        while i < self.subscriptions.len()
            invariant
                i <= self.subscriptions@.len(),
                all == subscribers_view(self.subscriptions@),
                subscriber_position(all, id@) == i + subscriber_position(all.skip(i as int), id@),
            decreases self.subscriptions@.len() - i,
        {
            assert(all.skip(i as int)[0] == self.subscriptions@[i as int].view());
            if text::text_eq(self.subscriptions[i].id.as_str(), id) {
                return i;
            }
            assert(all.skip(i as int).drop_first() =~= all.skip(i as int + 1));
            i += 1;
        }
        i
    }

    /// Whether the messages of a subscription go to `sender`.
    pub fn uses_sender(&self, sender: u64) -> (yes: bool)
        ensures
            yes == exists|i: int|
                0 <= i < self@.subscriptions.len() && (#[trigger] self@.subscriptions[i]).sender
                    == sender,
    {
        let ghost all = self@.subscriptions;
        let mut i: usize = 0;
        while i < self.subscriptions.len()
            invariant
                i <= self.subscriptions@.len(),
                all == subscribers_view(self.subscriptions@),
                all == self@.subscriptions,
                forall|k: int| 0 <= k < i ==> (#[trigger] all[k]).sender != sender,
            decreases self.subscriptions@.len() - i,
        {
            assert(all[i as int] == self.subscriptions@[i as int].view());
            if self.subscriptions[i].sender == sender {
                return true;
            }
            i += 1;
        }
        false
    }

    /// Takes note of a command, and makes the frame that carries it out.
    pub fn command(&mut self, command: Command) -> (result: Result<
        StompFrame<'static>,
        StompError,
    >)
        requires
            old(self)@.wf(),
        ensures
            final(self)@.wf(),
            final(self)@ == commanded(old(self)@, command),
            match command_frame(old(self)@.version, command) {
                Ok(f) => result matches Ok(frame) && frame@ == f,
                Err(message) => result matches Err(e) && e.is_protocol(message),
            },
    {
        let ghost subs = self@.subscriptions;
        match command {
            Command::Send(r) => Ok(request::send_request_to_frame(r)),
            Command::Subscribe { request: r, sender } => {
                let id = match r.requested_id() {
                    Some(id) => id.to_string(),
                    None => "1".to_string(),
                };
                let i = self.find_subscriber(id.as_str());
                proof {
                    subscriber_position_bounds(subs, id@);
                }
                let entry = Subscriber { id: id.clone(), sender };
                let ghost added = entry.view();
                if i < self.subscriptions.len() {
                    self.subscriptions[i] = entry;
                    assert(self@.subscriptions =~= subs.update(i as int, added));
                } else {
                    self.subscriptions.push(entry);
                    assert(self@.subscriptions =~= subs.push(added));
                }
                Ok(request::subscribe_request_to_frame(r, id))
            },
            Command::Unsubscribe(id) => {
                let i = self.find_subscriber(id.as_str());
                proof {
                    subscriber_position_bounds(subs, id@);
                }
                if i < self.subscriptions.len() {
                    self.subscriptions.remove(i);
                    assert(self@.subscriptions =~= subs.remove(i as int));
                }
                Ok(one_header("UNSUBSCRIBE", "id", id))
            },
            Command::Ack(r) => match request::ack_headers(r, self.version) {
                Ok(headers) => Ok(frame::bodiless("ACK", headers)),
                Err(e) => Err(e),
            },
            Command::Nack(r) => match request::nack_headers(r, self.version) {
                Ok(headers) => Ok(frame::bodiless("NACK", headers)),
                Err(e) => Err(e),
            },
            Command::Begin(id) => Ok(one_header("BEGIN", "transaction", id)),
            Command::Commit(id) => Ok(one_header("COMMIT", "transaction", id)),
            Command::Abort(id) => Ok(one_header("ABORT", "transaction", id)),
            Command::Disconnect => {
                let frame = frame::bodiless("DISCONNECT", Vec::new());
                assert(frame@.headers =~= seq![]);
                Ok(frame)
            },
        }
    }

    /// Sorts a frame from the server.
    pub fn receive(&self, frame: StompFrame<'static>) -> (result: Incoming)
        ensures
            if frame@.command == "MESSAGE"@ {
                match recipient(self@, frame@) {
                    Some(to) => result matches Incoming::Message { sender, frame: f } && sender
                        == to && f@ == frame@,
                    None => result is Ignored,
                }
            } else if frame@.command == "ERROR"@ {
                result matches Incoming::ServerError(f) && f@ == frame@
            } else {
                result is Ignored
            },
    {
        if frame.is_command("MESSAGE") {
            let to = match frame.get_header("subscription") {
                None => None,
                Some(id) => {
                    let i = self.find_subscriber(id);
                    if i < self.subscriptions.len() {
                        Some(self.subscriptions[i].sender)
                    } else {
                        None
                    }
                },
            };
            match to {
                Some(sender) => Incoming::Message { sender, frame },
                None => Incoming::Ignored,
            }
        } else if frame.is_command("ERROR") {
            Incoming::ServerError(frame)
        } else {
            Incoming::Ignored
        }
    }
}

/// What happens to an open connection.
pub enum ClientEvent {
    /// A heartbeat is due.
    HeartbeatDue,
    /// It is time to look whether the server is still there.
    CheckDue { silent_nanos: u128 },
    /// The client is told to do something.
    Command(Command),
    /// The client will be told nothing more.
    NoMoreCommands,
    /// A frame came.
    Frame(StompFrame<'static>),
    /// What came was no frame, or reading failed.
    ReadFailed(std::io::Error),
    /// The server closed the connection.
    Closed,
}

/// What is to be done about it.
pub enum ClientAction {
    /// Nothing.
    Nothing,
    /// A heartbeat is to be sent.
    Beat,
    /// A frame is to be written. If it is the last, and could be written, the
    /// connection ends.
    Write { frame: StompFrame<'static>, last: bool },
    /// The command cannot be carried out.
    Reject(StompError),
    /// A message is to be handed to a subscription.
    Deliver { sender: u64, frame: StompFrame<'static> },
    /// The connection ends.
    Finish,
    /// The connection has failed.
    Fail(StompError),
    /// The connection has failed, for what the server reports.
    ServerError(StompFrame<'static>),
}

/// Whether the server has been silent for longer than it may.
pub open spec fn overdue(session: ClientView, silent_nanos: u128) -> bool {
    session.timeout matches Some(ms) && silent_nanos > ms * 1_000_000
}

/// Whether an action is the right one.
pub open spec fn calls_for(session: ClientView, event: ClientEvent, action: ClientAction) -> bool {
    match event {
        ClientEvent::HeartbeatDue => action is Beat,
        ClientEvent::CheckDue { silent_nanos } => if overdue(session, silent_nanos) {
            action matches ClientAction::Fail(e) && e.is_protocol("Heartbeat timeout"@)
        } else {
            action is Nothing
        },
        ClientEvent::Command(command) => match command_frame(session.version, command) {
            Ok(f) => action matches ClientAction::Write { frame, last } && frame@ == f && last
                == (command is Disconnect),
            Err(message) => action matches ClientAction::Reject(e) && e.is_protocol(message),
        },
        ClientEvent::NoMoreCommands => action is Finish,
        ClientEvent::Frame(frame) => if frame@.command == "MESSAGE"@ {
            match recipient(session, frame@) {
                Some(to) => action matches ClientAction::Deliver { sender, frame: f } && sender
                    == to && f@ == frame@,
                None => action is Nothing,
            }
        } else if frame@.command == "ERROR"@ {
            action matches ClientAction::ServerError(f) && f@ == frame@
        } else {
            action is Nothing
        },
        ClientEvent::ReadFailed(err) => action == ClientAction::Fail(StompError::Io(err)),
        ClientEvent::Closed => action == ClientAction::Fail(StompError::Disconnected),
    }
}

/// The session after an event.
pub open spec fn after_event(session: ClientView, event: ClientEvent) -> ClientView {
    match event {
        ClientEvent::Command(command) => commanded(session, command),
        _ => session,
    }
}

impl ClientSession {
    /// How often, in microseconds, to look whether the server is still there.
    pub fn check_micros(&self) -> (micros: Option<u64>)
        ensures
            match self@.timeout {
                Some(ms) => micros matches Some(m) && m == check_interval(ms),
                None => micros is None,
            },
    {
        match self.timeout {
            Some(ms) => if ms < 2000 {
                Some(ms * 500)
            } else {
                Some(1_000_000)
            },
            None => None,
        }
    }

    /// Takes note of what happens, and says what is to be done.
    pub fn step(&mut self, event: ClientEvent) -> (action: ClientAction)
        requires
            old(self)@.wf(),
        ensures
            final(self)@.wf(),
            final(self)@ == after_event(old(self)@, event),
            calls_for(old(self)@, event, action),
    {
        match event {
            ClientEvent::HeartbeatDue => ClientAction::Beat,
            ClientEvent::CheckDue { silent_nanos } => {
                if let Some(ms) = self.timeout {
                    if silent_nanos > ms as u128 * 1_000_000 {
                        return ClientAction::Fail(
                            StompError::Protocol("Heartbeat timeout".to_string()),
                        );
                    }
                }
                ClientAction::Nothing
            },
            ClientEvent::Command(command) => {
                let last = match &command {
                    Command::Disconnect => true,
                    _ => false,
                };
                match self.command(command) {
                    Ok(frame) => ClientAction::Write { frame, last },
                    Err(e) => ClientAction::Reject(e),
                }
            },
            ClientEvent::NoMoreCommands => ClientAction::Finish,
            ClientEvent::Frame(frame) => match self.receive(frame) {
                Incoming::Ignored => ClientAction::Nothing,
                Incoming::Message { sender, frame } => ClientAction::Deliver { sender, frame },
                Incoming::ServerError(frame) => ClientAction::ServerError(frame),
            },
            ClientEvent::ReadFailed(err) => ClientAction::Fail(StompError::Io(err)),
            ClientEvent::Closed => ClientAction::Fail(StompError::Disconnected),
        }
    }
}

/// Pieces of text stand in their order, with one comma between one and the next.
pub proof fn commas_stand_between_pieces(pieces: Seq<Seq<char>>, last: Seq<char>)
    ensures
        comma_separated(Seq::empty()) == Seq::<char>::empty(),
        comma_separated(seq![last]) == last,
        pieces.len() > 0 ==> comma_separated(pieces.push(last)) == comma_separated(pieces)
            + seq![','] + last,
{
    reveal_strlit(",");
    assert(","@ =~= seq![',']);
    assert(pieces.push(last).drop_last() =~= pieces);
}

/// A client asks to connect with what it is configured with: the versions that it
/// accepts, the host, and its heartbeats, unless it accepts version 1.0 alone,
/// which knows none of them; and then its login and its passcode, where it has
/// them.
pub proof fn clients_say_what_they_are_configured_with(config: ConfigView)
    ensures
        ({
            let frame = connecting(config);
            let oldest = config.accept_versions == seq!["1.0"@];
            let offer: Seq<Header> = if oldest {
                seq![]
            } else {
                seq![
                    ("accept-version"@, comma_separated(config.accept_versions)),
                    ("host"@, config.host),
                    (
                        "heart-beat"@,
                        text::decimal(config.heartbeat_cx as nat) + seq![','] + text::decimal(
                            config.heartbeat_cy as nat,
                        ),
                    ),
                ]
            };
            let login: Seq<Header> = match config.login {
                Some(s) => seq![("login"@, s)],
                None => seq![],
            };
            let passcode: Seq<Header> = match config.passcode {
                Some(s) => seq![("passcode"@, s)],
                None => seq![],
            };
            &&& frame.command == "CONNECT"@
            &&& frame.body is None
            &&& frame.headers == offer + login + passcode
        }),
{
    reveal_strlit(",");
    assert(","@ =~= seq![',']);
    if oldest_only(config) {
        assert(config.accept_versions =~= seq!["1.0"@]);
    }
}

/// The version that a server has picked is the one that it names. Where it names
/// none it is the oldest, and where it names one that is unknown the newest.
pub proof fn servers_name_the_version(value: Option<Seq<char>>)
    ensures
        named_version(None) == StompVersion::V1_0,
        named_version(Some("1.0"@)) == StompVersion::V1_0,
        named_version(Some("1.1"@)) == StompVersion::V1_1,
        value is Some && value->0 != "1.0"@ && value->0 != "1.1"@ ==> named_version(value)
            == StompVersion::V1_2,
{
    reveal_strlit("1.0");
    reveal_strlit("1.1");
    assert("1.0"@[2] == '0' && "1.1"@[2] == '1');
}

/// A client reads two numbers with a comma between them. What is no number, or is
/// too large, counts as zero; and so do both without exactly one comma.
pub proof fn clients_read_two_intervals(a: Seq<char>, b: Seq<char>, c: Seq<char>)
    requires
        !a.contains(','),
        !b.contains(','),
    ensures
        server_intervals(None) == (0int, 0int),
        server_intervals(Some(a)) == (0int, 0int),
        server_intervals(Some(a + seq![','] + b + seq![','] + c)) == (0int, 0int),
        ({
            let read = server_intervals(Some(a + seq![','] + b));
            &&& read.0 == match text::parse_unsigned(a, 0xffff_ffff) {
                Some(n) => n as int,
                None => 0,
            }
            &&& read.1 == match text::parse_unsigned(b, 0xffff_ffff) {
                Some(n) => n as int,
                None => 0,
            }
        }),
{
    agreement::split_of_plain_text(a, ',');
    agreement::split_of_plain_text(b, ',');
    agreement::split_of_joined_text(a, b, ',');
    agreement::split_of_joined_text(a + seq![','] + b, c, ',');
    text::split_is_never_empty(c, ',');
    assert(text::split(a + seq![','] + b, ',') =~= seq![a, b]);
}

/// What a `CONNECTED` frame opens: a connection in the version that it names,
/// without heartbeats in version 1.0; otherwise the client sends them as often as
/// it can and the server wants, and the server as often as it can and the client
/// wants.
pub proof fn connections_open_as_the_server_says(config: ConfigView, frame: FrameView)
    requires
        frame.command == "CONNECTED"@,
    ensures
        ({
            let version = named_version(frame::header(frame.headers, "version"@));
            let (sends, wants) = server_intervals(frame::header(frame.headers, "heart-beat"@));
            reply(config, frame) == if version == StompVersion::V1_0 {
                ReplyView::Open { version, outgoing: 0, incoming: 0 }
            } else {
                ReplyView::Open {
                    version,
                    outgoing: handshake::agreed_interval(config.heartbeat_cx as int, wants),
                    incoming: handshake::agreed_interval(sends, config.heartbeat_cy as int),
                }
            }
        }),
{
    reveal_strlit("HEARTBEAT");
    reveal_strlit("CONNECTED");
    assert("HEARTBEAT"@[0] != "CONNECTED"@[0]);
}

/// A connection opens without subscriptions, and is given up on where the server
/// is silent for longer than a heartbeat may take.
pub proof fn connections_open_without_subscriptions(version: StompVersion, incoming_hb: u32)
    ensures
        opened(version, incoming_hb).version == version,
        opened(version, incoming_hb).subscriptions.len() == 0,
        opened(version, incoming_hb).timeout == if incoming_hb == 0 {
            None
        } else {
            Some((incoming_hb as u64 + incoming_hb as u64 / 2) as u64)
        },
{
}

/// The server is looked for twice within the time that it may be silent, or once
/// a second, whichever is more often.
pub proof fn servers_are_looked_for(timeout_ms: u64)
    ensures
        check_interval(timeout_ms) <= 1_000_000,
        2 * check_interval(timeout_ms) <= timeout_ms * 1000,
        check_interval(timeout_ms) == 1_000_000 || 2 * check_interval(timeout_ms) == timeout_ms
            * 1000,
{
}

/// A subscription is added, or takes the place of one with the same name. All
/// others stay as they are.
pub proof fn subscribing_keeps_other_subscriptions(
    session: ClientView,
    asked: SubscribeRequest,
    sender: u64,
    was: SubscriberView,
)
    ensures
        ({
            let after = commanded(session, Command::Subscribe { request: asked, sender });
            let id = match asked@.id {
                Some(id) => id,
                None => "1"@,
            };
            &&& after.version == session.version
            &&& after.timeout == session.timeout
            &&& session.subscriptions.contains(was) && was.id != id
                ==> after.subscriptions.contains(was)
            &&& exists|k: int|
                0 <= k < after.subscriptions.len() && (#[trigger] after.subscriptions[k]).id == id
                    && after.subscriptions[k].sender == sender
            &&& forall|k: int|
                0 <= k < after.subscriptions.len() ==> session.subscriptions.contains(
                    #[trigger] after.subscriptions[k],
                ) || (after.subscriptions[k].id == id && after.subscriptions[k].sender == sender)
        }),
{
    let id = subscription_name(asked@);
    let subs = session.subscriptions;
    let after = subscribers_with(subs, id, sender);
    subscriber_position_bounds(subs, id);
    let p = subscriber_position(subs, id);
    assert(after[p].id == id && after[p].sender == sender);
    if subs.contains(was) && was.id != id {
        let i = choose|i: int| 0 <= i < subs.len() && subs[i] == was;
        assert(after[i] == was);
    }
    assert forall|k: int| 0 <= k < after.len() implies subs.contains(#[trigger] after[k]) || (
    after[k].id == id && after[k].sender == sender) by {
        if k != p {
            assert(after[k] == subs[k]);
        }
    }
    assert(commanded(session, Command::Subscribe { request: asked, sender }).subscriptions == after);
}

/// Ending a subscription ends the one of that name, and no other. No other
/// command changes the subscriptions.
pub proof fn unsubscribing_keeps_other_subscriptions(
    session: ClientView,
    command: Command,
    other: SubscriberView,
)
    requires
        session.wf(),
        command !is Subscribe,
    ensures
        ({
            let after = commanded(session, command);
            &&& after.version == session.version
            &&& after.timeout == session.timeout
            &&& match command {
                Command::Unsubscribe(id) => after.subscriptions.contains(other)
                    <==> session.subscriptions.contains(other) && other.id != id@,
                _ => after.subscriptions == session.subscriptions,
            }
        }),
{
    if let Command::Unsubscribe(name) = command {
        let id = name@;
        let subs = session.subscriptions;
        let after = subscribers_without(subs, id);
        subscriber_position_bounds(subs, id);
        let p = subscriber_position(subs, id);
        if p < subs.len() {
            if after.contains(other) {
                let k = choose|k: int| 0 <= k < after.len() && after[k] == other;
                let m = if k < p {
                    k
                } else {
                    k + 1
                };
                assert(subs[m] == other);
                if m < p {
                    assert(subs[m].id != subs[p].id);
                } else {
                    assert(subs[p].id != subs[m].id);
                }
            }
            if subs.contains(other) && other.id != id {
                let k = choose|k: int| 0 <= k < subs.len() && subs[k] == other;
                if k < p {
                    assert(after[k] == other);
                } else {
                    assert(after[k - 1] == other);
                }
            }
        } else {
            if subs.contains(other) {
                let k = choose|k: int| 0 <= k < subs.len() && subs[k] == other;
                assert(subs[k].id != id);
            }
        }
    }
}

/// A message is for the subscription that it names, if there is one of that name,
/// and for nobody otherwise.
pub proof fn messages_are_for_whom_they_name(session: ClientView, frame: FrameView)
    requires
        session.wf(),
    ensures
        ({
            let named = frame::header(frame.headers, "subscription"@);
            let subs = session.subscriptions;
            &&& forall|i: int|
                0 <= i < subs.len() && named == Some((#[trigger] subs[i]).id) ==> recipient(
                    session,
                    frame,
                ) == Some(subs[i].sender)
            &&& (forall|i: int| 0 <= i < subs.len() ==> named != Some((#[trigger] subs[i]).id))
                ==> recipient(session, frame) is None
        }),
{
    if let Some(id) = frame::header(frame.headers, "subscription"@) {
        let subs = session.subscriptions;
        subscriber_position_bounds(subs, id);
        let p = subscriber_position(subs, id);
        assert forall|i: int| 0 <= i < subs.len() && (#[trigger] subs[i]).id == id implies recipient(
            session,
            frame,
        ) == Some(subs[i].sender) by {
            if p < i {
                assert(subs[p].id != subs[i].id);
            }
        }
    }
}

/// What each command is on the wire.
pub proof fn commands_are_written_as_frames(version: StompVersion, command: Command)
    ensures
        match command {
            Command::Send(r) => command_frame(version, command) == Ok::<FrameView, Seq<char>>(
                request::send_frame(r@),
            ),
            Command::Subscribe { request: r, sender: _ } => command_frame(version, command)
                == Ok::<FrameView, Seq<char>>(
                request::subscribe_frame(
                    r@,
                    match r@.id {
                        Some(id) => id,
                        None => "1"@,
                    },
                ),
            ),
            Command::Unsubscribe(id) => command_frame(version, command) matches Ok(f)
                && f.command == "UNSUBSCRIBE"@ && f.headers == seq![("id"@, id@)] && f.body is None,
            Command::Begin(id) => command_frame(version, command) matches Ok(f) && f.command
                == "BEGIN"@ && f.headers == seq![("transaction"@, id@)] && f.body is None,
            Command::Commit(id) => command_frame(version, command) matches Ok(f) && f.command
                == "COMMIT"@ && f.headers == seq![("transaction"@, id@)] && f.body is None,
            Command::Abort(id) => command_frame(version, command) matches Ok(f) && f.command
                == "ABORT"@ && f.headers == seq![("transaction"@, id@)] && f.body is None,
            Command::Disconnect => command_frame(version, command) matches Ok(f) && f.command
                == "DISCONNECT"@ && f.headers.len() == 0 && f.body is None,
            Command::Ack(r) => match request::acknowledging_headers(r@, false, version) {
                Ok(headers) => command_frame(version, command) matches Ok(f) && f.command
                    == "ACK"@ && f.headers == headers && f.body is None,
                Err(e) => command_frame(version, command) == Err::<FrameView, Seq<char>>(e),
            },
            Command::Nack(r) => match request::acknowledging_headers(r@, true, version) {
                Ok(headers) => command_frame(version, command) matches Ok(f) && f.command
                    == "NACK"@ && f.headers == headers && f.body is None,
                Err(e) => command_frame(version, command) == Err::<FrameView, Seq<char>>(e),
            },
        },
{
}

/// What an open connection does about each event. A heartbeat is sent when one is
/// due. The connection fails where the server has been silent for longer than it
/// may, where reading fails, where the server closes it, and where the server
/// reports an error; it ends where nothing more is asked of it. A message goes to
/// whom it is for, and everything else that comes is ignored.
pub proof fn events_are_answered(session: ClientView, event: ClientEvent, action: ClientAction)
    requires
        calls_for(session, event, action),
    ensures
        match event {
            ClientEvent::HeartbeatDue => action is Beat,
            ClientEvent::CheckDue { silent_nanos } => if session.timeout is Some && silent_nanos
                > session.timeout->0 * 1_000_000 {
                action matches ClientAction::Fail(StompError::Protocol(m)) && m@
                    == "Heartbeat timeout"@
            } else {
                action is Nothing
            },
            ClientEvent::Command(command) => match command_frame(session.version, command) {
                Ok(f) => action matches ClientAction::Write { frame, last } && frame@ == f && (
                last <==> command is Disconnect),
                Err(e) => action matches ClientAction::Reject(StompError::Protocol(m)) && m@ == e,
            },
            ClientEvent::NoMoreCommands => action is Finish,
            ClientEvent::Frame(frame) => if frame@.command == "MESSAGE"@ && recipient(
                session,
                frame@,
            ) is Some {
                action matches ClientAction::Deliver { sender, frame: f } && Some(sender)
                    == recipient(session, frame@) && f@ == frame@
            } else if frame@.command == "ERROR"@ {
                action matches ClientAction::ServerError(f) && f@ == frame@
            } else {
                action is Nothing
            },
            ClientEvent::ReadFailed(err) => action matches ClientAction::Fail(StompError::Io(e))
                && e == err,
            ClientEvent::Closed => action matches ClientAction::Fail(e) && e is Disconnected,
        },
        match event {
            ClientEvent::Command(command) => after_event(session, event) == commanded(
                session,
                command,
            ),
            _ => after_event(session, event) == session,
        },
{
    reveal_strlit("MESSAGE");
    reveal_strlit("ERROR");
    assert("MESSAGE"@[0] != "ERROR"@[0]);
}

/// What a configuration, and what comes before a connection is open, says is all
/// that it holds.
pub proof fn configurations_say_all_that_they_hold(
    config: ClientConfig,
    arrival: Arrival,
    i: int,
)
    ensures
        config@.host == config.host@,
        config@.heartbeat_cx == config.heartbeat_cx,
        config@.heartbeat_cy == config.heartbeat_cy,
        config@.login is Some <==> config.login is Some,
        config.login is Some ==> config@.login->0 == config.login->0@,
        config@.passcode is Some <==> config.passcode is Some,
        config.passcode is Some ==> config@.passcode->0 == config.passcode->0@,
        config@.accept_versions.len() == config.accept_versions@.len(),
        0 <= i < config.accept_versions@.len() ==> config@.accept_versions[i]
            == config.accept_versions@[i]@,
        match arrival {
            Arrival::Frame(f) => arrival@ == ArrivalView::Frame(f@),
            Arrival::ReadFailed(e) => arrival@ == ArrivalView::ReadFailed(e),
            Arrival::Closed => arrival@ is Closed,
        },
{
}

/// A client is told what was decided: that it waits, that it is connected, and how,
/// or why it is not.
pub proof fn replies_tell_what_was_decided(result: Reply, view: ReplyView)
    requires
        is_reply(result, view),
    ensures
        match view {
            ReplyView::Waiting => result is Waiting,
            ReplyView::Open { version, outgoing, incoming } => {
                &&& result is Open
                &&& result->outgoing_hb == outgoing
                &&& result->incoming_hb == incoming
                &&& result->session@.version == version
                &&& result->session@.subscriptions.len() == 0
                &&& result->session@.timeout is None <==> incoming == 0
            },
            ReplyView::Refused(m) => result matches Reply::Failed(StompError::Protocol(text))
                && text@ == m,
            ReplyView::Unread(err) => result matches Reply::Failed(StompError::Io(e)) && e == err,
            ReplyView::Closed => result matches Reply::Failed(e) && e is Disconnected,
        },
{
}

} // verus!
