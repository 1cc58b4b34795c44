//! What a server does with the frames of a connection.

use crate::destination;
use crate::frame::{self, FrameView, StompFrame, StompVersion};
use crate::ident::IdSupply;
use crate::router::{
    self, AckTarget, Delivery, DeliveryView, Progress, PubSubRouter, RouterView,
    SubscriptionView, TargetView,
};
use crate::text;
use std::borrow::Cow;
use vstd::prelude::*;

verus! {

/// A frame that reports an error.
pub open spec fn error_frame(message: Seq<char>) -> FrameView {
    FrameView { command: "ERROR"@, headers: seq![("message"@, message)], body: None }
}

/// A frame that confirms a request.
pub open spec fn receipt_frame(receipt_id: Seq<char>) -> FrameView {
    FrameView { command: "RECEIPT"@, headers: seq![("receipt-id"@, receipt_id)], body: None }
}

/// Makes a frame that reports an error.
pub fn create_error_frame(message: &str) -> (frame: StompFrame<'static>)
    ensures
        frame@ == error_frame(message@),
{
    let mut headers: Vec<(String, String)> = Vec::new();
    frame::push_header(&mut headers, "message", message.to_string());
    assert(frame::headers_view(headers@) =~= seq![("message"@, message@)]);
    frame::bodiless("ERROR", headers)
}

/// Makes a frame that confirms a request.
pub fn create_receipt_frame(receipt_id: String) -> (frame: StompFrame<'static>)
    ensures
        frame@ == receipt_frame(receipt_id@),
{
    let mut headers: Vec<(String, String)> = Vec::new();
    frame::push_header(&mut headers, "receipt-id", receipt_id);
    assert(frame::headers_view(headers@) =~= seq![("receipt-id"@, receipt_id@)]);
    frame::bodiless("RECEIPT", headers)
}

/// What an `ACK` or `NACK` frame speaks of, or what is wrong with it. Version
/// 1.0 asks for a `message-id` and has no `NACK`; version 1.1 asks for a
/// `message-id` and a `subscription`; version 1.2 asks for an `id`.
pub open spec fn ack_target(frame: FrameView, version: StompVersion) -> Result<
    TargetView,
    Seq<char>,
> {
    let message_id = frame::header(frame.headers, "message-id"@);
    let subscription = frame::header(frame.headers, "subscription"@);
    let id = frame::header(frame.headers, "id"@);
    match version {
        StompVersion::V1_0 => if frame.command == "NACK"@ {
            Err("STOMP 1.0 does not support NACK"@)
        } else if message_id is None {
            Err("Missing message-id header in "@ + frame.command)
        } else {
            Ok(TargetView { id: message_id->0, subscription: None, version })
        },
        StompVersion::V1_1 => if message_id is None {
            Err("Missing message-id header in "@ + frame.command)
        } else if subscription is None {
            Err("Missing subscription header in "@ + frame.command + " for STOMP 1.1"@)
        } else {
            Ok(TargetView { id: message_id->0, subscription, version })
        },
        StompVersion::V1_2 => if id is None {
            Err("Missing id header in "@ + frame.command)
        } else {
            Ok(TargetView { id: id->0, subscription, version })
        },
    }
}

/// Reads what an `ACK` or `NACK` frame speaks of.
pub fn ack_id_and_subscription<'a>(
    frame: &'a StompFrame<'_>,
    version: StompVersion,
) -> (target: Result<AckTarget<'a>, String>)
    ensures
        match target {
            Ok(t) => ack_target(frame@, version) == Ok::<_, Seq<char>>(t@),
            Err(message) => ack_target(frame@, version) == Err::<TargetView, _>(message@),
        },
{
    let command = frame::cow_text(&frame.command);
    match version {
        StompVersion::V1_0 => {
            if frame.is_command("NACK") {
                return Err("STOMP 1.0 does not support NACK".to_string());
            }
            match frame.get_header("message-id") {
                Some(id) => Ok(AckTarget { id, subscription: None, version }),
                None => Err(text::pair("Missing message-id header in ", command)),
            }
        },
        StompVersion::V1_1 => {
            let id = match frame.get_header("message-id") {
                Some(id) => id,
                None => {
                    return Err(text::pair("Missing message-id header in ", command));
                },
            };
            match frame.get_header("subscription") {
                Some(s) => Ok(AckTarget { id, subscription: Some(s), version }),
                None => Err(
                    text::join("Missing subscription header in ", command, " for STOMP 1.1"),
                ),
            }
        },
        StompVersion::V1_2 => match frame.get_header("id") {
            Some(id) => Ok(
                AckTarget { id, subscription: frame.get_header("subscription"), version },
            ),
            None => Err(text::pair("Missing id header in ", command)),
        },
    }
}

/// A frame for a client: a message on its way to a subscriber, who may be at the
/// end of another connection, or a reply on this connection.
pub enum Output {
    Deliver(Delivery),
    Reply(StompFrame<'static>),
}

/// What an output says.
pub enum OutputView {
    Deliver(DeliveryView),
    Reply(FrameView),
}

impl View for Output {
    type V = OutputView;

    open spec fn view(&self) -> OutputView {
        match self {
            Output::Deliver(d) => OutputView::Deliver(d@),
            Output::Reply(f) => OutputView::Reply(f@),
        }
    }
}

/// What a list of outputs says.
pub open spec fn outputs_view(s: Seq<Output>) -> Seq<OutputView> {
    s.map_values(|o: Output| o@)
}

/// Deliveries as outputs.
pub open spec fn as_outputs(s: Seq<DeliveryView>) -> Seq<OutputView> {
    s.map_values(|d: DeliveryView| OutputView::Deliver(d))
}

struct Transaction {
    id: String,
    frames: Vec<StompFrame<'static>>,
}

/// A transaction that has begun, and the frames that wait for its end.
#[verifier::ext_equal]
pub struct TransactionView {
    pub id: Seq<char>,
    pub frames: Seq<FrameView>,
}

/// What a list of frames says.
pub open spec fn frames_view(s: Seq<StompFrame<'static>>) -> Seq<FrameView> {
    s.map_values(|f: StompFrame<'static>| f@)
}

impl Transaction {
    spec fn view(self) -> TransactionView {
        TransactionView { id: self.id@, frames: frames_view(self.frames@) }
    }
}

spec fn transactions_view(s: Seq<Transaction>) -> Seq<TransactionView> {
    s.map_values(|t: Transaction| t.view())
}

/// The server's end of an open connection.
pub struct Session {
    conn_id: u128,
    version: StompVersion,
    sender: u64,
    transactions: Vec<Transaction>,
}

/// What a session knows.
#[verifier::ext_equal]
pub struct SessionView {
    pub conn_id: u128,
    pub version: StompVersion,
    pub sender: u64,
    pub transactions: Seq<TransactionView>,
}

impl View for Session {
    type V = SessionView;

    closed spec fn view(&self) -> SessionView {
        SessionView {
            conn_id: self.conn_id,
            version: self.version,
            sender: self.sender,
            transactions: transactions_view(self.transactions@),
        }
    }
}

impl SessionView {
    /// Whether the session is in order: no transaction has begun twice.
    pub open spec fn wf(self) -> bool {
        forall|i: int, j: int|
            0 <= i < j < self.transactions.len() ==> (#[trigger] self.transactions[i]).id != (
            #[trigger] self.transactions[j]).id
    }
}

/// The position of a transaction; the length of the list where there is none.
pub open spec fn transaction_position(transactions: Seq<TransactionView>, id: Seq<char>) -> int
    decreases transactions.len(),
{
    if transactions.len() == 0 {
        0
    } else if transactions[0].id == id {
        0
    } else {
        1 + transaction_position(transactions.drop_first(), id)
    }
}

/// Where the position of a transaction leads.
pub proof fn transaction_position_bounds(transactions: Seq<TransactionView>, id: Seq<char>)
    ensures
        ({
            let i = transaction_position(transactions, id);
            &&& 0 <= i <= transactions.len()
            &&& i < transactions.len() ==> transactions[i].id == id
            &&& forall|j: int| 0 <= j < i ==> (#[trigger] transactions[j]).id != id
        }),
    decreases transactions.len(),
{
    if transactions.len() > 0 && transactions[0].id != id {
        let rest = transactions.drop_first();
        transaction_position_bounds(rest, id);
        assert forall|j: int| 0 <= j < transaction_position(transactions, id) implies (
        #[trigger] transactions[j]).id != id by {
            if j > 0 {
                assert(rest[j - 1] == transactions[j]);
            }
        }
    }
}

/// How far work on a frame has come.
#[verifier::ext_equal]
pub struct Work {
    pub session: SessionView,
    pub router: RouterView,
    pub out: Seq<OutputView>,
    /// How many identifiers were used.
    pub used: nat,
    /// Whether the connection is to be closed.
    pub closed: bool,
}

/// More replies.
pub open spec fn replied(w: Work, frame: FrameView) -> Work {
    Work { out: w.out.push(OutputView::Reply(frame)), ..w }
}

/// A request that is refused: an error is reported, and the connection closed.
pub open spec fn refused(w: Work, message: Seq<char>) -> Work {
    Work { closed: true, ..replied(w, error_frame(message)) }
}

/// A request that is confirmed, if its frame asks for that.
pub open spec fn confirmed(w: Work, frame: FrameView) -> Work {
    match frame::header(frame.headers, "receipt"@) {
        Some(id) => replied(w, receipt_frame(id)),
        None => w,
    }
}

/// Where a router starts from.
pub open spec fn start_of(w: Work) -> Progress {
    Progress { router: w.router, out: seq![], used: w.used }
}

/// Work after a router has done its part.
pub open spec fn routed(w: Work, p: Progress) -> Work {
    Work { router: p.router, out: w.out + as_outputs(p.out), used: p.used, ..w }
}

/// The message that a `SEND` frame becomes: without what concerns the sender
/// alone, and with an identifier.
pub open spec fn message_of(frame: FrameView, message_id: Seq<char>) -> FrameView {
    let kept = frame::without(
        frame::without(frame::without(frame.headers, "receipt"@), "ack"@),
        "transaction"@,
    );
    FrameView {
        command: "MESSAGE"@,
        headers: kept.push(("message-id"@, message_id)),
        body: frame.body,
    }
}

/// What comes of a `SEND`, `ACK` or `NACK` frame: work done, or an error.
pub open spec fn performed(w: Work, frame: FrameView, ids: Seq<Seq<char>>) -> Result<
    Work,
    (Work, Seq<char>),
> {
    if frame.command == "SEND"@ {
        match frame::header(frame.headers, "destination"@) {
            None => Err((w, "Missing destination header"@)),
            Some(name) => {
                let numbered = Work { used: w.used + 1, ..w };
                if destination::kind_of(name) is None {
                    Err((numbered, "Unknown destination"@))
                } else {
                    Ok(
                        routed(
                            numbered,
                            router::published(
                                start_of(numbered),
                                name,
                                message_of(frame, ids[w.used as int]),
                                ids,
                            ),
                        ),
                    )
                }
            },
        }
    } else if frame.command == "ACK"@ {
        match ack_target(frame, w.session.version) {
            Err(message) => Err((w, message)),
            Ok(target) => Ok(
                Work {
                    router: router::acknowledged(w.router, w.session.conn_id, target),
                    ..w
                },
            ),
        }
    } else if frame.command == "NACK"@ {
        match ack_target(frame, w.session.version) {
            Err(message) => Err((w, message)),
            Ok(target) => Ok(
                routed(w, router::rejected(start_of(w), w.session.conn_id, target, ids)),
            ),
        }
    } else {
        Ok(w)
    }
}

/// The frames of a transaction, one after the other, up to the first that fails.
pub open spec fn committed(w: Work, frames: Seq<FrameView>, ids: Seq<Seq<char>>) -> Work
    decreases frames.len(),
{
    if frames.len() == 0 {
        w
    } else {
        let before = committed(w, frames.drop_last(), ids);
        if before.closed {
            before
        } else {
            match performed(before, frames.last(), ids) {
                Ok(after) => confirmed(after, frames.last()),
                Err((after, message)) => refused(after, message),
            }
        }
    }
}

/// Whether frames with this command can be part of a transaction.
pub open spec fn is_transactional(command: Seq<char>) -> bool {
    command == "SEND"@ || command == "ACK"@ || command == "NACK"@
}

/// The report that a transaction is not, or already, active.
pub open spec fn transaction_error(id: Seq<char>, what: Seq<char>) -> Seq<char> {
    "Transaction '"@ + id + what
}

/// Work with other transactions.
pub open spec fn with_transactions(w: Work, transactions: Seq<TransactionView>) -> Work {
    Work { session: SessionView { transactions, ..w.session }, ..w }
}

/// What comes of a frame that is part of the transaction `id`: it waits.
pub open spec fn deferred(w: Work, frame: FrameView, id: Seq<char>) -> Work {
    let all = w.session.transactions;
    let i = transaction_position(all, id);
    if i >= all.len() {
        refused(w, transaction_error(id, "' not active"@))
    } else {
        with_transactions(
            w,
            all.update(i, TransactionView { id, frames: all[i].frames.push(frame) }),
        )
    }
}

/// What comes of a frame that begins, commits, or aborts a transaction.
pub open spec fn transacted(w: Work, frame: FrameView, ids: Seq<Seq<char>>) -> Work {
    let all = w.session.transactions;
    match frame::header(frame.headers, "transaction"@) {
        None => refused(w, "Missing transaction header"@),
        Some(id) => {
            let i = transaction_position(all, id);
            if frame.command == "BEGIN"@ {
                if i < all.len() {
                    refused(w, transaction_error(id, "' already active"@))
                } else {
                    confirmed(
                        with_transactions(w, all.push(TransactionView { id, frames: seq![] })),
                        frame,
                    )
                }
            } else if i >= all.len() {
                refused(w, transaction_error(id, "' not active"@))
            } else if frame.command == "COMMIT"@ {
                let done = committed(with_transactions(w, all.remove(i)), all[i].frames, ids);
                if done.closed {
                    done
                } else {
                    confirmed(done, frame)
                }
            } else {
                confirmed(with_transactions(w, all.remove(i)), frame)
            }
        },
    }
}

/// How deliveries on a subscription are to be acknowledged.
pub open spec fn requested_mode(frame: FrameView) -> Seq<char> {
    match frame::header(frame.headers, "ack"@) {
        Some(mode) => mode,
        None => "auto"@,
    }
}

/// What comes of a `SUBSCRIBE` frame.
pub open spec fn subscribing(w: Work, frame: FrameView) -> Work {
    let id = frame::header(frame.headers, "id"@);
    let name = frame::header(frame.headers, "destination"@);
    let ack_mode = requested_mode(frame);
    if w.session.version == StompVersion::V1_0 && ack_mode == "client-individual"@ {
        refused(w, "STOMP 1.0 does not support client-individual ack mode"@)
    } else if id is None || name is None {
        refused(w, "Missing SUBSCRIBE headers"@)
    } else {
        let sub = SubscriptionView {
            conn_id: w.session.conn_id,
            sub_id: id->0,
            sender: w.session.sender,
            ack_mode,
            version: w.session.version,
        };
        match router::subscribed(w.router, name->0, sub) {
            Err(message) => refused(w, message),
            Ok(after) => confirmed(Work { router: after, ..w }, frame),
        }
    }
}

/// What comes of a frame that is to be handled at once.
pub open spec fn handled_now(w: Work, frame: FrameView, ids: Seq<Seq<char>>) -> Work {
    let command = frame.command;
    if command == "BEGIN"@ || command == "COMMIT"@ || command == "ABORT"@ {
        transacted(w, frame, ids)
    } else if command == "SUBSCRIBE"@ {
        subscribing(w, frame)
    } else if command == "UNSUBSCRIBE"@ {
        match frame::header(frame.headers, "id"@) {
            None => refused(w, "Missing UNSUBSCRIBE id"@),
            Some(id) => confirmed(
                Work {
                    router: router::unsubscribed(w.router, w.session.conn_id, Some(id)),
                    ..w
                },
                frame,
            ),
        }
    } else if is_transactional(command) {
        match performed(w, frame, ids) {
            Ok(after) => confirmed(after, frame),
            Err((after, message)) => refused(after, message),
        }
    } else if command == "DISCONNECT"@ {
        Work { closed: true, ..confirmed(w, frame) }
    } else if command == "HEARTBEAT"@ {
        confirmed(w, frame)
    } else {
        refused(w, "Unsupported command: "@ + command)
    }
}

/// What comes of a frame.
pub open spec fn handled(w: Work, frame: FrameView, ids: Seq<Seq<char>>) -> Work {
    let acks = frame.command == "ACK"@ || frame.command == "NACK"@;
    let transaction = frame::header(frame.headers, "transaction"@);
    if acks && ack_target(frame, w.session.version) is Err {
        refused(w, ack_target(frame, w.session.version)->Err_0)
    } else if is_transactional(frame.command) && transaction is Some {
        deferred(w, frame, transaction->0)
    } else {
        handled_now(w, frame, ids)
    }
}

/// What happens on a connection.
pub enum Event {
    /// A frame came.
    Frame(StompFrame<'static>),
    /// The peer closed the connection.
    Closed,
    /// What came was no frame, or reading failed.
    ReadError,
    /// Nothing came for too long.
    TimedOut,
}

/// The end of a connection: the router forgets it.
pub open spec fn ended(w: Work, ids: Seq<Seq<char>>) -> Work {
    Work {
        closed: true,
        ..routed(w, router::cleaned(start_of(w), w.session.conn_id, ids))
    }
}

/// What comes of an event. Whatever closes a connection also ends it.
pub open spec fn stepped(w: Work, event: Event, ids: Seq<Seq<char>>) -> Work {
    match event {
        Event::Frame(frame) => {
            let done = handled(w, frame@, ids);
            if done.closed {
                ended(done, ids)
            } else {
                done
            }
        },
        _ => ended(w, ids),
    }
}

/// How far a session, a router, the outputs made, and a supply of identifiers
/// are.
pub open spec fn work(
    session: Session,
    router: PubSubRouter,
    out: Seq<Output>,
    ids: IdSupply,
    closed: bool,
) -> Work {
    Work {
        session: session@,
        router: router@,
        out: outputs_view(out),
        used: ids.used(),
        closed,
    }
}

/// The same deliveries as outputs.
fn push_deliveries(out: &mut Vec<Output>, deliveries: Vec<Delivery>)
    ensures
        outputs_view(final(out)@) == outputs_view(old(out)@) + as_outputs(
            router::deliveries_view(deliveries@),
        ),
{
    let ghost start = outputs_view(out@);
    let ghost all = as_outputs(router::deliveries_view(deliveries@));
    assert(start + all.take(0) =~= start);
    for d in it: deliveries
        invariant
            it.seq() == deliveries@,
            all == as_outputs(router::deliveries_view(deliveries@)),
            outputs_view(out@) == start + all.take(it.index() as int),
    {
        let ghost before = outputs_view(out@);
        let ghost k = it.index() as int;
        out.push(Output::Deliver(d));
        proof {
            assert(all[k] == OutputView::Deliver(d@));
            assert(outputs_view(out@) =~= before.push(OutputView::Deliver(d@)));
            assert(outputs_view(out@) =~= start + all.take(k + 1));
        }
    }
    assert(all.take(all.len() as int) =~= all);
}

fn push_reply(out: &mut Vec<Output>, frame: StompFrame<'static>)
    ensures
        outputs_view(final(out)@) == outputs_view(old(out)@).push(OutputView::Reply(frame@)),
{
    let ghost before = outputs_view(out@);
    out.push(Output::Reply(frame));
    assert(outputs_view(out@) =~= before.push(OutputView::Reply(frame@)));
}

/// The message that a `SEND` frame becomes.
pub fn message_from(frame: &StompFrame<'static>, message_id: String) -> (message: StompFrame<
    'static,
>)
    ensures
        message@ == message_of(frame@, message_id@),
{
    let copy = frame.to_static();
    let headers = frame::remove_headers(copy.headers, "receipt");
    let headers = frame::remove_headers(headers, "ack");
    let mut headers = frame::remove_headers(headers, "transaction");
    frame::push_header(&mut headers, "message-id", message_id);
    StompFrame { command: Cow::Borrowed("MESSAGE"), headers, body: copy.body }
}

/// A session stays in order when a transaction begins, goes on, or ends.
proof fn transactions_stay_in_order(session: SessionView, id: Seq<char>, frames: Seq<FrameView>)
    requires
        session.wf(),
    ensures
        ({
            let all = session.transactions;
            let i = transaction_position(all, id);
            &&& i < all.len() ==> (SessionView {
                transactions: all.update(i, TransactionView { id, frames }),
                ..session
            }).wf()
            &&& i < all.len() ==> (SessionView { transactions: all.remove(i), ..session }).wf()
            &&& i >= all.len() ==> (SessionView {
                transactions: all.push(TransactionView { id, frames }),
                ..session
            }).wf()
        }),
{
    transaction_position_bounds(session.transactions, id);
}

impl Session {
    /// The version of the protocol that was agreed on.
    pub fn version(&self) -> (version: StompVersion)
        ensures
            version == self@.version,
    {
        self.version
    }

    /// A session that has just opened.
    pub fn new(conn_id: u128, version: StompVersion, sender: u64) -> (session: Self)
        ensures
            session@ == (SessionView { conn_id, version, sender, transactions: seq![] }),
            session@.wf(),
    {
        let session = Session { conn_id, version, sender, transactions: Vec::new() };
        assert(session@ =~= (SessionView { conn_id, version, sender, transactions: seq![] }));
        session
    }

    fn find_transaction(&self, id: &str) -> (at: usize)
        ensures
            at == transaction_position(self@.transactions, id@),
            at <= self@.transactions.len(),
            self@.transactions.len() == self.transactions@.len(),
    {
        let ghost all = self@.transactions;
        let mut i: usize = 0;
        assert(all.skip(0) =~= all);
        while i < self.transactions.len()
            invariant
                i <= self.transactions@.len(),
                all == transactions_view(self.transactions@),
                transaction_position(all, id@) == i + transaction_position(
                    all.skip(i as int),
                    id@,
                ),
            decreases self.transactions@.len() - i,
        {
            assert(all.skip(i as int)[0] == self.transactions@[i as int].view());
            if text::text_eq(self.transactions[i].id.as_str(), id) {
                return i;
            }
            assert(all.skip(i as int).drop_first() =~= all.skip(i as int + 1));
            i += 1;
        }
        i
    }

    /// Carries out a `SEND`, `ACK` or `NACK` frame.
    fn perform(
        &self,
        router: &mut PubSubRouter,
        ids: &mut IdSupply,
        frame: &StompFrame<'static>,
        out: &mut Vec<Output>,
    ) -> (result: Result<(), String>)
        requires
            old(router)@.wf(),
            old(ids).wf(),
        ensures
            final(router)@.wf(),
            final(ids).wf(),
            final(ids).follows(*old(ids)),
            forall|all: Seq<Seq<char>>| #[trigger]
                final(ids).may_give(all) ==> performed(
                    work(*self, *old(router), old(out)@, *old(ids), false),
                    frame@,
                    all,
                ) == match result {
                    Ok(_) => Ok(work(*self, *final(router), final(out)@, *final(ids), false)),
                    Err(message) => Err(
                        (work(*self, *final(router), final(out)@, *final(ids), false), message@),
                    ),
                },
    {
        let ghost start = work(*self, *router, out@, *ids, false);
        if frame.is_command("SEND") {
            match frame.get_header("destination") {
                None => Err("Missing destination header".to_string()),
                Some(name) => {
                    let message_id = ids.next_id();
                    let ghost ids_before = *ids;
                    let ghost numbered = work(*self, *router, out@, *ids, false);
                    let message = message_from(frame, message_id);
                    let published = router.publish(name, message, ids);
                    proof {
                        ids.follows_on(ids_before, *old(ids));
                    }
                    match published {
                        Err(message) => Err(message.to_string()),
                        Ok(deliveries) => {
                            let ghost made = router::deliveries_view(deliveries@);
                            push_deliveries(out, deliveries);
                            proof {
                                assert forall|all: Seq<Seq<char>>| #[trigger]
                                    ids.may_give(all) implies performed(start, frame@, all)
                                    == Ok::<Work, (Work, Seq<char>)>(
                                    work(*self, *router, out@, *ids, false),
                                ) by {
                                    assert(ids_before.may_give(all));
                                    assert(start_of(numbered) =~= (Progress {
                                        router: numbered.router,
                                        out: router::deliveries_view(seq![]),
                                        used: numbered.used,
                                    }));
                                    assert(message_id@ == all[start.used as int]);
                                    let p = router::published(
                                        start_of(numbered),
                                        name@,
                                        message_of(frame@, message_id@),
                                        all,
                                    );
                                    assert(p.out == made);
                                    assert(routed(numbered, p) =~= work(
                                        *self,
                                        *router,
                                        out@,
                                        *ids,
                                        false,
                                    ));
                                }
                            }
                            Ok(())
                        },
                    }
                },
            }
        } else if frame.is_command("ACK") {
            match ack_id_and_subscription(frame, self.version) {
                Err(message) => Err(message),
                Ok(target) => {
                    router.handle_ack(self.conn_id, target);
                    Ok(())
                },
            }
        } else if frame.is_command("NACK") {
            match ack_id_and_subscription(frame, self.version) {
                Err(message) => Err(message),
                Ok(target) => {
                    let mut deliveries: Vec<Delivery> = Vec::new();
                    let ghost t = target@;
                    assert(start_of(start) =~= router::progress(*router, deliveries@, *ids));
                    router.handle_nack(self.conn_id, target, ids, &mut deliveries);
                    let ghost made = router::deliveries_view(deliveries@);
                    push_deliveries(out, deliveries);
                    proof {
                        assert forall|all: Seq<Seq<char>>| #[trigger]
                            ids.may_give(all) implies performed(start, frame@, all) == Ok::<
                            Work,
                            (Work, Seq<char>),
                        >(work(*self, *router, out@, *ids, false)) by {
                            let p = router::rejected(
                                start_of(start),
                                self@.conn_id,
                                t,
                                all,
                            );
                            assert(p.out == made);
                            assert(routed(start, p) =~= work(*self, *router, out@, *ids, false));
                        }
                    }
                    Ok(())
                },
            }
        } else {
            Ok(())
        }
    }

    /// Confirms a request, if its frame asks for that.
    fn confirm(frame: &StompFrame<'static>, out: &mut Vec<Output>)
        ensures
            forall|w: Work|
                w.out == outputs_view(old(out)@) ==> #[trigger] confirmed(w, frame@) == (Work {
                    out: outputs_view(final(out)@),
                    ..w
                }),
    {
        match frame.get_header("receipt") {
            Some(id) => {
                push_reply(out, create_receipt_frame(id.to_string()));
            },
            None => {},
        }
    }

    /// Carries out the frames of a transaction, up to the first that fails.
    /// Returns whether one failed.
    fn commit(
        &self,
        router: &mut PubSubRouter,
        ids: &mut IdSupply,
        frames: &Vec<StompFrame<'static>>,
        out: &mut Vec<Output>,
    ) -> (failed: bool)
        requires
            old(router)@.wf(),
            old(ids).wf(),
        ensures
            final(router)@.wf(),
            final(ids).wf(),
            final(ids).follows(*old(ids)),
            forall|all: Seq<Seq<char>>| #[trigger]
                final(ids).may_give(all) ==> committed(
                    work(*self, *old(router), old(out)@, *old(ids), false),
                    frames_view(frames@),
                    all,
                ) == work(*self, *final(router), final(out)@, *final(ids), failed),
    {
        let ghost start = work(*self, *router, out@, *ids, false);
        let ghost ids_start = *ids;
        let ghost list = frames_view(frames@);
        let mut failed = false;
        let mut i: usize = 0;
        while i < frames.len()
            invariant
                i <= frames@.len(),
                list == frames_view(frames@),
                router@.wf(),
                ids.wf(),
                ids.follows(ids_start),
                forall|all: Seq<Seq<char>>| #[trigger]
                    ids.may_give(all) ==> committed(start, list.take(i as int), all) == work(
                        *self,
                        *router,
                        out@,
                        *ids,
                        failed,
                    ),
            decreases frames@.len() - i,
        {
            let ghost ids_before = *ids;
            proof {
                assert(list.take(i as int + 1).drop_last() =~= list.take(i as int));
                assert(list.take(i as int + 1).last() == frames@[i as int]@);
            }
            if !failed {
                match self.perform(router, ids, &frames[i], out) {
                    Ok(_) => {
                        let ghost done = work(*self, *router, out@, *ids, false);
                        Self::confirm(&frames[i], out);
                        assert(confirmed(done, frames@[i as int]@) == work(
                            *self,
                            *router,
                            out@,
                            *ids,
                            false,
                        ));
                    },
                    Err(message) => {
                        let ghost done = work(*self, *router, out@, *ids, false);
                        push_reply(out, create_error_frame(message.as_str()));
                        failed = true;
                        assert(refused(done, message@) == work(
                            *self,
                            *router,
                            out@,
                            *ids,
                            true,
                        ));
                    },
                }
            }
            proof {
                ids.follows_on(ids_before, ids_start);
                assert forall|all: Seq<Seq<char>>| #[trigger] ids.may_give(all) implies committed(
                    start,
                    list.take(i as int + 1),
                    all,
                ) == work(*self, *router, out@, *ids, failed) by {
                    assert(ids_before.may_give(all));
                }
            }
            i += 1;
        }
        assert(list.take(i as int) =~= list);
        failed
    }

    /// Reports an error. The connection is to be closed.
    fn refuse(message: &str, out: &mut Vec<Output>) -> (close: bool)
        ensures
            close,
            forall|w: Work|
                w.out == outputs_view(old(out)@) ==> #[trigger] refused(w, message@) == (Work {
                    out: outputs_view(final(out)@),
                    closed: true,
                    ..w
                }),
    {
        push_reply(out, create_error_frame(message));
        true
    }

    /// Begins, commits, or aborts a transaction. Returns whether the connection
    /// is to be closed.
    fn transact(
        &mut self,
        router: &mut PubSubRouter,
        ids: &mut IdSupply,
        frame: &StompFrame<'static>,
        out: &mut Vec<Output>,
    ) -> (close: bool)
        requires
            old(self)@.wf(),
            old(router)@.wf(),
            old(ids).wf(),
        ensures
            final(self)@.wf(),
            final(router)@.wf(),
            final(ids).wf(),
            final(ids).follows(*old(ids)),
            forall|all: Seq<Seq<char>>| #[trigger]
                final(ids).may_give(all) ==> transacted(
                    work(*old(self), *old(router), old(out)@, *old(ids), false),
                    frame@,
                    all,
                ) == work(*final(self), *final(router), final(out)@, *final(ids), close),
    {
        let ghost transactions = self@.transactions;
        let id = match frame.get_header("transaction") {
            Some(id) => id,
            None => {
                return Self::refuse("Missing transaction header", out);
            },
        };
        let i = self.find_transaction(id);
        proof {
            transaction_position_bounds(self@.transactions, id@);
            transactions_stay_in_order(self@, id@, seq![]);
        }
        if frame.is_command("BEGIN") {
            if i < self.transactions.len() {
                let message = text::join("Transaction '", id, "' already active");
                return Self::refuse(message.as_str(), out);
            }
            let begun = Transaction { id: id.to_string(), frames: Vec::new() };
            let ghost fresh = begun.view();
            assert(fresh =~= (TransactionView { id: id@, frames: seq![] }));
            self.transactions.push(begun);
            assert(self@.transactions =~= transactions.push(fresh));
            let ghost done = work(*self, *router, out@, *ids, false);
            Self::confirm(frame, out);
            assert(confirmed(done, frame@) == work(*self, *router, out@, *ids, false));
            return false;
        }
        if i >= self.transactions.len() {
            let message = text::join("Transaction '", id, "' not active");
            return Self::refuse(message.as_str(), out);
        }
        let taken = self.transactions.remove(i);
        assert(taken.view() == transactions[i as int]);
        assert(self@.transactions =~= transactions.remove(i as int));
        if frame.is_command("COMMIT") {
            let failed = self.commit(router, ids, &taken.frames, out);
            if failed {
                return true;
            }
        }
        let ghost done = work(*self, *router, out@, *ids, false);
        Self::confirm(frame, out);
        assert(confirmed(done, frame@) == work(*self, *router, out@, *ids, false));
        false
    }

    /// Handles a `SUBSCRIBE` frame. Returns whether the connection is to be
    /// closed.
    fn subscribe(
        &self,
        router: &mut PubSubRouter,
        frame: &StompFrame<'static>,
        out: &mut Vec<Output>,
    ) -> (close: bool)
        requires
            old(router)@.wf(),
        ensures
            final(router)@.wf(),
            forall|ids: IdSupply|
                subscribing(#[trigger] work(*self, *old(router), old(out)@, ids, false), frame@)
                    == work(*self, *final(router), final(out)@, ids, close),
    {
        let ack_mode = match frame.get_header("ack") {
            Some(mode) => mode,
            None => "auto",
        };
        if self.version == StompVersion::V1_0 && text::text_eq(ack_mode, "client-individual") {
            return Self::refuse("STOMP 1.0 does not support client-individual ack mode", out);
        }
        match (frame.get_header("id"), frame.get_header("destination")) {
            (Some(sub_id), Some(name)) => {
                match router.subscribe(
                    self.conn_id,
                    sub_id.to_string(),
                    name.to_string(),
                    ack_mode.to_string(),
                    self.version,
                    self.sender,
                ) {
                    Err(message) => Self::refuse(message, out),
                    Ok(_) => {
                        Self::confirm(frame, out);
                        false
                    },
                }
            },
            _ => Self::refuse("Missing SUBSCRIBE headers", out),
        }
    }

    /// Handles a frame that is part of no transaction. Returns whether the
    /// connection is to be closed.
    fn handle_now(
        &mut self,
        router: &mut PubSubRouter,
        ids: &mut IdSupply,
        frame: &StompFrame<'static>,
        out: &mut Vec<Output>,
    ) -> (close: bool)
        requires
            old(self)@.wf(),
            old(router)@.wf(),
            old(ids).wf(),
        ensures
            final(self)@.wf(),
            final(router)@.wf(),
            final(ids).wf(),
            final(ids).follows(*old(ids)),
            forall|all: Seq<Seq<char>>| #[trigger]
                final(ids).may_give(all) ==> handled_now(
                    work(*old(self), *old(router), old(out)@, *old(ids), false),
                    frame@,
                    all,
                ) == work(*final(self), *final(router), final(out)@, *final(ids), close),
    {
        let ghost start = work(*self, *router, out@, *ids, false);
        if frame.is_command("BEGIN") || frame.is_command("COMMIT") || frame.is_command("ABORT") {
            return self.transact(router, ids, frame, out);
        }
        if frame.is_command("SUBSCRIBE") {
            let close = self.subscribe(router, frame, out);
            assert(subscribing(start, frame@) == work(*self, *router, out@, *ids, close));
            return close;
        }
        if frame.is_command("UNSUBSCRIBE") {
            match frame.get_header("id") {
                Some(id) => {
                    router.unsubscribe(self.conn_id, id);
                },
                None => {
                    return Self::refuse("Missing UNSUBSCRIBE id", out);
                },
            }
        } else if frame.is_command("SEND") || frame.is_command("ACK") || frame.is_command("NACK") {
            match self.perform(router, ids, frame, out) {
                Ok(_) => {},
                Err(message) => {
                    let ghost done = work(*self, *router, out@, *ids, false);
                    let close = Self::refuse(message.as_str(), out);
                    assert(refused(done, message@) == work(*self, *router, out@, *ids, close));
                    return close;
                },
            }
        } else if frame.is_command("DISCONNECT") {
            Self::confirm(frame, out);
            assert(confirmed(start, frame@) == work(*self, *router, out@, *ids, false));
            return true;
        } else if !frame.is_command("HEARTBEAT") {
            let message = text::pair("Unsupported command: ", frame::cow_text(&frame.command));
            return Self::refuse(message.as_str(), out);
        }
        let ghost done = work(*self, *router, out@, *ids, false);
        Self::confirm(frame, out);
        assert(confirmed(done, frame@) == work(*self, *router, out@, *ids, false));
        false
    }

    /// Handles a frame, and adds what is to be sent to `out`. Returns whether
    /// the connection is to be closed.
    pub fn handle_frame(
        &mut self,
        router: &mut PubSubRouter,
        ids: &mut IdSupply,
        frame: StompFrame<'static>,
        out: &mut Vec<Output>,
    ) -> (close: bool)
        requires
            old(self)@.wf(),
            old(router)@.wf(),
            old(ids).wf(),
        ensures
            final(self)@.wf(),
            final(router)@.wf(),
            final(ids).wf(),
            final(ids).follows(*old(ids)),
            forall|all: Seq<Seq<char>>| #[trigger]
                final(ids).may_give(all) ==> handled(
                    work(*old(self), *old(router), old(out)@, *old(ids), false),
                    frame@,
                    all,
                ) == work(*final(self), *final(router), final(out)@, *final(ids), close),
    {
        if frame.is_command("ACK") || frame.is_command("NACK") {
            if let Err(message) = ack_id_and_subscription(&frame, self.version) {
                return Self::refuse(message.as_str(), out);
            }
        }
        if frame.is_command("SEND") || frame.is_command("ACK") || frame.is_command("NACK") {
            if let Some(id) = frame.get_header("transaction") {
                let i = self.find_transaction(id);
                proof {
                    transaction_position_bounds(self@.transactions, id@);
                }
                if i >= self.transactions.len() {
                    let message = text::join("Transaction '", id, "' not active");
                    return Self::refuse(message.as_str(), out);
                }
                let ghost transactions = self@.transactions;
                let ghost fv = frame@;
                let ghost t = id@;
                let ghost frames = transactions[i as int].frames.push(fv);
                proof {
                    transactions_stay_in_order(self@, t, frames);
                }
                self.transactions[i].frames.push(frame);
                proof {
                    assert(self.transactions@[i as int].view().frames =~= frames);
                    assert(self@.transactions =~= transactions.update(
                        i as int,
                        TransactionView { id: t, frames },
                    ));
                }
                return false;
            }
        }
        self.handle_now(router, ids, &frame, out)
    }

    /// Handles what happens on the connection, and adds what is to be sent to
    /// `out`. Returns whether the connection is closed; the router has then
    /// forgotten it.
    pub fn step(
        &mut self,
        router: &mut PubSubRouter,
        ids: &mut IdSupply,
        event: Event,
        out: &mut Vec<Output>,
    ) -> (close: bool)
        requires
            old(self)@.wf(),
            old(router)@.wf(),
            old(ids).wf(),
        ensures
            final(self)@.wf(),
            final(router)@.wf(),
            final(ids).wf(),
            final(ids).follows(*old(ids)),
            forall|all: Seq<Seq<char>>| #[trigger]
                final(ids).may_give(all) ==> stepped(
                    work(*old(self), *old(router), old(out)@, *old(ids), false),
                    event,
                    all,
                ) == work(*final(self), *final(router), final(out)@, *final(ids), close),
    {
        let ghost start = work(*self, *router, out@, *ids, false);
        let close = match event {
            Event::Frame(frame) => self.handle_frame(router, ids, frame, out),
            Event::Closed => true,
            Event::ReadError => true,
            Event::TimedOut => true,
        };
        let ghost done = work(*self, *router, out@, *ids, close);
        if close {
            let ghost ids_before = *ids;
            let mut deliveries: Vec<Delivery> = Vec::new();
            assert(start_of(done) =~= router::progress(*router, deliveries@, *ids));
            router.clean_connection(self.conn_id, ids, &mut deliveries);
            let ghost made = router::deliveries_view(deliveries@);
            push_deliveries(out, deliveries);
            proof {
                ids.follows_on(ids_before, *old(ids));
                assert forall|all: Seq<Seq<char>>| #[trigger] ids.may_give(all) implies stepped(
                    start,
                    event,
                    all,
                ) == work(*self, *router, out@, *ids, true) by {
                    assert(ids_before.may_give(all));
                    let p = router::cleaned(start_of(done), self@.conn_id, all);
                    assert(p.out == made);
                    assert(ended(done, all) =~= work(*self, *router, out@, *ids, true));
                    assert(ended(start, all) == ended(
                        Work { closed: true, ..start },
                        all,
                    ));
                }
            }
        }
        close
    }
}

} // verus!
