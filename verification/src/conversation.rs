//! What a client can rely on once its connection is open.

use crate::destination::{self, DestinationKind};
use crate::frame::{self, FrameView, Header, StompVersion};
use crate::lists;
use crate::ident::IdSupply;
use crate::router::{self, Progress, PubSubRouter, SubscriptionView, TargetView};
use crate::routing;
use crate::session::{self, Event, Output, OutputView, Session, SessionView, Work};
use vstd::prelude::*;

verus! {

/// Carrying out a frame changes neither the session nor whether it is closed,
/// and takes back no output.
proof fn performed_keeps(w: Work, frame: FrameView, ids: Seq<Seq<char>>)
    ensures
        ({
            let after = match session::performed(w, frame, ids) {
                Ok(after) => after,
                Err((after, _)) => after,
            };
            after.session == w.session && after.closed == w.closed && after.out.len()
                >= w.out.len()
        }),
{
}

proof fn committed_keeps(w: Work, frames: Seq<FrameView>, ids: Seq<Seq<char>>)
    requires
        !w.closed,
    ensures
        ({
            let after = session::committed(w, frames, ids);
            &&& after.session == w.session
            &&& after.closed ==> reports_an_error(after)
        }),
    decreases frames.len(),
{
    if frames.len() > 0 {
        committed_keeps(w, frames.drop_last(), ids);
        let before = session::committed(w, frames.drop_last(), ids);
        if !before.closed {
            performed_keeps(before, frames.last(), ids);
            if let Err((after, message)) = session::performed(before, frames.last(), ids) {
                refusals_report(after, message);
            }
        }
    }
}

/// Whether the last output is an error, reported on this connection.
pub open spec fn reports_an_error(w: Work) -> bool {
    &&& w.out.len() > 0
    &&& exists|message: Seq<char>|
        w.out.last() == OutputView::Reply(#[trigger] session::error_frame(message))
}

/// A refusal is reported, and closes the connection.
pub proof fn refusals_report(w: Work, message: Seq<char>)
    ensures
        session::refused(w, message).closed,
        reports_an_error(session::refused(w, message)),
        session::refused(w, message).router == w.router,
        session::refused(w, message).session == w.session,
{
    let after = session::refused(w, message);
    assert(after.out.last() == OutputView::Reply(session::error_frame(message)));
}

/// The server closes a connection only when it is asked to, or after it has
/// reported an error on it.
pub proof fn closing_is_explained(w: Work, frame: FrameView, ids: Seq<Seq<char>>)
    requires
        !w.closed,
    ensures
        session::handled(w, frame, ids).closed ==> frame.command == "DISCONNECT"@
            || reports_an_error(session::handled(w, frame, ids)),
        session::handled(w, frame, ids).session.conn_id == w.session.conn_id,
        session::handled(w, frame, ids).session.version == w.session.version,
{
    let acks = frame.command == "ACK"@ || frame.command == "NACK"@;
    let transaction = frame::header(frame.headers, "transaction"@);
    let all = w.session.transactions;
    if acks && session::ack_target(frame, w.session.version) is Err {
        refusals_report(w, session::ack_target(frame, w.session.version)->Err_0);
    } else if session::is_transactional(frame.command) && transaction is Some {
        refusals_report(w, session::transaction_error(transaction->0, "' not active"@));
    } else if frame.command == "BEGIN"@ || frame.command == "COMMIT"@ || frame.command
        == "ABORT"@ {
        refusals_report(w, "Missing transaction header"@);
        if let Some(id) = transaction {
            refusals_report(w, session::transaction_error(id, "' not active"@));
            refusals_report(w, session::transaction_error(id, "' already active"@));
            let i = session::transaction_position(all, id);
            if i < all.len() {
                committed_keeps(
                    session::with_transactions(w, all.remove(i)),
                    all[i].frames,
                    ids,
                );
            }
        }
    } else if frame.command == "SUBSCRIBE"@ {
        refusals_report(w, "STOMP 1.0 does not support client-individual ack mode"@);
        refusals_report(w, "Missing SUBSCRIBE headers"@);
        refusals_report(w, "Unknown destination"@);
        refusals_report(w, "Queue subscriptions must use an exact destination"@);
    } else if frame.command == "UNSUBSCRIBE"@ {
        refusals_report(w, "Missing UNSUBSCRIBE id"@);
    } else if session::is_transactional(frame.command) {
        performed_keeps(w, frame, ids);
        if let Err((done, message)) = session::performed(w, frame, ids) {
            refusals_report(done, message);
        }
    } else {
        refusals_report(w, "Unsupported command: "@ + frame.command);
    }
}

/// A request that asks for a receipt, is not refused, and is no part of a
/// transaction is confirmed, under the first receipt that it names. So is a
/// request to disconnect.
pub proof fn requests_are_confirmed(w: Work, frame: FrameView, ids: Seq<Seq<char>>)
    requires
        !w.closed,
        frame::header(frame.headers, "receipt"@) is Some,
        !((frame.command == "SEND"@ || frame.command == "ACK"@ || frame.command == "NACK"@)
            && frame::header(frame.headers, "transaction"@) is Some),
    ensures
        ({
            let after = session::handled(w, frame, ids);
            !after.closed || frame.command == "DISCONNECT"@ ==> after.out.len() > 0
                && after.out.last() == OutputView::Reply(
                session::receipt_frame(frame::header(frame.headers, "receipt"@)->0),
            )
        }),
{
    reveal_strlit("DISCONNECT");
    reveal_strlit("ACK");
    reveal_strlit("NACK");
    reveal_strlit("SEND");
    reveal_strlit("BEGIN");
    reveal_strlit("COMMIT");
    reveal_strlit("ABORT");
    reveal_strlit("SUBSCRIBE");
    reveal_strlit("UNSUBSCRIBE");
    if frame.command == "DISCONNECT"@ {
        assert(frame.command.len() == 10);
        assert(frame.command[0] == 'D');
    }
}

/// A frame that is part of a transaction has no effect before the transaction
/// ends: it is kept, after those that came before it, and nothing is sent.
pub proof fn transactional_frames_wait(
    w: Work,
    frame: FrameView,
    ids: Seq<Seq<char>>,
    id: Seq<char>,
    i: int,
)
    requires
        w.session.wf(),
        frame.command == "SEND"@ || ((frame.command == "ACK"@ || frame.command == "NACK"@)
            && session::ack_target(frame, w.session.version) is Ok),
        frame::header(frame.headers, "transaction"@) == Some(id),
        0 <= i < w.session.transactions.len(),
        w.session.transactions[i].id == id,
    ensures
        ({
            let after = session::handled(w, frame, ids);
            &&& after.router == w.router
            &&& after.out == w.out
            &&& after.used == w.used
            &&& after.closed == w.closed
            &&& after.session.transactions == w.session.transactions.update(
                i,
                session::TransactionView {
                    id,
                    frames: w.session.transactions[i].frames.push(frame),
                },
            )
        }),
{
    reveal_strlit("ACK");
    reveal_strlit("NACK");
    reveal_strlit("SEND");
    assert("SEND"@[0] == 'S' && "ACK"@[0] == 'A' && "NACK"@[0] == 'N');
    transaction_is_found(w.session, id, i);
}

/// The position of a transaction that has begun.
proof fn transaction_is_found(s: SessionView, id: Seq<char>, i: int)
    requires
        s.wf(),
        0 <= i < s.transactions.len(),
        s.transactions[i].id == id,
    ensures
        session::transaction_position(s.transactions, id) == i,
{
    session::transaction_position_bounds(s.transactions, id);
    let k = session::transaction_position(s.transactions, id);
    if k < i {
        assert(s.transactions[k].id != s.transactions[i].id);
    }
}

/// Aborting a transaction discards its frames: nothing is routed, and no frame
/// of it is kept.
pub proof fn aborting_discards(
    w: Work,
    frame: FrameView,
    ids: Seq<Seq<char>>,
    id: Seq<char>,
    i: int,
)
    requires
        w.session.wf(),
        frame.command == "ABORT"@,
        frame::header(frame.headers, "transaction"@) == Some(id),
        0 <= i < w.session.transactions.len(),
        w.session.transactions[i].id == id,
    ensures
        ({
            let after = session::handled(w, frame, ids);
            &&& after.router == w.router
            &&& after.used == w.used
            &&& after.closed == w.closed
            &&& after.session.transactions == w.session.transactions.remove(i)
            &&& after.out == session::confirmed(w, frame).out
        }),
{
    reveal_strlit("ABORT");
    reveal_strlit("BEGIN");
    reveal_strlit("COMMIT");
    reveal_strlit("ACK");
    reveal_strlit("NACK");
    reveal_strlit("SEND");
    assert("ABORT"@[0] != "BEGIN"@[0] && "ABORT"@[0] != "COMMIT"@[0]);
    assert("ABORT"@.len() != "ACK"@.len() && "ABORT"@.len() != "NACK"@.len() && "ABORT"@.len()
        != "SEND"@.len());
    transaction_is_found(w.session, id, i);
}

/// Committing a transaction carries out its frames in the order in which they
/// came.
pub proof fn committing_carries_out(
    w: Work,
    frame: FrameView,
    ids: Seq<Seq<char>>,
    id: Seq<char>,
    i: int,
)
    requires
        w.session.wf(),
        frame.command == "COMMIT"@,
        frame::header(frame.headers, "transaction"@) == Some(id),
        0 <= i < w.session.transactions.len(),
        w.session.transactions[i].id == id,
    ensures
        ({
            let all = w.session.transactions;
            let done = session::committed(
                session::with_transactions(w, all.remove(i)),
                all[i].frames,
                ids,
            );
            session::handled(w, frame, ids) == if done.closed {
                done
            } else {
                session::confirmed(done, frame)
            }
        }),
{
    reveal_strlit("BEGIN");
    reveal_strlit("COMMIT");
    reveal_strlit("ACK");
    reveal_strlit("NACK");
    reveal_strlit("SEND");
    assert("COMMIT"@.len() == 6);
    transaction_is_found(w.session, id, i);
}

/// Carrying out frames is done one part after the other.
pub proof fn committing_goes_in_order(
    w: Work,
    first: Seq<FrameView>,
    rest: Seq<FrameView>,
    ids: Seq<Seq<char>>,
)
    requires
        !session::committed(w, first, ids).closed,
    ensures
        session::committed(w, first + rest, ids) == session::committed(
            session::committed(w, first, ids),
            rest,
            ids,
        ),
    decreases rest.len(),
{
    if rest.len() == 0 {
        assert(first + rest =~= first);
    } else {
        assert((first + rest).drop_last() =~= first + rest.drop_last());
        committing_goes_in_order(w, first, rest.drop_last(), ids);
    }
}

/// An acknowledgement is checked when it comes, also inside a transaction.
pub proof fn acknowledgements_are_checked(w: Work, frame: FrameView, ids: Seq<Seq<char>>)
    requires
        frame.command == "ACK"@ || frame.command == "NACK"@,
        session::ack_target(frame, w.session.version) is Err,
    ensures
        session::handled(w, frame, ids) == session::refused(
            w,
            session::ack_target(frame, w.session.version)->Err_0,
        ),
{
}

/// A message to, or a subscription of, an unknown destination is refused, and so
/// is a subscription of queues by a wildcard. The router does not change.
pub proof fn bad_destinations_are_refused(
    w: Work,
    frame: FrameView,
    ids: Seq<Seq<char>>,
    name: Seq<char>,
)
    requires
        frame::header(frame.headers, "destination"@) == Some(name),
        frame.command == "SEND"@ ==> {
            &&& frame::header(frame.headers, "transaction"@) is None
            &&& destination::kind_of(name) is None
        },
        frame.command != "SEND"@ ==> {
            &&& frame.command == "SUBSCRIBE"@
            &&& destination::kind_of(name) is None || (destination::kind_of(name) == Some(
                DestinationKind::Queue,
            ) && destination::has_wildcard(name))
        },
    ensures
        session::handled(w, frame, ids).closed,
        reports_an_error(session::handled(w, frame, ids)),
        session::handled(w, frame, ids).router == w.router,
{
    reveal_strlit("ACK");
    reveal_strlit("NACK");
    reveal_strlit("SEND");
    reveal_strlit("SUBSCRIBE");
    reveal_strlit("UNSUBSCRIBE");
    reveal_strlit("BEGIN");
    reveal_strlit("COMMIT");
    reveal_strlit("ABORT");
    assert("SEND"@[0] == 'S' && "SUBSCRIBE"@[0] == 'S');
    assert("ACK"@[0] == 'A' && "NACK"@[0] == 'N' && "BEGIN"@[0] == 'B' && "COMMIT"@[0] == 'C'
        && "ABORT"@[0] == 'A' && "UNSUBSCRIBE"@[0] == 'U');
    assert("SEND"@.len() != "SUBSCRIBE"@.len());
    if frame.command == "SEND"@ {
        refusals_report(Work { used: w.used + 1, ..w }, "Unknown destination"@);
    } else {
        refusals_report(w, "STOMP 1.0 does not support client-individual ack mode"@);
        refusals_report(w, "Missing SUBSCRIBE headers"@);
        refusals_report(w, "Unknown destination"@);
        refusals_report(w, "Queue subscriptions must use an exact destination"@);
    }
}

/// Once a connection is closed, the router knows nothing of it.
pub proof fn closed_connections_are_forgotten(w: Work, event: Event, ids: Seq<Seq<char>>)
    requires
        !w.closed,
    ensures
        session::stepped(w, event, ids).closed ==> !routing::knows(
            session::stepped(w, event, ids).router,
            w.session.conn_id,
        ),
{
    if let Event::Frame(f) = event {
        closing_is_explained(w, f@, ids);
        let done = session::handled(w, f@, ids);
        routing::ended_connections_are_forgotten(
            session::start_of(done),
            w.session.conn_id,
            ids,
        );
    }
    routing::ended_connections_are_forgotten(session::start_of(w), w.session.conn_id, ids);
}

/// A message holds what was sent, body and headers, but for what concerns the
/// sender alone: the receipt, the transaction, and a header `ack`.
pub proof fn messages_hold_what_was_sent(
    frame: FrameView,
    message_id: Seq<char>,
    name: Seq<char>,
)
    ensures
        ({
            let message = session::message_of(frame, message_id);
            &&& message.body == frame.body
            &&& frame::header(message.headers, "receipt"@) is None
            &&& frame::header(message.headers, "ack"@) is None
            &&& frame::header(message.headers, "transaction"@) is None
            &&& frame::header(message.headers, "message-id"@) is Some
            &&& name != "receipt"@ && name != "ack"@ && name != "transaction"@ && name
                != "message-id"@ ==> frame::header(message.headers, name) == frame::header(
                frame.headers,
                name,
            )
        }),
{
    reveal_strlit("receipt");
    reveal_strlit("ack");
    reveal_strlit("transaction");
    reveal_strlit("message-id");
    assert("receipt"@.len() == 7 && "ack"@.len() == 3 && "transaction"@.len() == 11
        && "message-id"@.len() == 10);
    let last = ("message-id"@, message_id);
    header_survives(frame, "receipt"@, last);
    header_survives(frame, "ack"@, last);
    header_survives(frame, "transaction"@, last);
    header_survives(frame, "message-id"@, last);
    header_survives(frame, name, last);
}

/// What a message keeps of the headers that were sent.
proof fn header_survives(frame: FrameView, name: Seq<char>, last: frame::Header)
    ensures
        ({
            let a = frame::without(frame.headers, "receipt"@);
            let b = frame::without(a, "ack"@);
            let c = frame::without(b, "transaction"@);
            let kept = if name == "receipt"@ || name == "ack"@ || name == "transaction"@ {
                None
            } else {
                frame::header(frame.headers, name)
            };
            frame::header(c.push(last), name) == match kept {
                Some(value) => Some(value),
                None => if last.0 == name {
                    Some(last.1)
                } else {
                    None
                },
            }
        }),
{
    let a = frame::without(frame.headers, "receipt"@);
    let b = frame::without(a, "ack"@);
    let c = frame::without(b, "transaction"@);
    frame::header_of_without(frame.headers, "receipt"@, name);
    frame::header_of_without(a, "ack"@, name);
    frame::header_of_without(b, "transaction"@, name);
    frame::header_of_push(c, last, name);
}

/// Whether an output brings a message to a subscription.
pub open spec fn passes_on(out: OutputView, message: FrameView, sub: SubscriptionView) -> bool {
    out matches OutputView::Deliver(d) && routing::brings(d, message, sub)
}

/// What is sent to a topic, outside a transaction, is broadcast: each
/// subscription that listens gets one message with the body that was sent.
pub proof fn what_is_sent_to_a_topic_is_broadcast(
    w: Work,
    frame: FrameView,
    ids: Seq<Seq<char>>,
    name: Seq<char>,
)
    requires
        frame.command == "SEND"@,
        frame::header(frame.headers, "transaction"@) is None,
        frame::header(frame.headers, "destination"@) == Some(name),
        destination::kind_of(name) == Some(DestinationKind::Topic),
    ensures
        ({
            let targets = router::topic_targets(w.router.topics, name);
            let message = session::message_of(frame, ids[w.used as int]);
            let after = session::handled(w, frame, ids);
            &&& after.out.len() >= w.out.len() + targets.len()
            &&& after.out.take(w.out.len() as int) == w.out
            &&& forall|i: int|
                0 <= i < targets.len() ==> passes_on(
                    #[trigger] after.out[w.out.len() + i],
                    message,
                    targets[i],
                )
            &&& message.body == frame.body
        }),
{
    reveal_strlit("SEND");
    reveal_strlit("ACK");
    reveal_strlit("NACK");
    reveal_strlit("BEGIN");
    reveal_strlit("COMMIT");
    reveal_strlit("ABORT");
    reveal_strlit("SUBSCRIBE");
    reveal_strlit("UNSUBSCRIBE");
    assert("SEND"@.len() == 4 && "SEND"@[0] == 'S' && "NACK"@[0] == 'N' && "ACK"@.len() == 3);
    assert("BEGIN"@.len() == 5 && "COMMIT"@.len() == 6 && "ABORT"@.len() == 5
        && "SUBSCRIBE"@.len() == 9 && "UNSUBSCRIBE"@.len() == 11);
    let targets = router::topic_targets(w.router.topics, name);
    let message = session::message_of(frame, ids[w.used as int]);
    let numbered = Work { used: w.used + 1, ..w };
    let start = session::start_of(numbered);
    routing::topics_broadcast(start, name, message, ids);
    let p = router::published(start, name, message, ids);
    let done = session::routed(numbered, p);
    let after = session::handled(w, frame, ids);
    assert(after == session::confirmed(done, frame));
    let n = w.out.len() as int;
    assert(after.out.take(n) =~= w.out) by {
        assert forall|k: int| 0 <= k < n implies after.out[k] == w.out[k] by {
            assert(done.out[k] == w.out[k]);
        }
    }
    assert forall|i: int| 0 <= i < targets.len() implies passes_on(
        #[trigger] after.out[n + i],
        message,
        targets[i],
    ) by {
        assert(done.out[n + i] == OutputView::Deliver(p.out[0 + i]));
        assert(routing::brings(p.out[start.out.len() + i], message, targets[i]));
    }
}

/// Where nothing is to be acknowledged, a delivery has no header `ack`; where a
/// client of version 1.2 is to acknowledge, the header names the delivery that
/// then waits.
pub proof fn deliveries_say_what_to_acknowledge(
    at: Progress,
    sub: SubscriptionView,
    name: Seq<char>,
    frame: FrameView,
    message_id: Seq<char>,
    ids: Seq<Seq<char>>,
)
    ensures
        ({
            let message = session::message_of(frame, message_id);
            let after = router::delivered(at, sub, name, message, ids);
            let ack = frame::header(after.out.last().frame.headers, "ack"@);
            if router::waits_for_ack(sub.ack_mode) {
                &&& after.router.pending.last().delivery_id == ids[at.used as int]
                &&& after.router.pending.last().conn_id == sub.conn_id
                &&& sub.version == StompVersion::V1_2 ==> ack == Some(
                    after.router.pending.last().delivery_id,
                )
            } else {
                &&& ack is None
                &&& after.router == at.router
            }
        }),
{
    let message = session::message_of(frame, message_id);
    messages_hold_what_was_sent(frame, message_id, seq![]);
    routing::messages_are_marked(message, sub, Some(ids[at.used as int]), seq![]);
    routing::messages_are_marked(message, sub, None, seq![]);
}

/// No two commands have the same name.
proof fn commands_differ()
    ensures
        "SEND"@.len() == 4 && "SEND"@[0] == 'S',
        "ACK"@.len() == 3 && "ACK"@[0] == 'A',
        "NACK"@.len() == 4 && "NACK"@[0] == 'N',
        "BEGIN"@.len() == 5 && "BEGIN"@[0] == 'B',
        "COMMIT"@.len() == 6 && "COMMIT"@[0] == 'C',
        "ABORT"@.len() == 5 && "ABORT"@[0] == 'A',
        "SUBSCRIBE"@.len() == 9 && "SUBSCRIBE"@[0] == 'S',
        "UNSUBSCRIBE"@.len() == 11 && "UNSUBSCRIBE"@[0] == 'U',
        "DISCONNECT"@.len() == 10 && "DISCONNECT"@[0] == 'D',
        "HEARTBEAT"@.len() == 9 && "HEARTBEAT"@[0] == 'H',
{
    reveal_strlit("SEND");
    reveal_strlit("ACK");
    reveal_strlit("NACK");
    reveal_strlit("BEGIN");
    reveal_strlit("COMMIT");
    reveal_strlit("ABORT");
    reveal_strlit("SUBSCRIBE");
    reveal_strlit("UNSUBSCRIBE");
    reveal_strlit("DISCONNECT");
    reveal_strlit("HEARTBEAT");
}

/// A confirmation is one frame on the connection that asked for it, and it names
/// the receipt. Where none is asked for there is none. Nothing else changes.
pub proof fn confirmations_name_the_receipt(w: Work, frame: FrameView)
    ensures
        ({
            let after = session::confirmed(w, frame);
            &&& after.session == w.session
            &&& after.router == w.router
            &&& after.used == w.used
            &&& after.closed == w.closed
            &&& match frame::header(frame.headers, "receipt"@) {
                None => after.out == w.out,
                Some(id) => {
                    &&& after.out.len() == w.out.len() + 1
                    &&& after.out.drop_last() == w.out
                    &&& after.out.last() matches OutputView::Reply(receipt)
                    &&& receipt.command == "RECEIPT"@
                    &&& receipt.headers == seq![("receipt-id"@, id)]
                    &&& receipt.body is None
                },
            }
        }),
{
    assert(session::confirmed(w, frame).out.len() > w.out.len() ==> session::confirmed(
        w,
        frame,
    ).out.drop_last() =~= w.out);
}

/// A refusal is one frame on the connection, and it says what is wrong. The
/// connection is closed, and nothing else changes.
pub proof fn refusals_say_why(w: Work, message: Seq<char>)
    ensures
        ({
            let after = session::refused(w, message);
            &&& after.closed
            &&& after.session == w.session
            &&& after.router == w.router
            &&& after.used == w.used
            &&& after.out.len() == w.out.len() + 1
            &&& after.out.drop_last() == w.out
            &&& after.out.last() matches OutputView::Reply(error)
            &&& error.command == "ERROR"@
            &&& error.headers == seq![("message"@, message)]
            &&& error.body is None
        }),
{
    assert(session::refused(w, message).out.drop_last() =~= w.out);
}

/// Beginning a transaction adds it, with no frames yet, after those that are
/// active, and takes none of them away. One that is active cannot be begun again.
pub proof fn beginning_adds_a_transaction(
    w: Work,
    frame: FrameView,
    ids: Seq<Seq<char>>,
    id: Seq<char>,
)
    requires
        frame.command == "BEGIN"@,
        frame::header(frame.headers, "transaction"@) == Some(id),
    ensures
        ({
            let after = session::handled(w, frame, ids);
            let before = w.session.transactions;
            if exists|i: int| 0 <= i < before.len() && (#[trigger] before[i]).id == id {
                after == session::refused(w, "Transaction '"@ + id + "' already active"@)
            } else {
                &&& after.session.transactions.len() == before.len() + 1
                &&& forall|i: int|
                    0 <= i < before.len() ==> #[trigger] after.session.transactions[i]
                        == before[i]
                &&& after.session.transactions.last().id == id
                &&& after.session.transactions.last().frames.len() == 0
                &&& after.session.conn_id == w.session.conn_id
                &&& after.session.version == w.session.version
                &&& after.session.sender == w.session.sender
                &&& after.router == w.router
                &&& after.used == w.used
                &&& after.closed == w.closed
                &&& after.out == session::confirmed(w, frame).out
            }
        }),
{
    commands_differ();
    let before = w.session.transactions;
    session::transaction_position_bounds(before, id);
    let k = session::transaction_position(before, id);
    if k < before.len() {
        assert(before[k].id == id);
    }
}

/// A transaction that is not active can neither be committed nor aborted, and
/// nothing can be made part of it. To begin, commit, or abort one its name must
/// be given.
pub proof fn transactions_must_be_active(
    w: Work,
    frame: FrameView,
    ids: Seq<Seq<char>>,
)
    requires
        frame.command == "SEND"@ || frame.command == "COMMIT"@ || frame.command == "ABORT"@ || ((
        frame.command == "ACK"@ || frame.command == "NACK"@) && session::ack_target(
            frame,
            w.session.version,
        ) is Ok),
    ensures
        ({
            let after = session::handled(w, frame, ids);
            match frame::header(frame.headers, "transaction"@) {
                Some(id) => (forall|i: int|
                    0 <= i < w.session.transactions.len() ==> (
                    #[trigger] w.session.transactions[i]).id != id) ==> after == session::refused(
                    w,
                    "Transaction '"@ + id + "' not active"@,
                ),
                None => frame.command == "COMMIT"@ || frame.command == "ABORT"@ ==> after
                    == session::refused(w, "Missing transaction header"@),
            }
        }),
{
    commands_differ();
    if let Some(id) = frame::header(frame.headers, "transaction"@) {
        session::transaction_position_bounds(w.session.transactions, id);
    }
}

/// A transaction begins by name only.
pub proof fn transactions_begin_by_name(w: Work, frame: FrameView, ids: Seq<Seq<char>>)
    requires
        frame.command == "BEGIN"@,
        frame::header(frame.headers, "transaction"@) is None,
    ensures
        session::handled(w, frame, ids) == session::refused(w, "Missing transaction header"@),
{
    commands_differ();
}

proof fn handled_keeps_identity(w: Work, frame: FrameView, ids: Seq<Seq<char>>)
    requires
        !w.closed,
    ensures
        ({
            let after = session::handled(w, frame, ids);
            &&& after.session.conn_id == w.session.conn_id
            &&& after.session.version == w.session.version
            &&& after.session.sender == w.session.sender
        }),
{
    let all = w.session.transactions;
    if let Some(id) = frame::header(frame.headers, "transaction"@) {
        let i = session::transaction_position(all, id);
        if i < all.len() {
            committed_keeps(session::with_transactions(w, all.remove(i)), all[i].frames, ids);
        }
    }
    performed_keeps(w, frame, ids);
}

/// Whatever comes, a session stays that of its connection, speaks the same
/// version, and is reached under the same number.
pub proof fn sessions_stay_the_same(w: Work, event: Event, ids: Seq<Seq<char>>)
    requires
        !w.closed,
    ensures
        ({
            let after = session::stepped(w, event, ids);
            &&& after.session.conn_id == w.session.conn_id
            &&& after.session.version == w.session.version
            &&& after.session.sender == w.session.sender
        }),
{
    if let Event::Frame(f) = event {
        handled_keeps_identity(w, f@, ids);
    }
}

/// A transaction that is active stays so, with all its frames in their order,
/// whatever comes, unless it is committed or aborted by name. Only a frame that
/// is part of it is added to it.
pub proof fn transactions_end_only_when_asked(
    w: Work,
    frame: FrameView,
    ids: Seq<Seq<char>>,
    i: int,
)
    requires
        !w.closed,
        w.session.wf(),
        0 <= i < w.session.transactions.len(),
        !((frame.command == "COMMIT"@ || frame.command == "ABORT"@) && frame::header(
            frame.headers,
            "transaction"@,
        ) == Some(w.session.transactions[i].id)),
    ensures
        ({
            let t = w.session.transactions[i];
            let after = session::handled(w, frame, ids).session.transactions;
            exists|k: int|
                0 <= k < after.len() && (#[trigger] after[k]).id == t.id && (after[k].frames
                    == t.frames || (frame::header(frame.headers, "transaction"@) == Some(t.id)
                    && after[k].frames == t.frames.push(frame)))
        }),
{
    commands_differ();
    let all = w.session.transactions;
    let t = all[i];
    let after = session::handled(w, frame, ids).session.transactions;
    performed_keeps(w, frame, ids);
    match frame::header(frame.headers, "transaction"@) {
        None => {
            assert(after == all);
            assert(after[i].id == t.id);
        },
        Some(id) => {
            session::transaction_position_bounds(all, id);
            let k = session::transaction_position(all, id);
            if k < all.len() {
                committed_keeps(
                    session::with_transactions(w, all.remove(k)),
                    all[k].frames,
                    ids,
                );
                if k == i {
                    assert(after[i].id == t.id);
                } else {
                    if frame.command == "COMMIT"@ || frame.command == "ABORT"@ {
                        assert(after == all.remove(k));
                        if i < k {
                            assert(after[i] == t);
                        } else {
                            assert(after[i - 1] == t);
                        }
                    } else {
                        assert(after[i] == t);
                    }
                }
            } else {
                assert(after[i] == t);
            }
        },
    }
}

/// A transaction that was committed or aborted is active no more.
pub proof fn ended_transactions_are_gone(
    w: Work,
    frame: FrameView,
    ids: Seq<Seq<char>>,
    id: Seq<char>,
    k: int,
)
    requires
        !w.closed,
        w.session.wf(),
        frame.command == "COMMIT"@ || frame.command == "ABORT"@,
        frame::header(frame.headers, "transaction"@) == Some(id),
        0 <= k < session::handled(w, frame, ids).session.transactions.len(),
    ensures
        session::handled(w, frame, ids).session.transactions[k].id != id,
{
    commands_differ();
    let all = w.session.transactions;
    session::transaction_position_bounds(all, id);
    let i = session::transaction_position(all, id);
    if i < all.len() {
        committed_keeps(session::with_transactions(w, all.remove(i)), all[i].frames, ids);
        let after = session::handled(w, frame, ids).session.transactions;
        assert(after == all.remove(i));
        if k < i {
            assert(all[k].id != all[i].id);
        } else {
            assert(all[i].id != all[k + 1].id);
        }
    }
}

/// Committing a transaction does with its frame what would have been done with it
/// outside a transaction.
pub proof fn committing_does_what_was_put_off(
    w: Work,
    frame: FrameView,
    ids: Seq<Seq<char>>,
)
    requires
        !w.closed,
        frame.command == "SEND"@ || frame.command == "ACK"@ || frame.command == "NACK"@,
    ensures
        session::committed(w, Seq::empty(), ids) == w,
        session::committed(w, seq![frame], ids) == session::handled(
            w,
            FrameView {
                headers: frame.headers.filter(|h: Header| h.0 != "transaction"@),
                ..frame
            },
            ids,
        ),
{
    commands_differ();
    let not_transaction = |h: Header| h.0 != "transaction"@;
    let plain = FrameView { headers: frame.headers.filter(not_transaction), ..frame };
    assert(plain.headers == frame::without(frame.headers, "transaction"@));
    reveal_strlit("transaction");
    reveal_strlit("receipt");
    reveal_strlit("destination");
    reveal_strlit("message-id");
    reveal_strlit("subscription");
    reveal_strlit("id");
    assert("transaction"@.len() == 11 && "transaction"@[0] == 't');
    assert("destination"@.len() == 11 && "destination"@[0] == 'd');
    frame::header_of_without(frame.headers, "transaction"@, "transaction"@);
    frame::header_of_without(frame.headers, "transaction"@, "receipt"@);
    frame::header_of_without(frame.headers, "transaction"@, "destination"@);
    frame::header_of_without(frame.headers, "transaction"@, "message-id"@);
    frame::header_of_without(frame.headers, "transaction"@, "subscription"@);
    frame::header_of_without(frame.headers, "transaction"@, "id"@);
    assert(seq![frame].drop_last() =~= Seq::<FrameView>::empty());
    assert(session::committed(w, seq![frame].drop_last(), ids) == w);
    assert(session::ack_target(plain, w.session.version) == session::ack_target(
        frame,
        w.session.version,
    ));
    let id = ids[w.used as int];
    messages_keep_what_was_sent(frame, id);
    messages_keep_what_was_sent(plain, id);
    let kept = |h: Header| h.0 != "receipt"@ && h.0 != "ack"@ && h.0 != "transaction"@;
    lists::picks_in_a_row(frame.headers, not_transaction, kept, kept);
    let a = session::message_of(frame, id);
    let b = session::message_of(plain, id);
    assert(a.headers =~= a.headers.drop_last().push(a.headers.last()));
    assert(b.headers =~= b.headers.drop_last().push(b.headers.last()));
    assert(a == b);
    assert(session::performed(w, plain, ids) == session::performed(w, frame, ids));
}

/// A transaction stops at the first frame that fails: what comes after it is not
/// carried out.
pub proof fn committing_stops_at_a_failure(
    w: Work,
    first: Seq<FrameView>,
    rest: Seq<FrameView>,
    ids: Seq<Seq<char>>,
)
    requires
        session::committed(w, first, ids).closed,
    ensures
        session::committed(w, first + rest, ids) == session::committed(w, first, ids),
    decreases rest.len(),
{
    if rest.len() == 0 {
        assert(first + rest =~= first);
    } else {
        assert((first + rest).drop_last() =~= first + rest.drop_last());
        committing_stops_at_a_failure(w, first, rest.drop_last(), ids);
    }
}

/// The headers of a message, all of them and in order: those that were sent, but
/// for the receipt, the transaction and `ack`, and then its identifier.
pub proof fn messages_keep_what_was_sent(frame: FrameView, message_id: Seq<char>)
    ensures
        ({
            let message = session::message_of(frame, message_id);
            &&& message.command == "MESSAGE"@
            &&& message.body == frame.body
            &&& message.headers.len() > 0
            &&& message.headers.last() == ("message-id"@, message_id)
            &&& message.headers.drop_last() == frame.headers.filter(
                |h: Header| h.0 != "receipt"@ && h.0 != "ack"@ && h.0 != "transaction"@,
            )
        }),
{
    let a = |h: Header| h.0 != "receipt"@;
    let b = |h: Header| h.0 != "ack"@;
    let c = |h: Header| h.0 != "transaction"@;
    let ab = |h: Header| h.0 != "receipt"@ && h.0 != "ack"@;
    let abc = |h: Header| h.0 != "receipt"@ && h.0 != "ack"@ && h.0 != "transaction"@;
    lists::picks_in_a_row(frame.headers, a, b, ab);
    lists::picks_in_a_row(frame.headers, ab, c, abc);
    let kept = frame::without(
        frame::without(frame::without(frame.headers, "receipt"@), "ack"@),
        "transaction"@,
    );
    assert(frame::without(frame.headers, "receipt"@) == frame.headers.filter(a));
    assert(frame::without(frame.headers.filter(a), "ack"@) == frame.headers.filter(a).filter(b));
    assert(kept == frame.headers.filter(ab).filter(c));
    assert(session::message_of(frame, message_id).headers.drop_last() =~= kept);
}

/// What is sent, outside a transaction, is published to its destination, under
/// the next identifier; then it is confirmed. One without a destination, or to an
/// unknown one, is refused.
pub proof fn what_is_sent_is_published(w: Work, frame: FrameView, ids: Seq<Seq<char>>)
    requires
        frame.command == "SEND"@,
        frame::header(frame.headers, "transaction"@) is None,
    ensures
        match frame::header(frame.headers, "destination"@) {
            None => session::handled(w, frame, ids) == session::refused(
                w,
                "Missing destination header"@,
            ),
            Some(name) => {
                let after = session::handled(w, frame, ids);
                let start = Progress { router: w.router, out: seq![], used: w.used + 1 };
                let p = router::published(
                    start,
                    name,
                    session::message_of(frame, ids[w.used as int]),
                    ids,
                );
                if destination::kind_of(name) is None {
                    &&& after.closed
                    &&& after.router == w.router
                    &&& after.out == session::refused(w, "Unknown destination"@).out
                } else {
                    let done = Work {
                        session: w.session,
                        router: p.router,
                        out: w.out + p.out.map_values(
                            |d: router::DeliveryView| OutputView::Deliver(d),
                        ),
                        used: p.used,
                        closed: w.closed,
                    };
                    after == session::confirmed(done, frame)
                }
            },
        },
{
    commands_differ();
}

/// What an acknowledgement must say, and what it then means. In version 1.0, the
/// message, and there is no negative one; in version 1.1, the message and the
/// subscription; in version 1.2, the delivery.
pub proof fn acknowledgements_are_read_by_version(frame: FrameView, version: StompVersion)
    ensures
        ({
            let message_id = frame::header(frame.headers, "message-id"@);
            let subscription = frame::header(frame.headers, "subscription"@);
            let id = frame::header(frame.headers, "id"@);
            let read = session::ack_target(frame, version);
            match version {
                StompVersion::V1_0 => {
                    &&& read is Ok <==> frame.command != "NACK"@ && message_id is Some
                    &&& read matches Ok(t) ==> Some(t.id) == message_id
                    &&& read matches Err(e) ==> e == if frame.command == "NACK"@ {
                        "STOMP 1.0 does not support NACK"@
                    } else {
                        "Missing message-id header in "@ + frame.command
                    }
                },
                StompVersion::V1_1 => {
                    &&& read is Ok <==> message_id is Some && subscription is Some
                    &&& read matches Ok(t) ==> Some(t.id) == message_id && t.subscription
                        == subscription
                    &&& read matches Err(e) ==> e == if message_id is None {
                        "Missing message-id header in "@ + frame.command
                    } else {
                        "Missing subscription header in "@ + frame.command + " for STOMP 1.1"@
                    }
                },
                StompVersion::V1_2 => {
                    &&& read is Ok <==> id is Some
                    &&& read matches Ok(t) ==> Some(t.id) == id
                    &&& read matches Err(e) ==> e == "Missing id header in "@ + frame.command
                },
            }
        }),
        session::ack_target(frame, version) matches Ok(t) ==> t.version == version,
{
}

/// An acknowledgement, outside a transaction, settles what it means for the
/// connection that it came on; a negative one also publishes that anew. Then it is
/// confirmed. It changes nothing else.
pub proof fn acknowledgements_are_carried_out(
    w: Work,
    frame: FrameView,
    ids: Seq<Seq<char>>,
    target: TargetView,
)
    requires
        frame.command == "ACK"@ || frame.command == "NACK"@,
        frame::header(frame.headers, "transaction"@) is None,
        session::ack_target(frame, w.session.version) == Ok::<TargetView, Seq<char>>(target),
    ensures
        ({
            let after = session::handled(w, frame, ids);
            let start = Progress { router: w.router, out: seq![], used: w.used };
            let p = router::rejected(start, w.session.conn_id, target, ids);
            let done = if frame.command == "ACK"@ {
                Work {
                    session: w.session,
                    router: router::acknowledged(w.router, w.session.conn_id, target),
                    out: w.out,
                    used: w.used,
                    closed: w.closed,
                }
            } else {
                Work {
                    session: w.session,
                    router: p.router,
                    out: w.out + p.out.map_values(
                        |d: router::DeliveryView| OutputView::Deliver(d),
                    ),
                    used: p.used,
                    closed: w.closed,
                }
            };
            after == session::confirmed(done, frame)
        }),
{
    commands_differ();
}

/// A request to subscribe must give a name for the subscription and a
/// destination, and in version 1.0 cannot ask for individual acknowledgement. The
/// subscription is that of the connection that asked, under the name it gave, and
/// with the mode it asked for, or `auto`.
pub proof fn subscriptions_are_made_as_asked(w: Work, frame: FrameView, ids: Seq<Seq<char>>)
    requires
        frame.command == "SUBSCRIBE"@,
    ensures
        ({
            let id = frame::header(frame.headers, "id"@);
            let name = frame::header(frame.headers, "destination"@);
            let mode = match frame::header(frame.headers, "ack"@) {
                Some(mode) => mode,
                None => "auto"@,
            };
            let after = session::handled(w, frame, ids);
            if w.session.version == StompVersion::V1_0 && mode == "client-individual"@ {
                after == session::refused(
                    w,
                    "STOMP 1.0 does not support client-individual ack mode"@,
                )
            } else if id is None || name is None {
                after == session::refused(w, "Missing SUBSCRIBE headers"@)
            } else {
                match router::subscribed(
                    w.router,
                    name->0,
                    SubscriptionView {
                        conn_id: w.session.conn_id,
                        sub_id: id->0,
                        sender: w.session.sender,
                        ack_mode: mode,
                        version: w.session.version,
                    },
                ) {
                    Err(message) => after == session::refused(w, message),
                    Ok(router) => after == session::confirmed(
                        Work {
                            session: w.session,
                            router,
                            out: w.out,
                            used: w.used,
                            closed: w.closed,
                        },
                        frame,
                    ),
                }
            }
        }),
{
    commands_differ();
}

/// A request to end a subscription must name it, and ends it for the connection
/// that asked. A request to disconnect is confirmed and closes the connection. A
/// heartbeat has no effect, and a command that is unknown is refused.
pub proof fn other_requests_do_what_they_say(w: Work, frame: FrameView, ids: Seq<Seq<char>>)
    ensures
        frame.command == "UNSUBSCRIBE"@ ==> session::handled(w, frame, ids) == match frame::header(
            frame.headers,
            "id"@,
        ) {
            None => session::refused(w, "Missing UNSUBSCRIBE id"@),
            Some(id) => session::confirmed(
                Work {
                    session: w.session,
                    router: router::unsubscribed(w.router, w.session.conn_id, Some(id)),
                    out: w.out,
                    used: w.used,
                    closed: w.closed,
                },
                frame,
            ),
        },
        frame.command == "DISCONNECT"@ ==> {
            let after = session::handled(w, frame, ids);
            &&& after.closed
            &&& after.out == session::confirmed(w, frame).out
            &&& after.router == w.router
            &&& after.session == w.session
            &&& after.used == w.used
        },
        frame.command == "HEARTBEAT"@ ==> session::handled(w, frame, ids) == session::confirmed(
            w,
            frame,
        ),
        frame.command != "SEND"@ && frame.command != "ACK"@ && frame.command != "NACK"@
            && frame.command != "BEGIN"@ && frame.command != "COMMIT"@ && frame.command
            != "ABORT"@ && frame.command != "SUBSCRIBE"@ && frame.command != "UNSUBSCRIBE"@
            && frame.command != "DISCONNECT"@ && frame.command != "HEARTBEAT"@
            ==> session::handled(w, frame, ids) == session::refused(
            w,
            "Unsupported command: "@ + frame.command,
        ),
{
    commands_differ();
}

/// Whatever closes a connection, a frame or its end, the router forgets the
/// connection, and what it left behind is on its way to others, after all that
/// was said before. As long as a connection stays open, nothing is forgotten.
pub proof fn connections_end_when_closed(w: Work, event: Event, ids: Seq<Seq<char>>)
    ensures
        ({
            let done = match event {
                Event::Frame(frame) => session::handled(w, frame@, ids),
                _ => Work { closed: true, ..w },
            };
            let start = Progress { router: done.router, out: seq![], used: done.used };
            let p = router::cleaned(start, done.session.conn_id, ids);
            let after = session::stepped(w, event, ids);
            if done.closed {
                &&& after.closed
                &&& after.session == done.session
                &&& after.router == p.router
                &&& after.used == p.used
                &&& after.out == done.out + p.out.map_values(
                    |d: router::DeliveryView| OutputView::Deliver(d),
                )
            } else {
                after == done
            }
        }),
{
}

/// How far work on a connection has come is told in full: by the session, the
/// router, each output in its place, and by how many identifiers were used.
pub proof fn work_is_told_in_full(
    session: Session,
    router: PubSubRouter,
    out: Seq<Output>,
    supply: IdSupply,
    closed: bool,
    i: int,
)
    ensures
        ({
            let w = session::work(session, router, out, supply, closed);
            &&& w.session == session@
            &&& w.router == router@
            &&& w.used == supply.used()
            &&& w.closed == closed
            &&& w.out.len() == out.len()
            &&& 0 <= i < out.len() ==> match out[i] {
                Output::Deliver(d) => w.out[i] == OutputView::Deliver(d@),
                Output::Reply(f) => w.out[i] == OutputView::Reply(f@),
            }
        }),
{
}

} // verus!
