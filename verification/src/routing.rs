//! What can be relied on when messages are routed.

use crate::destination::{self, DestinationKind};
use crate::frame::{self, FrameView, Header, StompVersion};
use crate::lists;
use crate::router::{
    self, DeliveryView, PendingView, Progress, QueueView, RouterView, SubscriptionView,
    TargetView, TopicView,
};
use vstd::prelude::*;

verus! {

/// A subscriber gets the message with the name of its subscription on it, and
/// otherwise as it was sent. In version 1.2, what must be acknowledged carries
/// the identifier for that; no other delivery is given one.
pub proof fn messages_are_marked(
    message: FrameView,
    sub: SubscriptionView,
    delivery_id: Option<Seq<char>>,
    other: Seq<char>,
)
    ensures
        ({
            let marked = router::message_for(message, sub, delivery_id);
            &&& marked.command == message.command
            &&& marked.body == message.body
            &&& frame::header(marked.headers, "subscription"@) == Some(sub.sub_id)
            &&& other != "subscription"@ && other != "ack"@ ==> frame::header(
                marked.headers,
                other,
            ) == frame::header(message.headers, other)
            &&& frame::header(marked.headers, "ack"@) == if sub.version == StompVersion::V1_2
                && delivery_id is Some {
                delivery_id
            } else {
                frame::header(message.headers, "ack"@)
            }
        }),
{
    reveal_strlit("subscription");
    reveal_strlit("ack");
    assert("subscription"@.len() != "ack"@.len());
    let name = "subscription"@;
    let first = frame::without(message.headers, name).push((name, sub.sub_id));
    frame::replaced_headers_are_seen(message.headers, name, sub.sub_id, other);
    frame::replaced_headers_are_seen(message.headers, name, sub.sub_id, "ack"@);
    if let Some(id) = delivery_id {
        frame::replaced_headers_are_seen(first, "ack"@, id, other);
        frame::replaced_headers_are_seen(first, "ack"@, id, name);
    }
}

/// Whether a subscription is one to a topic that a name matches.
pub open spec fn listens(topics: Seq<TopicView>, name: Seq<char>, sub: SubscriptionView) -> bool {
    exists|i: int|
        0 <= i < topics.len() && destination::path_matches(#[trigger] topics[i].pattern, name)
            && topics[i].subscriptions.contains(sub)
}

/// A message to a topic is for exactly the subscriptions whose pattern matches.
pub proof fn targets_are_the_matching_subscriptions(
    topics: Seq<TopicView>,
    name: Seq<char>,
    sub: SubscriptionView,
)
    ensures
        router::topic_targets(topics, name).contains(sub) <==> listens(topics, name, sub),
    decreases topics.len(),
{
    let all = router::topic_targets(topics, name);
    if topics.len() > 0 {
        let rest = topics.drop_last();
        let last = topics.last();
        let before = router::topic_targets(rest, name);
        targets_are_the_matching_subscriptions(rest, name, sub);
        if listens(rest, name, sub) {
            let i = choose|i: int|
                0 <= i < rest.len() && destination::path_matches(#[trigger] rest[i].pattern, name)
                    && rest[i].subscriptions.contains(sub);
            assert(topics[i] == rest[i]);
            assert(listens(topics, name, sub));
        }
        if all.contains(sub) {
            let k = choose|k: int| 0 <= k < all.len() && all[k] == sub;
            if k < before.len() {
                assert(before[k] == sub);
            } else {
                assert(last.subscriptions[k - before.len()] == sub);
                assert(topics[topics.len() - 1].subscriptions.contains(sub));
            }
        }
        if listens(topics, name, sub) {
            let i = choose|i: int|
                0 <= i < topics.len() && destination::path_matches(
                    #[trigger] topics[i].pattern,
                    name,
                ) && topics[i].subscriptions.contains(sub);
            if i < rest.len() {
                assert(rest[i] == topics[i]);
                assert(before.contains(sub));
                let k = choose|k: int| 0 <= k < before.len() && before[k] == sub;
                assert(all[k] == sub);
            } else {
                let k = choose|k: int| 0 <= k < last.subscriptions.len() && last.subscriptions[k]
                    == sub;
                assert(all[before.len() + k] == sub);
            }
        }
    }
}

/// Whether a delivery brings a message to a subscription: the command, the body,
/// and all headers in their order, but for those that say for which subscription
/// it is and how it is acknowledged.
pub open spec fn brings(
    delivery: DeliveryView,
    message: FrameView,
    sub: SubscriptionView,
) -> bool {
    &&& delivery.sender == sub.sender
    &&& delivery.frame.command == message.command
    &&& delivery.frame.body == message.body
    &&& frame::header(delivery.frame.headers, "subscription"@) == Some(sub.sub_id)
    &&& delivery.frame.headers.filter(|h: Header| h.0 != "subscription"@ && h.0 != "ack"@)
        == message.headers.filter(|h: Header| h.0 != "subscription"@ && h.0 != "ack"@)
}

/// A delivery brings its message.
proof fn deliveries_bring_messages(
    message: FrameView,
    sub: SubscriptionView,
    delivery_id: Option<Seq<char>>,
)
    ensures
        brings(
            DeliveryView {
                sender: sub.sender,
                frame: router::message_for(message, sub, delivery_id),
            },
            message,
            sub,
        ),
{
    messages_are_marked(message, sub, delivery_id, seq![]);
    reveal_strlit("subscription");
    reveal_strlit("ack");
    let not_sub = |h: Header| h.0 != "subscription"@;
    let not_ack = |h: Header| h.0 != "ack"@;
    let neither = |h: Header| h.0 != "subscription"@ && h.0 != "ack"@;
    let name: Header = ("subscription"@, sub.sub_id);
    let kept = message.headers.filter(not_sub);
    let marked = kept.push(name);
    lists::picks_in_a_row(message.headers, not_sub, neither, neither);
    lists::picks_of_push(kept, name, neither);
    assert(frame::without(message.headers, "subscription"@) == kept);
    if let Some(id) = delivery_id {
        lists::picks_in_a_row(marked, not_ack, neither, neither);
        lists::picks_of_push(marked.filter(not_ack), ("ack"@, id), neither);
        assert(frame::without(marked, "ack"@) == marked.filter(not_ack));
    }
}

proof fn delivered_to_all_adds_each(
    at: Progress,
    subs: Seq<SubscriptionView>,
    name: Seq<char>,
    message: FrameView,
    ids: Seq<Seq<char>>,
)
    ensures
        ({
            let after = router::delivered_to_all(at, subs, name, message, ids);
            &&& after.out.len() == at.out.len() + subs.len()
            &&& after.out.take(at.out.len() as int) == at.out
            &&& forall|i: int|
                0 <= i < subs.len() ==> brings(
                    #[trigger] after.out[at.out.len() + i],
                    message,
                    subs[i],
                )
        }),
    decreases subs.len(),
{
    let after = router::delivered_to_all(at, subs, name, message, ids);
    let n = at.out.len() as int;
    if subs.len() > 0 {
        let rest = subs.drop_last();
        let mid = router::delivered_to_all(at, rest, name, message, ids);
        delivered_to_all_adds_each(at, rest, name, message, ids);
        deliveries_bring_messages(message, subs.last(), Some(ids[mid.used as int]));
        deliveries_bring_messages(message, subs.last(), None);
        assert(after.out.take(n) =~= mid.out.take(n));
        assert forall|i: int| 0 <= i < subs.len() implies brings(
            #[trigger] after.out[n + i],
            message,
            subs[i],
        ) by {
            if i < rest.len() {
                assert(after.out[n + i] == mid.out[n + i]);
                assert(rest[i] == subs[i]);
            }
        }
    } else {
        assert(after.out.take(n) =~= at.out);
    }
}

/// A message to a topic is broadcast: every subscription that listens gets it
/// once, and nothing else is sent.
pub proof fn topics_broadcast(
    at: Progress,
    name: Seq<char>,
    message: FrameView,
    ids: Seq<Seq<char>>,
)
    requires
        destination::kind_of(name) == Some(DestinationKind::Topic),
    ensures
        ({
            let targets = router::topic_targets(at.router.topics, name);
            let after = router::published(at, name, message, ids);
            &&& after.out.len() == at.out.len() + targets.len()
            &&& after.out.take(at.out.len() as int) == at.out
            &&& forall|i: int|
                0 <= i < targets.len() ==> brings(
                    #[trigger] after.out[at.out.len() + i],
                    message,
                    targets[i],
                )
        }),
{
    delivered_to_all_adds_each(
        at,
        router::topic_targets(at.router.topics, name),
        name,
        message,
        ids,
    );
}

/// A message to a queue without subscribers is dropped.
pub proof fn queues_without_subscribers_drop(
    at: Progress,
    name: Seq<char>,
    message: FrameView,
    ids: Seq<Seq<char>>,
)
    requires
        destination::kind_of(name) == Some(DestinationKind::Queue),
        forall|i: int|
            0 <= i < at.router.queues.len() && (#[trigger] at.router.queues[i]).destination
                == name ==> at.router.queues[i].subscriptions.len() == 0,
    ensures
        router::published(at, name, message, ids) == at,
{
    router::queue_position_bounds(at.router.queues, name);
}

/// A message to a queue goes to one subscriber, the one whose turn it is, and
/// the turn goes to the next.
pub proof fn queues_deliver_to_one(
    at: Progress,
    name: Seq<char>,
    message: FrameView,
    ids: Seq<Seq<char>>,
    i: int,
)
    requires
        at.router.wf(),
        0 <= i < at.router.queues.len(),
        at.router.queues[i].destination == name,
        at.router.queues[i].subscriptions.len() > 0,
    ensures
        ({
            let queue = at.router.queues[i];
            let after = router::published(at, name, message, ids);
            &&& after.out.len() == at.out.len() + 1
            &&& after.out.drop_last() == at.out
            &&& brings(after.out.last(), message, queue.subscriptions[queue.next_index as int])
            &&& after.router.queues == at.router.queues.update(
                i,
                QueueView {
                    next_index: (queue.next_index + 1) % queue.subscriptions.len(),
                    ..queue
                },
            )
        }),
{
    let queue = at.router.queues[i];
    assert(queue.wf());
    router::queue_position_bounds(at.router.queues, name);
    let k = router::queue_position(at.router.queues, name);
    assert(k == i) by {
        if k < i {
            assert(at.router.queues[k].destination != at.router.queues[i].destination);
        }
    }
    let n = queue.subscriptions.len();
    assert(queue.next_index % n == queue.next_index) by {
        vstd::arithmetic::div_mod::lemma_small_mod(queue.next_index, n);
    }
    let sub = queue.subscriptions[queue.next_index as int];
    deliveries_bring_messages(message, sub, Some(ids[at.used as int]));
    deliveries_bring_messages(message, sub, None);
    let after = router::published(at, name, message, ids);
    assert(after.out.drop_last() =~= at.out);
}

/// Messages to one destination, one after the other.
pub open spec fn all_published(
    at: Progress,
    name: Seq<char>,
    messages: Seq<FrameView>,
    ids: Seq<Seq<char>>,
) -> Progress
    decreases messages.len(),
{
    if messages.len() == 0 {
        at
    } else {
        router::published(
            all_published(at, name, messages.drop_last(), ids),
            name,
            messages.last(),
            ids,
        )
    }
}

/// Messages to a queue go to its subscribers in turn: of a row of messages, the
/// `j`-th goes to the subscriber `j` places after the one whose turn it was.
pub proof fn queues_take_turns(
    at: Progress,
    name: Seq<char>,
    messages: Seq<FrameView>,
    ids: Seq<Seq<char>>,
    i: int,
)
    requires
        at.router.wf(),
        0 <= i < at.router.queues.len(),
        at.router.queues[i].destination == name,
        at.router.queues[i].subscriptions.len() > 0,
    ensures
        ({
            let queue = at.router.queues[i];
            let n = queue.subscriptions.len() as int;
            let after = all_published(at, name, messages, ids);
            &&& after.router.wf()
            &&& after.router.queues == at.router.queues.update(
                i,
                QueueView {
                    next_index: (queue.next_index + messages.len()) % queue.subscriptions.len(),
                    ..queue
                },
            )
            &&& after.out.len() == at.out.len() + messages.len()
            &&& forall|j: int|
                0 <= j < messages.len() ==> brings(
                    #[trigger] after.out[at.out.len() + j],
                    messages[j],
                    queue.subscriptions[(queue.next_index + j) % n],
                )
        }),
    decreases messages.len(),
{
    let queue = at.router.queues[i];
    let n = queue.subscriptions.len() as int;
    assert(queue.wf());
    if messages.len() == 0 {
        vstd::arithmetic::div_mod::lemma_small_mod(queue.next_index, n as nat);
        assert(at.router.queues.update(i, queue) =~= at.router.queues);
    } else {
        let rest = messages.drop_last();
        let last = messages.last();
        let k = rest.len() as int;
        let mid = all_published(at, name, rest, ids);
        queues_take_turns(at, name, rest, ids, i);
        queues_deliver_to_one(mid, name, last, ids, i);
        router::published_keeps_order(mid, name, last, ids);
        let turn = (queue.next_index + k) % n;
        assert((turn + 1) % n == (queue.next_index + k + 1) % n) by {
            vstd::arithmetic::div_mod::lemma_add_mod_noop(queue.next_index + k, 1, n);
            vstd::arithmetic::div_mod::lemma_add_mod_noop(turn, 1, n);
            vstd::arithmetic::div_mod::lemma_mod_twice(queue.next_index + k, n);
        }
        let after = all_published(at, name, messages, ids);
        assert(after.router.queues =~= at.router.queues.update(
            i,
            QueueView {
                next_index: (queue.next_index + messages.len()) % queue.subscriptions.len(),
                ..queue
            },
        ));
        assert forall|j: int| 0 <= j < messages.len() implies brings(
            #[trigger] after.out[at.out.len() + j],
            messages[j],
            queue.subscriptions[(queue.next_index + j) % n],
        ) by {
            if j < k {
                assert(after.out.drop_last()[at.out.len() + j] == mid.out[at.out.len() + j]);
                assert(rest[j] == messages[j]);
            }
        }
    }
}

/// What stays after subscriptions have gone: all the others, and only those.
proof fn others_remain(
    subs: Seq<SubscriptionView>,
    conn_id: u128,
    sub_id: Option<Seq<char>>,
    sub: SubscriptionView,
)
    ensures
        router::remaining(subs, conn_id, sub_id).contains(sub) <==> subs.contains(sub)
            && !router::ends(sub, conn_id, sub_id),
    decreases subs.len(),
{
    reveal(Seq::filter);
    let keep = |s: SubscriptionView| !router::ends(s, conn_id, sub_id);
    let kept = router::remaining(subs, conn_id, sub_id);
    if subs.len() > 0 {
        let rest = subs.drop_last();
        let kept_rest = router::remaining(rest, conn_id, sub_id);
        others_remain(rest, conn_id, sub_id, sub);
        assert(subs.contains(sub) <==> rest.contains(sub) || sub == subs.last()) by {
            if subs.contains(sub) {
                let k = choose|k: int| 0 <= k < subs.len() && subs[k] == sub;
                if k < rest.len() {
                    assert(rest[k] == sub);
                }
            }
            if rest.contains(sub) {
                let k = choose|k: int| 0 <= k < rest.len() && rest[k] == sub;
                assert(subs[k] == sub);
            }
        }
        if keep(subs.last()) {
            assert(kept == kept_rest.push(subs.last()));
            assert(kept[kept_rest.len() as int] == subs.last());
            if kept_rest.contains(sub) {
                let k = choose|k: int| 0 <= k < kept_rest.len() && kept_rest[k] == sub;
                assert(kept[k] == sub);
            }
            if kept.contains(sub) {
                let k = choose|k: int| 0 <= k < kept.len() && kept[k] == sub;
                if k < kept_rest.len() {
                    assert(kept_rest[k] == sub);
                }
            }
        }
    }
}

/// Ending a subscription ends it everywhere, and no other.
pub proof fn ended_subscriptions_are_gone(
    router: RouterView,
    conn_id: u128,
    sub_id: Option<Seq<char>>,
    sub: SubscriptionView,
)
    ensures
        ({
            let after = router::unsubscribed(router, conn_id, sub_id);
            &&& after.topics.len() == router.topics.len()
            &&& after.queues.len() == router.queues.len()
            &&& after.pending == router.pending
            &&& forall|i: int|
                0 <= i < router.topics.len() ==> ((#[trigger] after.topics[i]).subscriptions.contains(
                    sub,
                ) <==> router.topics[i].subscriptions.contains(sub) && !router::ends(
                    sub,
                    conn_id,
                    sub_id,
                ))
            &&& forall|i: int|
                0 <= i < router.queues.len() ==> ((#[trigger] after.queues[i]).subscriptions.contains(
                    sub,
                ) <==> router.queues[i].subscriptions.contains(sub) && !router::ends(
                    sub,
                    conn_id,
                    sub_id,
                ))
        }),
{
    let after = router::unsubscribed(router, conn_id, sub_id);
    assert forall|i: int| 0 <= i < router.topics.len() implies ((
    #[trigger] after.topics[i]).subscriptions.contains(sub) <==> router.topics[i].subscriptions.contains(
        sub,
    ) && !router::ends(sub, conn_id, sub_id)) by {
        others_remain(router.topics[i].subscriptions, conn_id, sub_id, sub);
    }
    assert forall|i: int| 0 <= i < router.queues.len() implies ((
    #[trigger] after.queues[i]).subscriptions.contains(sub) <==> router.queues[i].subscriptions.contains(
        sub,
    ) && !router::ends(sub, conn_id, sub_id)) by {
        others_remain(router.queues[i].subscriptions, conn_id, sub_id, sub);
    }
}

/// Whether a router knows of a connection: by a subscription or by a delivery
/// that waits.
pub open spec fn knows(router: RouterView, conn_id: u128) -> bool {
    ||| exists|i: int, j: int|
        0 <= i < router.topics.len() && 0 <= j < router.topics[i].subscriptions.len()
            && (#[trigger] router.topics[i].subscriptions[j]).conn_id == conn_id
    ||| exists|i: int, j: int|
        0 <= i < router.queues.len() && 0 <= j < router.queues[i].subscriptions.len()
            && (#[trigger] router.queues[i].subscriptions[j]).conn_id == conn_id
    ||| exists|k: int|
        0 <= k < router.pending.len() && (#[trigger] router.pending[k]).conn_id == conn_id
}

/// A filter keeps what it is meant to keep.
proof fn filtered_pending(pending: Seq<PendingView>, keep: spec_fn(PendingView) -> bool)
    ensures
        forall|k: int|
            0 <= k < pending.filter(keep).len() ==> keep(#[trigger] pending.filter(keep)[k])
                && pending.contains(pending.filter(keep)[k]),
        forall|p: PendingView|
            #![trigger pending.filter(keep).contains(p)]
            pending.filter(keep).contains(p) <==> pending.contains(p) && keep(p),
    decreases pending.len(),
{
    reveal(Seq::filter);
    let kept = pending.filter(keep);
    if pending.len() > 0 {
        let rest = pending.drop_last();
        let before = rest.filter(keep);
        filtered_pending(rest, keep);
        assert forall|p: PendingView| pending.contains(p) <==> rest.contains(p) || p
            == pending.last() by {
            if pending.contains(p) {
                let k = choose|k: int| 0 <= k < pending.len() && pending[k] == p;
                if k < rest.len() {
                    assert(rest[k] == p);
                }
            }
            if rest.contains(p) {
                let k = choose|k: int| 0 <= k < rest.len() && rest[k] == p;
                assert(pending[k] == p);
            }
        }
        assert forall|p: PendingView|
            #![trigger kept.contains(p)]
            kept.contains(p) <==> pending.contains(p) && keep(p) by {
            if kept.contains(p) {
                let k = choose|k: int| 0 <= k < kept.len() && kept[k] == p;
                if k < before.len() {
                    assert(before[k] == p);
                    assert(before.contains(p));
                }
            }
            if pending.contains(p) && keep(p) {
                if rest.contains(p) {
                    assert(before.contains(p));
                    let k = choose|k: int| 0 <= k < before.len() && before[k] == p;
                    assert(kept[k] == p);
                } else {
                    assert(kept[kept.len() - 1] == p);
                }
            }
        }
        assert forall|k: int| 0 <= k < kept.len() implies keep(#[trigger] kept[k])
            && pending.contains(kept[k]) by {
            assert(kept.contains(kept[k]));
        }
    }
}

proof fn delivered_stays_unknown(
    at: Progress,
    sub: SubscriptionView,
    name: Seq<char>,
    message: FrameView,
    ids: Seq<Seq<char>>,
    conn_id: u128,
)
    requires
        !knows(at.router, conn_id),
        sub.conn_id != conn_id,
    ensures
        !knows(router::delivered(at, sub, name, message, ids).router, conn_id),
{
    let after = router::delivered(at, sub, name, message, ids).router;
    if router::waits_for_ack(sub.ack_mode) {
        let entry = router::pending_entry(message, sub, name, ids[at.used as int]);
        let keep = |p: PendingView| p.delivery_id != entry.delivery_id;
        filtered_pending(at.router.pending, keep);
        let kept = at.router.pending.filter(keep);
        assert(after.pending == kept.push(entry));
        assert forall|k: int| 0 <= k < after.pending.len() implies (
        #[trigger] after.pending[k]).conn_id != conn_id by {
            if k < kept.len() {
                assert(at.router.pending.contains(kept[k]));
            }
        }
    }
    assert(after.topics == at.router.topics);
    assert(after.queues == at.router.queues);
}

proof fn delivered_to_all_stays_unknown(
    at: Progress,
    subs: Seq<SubscriptionView>,
    name: Seq<char>,
    message: FrameView,
    ids: Seq<Seq<char>>,
    conn_id: u128,
)
    requires
        !knows(at.router, conn_id),
        forall|i: int| 0 <= i < subs.len() ==> (#[trigger] subs[i]).conn_id != conn_id,
    ensures
        !knows(router::delivered_to_all(at, subs, name, message, ids).router, conn_id),
    decreases subs.len(),
{
    if subs.len() > 0 {
        delivered_to_all_stays_unknown(at, subs.drop_last(), name, message, ids, conn_id);
        delivered_stays_unknown(
            router::delivered_to_all(at, subs.drop_last(), name, message, ids),
            subs.last(),
            name,
            message,
            ids,
            conn_id,
        );
    }
}

/// A router that does not know a connection does not come to know it by a
/// message.
proof fn published_stays_unknown(
    at: Progress,
    name: Seq<char>,
    message: FrameView,
    ids: Seq<Seq<char>>,
    conn_id: u128,
)
    requires
        !knows(at.router, conn_id),
    ensures
        !knows(router::published(at, name, message, ids).router, conn_id),
{
    match destination::kind_of(name) {
        None => {},
        Some(DestinationKind::Topic) => {
            let targets = router::topic_targets(at.router.topics, name);
            assert forall|k: int| 0 <= k < targets.len() implies (#[trigger] targets[k]).conn_id
                != conn_id by {
                targets_are_the_matching_subscriptions(at.router.topics, name, targets[k]);
                assert(targets.contains(targets[k]));
                let i = choose|i: int|
                    0 <= i < at.router.topics.len() && destination::path_matches(
                        #[trigger] at.router.topics[i].pattern,
                        name,
                    ) && at.router.topics[i].subscriptions.contains(targets[k]);
                let subs = at.router.topics[i].subscriptions;
                let j = choose|j: int| 0 <= j < subs.len() && subs[j] == targets[k];
                assert(at.router.topics[i].subscriptions[j].conn_id != conn_id);
            }
            delivered_to_all_stays_unknown(at, targets, name, message, ids, conn_id);
        },
        Some(DestinationKind::Queue) => {
            router::queue_position_bounds(at.router.queues, name);
            let i = router::queue_position(at.router.queues, name);
            if i < at.router.queues.len() && at.router.queues[i].subscriptions.len() > 0 {
                let queue = at.router.queues[i];
                let n = queue.subscriptions.len();
                let turn = queue.next_index % n;
                let moved = Progress {
                    router: RouterView {
                        queues: at.router.queues.update(
                            i,
                            QueueView { next_index: (turn + 1) % n, ..queue },
                        ),
                        ..at.router
                    },
                    ..at
                };
                assert(!knows(moved.router, conn_id)) by {
                    assert forall|k: int, j: int|
                        0 <= k < moved.router.queues.len() && 0 <= j
                            < moved.router.queues[k].subscriptions.len() implies (
                    #[trigger] moved.router.queues[k].subscriptions[j]).conn_id != conn_id by {
                        assert(at.router.queues[k].subscriptions[j].conn_id != conn_id);
                    }
                    assert(moved.router.topics == at.router.topics);
                    assert(moved.router.pending == at.router.pending);
                }
                assert(at.router.queues[i].subscriptions[turn as int].conn_id != conn_id);
                delivered_stays_unknown(
                    moved,
                    queue.subscriptions[turn as int],
                    name,
                    message,
                    ids,
                    conn_id,
                );
            }
        },
    }
}

proof fn republished_stays_unknown(
    at: Progress,
    messages: Seq<PendingView>,
    ids: Seq<Seq<char>>,
    conn_id: u128,
)
    requires
        !knows(at.router, conn_id),
    ensures
        !knows(router::republished(at, messages, ids).router, conn_id),
    decreases messages.len(),
{
    if messages.len() > 0 {
        republished_stays_unknown(at, messages.drop_last(), ids, conn_id);
        published_stays_unknown(
            router::republished(at, messages.drop_last(), ids),
            messages.last().destination,
            messages.last().frame,
            ids,
            conn_id,
        );
    }
}

/// Once a connection has ended, the router knows nothing of it: no subscription
/// and no delivery that waits.
pub proof fn ended_connections_are_forgotten(
    at: Progress,
    conn_id: u128,
    ids: Seq<Seq<char>>,
)
    ensures
        !knows(router::cleaned(at, conn_id, ids).router, conn_id),
{
    let left = router::unsubscribed(at.router, conn_id, None);
    let others = |p: PendingView| p.conn_id != conn_id;
    let start = RouterView { pending: left.pending.filter(others), ..left };
    filtered_pending(left.pending, others);
    assert forall|i: int, j: int|
        0 <= i < start.topics.len() && 0 <= j < start.topics[i].subscriptions.len() implies (
    #[trigger] start.topics[i].subscriptions[j]).conn_id != conn_id by {
        let sub = start.topics[i].subscriptions[j];
        ended_subscriptions_are_gone(at.router, conn_id, None, sub);
        assert(left.topics[i].subscriptions.contains(sub));
    }
    assert forall|i: int, j: int|
        0 <= i < start.queues.len() && 0 <= j < start.queues[i].subscriptions.len() implies (
    #[trigger] start.queues[i].subscriptions[j]).conn_id != conn_id by {
        let sub = start.queues[i].subscriptions[j];
        ended_subscriptions_are_gone(at.router, conn_id, None, sub);
        assert(left.queues[i].subscriptions.contains(sub));
    }
    assert(!knows(start, conn_id));
    republished_stays_unknown(
        Progress { router: start, ..at },
        left.pending.filter(|p: PendingView| p.conn_id == conn_id),
        ids,
        conn_id,
    );
}

/// An acknowledgement settles the delivery that it speaks of and, under the mode
/// `client`, the earlier ones of the same subscription. All others still wait.
pub proof fn acknowledgements_settle(
    router: RouterView,
    conn_id: u128,
    target: TargetView,
    k: int,
)
    requires
        router.wf(),
        0 <= k < router.pending.len(),
    ensures
        ({
            let i = router::target_position(router.pending, conn_id, target);
            let p = router.pending[k];
            let after = router::acknowledged(router, conn_id, target);
            &&& after.topics == router.topics
            &&& after.queues == router.queues
            &&& after.pending.contains(p) <==> !(i < router.pending.len() && (k == i || (k < i
                && router::covers(router.pending[i], p))))
        }),
{
    router::target_position_bounds(router.pending, conn_id, target);
    let pending = router.pending;
    let i = router::target_position(pending, conn_id, target);
    let p = pending[k];
    if i < pending.len() {
        let keep = |e: PendingView| !router::covers(pending[i], e);
        let front = pending.take(i);
        let kept = front.filter(keep);
        let back = pending.skip(i + 1);
        let after = router::unsettled(pending, i);
        filtered_pending(front, keep);
        assert(after == kept + back);
        assert(front.contains(p) <==> k < i) by {
            if k < i {
                assert(front[k] == p);
            }
            if front.contains(p) {
                let j = choose|j: int| 0 <= j < front.len() && front[j] == p;
                assert(pending[j] == p);
                if k >= i {
                    assert(pending[j].delivery_id != pending[k].delivery_id);
                }
            }
        }
        assert(back.contains(p) <==> k > i) by {
            if k > i {
                assert(back[k - i - 1] == p);
            }
            if back.contains(p) {
                let j = choose|j: int| 0 <= j < back.len() && back[j] == p;
                assert(pending[j + i + 1] == p);
                if k <= i {
                    assert(pending[k].delivery_id != pending[j + i + 1].delivery_id);
                }
            }
        }
        assert(after.contains(p) <==> kept.contains(p) || back.contains(p)) by {
            if after.contains(p) {
                let j = choose|j: int| 0 <= j < after.len() && after[j] == p;
                if j < kept.len() {
                    assert(kept[j] == p);
                } else {
                    assert(back[j - kept.len()] == p);
                }
            }
            if kept.contains(p) {
                let j = choose|j: int| 0 <= j < kept.len() && kept[j] == p;
                assert(after[j] == p);
            }
            if back.contains(p) {
                let j = choose|j: int| 0 <= j < back.len() && back[j] == p;
                assert(after[kept.len() + j] == p);
            }
        }
    } else {
        assert(pending[k] == p);
    }
}

/// A delivery that was acknowledged by its identifier cannot be acknowledged,
/// nor rejected, again.
pub proof fn acknowledged_once(router: RouterView, conn_id: u128, target: TargetView)
    requires
        router.wf(),
        target.version == StompVersion::V1_2,
    ensures
        ({
            let after = router::acknowledged(router, conn_id, target);
            router::target_position(after.pending, conn_id, target) == after.pending.len()
        }),
{
    let pending = router.pending;
    let after = router::acknowledged(router, conn_id, target);
    router::target_position_bounds(pending, conn_id, target);
    router::target_position_bounds(after.pending, conn_id, target);
    let i = router::target_position(pending, conn_id, target);
    let j = router::target_position(after.pending, conn_id, target);
    if j < after.pending.len() {
        if i < pending.len() {
            router::unsettled_keeps_order(router, i);
            let p = after.pending[j];
            assert(pending.contains(p));
            let k = choose|k: int| 0 <= k < pending.len() && pending[k] == p;
            if k < i {
                assert(pending[k].delivery_id != pending[i].delivery_id);
            } else if k > i {
                assert(pending[i].delivery_id != pending[k].delivery_id);
            }
            acknowledgements_settle(router, conn_id, target, i);
            assert(after.pending.contains(pending[i]));
        }
    }
}

/// Whether someone is subscribed to the queue of that name.
pub open spec fn has_consumer(router: RouterView, name: Seq<char>) -> bool {
    exists|q: int|
        0 <= q < router.queues.len() && (#[trigger] router.queues[q]).destination == name
            && router.queues[q].subscriptions.len() > 0
}

/// Whether a delivery brings a message to one of those who are subscribed to the
/// queue of that name.
pub open spec fn brings_to_consumer(
    delivery: DeliveryView,
    message: FrameView,
    router: RouterView,
    name: Seq<char>,
) -> bool {
    exists|q: int, k: int|
        0 <= q < router.queues.len() && router.queues[q].destination == name && 0 <= k
            < router.queues[q].subscriptions.len() && brings(
            delivery,
            message,
            #[trigger] router.queues[q].subscriptions[k],
        )
}

/// The queues of two routers have the same names and subscriptions.
pub open spec fn same_queues(a: RouterView, b: RouterView) -> bool {
    &&& a.queues.len() == b.queues.len()
    &&& forall|i: int|
        0 <= i < a.queues.len() ==> {
            &&& (#[trigger] a.queues[i]).destination == b.queues[i].destination
            &&& a.queues[i].subscriptions == b.queues[i].subscriptions
        }
}

/// Whether one of the deliveries from position `from` on brings a message to a
/// subscription.
pub open spec fn arrives_at(
    out: Seq<DeliveryView>,
    from: int,
    message: FrameView,
    sub: SubscriptionView,
) -> bool {
    exists|k: int| from <= k < out.len() && brings(#[trigger] out[k], message, sub)
}

/// Whether one of the deliveries from position `from` on brings a message to one
/// of those who are subscribed to the queue of that name.
pub open spec fn arrives_in_queue(
    out: Seq<DeliveryView>,
    from: int,
    message: FrameView,
    router: RouterView,
    name: Seq<char>,
) -> bool {
    exists|k: int|
        from <= k < out.len() && brings_to_consumer(#[trigger] out[k], message, router, name)
}

/// Whether the deliveries from position `from` on bring a message where it
/// belongs: to a topic, to all who listen; to a queue, to someone who is
/// subscribed, if there is anyone.
pub open spec fn arrives(
    router: RouterView,
    out: Seq<DeliveryView>,
    from: int,
    message: FrameView,
    name: Seq<char>,
) -> bool {
    match destination::kind_of(name) {
        None => true,
        Some(DestinationKind::Topic) => forall|sub: SubscriptionView| #[trigger]
            listens(router.topics, name, sub) ==> arrives_at(out, from, message, sub),
        Some(DestinationKind::Queue) => has_consumer(router, name) ==> arrives_in_queue(
            out,
            from,
            message,
            router,
            name,
        ),
    }
}

/// A message that is published arrives where it belongs, after what was sent
/// before.
pub proof fn published_messages_arrive(
    at: Progress,
    name: Seq<char>,
    message: FrameView,
    ids: Seq<Seq<char>>,
)
    requires
        at.router.wf(),
    ensures
        ({
            let after = router::published(at, name, message, ids);
            &&& at.out.is_prefix_of(after.out)
            &&& arrives(at.router, after.out, at.out.len() as int, message, name)
        }),
{
    let after = router::published(at, name, message, ids);
    let n = at.out.len() as int;
    match destination::kind_of(name) {
        None => {},
        Some(DestinationKind::Topic) => {
            topics_broadcast(at, name, message, ids);
            let targets = router::topic_targets(at.router.topics, name);
            assert forall|sub: SubscriptionView| #[trigger]
                listens(at.router.topics, name, sub) implies arrives_at(
                after.out,
                n,
                message,
                sub,
            ) by {
                targets_are_the_matching_subscriptions(at.router.topics, name, sub);
                let i = choose|i: int| 0 <= i < targets.len() && targets[i] == sub;
                assert(brings(after.out[n + i], message, sub));
            }
        },
        Some(DestinationKind::Queue) => {
            if has_consumer(at.router, name) {
                let q = choose|q: int|
                    0 <= q < at.router.queues.len() && (#[trigger] at.router.queues[q]).destination
                        == name && at.router.queues[q].subscriptions.len() > 0;
                queues_deliver_to_one(at, name, message, ids, q);
                let turn = at.router.queues[q].next_index as int;
                assert(at.router.queues[q].wf());
                assert(brings(
                    after.out.last(),
                    message,
                    at.router.queues[q].subscriptions[turn],
                ));
                assert(brings_to_consumer(after.out[n], message, at.router, name));
                assert(at.out =~= after.out.take(n));
            } else {
                assert forall|i: int|
                    0 <= i < at.router.queues.len() && (#[trigger] at.router.queues[i]).destination
                        == name implies at.router.queues[i].subscriptions.len() == 0 by {}
                queues_without_subscribers_drop(at, name, message, ids);
            }
        },
    }
    assert(at.out =~= after.out.take(n));
}

/// What has arrived stays so when more is sent, and is said just as well of a
/// router with the same subscriptions.
proof fn arrivals_stay(
    a: RouterView,
    b: RouterView,
    out: Seq<DeliveryView>,
    more: Seq<DeliveryView>,
    from: int,
    since: int,
    message: FrameView,
    name: Seq<char>,
)
    requires
        arrives(a, out, from, message, name),
        out.is_prefix_of(more),
        0 <= since <= from,
        a.topics == b.topics,
        same_queues(a, b),
    ensures
        arrives(b, more, since, message, name),
{
    match destination::kind_of(name) {
        None => {},
        Some(DestinationKind::Topic) => {
            assert forall|sub: SubscriptionView| #[trigger]
                listens(b.topics, name, sub) implies arrives_at(more, since, message, sub) by {
                assert(listens(a.topics, name, sub));
                let k = choose|k: int|
                    from <= k < out.len() && brings(#[trigger] out[k], message, sub);
                assert(more[k] == out[k]);
            }
        },
        Some(DestinationKind::Queue) => {
            if has_consumer(b, name) {
                let q = choose|q: int|
                    0 <= q < b.queues.len() && (#[trigger] b.queues[q]).destination == name
                        && b.queues[q].subscriptions.len() > 0;
                assert(a.queues[q].destination == name);
                assert(has_consumer(a, name));
                let k = choose|k: int|
                    from <= k < out.len() && brings_to_consumer(
                        #[trigger] out[k],
                        message,
                        a,
                        name,
                    );
                let (i, j) = choose|i: int, j: int|
                    0 <= i < a.queues.len() && a.queues[i].destination == name && 0 <= j
                        < a.queues[i].subscriptions.len() && brings(
                        out[k],
                        message,
                        #[trigger] a.queues[i].subscriptions[j],
                    );
                assert(a.queues[i].subscriptions == b.queues[i].subscriptions);
                assert(brings(more[k], message, b.queues[i].subscriptions[j]));
                assert(brings_to_consumer(more[k], message, b, name));
            }
        },
    }
}

/// Messages that are published anew arrive again where they belong.
pub proof fn republished_messages_arrive(
    at: Progress,
    messages: Seq<PendingView>,
    ids: Seq<Seq<char>>,
)
    requires
        at.router.wf(),
    ensures
        ({
            let after = router::republished(at, messages, ids);
            &&& after.router.wf()
            &&& after.router.topics == at.router.topics
            &&& same_queues(after.router, at.router)
            &&& at.out.is_prefix_of(after.out)
            &&& forall|j: int|
                0 <= j < messages.len() ==> arrives(
                    at.router,
                    after.out,
                    at.out.len() as int,
                    (#[trigger] messages[j]).frame,
                    messages[j].destination,
                )
        }),
    decreases messages.len(),
{
    let after = router::republished(at, messages, ids);
    let n = at.out.len() as int;
    if messages.len() > 0 {
        let rest = messages.drop_last();
        let m = messages.last();
        let mid = router::republished(at, rest, ids);
        republished_messages_arrive(at, rest, ids);
        published_messages_arrive(mid, m.destination, m.frame, ids);
        router::published_keeps_order(mid, m.destination, m.frame, ids);
        assert(same_queues(after.router, at.router)) by {
            assert forall|i: int| 0 <= i < after.router.queues.len() implies {
                &&& (#[trigger] after.router.queues[i]).destination
                    == at.router.queues[i].destination
                &&& after.router.queues[i].subscriptions == at.router.queues[i].subscriptions
            } by {
                assert(mid.router.queues[i].destination == at.router.queues[i].destination);
            }
        }
        assert forall|k: int| 0 <= k < n implies at.out[k] == after.out[k] by {
            assert(mid.out[k] == after.out[k]);
        }
        assert forall|j: int| 0 <= j < messages.len() implies arrives(
            at.router,
            after.out,
            n,
            (#[trigger] messages[j]).frame,
            messages[j].destination,
        ) by {
            if j < rest.len() {
                assert(rest[j] == messages[j]);
                arrivals_stay(
                    at.router,
                    at.router,
                    mid.out,
                    after.out,
                    n,
                    n,
                    rest[j].frame,
                    rest[j].destination,
                );
            } else {
                arrivals_stay(
                    mid.router,
                    at.router,
                    after.out,
                    after.out,
                    mid.out.len() as int,
                    n,
                    m.frame,
                    m.destination,
                );
            }
        }
    }
}

/// What a connection rejects is delivered again: each message that its negative
/// acknowledgement covers arrives where it belongs.
pub proof fn rejected_messages_arrive(
    at: Progress,
    conn_id: u128,
    target: TargetView,
    ids: Seq<Seq<char>>,
)
    requires
        at.router.wf(),
        router::target_position(at.router.pending, conn_id, target) < at.router.pending.len(),
    ensures
        ({
            let i = router::target_position(at.router.pending, conn_id, target);
            let covered = router::settled(at.router.pending, i);
            let after = router::rejected(at, conn_id, target, ids);
            &&& at.out.is_prefix_of(after.out)
            &&& forall|j: int|
                0 <= j < covered.len() ==> arrives(
                    at.router,
                    after.out,
                    at.out.len() as int,
                    (#[trigger] covered[j]).frame,
                    covered[j].destination,
                )
        }),
{
    let pending = at.router.pending;
    router::target_position_bounds(pending, conn_id, target);
    let i = router::target_position(pending, conn_id, target);
    let covered = router::settled(pending, i);
    let start = Progress {
        router: RouterView { pending: router::unsettled(pending, i), ..at.router },
        ..at
    };
    router::unsettled_keeps_order(at.router, i);
    republished_messages_arrive(start, covered, ids);
    let after = router::rejected(at, conn_id, target, ids);
    assert forall|j: int| 0 <= j < covered.len() implies arrives(
        at.router,
        after.out,
        at.out.len() as int,
        (#[trigger] covered[j]).frame,
        covered[j].destination,
    ) by {
        arrivals_stay(
            start.router,
            at.router,
            after.out,
            after.out,
            at.out.len() as int,
            at.out.len() as int,
            covered[j].frame,
            covered[j].destination,
        );
    }
}

/// When a connection ends, what it has not acknowledged is delivered again: each
/// such message arrives where it belongs, among those who are left.
pub proof fn unacknowledged_messages_arrive(
    at: Progress,
    conn_id: u128,
    ids: Seq<Seq<char>>,
)
    requires
        at.router.wf(),
    ensures
        ({
            let own = at.router.pending.filter(|p: PendingView| p.conn_id == conn_id);
            let left = router::unsubscribed(at.router, conn_id, None);
            let after = router::cleaned(at, conn_id, ids);
            &&& at.out.is_prefix_of(after.out)
            &&& forall|j: int|
                0 <= j < own.len() ==> arrives(
                    left,
                    after.out,
                    at.out.len() as int,
                    (#[trigger] own[j]).frame,
                    own[j].destination,
                )
        }),
{
    let own = at.router.pending.filter(|p: PendingView| p.conn_id == conn_id);
    let left = router::unsubscribed(at.router, conn_id, None);
    let others = |p: PendingView| p.conn_id != conn_id;
    let start = Progress {
        router: RouterView { pending: left.pending.filter(others), ..left },
        ..at
    };
    router::unsubscribed_keeps_order(at.router, conn_id, None);
    router::filter_keeps_order(left.pending, others);
    filtered_pending(left.pending, others);
    assert forall|i: int| 0 <= i < start.router.pending.len() implies router::waits_for_ack(
        (#[trigger] start.router.pending[i]).ack_mode,
    ) by {
        assert(left.pending.contains(left.pending.filter(others)[i]));
    }
    assert(start.router.wf());
    republished_messages_arrive(start, own, ids);
    let after = router::cleaned(at, conn_id, ids);
    assert forall|j: int| 0 <= j < own.len() implies arrives(
        left,
        after.out,
        at.out.len() as int,
        (#[trigger] own[j]).frame,
        own[j].destination,
    ) by {
        arrivals_stay(
            start.router,
            left,
            after.out,
            after.out,
            at.out.len() as int,
            at.out.len() as int,
            own[j].frame,
            own[j].destination,
        );
    }
}

/// Whoever subscribes is reached: to topics, by every message whose destination
/// the pattern matches; to a queue, when the turn comes, as the last in the row.
pub proof fn new_subscriptions_are_reached(
    router: RouterView,
    pattern: Seq<char>,
    sub: SubscriptionView,
    name: Seq<char>,
)
    requires
        router::subscribed(router, pattern, sub) is Ok,
    ensures
        ({
            let after = router::subscribed(router, pattern, sub)->Ok_0;
            let i = router::queue_position(router.queues, pattern);
            if destination::kind_of(pattern) == Some(DestinationKind::Topic) {
                destination::path_matches(pattern, name) ==> router::topic_targets(
                    after.topics,
                    name,
                ).contains(sub)
            } else {
                &&& has_consumer(after, pattern)
                &&& after.queues[i].destination == pattern
                &&& after.queues[i].subscriptions.last() == sub
            }
        }),
{
    let after = router::subscribed(router, pattern, sub)->Ok_0;
    router::topic_position_bounds(router.topics, pattern);
    router::queue_position_bounds(router.queues, pattern);
    if destination::kind_of(pattern) == Some(DestinationKind::Topic) {
        if destination::path_matches(pattern, name) {
            let i = router::topic_position(router.topics, pattern);
            let subs = after.topics[i].subscriptions;
            assert(after.topics[i].pattern == pattern);
            assert(subs[subs.len() - 1] == sub);
            assert(subs.contains(sub));
            assert(listens(after.topics, name, sub));
            targets_are_the_matching_subscriptions(after.topics, name, sub);
        }
    } else {
        let i = router::queue_position(router.queues, pattern);
        assert(after.queues[i].destination == pattern);
    }
}

/// Whether the identifiers from position `from` on are new: different from each
/// other and from those of the deliveries that wait.
pub open spec fn fresh(pending: Seq<PendingView>, ids: Seq<Seq<char>>, from: nat) -> bool {
    &&& forall|i: int, j: int| from <= i < j < ids.len() ==> #[trigger] ids[i] != #[trigger] ids[j]
    &&& forall|k: int, j: int|
        0 <= k < pending.len() && from <= j < ids.len() ==> (#[trigger] pending[k]).delivery_id
            != #[trigger] ids[j]
}

/// How many of some subscriptions wait for an acknowledgement.
pub open spec fn waiting(subs: Seq<SubscriptionView>) -> nat
    decreases subs.len(),
{
    if subs.len() == 0 {
        0
    } else {
        waiting(subs.drop_last()) + if router::waits_for_ack(subs.last().ack_mode) {
            1nat
        } else {
            0nat
        }
    }
}

/// Deliveries do not overwrite each other's record: with identifiers that are
/// new, the fan-out of a message adds one record for each delivery that must be
/// acknowledged, after those that were there.
pub proof fn fan_out_overwrites_nothing(
    at: Progress,
    subs: Seq<SubscriptionView>,
    name: Seq<char>,
    message: FrameView,
    ids: Seq<Seq<char>>,
)
    requires
        fresh(at.router.pending, ids, at.used),
        at.used + waiting(subs) <= ids.len(),
    ensures
        ({
            let after = router::delivered_to_all(at, subs, name, message, ids);
            &&& after.used == at.used + waiting(subs)
            &&& after.router.pending.len() == at.router.pending.len() + waiting(subs)
            &&& after.router.pending.take(at.router.pending.len() as int) == at.router.pending
            &&& fresh(after.router.pending, ids, after.used)
        }),
    decreases subs.len(),
{
    let after = router::delivered_to_all(at, subs, name, message, ids);
    let n = at.router.pending.len() as int;
    if subs.len() > 0 {
        let rest = subs.drop_last();
        fan_out_overwrites_nothing(at, rest, name, message, ids);
        let mid = router::delivered_to_all(at, rest, name, message, ids);
        let sub = subs.last();
        if router::waits_for_ack(sub.ack_mode) {
            let id = ids[mid.used as int];
            let entry = router::pending_entry(message, sub, name, id);
            new_entries_displace_none(mid.router.pending, id);
            assert(after.router.pending == mid.router.pending.push(entry));
            assert(after.router.pending.take(n) =~= mid.router.pending.take(n));
            assert forall|k: int, j: int|
                0 <= k < after.router.pending.len() && after.used <= j < ids.len() implies (
            #[trigger] after.router.pending[k]).delivery_id != #[trigger] ids[j] by {
                if k < mid.router.pending.len() {
                    assert(after.router.pending[k] == mid.router.pending[k]);
                }
            }
        }
    } else {
        assert(after.router.pending.take(n) =~= at.router.pending);
    }
}

/// A new identifier takes no record's place.
proof fn new_entries_displace_none(pending: Seq<PendingView>, id: Seq<char>)
    requires
        forall|k: int| 0 <= k < pending.len() ==> (#[trigger] pending[k]).delivery_id != id,
    ensures
        router::pending_without(pending, id) == pending,
    decreases pending.len(),
{
    reveal(Seq::filter);
    if pending.len() > 0 {
        new_entries_displace_none(pending.drop_last(), id);
        assert(pending.last().delivery_id != id);
        assert(pending.drop_last().push(pending.last()) =~= pending);
    } else {
        assert(router::pending_without(pending, id) =~= pending);
    }
}

} // verus!
