//! What becomes of every subscription, of every message, and of every delivery
//! that waits, whatever a router is asked to do.

use crate::destination::{self, DestinationKind};
use crate::frame::{self, FrameView, Header, StompVersion};
use crate::lists;
use crate::ident::IdSupply;
use crate::router::{
    self, AckTarget, Delivery, PendingView, Progress, PubSubRouter, QueueView, RouterView,
    SubscriptionInfo, SubscriptionView, TargetView, TopicView,
};
use crate::routing;
use crate::text;
use vstd::prelude::*;

verus! {

/// Patterns of topics, and exact names of queues, can be subscribed to. All else
/// is refused, and a refusal says why.
pub proof fn subscriptions_are_accepted_by_kind(
    router: RouterView,
    name: Seq<char>,
    sub: SubscriptionView,
)
    ensures
        router::subscribed(router, name, sub) is Ok <==> text::begins_with(name, "/topic/"@)
            || text::begins_with(name, "/queue/"@) && !destination::has_wildcard(name),
        router::subscribed(router, name, sub) matches Err(message) ==> message
            == if text::begins_with(name, "/queue/"@) {
            "Queue subscriptions must use an exact destination"@
        } else {
            "Unknown destination"@
        },
{
    destination::kinds_exclude_each_other(name);
}

/// A subscription that is accepted takes nothing away. Each list of subscriptions
/// stays where it is, under its pattern or name, with the same turn; the one that
/// is subscribed to has the new subscription at its end, and where there was no
/// such list there is one now, after the others, for this subscription alone.
/// Deliveries that wait go on waiting.
pub proof fn subscribing_takes_nothing_away(
    router: RouterView,
    name: Seq<char>,
    sub: SubscriptionView,
)
    requires
        router.wf(),
        router::subscribed(router, name, sub) is Ok,
    ensures
        ({
            let after = router::subscribed(router, name, sub)->Ok_0;
            let known_topic = exists|i: int|
                0 <= i < router.topics.len() && (#[trigger] router.topics[i]).pattern == name;
            let known_queue = exists|i: int|
                0 <= i < router.queues.len() && (#[trigger] router.queues[i]).destination == name;
            &&& after.pending == router.pending
            &&& forall|i: int|
                0 <= i < router.topics.len() ==> {
                    let now = #[trigger] after.topics[i];
                    &&& now.pattern == router.topics[i].pattern
                    &&& now.subscriptions == if now.pattern == name {
                        router.topics[i].subscriptions.push(sub)
                    } else {
                        router.topics[i].subscriptions
                    }
                }
            &&& forall|i: int|
                0 <= i < router.queues.len() ==> {
                    let now = #[trigger] after.queues[i];
                    &&& now.destination == router.queues[i].destination
                    &&& now.next_index == router.queues[i].next_index
                    &&& now.subscriptions == if now.destination == name {
                        router.queues[i].subscriptions.push(sub)
                    } else {
                        router.queues[i].subscriptions
                    }
                }
            &&& if text::begins_with(name, "/topic/"@) && !known_topic {
                &&& after.topics.len() == router.topics.len() + 1
                &&& after.topics.last().pattern == name
                &&& after.topics.last().subscriptions == seq![sub]
            } else {
                after.topics.len() == router.topics.len()
            }
            &&& if text::begins_with(name, "/queue/"@) && !known_queue {
                &&& after.queues.len() == router.queues.len() + 1
                &&& after.queues.last().destination == name
                &&& after.queues.last().subscriptions == seq![sub]
                &&& after.queues.last().next_index == 0
            } else {
                after.queues.len() == router.queues.len()
            }
        }),
{
    let after = router::subscribed(router, name, sub)->Ok_0;
    destination::kinds_exclude_each_other(name);
    router::topic_position_bounds(router.topics, name);
    router::queue_position_bounds(router.queues, name);
    let t = router::topic_position(router.topics, name);
    let q = router::queue_position(router.queues, name);
    if destination::kind_of(name) == Some(DestinationKind::Topic) {
        assert forall|i: int| 0 <= i < router.topics.len() && i != t implies (
        #[trigger] router.topics[i]).pattern != name by {
            if t < i {
                assert(router.topics[t].pattern != router.topics[i].pattern);
            }
        }
        assert forall|i: int| 0 <= i < router.queues.len() implies (
        #[trigger] router.queues[i]).destination != name by {
            assert(router.queues[i].wf());
        }
        assert forall|i: int| 0 <= i < router.topics.len() implies {
            let now = #[trigger] after.topics[i];
            &&& now.pattern == router.topics[i].pattern
            &&& now.subscriptions == if now.pattern == name {
                router.topics[i].subscriptions.push(sub)
            } else {
                router.topics[i].subscriptions
            }
        } by {
            assert(i != t ==> router.topics[i].pattern != name);
        }
    } else {
        assert forall|i: int| 0 <= i < router.queues.len() && i != q implies (
        #[trigger] router.queues[i]).destination != name by {
            if q < i {
                assert(router.queues[q].destination != router.queues[i].destination);
            }
        }
        assert forall|i: int| 0 <= i < router.topics.len() implies (
        #[trigger] router.topics[i]).pattern != name by {
            assert(router.topics[i].wf());
        }
        assert forall|i: int| 0 <= i < router.queues.len() implies {
            let now = #[trigger] after.queues[i];
            &&& now.destination == router.queues[i].destination
            &&& now.next_index == router.queues[i].next_index
            &&& now.subscriptions == if now.destination == name {
                router.queues[i].subscriptions.push(sub)
            } else {
                router.queues[i].subscriptions
            }
        } by {
            assert(i != q ==> router.queues[i].destination != name);
        }
    }
}

/// Ending a subscription of a connection, or all of them, ends no other. Every
/// list of subscriptions stays where it is and keeps the others in their order;
/// the turn of a queue stays within those who are left. Deliveries that wait go
/// on waiting.
pub proof fn no_other_subscriptions_end(
    router: RouterView,
    conn_id: u128,
    sub_id: Option<Seq<char>>,
)
    ensures
        ({
            let after = router::unsubscribed(router, conn_id, sub_id);
            let stays = |s: SubscriptionView|
                s.conn_id != conn_id || (sub_id is Some && s.sub_id != sub_id->0);
            &&& after.pending == router.pending
            &&& after.topics.len() == router.topics.len()
            &&& after.queues.len() == router.queues.len()
            &&& forall|i: int|
                0 <= i < router.topics.len() ==> {
                    let now = #[trigger] after.topics[i];
                    &&& now.pattern == router.topics[i].pattern
                    &&& now.subscriptions == router.topics[i].subscriptions.filter(stays)
                }
            &&& forall|i: int|
                0 <= i < router.queues.len() ==> {
                    let now = #[trigger] after.queues[i];
                    &&& now.destination == router.queues[i].destination
                    &&& now.subscriptions == router.queues[i].subscriptions.filter(stays)
                    &&& now.next_index == if now.subscriptions.len() == 0 {
                        0
                    } else {
                        router.queues[i].next_index % now.subscriptions.len()
                    }
                }
        }),
{
    let after = router::unsubscribed(router, conn_id, sub_id);
    let stays = |s: SubscriptionView|
        s.conn_id != conn_id || (sub_id is Some && s.sub_id != sub_id->0);
    let keep = |s: SubscriptionView| !router::ends(s, conn_id, sub_id);
    assert forall|i: int| 0 <= i < router.topics.len() implies {
        let now = #[trigger] after.topics[i];
        &&& now.pattern == router.topics[i].pattern
        &&& now.subscriptions == router.topics[i].subscriptions.filter(stays)
    } by {
        lists::picks_that_agree(router.topics[i].subscriptions, keep, stays);
    }
    assert forall|i: int| 0 <= i < router.queues.len() implies {
        let now = #[trigger] after.queues[i];
        &&& now.destination == router.queues[i].destination
        &&& now.subscriptions == router.queues[i].subscriptions.filter(stays)
        &&& now.next_index == if now.subscriptions.len() == 0 {
            0
        } else {
            router.queues[i].next_index % now.subscriptions.len()
        }
    } by {
        lists::picks_that_agree(router.queues[i].subscriptions, keep, stays);
    }
}

/// The headers of a message as a subscriber gets it, all of them and in order:
/// those that were sent, then the name of the subscription, and then, in version
/// 1.2 and where the delivery must be acknowledged, the identifier for that. What
/// was sent under these names is left out.
pub proof fn messages_keep_their_headers(
    message: FrameView,
    sub: SubscriptionView,
    delivery_id: Option<Seq<char>>,
)
    ensures
        ({
            let marked = router::message_for(message, sub, delivery_id);
            let name: Header = ("subscription"@, sub.sub_id);
            &&& marked.command == message.command
            &&& marked.body == message.body
            &&& marked.headers == if sub.version == StompVersion::V1_2 && delivery_id is Some {
                message.headers.filter(|h: Header| h.0 != "subscription"@ && h.0 != "ack"@).push(
                    name,
                ).push(("ack"@, delivery_id->0))
            } else {
                message.headers.filter(|h: Header| h.0 != "subscription"@).push(name)
            }
        }),
{
    reveal_strlit("subscription");
    reveal_strlit("ack");
    assert("subscription"@.len() != "ack"@.len());
    let not_sub = |h: Header| h.0 != "subscription"@;
    let not_ack = |h: Header| h.0 != "ack"@;
    let neither = |h: Header| h.0 != "subscription"@ && h.0 != "ack"@;
    let name: Header = ("subscription"@, sub.sub_id);
    let kept = message.headers.filter(not_sub);
    lists::picks_of_push(kept, name, not_ack);
    lists::picks_in_a_row(message.headers, not_sub, not_ack, neither);
    assert(frame::without(message.headers, "subscription"@) == kept);
    assert(frame::without(kept.push(name), "ack"@) == kept.push(name).filter(not_ack));
}

/// A delivery is sent to the one who subscribed, and if it must be acknowledged
/// it is recorded: for whom it is, under which name, and the message itself, as
/// it was published and to where, so that it can be published again. No record
/// but one of the same name is touched, and no subscription.
pub proof fn deliveries_are_recorded(
    at: Progress,
    sub: SubscriptionView,
    name: Seq<char>,
    message: FrameView,
    ids: Seq<Seq<char>>,
)
    ensures
        ({
            let after = router::delivered(at, sub, name, message, ids);
            let waits = sub.ack_mode == "client"@ || sub.ack_mode == "client-individual"@;
            let id = ids[at.used as int];
            let record = after.router.pending.last();
            &&& after.router.topics == at.router.topics
            &&& after.router.queues == at.router.queues
            &&& after.out.len() == at.out.len() + 1
            &&& after.out.drop_last() == at.out
            &&& after.out.last().sender == sub.sender
            &&& after.out.last().frame == router::message_for(
                message,
                sub,
                if waits {
                    Some(id)
                } else {
                    None
                },
            )
            &&& !waits ==> after.router.pending == at.router.pending && after.used == at.used
            &&& waits ==> {
                &&& after.used == at.used + 1
                &&& after.router.pending.len() > 0
                &&& after.router.pending.drop_last() == at.router.pending.filter(
                    |p: PendingView| p.delivery_id != id,
                )
                &&& record.delivery_id == id
                &&& record.conn_id == sub.conn_id
                &&& record.sub_id == sub.sub_id
                &&& record.ack_mode == sub.ack_mode
                &&& record.destination == name
                &&& record.frame == message
                &&& record.message_id == (match frame::header(message.headers, "message-id"@) {
                    Some(m) => m,
                    None => seq![],
                })
            }
        }),
{
    let after = router::delivered(at, sub, name, message, ids);
    let id = ids[at.used as int];
    reveal_strlit("subscription");
    reveal_strlit("ack");
    reveal_strlit("message-id");
    assert("message-id"@.len() == 10 && "ack"@.len() == 3 && "subscription"@.len() == 12);
    routing::messages_are_marked(message, sub, Some(id), "message-id"@);
    assert(after.out.drop_last() =~= at.out);
    if router::waits_for_ack(sub.ack_mode) {
        let kept = router::pending_without(at.router.pending, id);
        assert(after.router.pending.drop_last() =~= kept);
    }
}

/// Who gets a message to a topic, in order: for one pattern after the other,
/// those who subscribed to it, in the order in which they did, if it matches.
pub proof fn targets_come_pattern_by_pattern(
    topics: Seq<TopicView>,
    last: TopicView,
    name: Seq<char>,
)
    ensures
        router::topic_targets(Seq::empty(), name) == Seq::<SubscriptionView>::empty(),
        router::topic_targets(topics.push(last), name) == router::topic_targets(topics, name) + (
        if destination::path_matches(last.pattern, name) {
            last.subscriptions
        } else {
            seq![]
        }),
{
    assert(topics.push(last).drop_last() =~= topics);
    assert(router::topic_targets(topics.push(last), name) =~= router::topic_targets(topics, name)
        + (if destination::path_matches(last.pattern, name) {
        last.subscriptions
    } else {
        seq![]
    }));
}

/// A fan-out, delivery by delivery.
proof fn fan_out_is_recorded(
    at: Progress,
    subs: Seq<SubscriptionView>,
    name: Seq<char>,
    message: FrameView,
    ids: Seq<Seq<char>>,
    i: int,
)
    requires
        0 <= i < subs.len(),
    ensures
        ({
            let after = router::delivered_to_all(at, subs, name, message, ids);
            let sub = subs[i];
            let waits = sub.ack_mode == "client"@ || sub.ack_mode == "client-individual"@;
            let before = routing::waiting(subs.take(i)) as int;
            let id = ids[at.used + before];
            let record = after.router.pending[at.router.pending.len() + before];
            let sent = after.out[at.out.len() + i];
            &&& after.out.len() == at.out.len() + subs.len()
            &&& after.used == at.used + routing::waiting(subs)
            &&& sent.sender == sub.sender
            &&& sent.frame == router::message_for(
                message,
                sub,
                if waits {
                    Some(id)
                } else {
                    None
                },
            )
            &&& waits && routing::fresh(at.router.pending, ids, at.used) && at.used
                + routing::waiting(subs) <= ids.len() ==> {
                &&& before < routing::waiting(subs)
                &&& record.delivery_id == id
                &&& record.conn_id == sub.conn_id
                &&& record.sub_id == sub.sub_id
                &&& record.ack_mode == sub.ack_mode
                &&& record.destination == name
                &&& record.frame == message
            }
        }),
    decreases subs.len(),
{
    let rest = subs.drop_last();
    let mid = router::delivered_to_all(at, rest, name, message, ids);
    let last = subs.last();
    fan_out_counts(at, rest, name, message, ids);
    fan_out_counts(at, subs, name, message, ids);
    deliveries_are_recorded(mid, last, name, message, ids);
    let fresh = routing::fresh(at.router.pending, ids, at.used) && at.used + routing::waiting(subs)
        <= ids.len();
    if fresh {
        routing::fan_out_overwrites_nothing(at, rest, name, message, ids);
        routing::fan_out_overwrites_nothing(at, subs, name, message, ids);
    }
    let after = router::delivered_to_all(at, subs, name, message, ids);
    let n = at.router.pending.len() as int;
    assert(after == router::delivered(mid, last, name, message, ids));
    if i < rest.len() {
        fan_out_is_recorded(at, rest, name, message, ids, i);
        assert(rest.take(i) =~= subs.take(i));
        assert(after.out[at.out.len() + i] == after.out.drop_last()[at.out.len() + i]);
        if fresh && router::waits_for_ack(subs[i].ack_mode) {
            let before = routing::waiting(subs.take(i)) as int;
            if router::waits_for_ack(last.ack_mode) {
                assert(after.router.pending.drop_last() =~= mid.router.pending) by {
                    let id = ids[mid.used as int];
                    let keep = |p: PendingView| p.delivery_id != id;
                    let kept = mid.router.pending.filter(keep);
                    assert(kept.len() == mid.router.pending.len());
                    everything_is_kept(mid.router.pending, keep);
                }
                assert(after.router.pending[n + before] == after.router.pending.drop_last()[n
                    + before]);
            }
        }
    } else {
        assert(subs.take(i) =~= rest);
    }
}

/// A pick that leaves as many items as there were leaves them all.
proof fn everything_is_kept(s: Seq<PendingView>, keep: spec_fn(PendingView) -> bool)
    requires
        s.filter(keep).len() == s.len(),
    ensures
        s.filter(keep) == s,
    decreases s.len(),
{
    reveal(Seq::filter);
    if s.len() > 0 {
        picks_are_no_more(s.drop_last(), keep);
        everything_is_kept(s.drop_last(), keep);
        assert(s.drop_last().push(s.last()) =~= s);
    } else {
        assert(s.filter(keep) =~= s);
    }
}

proof fn picks_are_no_more(s: Seq<PendingView>, keep: spec_fn(PendingView) -> bool)
    ensures
        s.filter(keep).len() <= s.len(),
    decreases s.len(),
{
    reveal(Seq::filter);
    if s.len() > 0 {
        picks_are_no_more(s.drop_last(), keep);
    }
}

/// A fan-out uses one identifier for each delivery that must be acknowledged.
proof fn fan_out_counts(
    at: Progress,
    subs: Seq<SubscriptionView>,
    name: Seq<char>,
    message: FrameView,
    ids: Seq<Seq<char>>,
)
    ensures
        ({
            let after = router::delivered_to_all(at, subs, name, message, ids);
            &&& after.out.len() == at.out.len() + subs.len()
            &&& after.out.take(at.out.len() as int) == at.out
            &&& after.used == at.used + routing::waiting(subs)
            &&& after.router.topics == at.router.topics
            &&& after.router.queues == at.router.queues
        }),
    decreases subs.len(),
{
    let after = router::delivered_to_all(at, subs, name, message, ids);
    if subs.len() > 0 {
        let mid = router::delivered_to_all(at, subs.drop_last(), name, message, ids);
        fan_out_counts(at, subs.drop_last(), name, message, ids);
        assert(after.out.take(at.out.len() as int) =~= mid.out.take(at.out.len() as int));
    } else {
        assert(after.out.take(at.out.len() as int) =~= at.out);
    }
}

/// What a message to a topic does, delivery by delivery. Each of those who listen
/// gets it once, in order, and nothing else is sent. Those that must be
/// acknowledged, and only those, are named by new identifiers, and recorded after
/// all others with the message as it was published. No subscription changes, and
/// no turn.
pub proof fn broadcasts_reach_each_listener(
    at: Progress,
    name: Seq<char>,
    message: FrameView,
    ids: Seq<Seq<char>>,
    i: int,
)
    requires
        text::begins_with(name, "/topic/"@),
        0 <= i < router::topic_targets(at.router.topics, name).len(),
    ensures
        ({
            let targets = router::topic_targets(at.router.topics, name);
            let after = router::published(at, name, message, ids);
            let sub = targets[i];
            let waits = sub.ack_mode == "client"@ || sub.ack_mode == "client-individual"@;
            let before = routing::waiting(targets.take(i)) as int;
            let id = ids[at.used + before];
            let record = after.router.pending[at.router.pending.len() + before];
            let sent = after.out[at.out.len() + i];
            &&& sent.sender == sub.sender
            &&& sent.frame == router::message_for(
                message,
                sub,
                if waits {
                    Some(id)
                } else {
                    None
                },
            )
            &&& waits && routing::fresh(at.router.pending, ids, at.used) && at.used
                + routing::waiting(targets) <= ids.len() ==> {
                &&& record.delivery_id == id
                &&& record.conn_id == sub.conn_id
                &&& record.sub_id == sub.sub_id
                &&& record.ack_mode == sub.ack_mode
                &&& record.destination == name
                &&& record.frame == message
            }
        }),
{
    let targets = router::topic_targets(at.router.topics, name);
    fan_out_is_recorded(at, targets, name, message, ids, i);
}

/// A message to a topic changes no subscription and no turn. With identifiers
/// that are new it adds one record for each delivery that must be acknowledged,
/// and takes none away.
pub proof fn broadcasts_change_nothing_else(
    at: Progress,
    name: Seq<char>,
    message: FrameView,
    ids: Seq<Seq<char>>,
)
    requires
        text::begins_with(name, "/topic/"@),
    ensures
        ({
            let targets = router::topic_targets(at.router.topics, name);
            let after = router::published(at, name, message, ids);
            &&& after.out.len() == at.out.len() + targets.len()
            &&& after.out.take(at.out.len() as int) == at.out
            &&& after.used == at.used + routing::waiting(targets)
            &&& after.router.topics == at.router.topics
            &&& after.router.queues == at.router.queues
            &&& routing::fresh(at.router.pending, ids, at.used) && at.used + routing::waiting(
                targets,
            ) <= ids.len() ==> {
                &&& after.router.pending.len() == at.router.pending.len() + routing::waiting(
                    targets,
                )
                &&& after.router.pending.take(at.router.pending.len() as int) == at.router.pending
            }
        }),
{
    let targets = router::topic_targets(at.router.topics, name);
    fan_out_counts(at, targets, name, message, ids);
    if routing::fresh(at.router.pending, ids, at.used) && at.used + routing::waiting(targets)
        <= ids.len() {
        routing::fan_out_overwrites_nothing(at, targets, name, message, ids);
    }
}

/// How many of some subscriptions must acknowledge what they get: those under
/// the modes `client` and `client-individual`.
pub proof fn waiting_subscriptions_are_counted(
    subs: Seq<SubscriptionView>,
    last: SubscriptionView,
)
    ensures
        routing::waiting(Seq::empty()) == 0,
        routing::waiting(subs.push(last)) == routing::waiting(subs) + if last.ack_mode
            == "client"@ || last.ack_mode == "client-individual"@ {
            1nat
        } else {
            0nat
        },
{
    assert(subs.push(last).drop_last() =~= subs);
}

/// What a message to a queue does. It goes to the one whose turn it is, and is
/// recorded for that one alone if it must be acknowledged, with the message as it
/// was published. The turn goes to the next in the row, and from the last to the
/// first. Nothing else changes, in this queue or another, nor for topics.
pub proof fn queues_serve_one(
    at: Progress,
    name: Seq<char>,
    message: FrameView,
    ids: Seq<Seq<char>>,
    i: int,
)
    requires
        at.router.wf(),
        0 <= i < at.router.queues.len(),
        at.router.queues[i].destination == name,
        at.router.queues[i].subscriptions.len() > 0,
    ensures
        ({
            let queue = at.router.queues[i];
            let after = router::published(at, name, message, ids);
            let sub = queue.subscriptions[queue.next_index as int];
            let waits = sub.ack_mode == "client"@ || sub.ack_mode == "client-individual"@;
            let id = ids[at.used as int];
            let record = after.router.pending.last();
            let now = after.router.queues[i];
            &&& after.out.len() == at.out.len() + 1
            &&& after.out.drop_last() == at.out
            &&& after.out.last().sender == sub.sender
            &&& after.out.last().frame == router::message_for(
                message,
                sub,
                if waits {
                    Some(id)
                } else {
                    None
                },
            )
            &&& after.router.topics == at.router.topics
            &&& after.router.queues.len() == at.router.queues.len()
            &&& forall|k: int|
                0 <= k < at.router.queues.len() && k != i ==> #[trigger] after.router.queues[k]
                    == at.router.queues[k]
            &&& now.destination == name
            &&& now.subscriptions == queue.subscriptions
            &&& now.next_index == if queue.next_index + 1 == queue.subscriptions.len() {
                0
            } else {
                queue.next_index + 1
            }
            &&& !waits ==> after.router.pending == at.router.pending && after.used == at.used
            &&& waits ==> {
                &&& after.used == at.used + 1
                &&& after.router.pending.len() > 0
                &&& after.router.pending.drop_last() == at.router.pending.filter(
                    |p: PendingView| p.delivery_id != id,
                )
                &&& record.delivery_id == id
                &&& record.conn_id == sub.conn_id
                &&& record.sub_id == sub.sub_id
                &&& record.ack_mode == sub.ack_mode
                &&& record.destination == name
                &&& record.frame == message
            }
        }),
{
    let queue = at.router.queues[i];
    assert(queue.wf());
    router::queue_position_bounds(at.router.queues, name);
    let k = router::queue_position(at.router.queues, name);
    assert(k == i) by {
        if k < i {
            assert(at.router.queues[k].destination != at.router.queues[i].destination);
        }
    }
    let n = queue.subscriptions.len();
    vstd::arithmetic::div_mod::lemma_small_mod(queue.next_index, n);
    if queue.next_index + 1 == n {
        vstd::arithmetic::div_mod::lemma_mod_self_0(n as int);
    } else {
        vstd::arithmetic::div_mod::lemma_small_mod(queue.next_index + 1, n);
    }
    let moved = Progress {
        router: RouterView {
            queues: at.router.queues.update(
                i,
                QueueView { next_index: (queue.next_index + 1) % n, ..queue },
            ),
            ..at.router
        },
        ..at
    };
    let sub = queue.subscriptions[queue.next_index as int];
    deliveries_are_recorded(moved, sub, name, message, ids);
    assert(router::published(at, name, message, ids) == router::delivered(
        moved,
        sub,
        name,
        message,
        ids,
    ));
}

/// A message to anything but a topic or a queue, and one to a queue that nobody
/// subscribes to, leaves no trace.
pub proof fn other_messages_leave_no_trace(
    at: Progress,
    name: Seq<char>,
    message: FrameView,
    ids: Seq<Seq<char>>,
)
    requires
        !text::begins_with(name, "/topic/"@),
        text::begins_with(name, "/queue/"@) ==> forall|i: int|
            0 <= i < at.router.queues.len() && (#[trigger] at.router.queues[i]).destination
                == name ==> at.router.queues[i].subscriptions.len() == 0,
    ensures
        router::published(at, name, message, ids) == at,
{
    if text::begins_with(name, "/queue/"@) {
        routing::queues_without_subscribers_drop(at, name, message, ids);
    }
}

/// Which delivery an acknowledgement means: one of the same connection, and in
/// version 1.2 the one of that name; before that, the oldest with that message,
/// in version 1.1 on the subscription that is named.
pub proof fn acknowledgements_mean_one_delivery(
    pending: Seq<PendingView>,
    conn_id: u128,
    target: TargetView,
    i: int,
)
    requires
        0 <= i <= pending.len(),
        i < pending.len() ==> pending[i].conn_id == conn_id && match target.version {
            StompVersion::V1_2 => pending[i].delivery_id == target.id,
            StompVersion::V1_1 => pending[i].message_id == target.id && target.subscription
                == Some(pending[i].sub_id),
            StompVersion::V1_0 => pending[i].message_id == target.id,
        },
        forall|j: int|
            0 <= j < i ==> {
                let p = #[trigger] pending[j];
                p.conn_id != conn_id || match target.version {
                    StompVersion::V1_2 => p.delivery_id != target.id,
                    StompVersion::V1_1 => p.message_id != target.id || target.subscription
                        != Some(p.sub_id),
                    StompVersion::V1_0 => p.message_id != target.id,
                }
            },
    ensures
        router::target_position(pending, conn_id, target) == i,
{
    router::target_position_bounds(pending, conn_id, target);
    let k = router::target_position(pending, conn_id, target);
    if k < i {
        assert(router::speaks_of(target, conn_id, pending[k]));
    }
    if i < k {
        assert(!router::speaks_of(target, conn_id, pending[i]));
    }
}

/// What an acknowledgement settles: the delivery that it means, at position `i`,
/// and under the mode `client` those before it to the same subscription of the
/// same connection. All others stay, in their order, and so does everything else.
/// One that means no delivery changes nothing.
pub proof fn acknowledgements_settle_no_others(
    router: RouterView,
    conn_id: u128,
    target: TargetView,
)
    ensures
        ({
            let pending = router.pending;
            let i = router::target_position(pending, conn_id, target);
            let after = router::acknowledged(router, conn_id, target);
            &&& after.topics == router.topics
            &&& after.queues == router.queues
            &&& i == pending.len() ==> after.pending == pending
            &&& i < pending.len() ==> after.pending == pending.take(i).filter(
                |p: PendingView|
                    pending[i].ack_mode != "client"@ || p.conn_id != conn_id || p.sub_id
                        != pending[i].sub_id,
            ) + pending.skip(i + 1)
        }),
{
    let pending = router.pending;
    let i = router::target_position(pending, conn_id, target);
    router::target_position_bounds(pending, conn_id, target);
    if i < pending.len() {
        assert(router::speaks_of(target, conn_id, pending[i]));
        lists::picks_that_agree(
            pending.take(i),
            |e: PendingView| !router::covers(pending[i], e),
            |p: PendingView|
                pending[i].ack_mode != "client"@ || p.conn_id != conn_id || p.sub_id
                    != pending[i].sub_id,
        );
    }
}

/// What a pick leaves out stays out, and what it lets through stays.
proof fn picks_contain(
    s: Seq<PendingView>,
    keep: spec_fn(PendingView) -> bool,
    p: PendingView,
)
    ensures
        s.filter(keep).contains(p) <==> s.contains(p) && keep(p),
    decreases s.len(),
{
    reveal(Seq::filter);
    if s.len() > 0 {
        let rest = s.drop_last();
        let kept = rest.filter(keep);
        picks_contain(rest, keep, p);
        assert(s.contains(p) <==> rest.contains(p) || p == s.last()) by {
            if s.contains(p) {
                let k = choose|k: int| 0 <= k < s.len() && s[k] == p;
                assert(k < rest.len() ==> rest[k] == p);
            }
            if rest.contains(p) {
                let k = choose|k: int| 0 <= k < rest.len() && rest[k] == p;
                assert(s[k] == p);
            }
            assert(s[s.len() - 1] == s.last());
        }
        if keep(s.last()) {
            contains_after_push(kept, s.last(), p);
        }
    }
}

proof fn contains_after_push(s: Seq<PendingView>, last: PendingView, p: PendingView)
    ensures
        s.push(last).contains(p) <==> s.contains(p) || p == last,
{
    if s.push(last).contains(p) {
        let k = choose|k: int| 0 <= k < s.push(last).len() && s.push(last)[k] == p;
        assert(k < s.len() ==> s[k] == p);
    }
    if s.contains(p) {
        let k = choose|k: int| 0 <= k < s.len() && s[k] == p;
        assert(s.push(last)[k] == p);
    }
    assert(s.push(last)[s.len() as int] == last);
}

/// An acknowledgement, positive or negative, concerns the connection that it came
/// from: what was delivered to another connection still waits after it.
pub proof fn acknowledgements_leave_other_connections_alone(
    router: RouterView,
    conn_id: u128,
    target: TargetView,
    p: PendingView,
)
    requires
        router.pending.contains(p),
        p.conn_id != conn_id,
    ensures
        router::acknowledged(router, conn_id, target).pending.contains(p),
{
    let pending = router.pending;
    let i = router::target_position(pending, conn_id, target);
    router::target_position_bounds(pending, conn_id, target);
    acknowledgements_settle_no_others(router, conn_id, target);
    if i < pending.len() {
        assert(router::speaks_of(target, conn_id, pending[i]));
        records_stay(
            pending,
            i,
            |e: PendingView|
                pending[i].ack_mode != "client"@ || e.conn_id != conn_id || e.sub_id
                    != pending[i].sub_id,
            p,
        );
    }
}

/// On the connection that it came from, an acknowledgement concerns one
/// subscription: if any delivery to a subscription is settled by it, no delivery
/// to another subscription is.
pub proof fn acknowledgements_leave_other_subscriptions_alone(
    router: RouterView,
    conn_id: u128,
    target: TargetView,
    p: PendingView,
    other: PendingView,
)
    requires
        router.pending.contains(p),
        router.pending.contains(other),
        !router::acknowledged(router, conn_id, target).pending.contains(p),
        other.sub_id != p.sub_id,
    ensures
        router::acknowledged(router, conn_id, target).pending.contains(other),
{
    let pending = router.pending;
    let i = router::target_position(pending, conn_id, target);
    router::target_position_bounds(pending, conn_id, target);
    acknowledgements_settle_no_others(router, conn_id, target);
    if i < pending.len() {
        let keep = |e: PendingView|
            pending[i].ack_mode != "client"@ || e.conn_id != conn_id || e.sub_id
                != pending[i].sub_id;
        if p != pending[i] && keep(p) {
            records_stay(pending, i, keep, p);
        }
        records_stay(pending, i, keep, other);
    }
}

/// Settling the record at position `i`, and those before it that are not kept,
/// leaves all others.
proof fn records_stay(
    pending: Seq<PendingView>,
    i: int,
    keep: spec_fn(PendingView) -> bool,
    p: PendingView,
)
    requires
        0 <= i < pending.len(),
        pending.contains(p),
    ensures
        p != pending[i] && keep(p) ==> (pending.take(i).filter(keep) + pending.skip(
            i + 1,
        )).contains(p),
{
    let front = pending.take(i).filter(keep);
    let back = pending.skip(i + 1);
    if p != pending[i] && keep(p) {
        let k = choose|k: int| 0 <= k < pending.len() && pending[k] == p;
        if k < i {
            assert(pending.take(i)[k] == p);
            picks_contain(pending.take(i), keep, p);
            let m = choose|m: int| 0 <= m < front.len() && front[m] == p;
            assert((front + back)[m] == p);
        } else {
            assert(back[k - i - 1] == p);
            assert((front + back)[front.len() + k - i - 1] == p);
        }
    }
}

/// Publishing anew is publishing each message, one after the other, to where it
/// was published before and as it was.
pub proof fn messages_are_published_anew_in_order(
    at: Progress,
    messages: Seq<PendingView>,
    last: PendingView,
    ids: Seq<Seq<char>>,
)
    ensures
        router::republished(at, Seq::empty(), ids) == at,
        router::republished(at, messages.push(last), ids) == router::published(
            router::republished(at, messages, ids),
            last.destination,
            last.frame,
            ids,
        ),
{
    assert(messages.push(last).drop_last() =~= messages);
}

/// A negative acknowledgement settles what a positive one would, and publishes it
/// anew, oldest first.
pub proof fn what_is_rejected_is_published_anew(
    at: Progress,
    conn_id: u128,
    target: TargetView,
    ids: Seq<Seq<char>>,
)
    ensures
        ({
            let pending = at.router.pending;
            let i = router::target_position(pending, conn_id, target);
            &&& i == pending.len() ==> router::rejected(at, conn_id, target, ids) == at
            &&& i < pending.len() ==> router::rejected(at, conn_id, target, ids)
                == router::republished(
                Progress {
                    router: router::acknowledged(at.router, conn_id, target),
                    out: at.out,
                    used: at.used,
                },
                pending.take(i).filter(
                    |p: PendingView|
                        pending[i].ack_mode == "client"@ && p.conn_id == conn_id && p.sub_id
                            == pending[i].sub_id,
                ).push(pending[i]),
                ids,
            )
        }),
{
    let pending = at.router.pending;
    let i = router::target_position(pending, conn_id, target);
    router::target_position_bounds(pending, conn_id, target);
    if i < pending.len() {
        assert(router::speaks_of(target, conn_id, pending[i]));
        lists::picks_that_agree(
            pending.take(i),
            |e: PendingView| router::covers(pending[i], e),
            |p: PendingView|
                pending[i].ack_mode == "client"@ && p.conn_id == conn_id && p.sub_id
                    == pending[i].sub_id,
        );
    }
}

/// When a connection ends, all its subscriptions do, and all that it has not
/// acknowledged, and nothing else, is published anew, oldest first.
pub proof fn what_a_connection_leaves_is_published_anew(
    at: Progress,
    conn_id: u128,
    ids: Seq<Seq<char>>,
)
    ensures
        ({
            let left = router::unsubscribed(at.router, conn_id, None);
            router::cleaned(at, conn_id, ids) == router::republished(
                Progress {
                    router: RouterView {
                        topics: left.topics,
                        queues: left.queues,
                        pending: at.router.pending.filter(|p: PendingView| p.conn_id != conn_id),
                    },
                    out: at.out,
                    used: at.used,
                },
                at.router.pending.filter(|p: PendingView| p.conn_id == conn_id),
                ids,
            )
        }),
{
}

/// Whether no identifier from position `from` on is the name of a delivery.
pub open spec fn not_reused(p: PendingView, ids: Seq<Seq<char>>, from: nat) -> bool {
    forall|j: int| from <= j ==> #[trigger] ids[j] != p.delivery_id
}

proof fn delivered_keeps_records(
    at: Progress,
    sub: SubscriptionView,
    name: Seq<char>,
    message: FrameView,
    ids: Seq<Seq<char>>,
    p: PendingView,
)
    requires
        at.router.pending.contains(p),
        not_reused(p, ids, at.used),
    ensures
        router::delivered(at, sub, name, message, ids).router.pending.contains(p),
        router::delivered(at, sub, name, message, ids).used >= at.used,
{
    let after = router::delivered(at, sub, name, message, ids);
    if router::waits_for_ack(sub.ack_mode) {
        let id = ids[at.used as int];
        let keep = |e: PendingView| e.delivery_id != id;
        picks_contain(at.router.pending, keep, p);
        contains_after_push(
            at.router.pending.filter(keep),
            router::pending_entry(message, sub, name, id),
            p,
        );
    }
}

proof fn delivered_to_all_keeps_records(
    at: Progress,
    subs: Seq<SubscriptionView>,
    name: Seq<char>,
    message: FrameView,
    ids: Seq<Seq<char>>,
    p: PendingView,
)
    requires
        at.router.pending.contains(p),
        not_reused(p, ids, at.used),
    ensures
        router::delivered_to_all(at, subs, name, message, ids).router.pending.contains(p),
        router::delivered_to_all(at, subs, name, message, ids).used >= at.used,
    decreases subs.len(),
{
    if subs.len() > 0 {
        let mid = router::delivered_to_all(at, subs.drop_last(), name, message, ids);
        delivered_to_all_keeps_records(at, subs.drop_last(), name, message, ids, p);
        delivered_keeps_records(mid, subs.last(), name, message, ids, p);
    }
}

/// A message leaves all deliveries waiting that wait, if its own have new names.
pub proof fn messages_leave_deliveries_waiting(
    at: Progress,
    name: Seq<char>,
    message: FrameView,
    ids: Seq<Seq<char>>,
    p: PendingView,
)
    requires
        at.router.pending.contains(p),
        not_reused(p, ids, at.used),
    ensures
        router::published(at, name, message, ids).router.pending.contains(p),
        router::published(at, name, message, ids).used >= at.used,
{
    match destination::kind_of(name) {
        None => {},
        Some(DestinationKind::Topic) => {
            let targets = router::topic_targets(at.router.topics, name);
            delivered_to_all_keeps_records(at, targets, name, message, ids, p);
        },
        Some(DestinationKind::Queue) => {
            let i = router::queue_position(at.router.queues, name);
            if i < at.router.queues.len() && at.router.queues[i].subscriptions.len() > 0 {
                let queue = at.router.queues[i];
                let n = queue.subscriptions.len();
                let turn = queue.next_index % n;
                let moved = Progress {
                    router: RouterView {
                        queues: at.router.queues.update(
                            i,
                            QueueView { next_index: (turn + 1) % n, ..queue },
                        ),
                        ..at.router
                    },
                    ..at
                };
                delivered_keeps_records(
                    moved,
                    queue.subscriptions[turn as int],
                    name,
                    message,
                    ids,
                    p,
                );
            }
        },
    }
}

proof fn republished_keeps_records(
    at: Progress,
    messages: Seq<PendingView>,
    ids: Seq<Seq<char>>,
    p: PendingView,
)
    requires
        at.router.pending.contains(p),
        not_reused(p, ids, at.used),
    ensures
        router::republished(at, messages, ids).router.pending.contains(p),
        router::republished(at, messages, ids).used >= at.used,
    decreases messages.len(),
{
    if messages.len() > 0 {
        let mid = router::republished(at, messages.drop_last(), ids);
        let m = messages.last();
        republished_keeps_records(at, messages.drop_last(), ids, p);
        messages_leave_deliveries_waiting(mid, m.destination, m.frame, ids, p);
    }
}

/// Whatever one connection rejects, and however it ends, what was delivered to
/// another still waits, if nothing is given its name.
pub proof fn other_connections_keep_their_deliveries(
    at: Progress,
    conn_id: u128,
    target: TargetView,
    ids: Seq<Seq<char>>,
    p: PendingView,
)
    requires
        at.router.pending.contains(p),
        p.conn_id != conn_id,
        not_reused(p, ids, at.used),
    ensures
        router::rejected(at, conn_id, target, ids).router.pending.contains(p),
        router::cleaned(at, conn_id, ids).router.pending.contains(p),
{
    let pending = at.router.pending;
    let i = router::target_position(pending, conn_id, target);
    router::target_position_bounds(pending, conn_id, target);
    if i < pending.len() {
        acknowledgements_leave_other_connections_alone(at.router, conn_id, target, p);
        let start = Progress {
            router: RouterView { pending: router::unsettled(pending, i), ..at.router },
            ..at
        };
        republished_keeps_records(start, router::settled(pending, i), ids, p);
    }
    let left = router::unsubscribed(at.router, conn_id, None);
    let others = |e: PendingView| e.conn_id != conn_id;
    picks_contain(pending, others, p);
    republished_keeps_records(
        Progress { router: RouterView { pending: left.pending.filter(others), ..left }, ..at },
        left.pending.filter(|e: PendingView| e.conn_id == conn_id),
        ids,
        p,
    );
}

/// What is sent to a queue, and rejected by the one who got it, is delivered
/// again as it was sent: to someone who is subscribed, with the same body, and
/// with every header but those that mark a delivery.
pub proof fn rejected_messages_come_back_whole(
    at: Progress,
    name: Seq<char>,
    message: FrameView,
    ids: Seq<Seq<char>>,
    i: int,
)
    requires
        at.router.wf(),
        0 <= i < at.router.queues.len(),
        at.router.queues[i].destination == name,
        at.router.queues[i].subscriptions.len() > 0,
        ({
            let mode = at.router.queues[i].subscriptions[at.router.queues[i].next_index as int].ack_mode;
            mode == "client"@ || mode == "client-individual"@
        }),
        forall|k: int|
            0 <= k < at.router.pending.len() ==> (#[trigger] at.router.pending[k]).delivery_id
                != ids[at.used as int],
    ensures
        ({
            let queue = at.router.queues[i];
            let sub = queue.subscriptions[queue.next_index as int];
            let sent = router::published(at, name, message, ids);
            let after = router::rejected(
                sent,
                sub.conn_id,
                TargetView {
                    id: ids[at.used as int],
                    subscription: None,
                    version: StompVersion::V1_2,
                },
                ids,
            );
            exists|d: int, k: int|
                sent.out.len() <= d < after.out.len() && 0 <= k < queue.subscriptions.len()
                    && #[trigger] routing::brings(
                    after.out[d],
                    message,
                    #[trigger] queue.subscriptions[k],
                )
        }),
{
    let queue = at.router.queues[i];
    assert(queue.wf());
    let sub = queue.subscriptions[queue.next_index as int];
    let id = ids[at.used as int];
    let target = TargetView { id, subscription: None, version: StompVersion::V1_2 };
    let sent = router::published(at, name, message, ids);
    let pending = sent.router.pending;
    queues_serve_one(at, name, message, ids, i);
    router::published_keeps_order(at, name, message, ids);
    let last = pending.len() - 1;
    assert(pending[last] == pending.last());
    assert forall|j: int| 0 <= j < last implies (#[trigger] pending[j]).delivery_id != id by {
        assert(pending[j].delivery_id != pending[last].delivery_id);
    }
    acknowledgements_mean_one_delivery(pending, sub.conn_id, target, last);
    let after = router::rejected(sent, sub.conn_id, target, ids);
    routing::rejected_messages_arrive(sent, sub.conn_id, target, ids);
    let covered = router::settled(pending, last);
    let c = covered.len() - 1;
    assert(covered[c] == pending[last]);
    let n = sent.out.len() as int;
    assert(routing::arrives(
        sent.router,
        after.out,
        n,
        covered[c].frame,
        covered[c].destination,
    ));
    assert(sent.router.queues[i].destination == name);
    assert(routing::has_consumer(sent.router, name));
    assert(routing::arrives_in_queue(after.out, n, message, sent.router, name));
    let d = choose|d: int|
        n <= d < after.out.len() && routing::brings_to_consumer(
            #[trigger] after.out[d],
            message,
            sent.router,
            name,
        );
    let (q, k) = choose|q: int, k: int|
        0 <= q < sent.router.queues.len() && sent.router.queues[q].destination == name && 0 <= k
            < sent.router.queues[q].subscriptions.len() && routing::brings(
            after.out[d],
            message,
            #[trigger] sent.router.queues[q].subscriptions[k],
        );
    if q != i {
        if q < i {
            assert(sent.router.queues[q].destination != sent.router.queues[i].destination);
        } else {
            assert(sent.router.queues[i].destination != sent.router.queues[q].destination);
        }
    }
    assert(routing::brings(after.out[d], message, queue.subscriptions[k]));
}

/// What is sent to a queue, and not acknowledged by the one who got it before its
/// connection ends, is delivered again as it was sent, if someone else is
/// subscribed.
pub proof fn lost_messages_come_back_whole(
    at: Progress,
    name: Seq<char>,
    message: FrameView,
    ids: Seq<Seq<char>>,
    i: int,
    other: int,
)
    requires
        at.router.wf(),
        0 <= i < at.router.queues.len(),
        at.router.queues[i].destination == name,
        0 <= other < at.router.queues[i].subscriptions.len(),
        ({
            let sub = at.router.queues[i].subscriptions[at.router.queues[i].next_index as int];
            &&& sub.ack_mode == "client"@ || sub.ack_mode == "client-individual"@
            &&& at.router.queues[i].subscriptions[other].conn_id != sub.conn_id
        }),
    ensures
        ({
            let queue = at.router.queues[i];
            let sub = queue.subscriptions[queue.next_index as int];
            let sent = router::published(at, name, message, ids);
            let after = router::cleaned(sent, sub.conn_id, ids);
            exists|d: int, k: int|
                sent.out.len() <= d < after.out.len() && 0 <= k < queue.subscriptions.len()
                    && queue.subscriptions[k].conn_id != sub.conn_id
                    && #[trigger] routing::brings(
                    after.out[d],
                    message,
                    #[trigger] queue.subscriptions[k],
                )
        }),
{
    let queue = at.router.queues[i];
    assert(queue.wf());
    let sub = queue.subscriptions[queue.next_index as int];
    let conn_id = sub.conn_id;
    let sent = router::published(at, name, message, ids);
    let pending = sent.router.pending;
    queues_serve_one(at, name, message, ids, i);
    router::published_keeps_order(at, name, message, ids);
    let after = router::cleaned(sent, conn_id, ids);
    routing::unacknowledged_messages_arrive(sent, conn_id, ids);
    let left = router::unsubscribed(sent.router, conn_id, None);
    let mine = |p: PendingView| p.conn_id == conn_id;
    let own = pending.filter(mine);
    picks_contain(pending, mine, pending.last());
    assert(pending[pending.len() - 1] == pending.last());
    let c = choose|c: int| 0 <= c < own.len() && own[c] == pending.last();
    let n = sent.out.len() as int;
    assert(routing::arrives(left, after.out, n, own[c].frame, own[c].destination));
    let stays = queue.subscriptions[other];
    routing::ended_subscriptions_are_gone(sent.router, conn_id, None, stays);
    assert(sent.router.queues[i].subscriptions.contains(stays));
    assert(left.queues[i].subscriptions.contains(stays));
    assert(left.queues[i].destination == name);
    assert(routing::has_consumer(left, name));
    assert(sent.router.queues[i].wf());
    assert(routing::arrives_in_queue(after.out, n, message, left, name));
    let d = choose|d: int|
        n <= d < after.out.len() && routing::brings_to_consumer(
            #[trigger] after.out[d],
            message,
            left,
            name,
        );
    let (q, k) = choose|q: int, k: int|
        0 <= q < left.queues.len() && left.queues[q].destination == name && 0 <= k
            < left.queues[q].subscriptions.len() && routing::brings(
            after.out[d],
            message,
            #[trigger] left.queues[q].subscriptions[k],
        );
    if q != i {
        if q < i {
            assert(sent.router.queues[q].destination != sent.router.queues[i].destination);
        } else {
            assert(sent.router.queues[i].destination != sent.router.queues[q].destination);
        }
    }
    let got = left.queues[i].subscriptions[k];
    routing::ended_subscriptions_are_gone(sent.router, conn_id, None, got);
    assert(left.queues[i].subscriptions.contains(got));
    assert(queue.subscriptions.contains(got));
    let m = choose|m: int| 0 <= m < queue.subscriptions.len() && queue.subscriptions[m] == got;
    assert(routing::brings(after.out[d], message, queue.subscriptions[m]));
}

/// What subscriptions, deliveries and acknowledgements say is all that they hold.
pub proof fn nothing_is_left_unsaid(
    sub: SubscriptionInfo,
    delivery: Delivery,
    target: AckTarget<'_>,
)
    ensures
        sub@.conn_id == sub.conn_id,
        sub@.sub_id == sub.sub_id@,
        sub@.sender == sub.sender,
        sub@.ack_mode == sub.ack_mode@,
        sub@.version == sub.version,
        delivery@.sender == delivery.sender,
        delivery@.frame == delivery.frame@,
        target@.id == target.id@,
        target@.version == target.version,
        target@.subscription is Some <==> target.subscription is Some,
        target.subscription is Some ==> target@.subscription->0 == target.subscription->0@,
{
}

/// How far work has come is told in full: by the router, by each delivery in its
/// place, and by how many identifiers were used. What a supply is known to hand out
/// is among what it may hand out, and it hands out nothing else first.
pub proof fn progress_is_told_in_full(
    router: PubSubRouter,
    out: Seq<Delivery>,
    supply: IdSupply,
    all: Seq<Seq<char>>,
    i: int,
)
    ensures
        ({
            let p = router::progress(router, out, supply);
            &&& p.router == router@
            &&& p.used == supply.used()
            &&& p.out.len() == out.len()
            &&& 0 <= i < out.len() ==> p.out[i] == out[i]@
        }),
        supply.may_give(supply.known()),
        supply.may_give(all) ==> all.len() >= supply.known().len() && (0 <= i
            < supply.known().len() ==> all[i] == supply.known()[i]),
{
}

/// Messages may go to whoever has a subscription, and to nobody else.
pub proof fn messages_go_to_subscribers(router: RouterView, sender: u64)
    ensures
        router::sends_to(router, sender) <==> (exists|i: int, j: int|
            0 <= i < router.topics.len() && 0 <= j < router.topics[i].subscriptions.len()
                && (#[trigger] router.topics[i].subscriptions[j]).sender == sender) || (exists|
            i: int,
            j: int,
        |
            0 <= i < router.queues.len() && 0 <= j < router.queues[i].subscriptions.len()
                && (#[trigger] router.queues[i].subscriptions[j]).sender == sender),
{
    if exists|i: int, j: int|
        0 <= i < router.topics.len() && 0 <= j < router.topics[i].subscriptions.len() && (
        #[trigger] router.topics[i].subscriptions[j]).sender == sender {
        let (i, j) = choose|i: int, j: int|
            0 <= i < router.topics.len() && 0 <= j < router.topics[i].subscriptions.len() && (
            #[trigger] router.topics[i].subscriptions[j]).sender == sender;
        assert(router::list_sends_to(router.topics[i].subscriptions, sender));
    }
    if exists|i: int, j: int|
        0 <= i < router.queues.len() && 0 <= j < router.queues[i].subscriptions.len() && (
        #[trigger] router.queues[i].subscriptions[j]).sender == sender {
        let (i, j) = choose|i: int, j: int|
            0 <= i < router.queues.len() && 0 <= j < router.queues[i].subscriptions.len() && (
            #[trigger] router.queues[i].subscriptions[j]).sender == sender;
        assert(router::list_sends_to(router.queues[i].subscriptions, sender));
    }
}

} // verus!
