//! Who gets which message, and which deliveries still wait for an
//! acknowledgement.

use crate::destination::{self, DestinationKind};
use crate::frame::{self, FrameView, StompFrame, StompVersion};
use crate::ident::IdSupply;
use crate::{lists, text};
use vstd::prelude::*;

verus! {

/// A subscription to a destination.
pub struct SubscriptionInfo {
    /// The connection that subscribed.
    pub conn_id: u128,
    /// The name that the connection gave the subscription.
    pub sub_id: String,
    /// Where messages for the subscription go.
    pub sender: u64,
    /// How deliveries are acknowledged.
    pub ack_mode: String,
    /// The version of the protocol that the connection speaks.
    pub version: StompVersion,
}

/// What a subscription says.
#[verifier::ext_equal]
pub struct SubscriptionView {
    pub conn_id: u128,
    pub sub_id: Seq<char>,
    pub sender: u64,
    pub ack_mode: Seq<char>,
    pub version: StompVersion,
}

impl View for SubscriptionInfo {
    type V = SubscriptionView;

    open spec fn view(&self) -> SubscriptionView {
        SubscriptionView {
            conn_id: self.conn_id,
            sub_id: self.sub_id@,
            sender: self.sender,
            ack_mode: self.ack_mode@,
            version: self.version,
        }
    }
}

impl SubscriptionInfo {
    fn copy(&self) -> (copy: SubscriptionInfo)
        ensures
            copy@ == self@,
    {
        SubscriptionInfo {
            conn_id: self.conn_id,
            sub_id: self.sub_id.clone(),
            sender: self.sender,
            ack_mode: self.ack_mode.clone(),
            version: self.version,
        }
    }
}

/// What a list of subscriptions says.
pub open spec fn subscriptions_view(s: Seq<SubscriptionInfo>) -> Seq<SubscriptionView> {
    s.map_values(|sub: SubscriptionInfo| sub@)
}

struct TopicInfo {
    pattern: String,
    subscriptions: Vec<SubscriptionInfo>,
}

/// The subscriptions to a pattern of topics, oldest first.
#[verifier::ext_equal]
pub struct TopicView {
    pub pattern: Seq<char>,
    pub subscriptions: Seq<SubscriptionView>,
}

impl TopicInfo {
    spec fn view(self) -> TopicView {
        TopicView {
            pattern: self.pattern@,
            subscriptions: subscriptions_view(self.subscriptions@),
        }
    }
}

struct QueueInfo {
    destination: String,
    subscriptions: Vec<SubscriptionInfo>,
    next_index: usize,
}

/// The subscriptions to a queue, oldest first, and whose turn it is.
#[verifier::ext_equal]
pub struct QueueView {
    pub destination: Seq<char>,
    pub subscriptions: Seq<SubscriptionView>,
    pub next_index: nat,
}

impl QueueInfo {
    spec fn view(self) -> QueueView {
        QueueView {
            destination: self.destination@,
            subscriptions: subscriptions_view(self.subscriptions@),
            next_index: self.next_index as nat,
        }
    }
}

struct PendingAckInfo {
    delivery_id: String,
    conn_id: u128,
    sub_id: String,
    destination: String,
    frame: StompFrame<'static>,
    ack_mode: String,
    message_id: String,
}

/// A delivery that waits for an acknowledgement.
#[verifier::ext_equal]
pub struct PendingView {
    pub delivery_id: Seq<char>,
    pub conn_id: u128,
    pub sub_id: Seq<char>,
    pub destination: Seq<char>,
    pub frame: FrameView,
    pub ack_mode: Seq<char>,
    pub message_id: Seq<char>,
}

impl PendingAckInfo {
    spec fn view(self) -> PendingView {
        PendingView {
            delivery_id: self.delivery_id@,
            conn_id: self.conn_id,
            sub_id: self.sub_id@,
            destination: self.destination@,
            frame: self.frame@,
            ack_mode: self.ack_mode@,
            message_id: self.message_id@,
        }
    }
}

/// The subscriptions of all connections, and the deliveries that wait for an
/// acknowledgement, in the order in which they were made.
pub struct PubSubRouter {
    topics: Vec<TopicInfo>,
    queues: Vec<QueueInfo>,
    pending_acks: Vec<PendingAckInfo>,
}

/// What a router knows.
#[verifier::ext_equal]
pub struct RouterView {
    pub topics: Seq<TopicView>,
    pub queues: Seq<QueueView>,
    pub pending: Seq<PendingView>,
}

spec fn topics_view(s: Seq<TopicInfo>) -> Seq<TopicView> {
    s.map_values(|t: TopicInfo| t.view())
}

spec fn queues_view(s: Seq<QueueInfo>) -> Seq<QueueView> {
    s.map_values(|q: QueueInfo| q.view())
}

spec fn pending_view(s: Seq<PendingAckInfo>) -> Seq<PendingView> {
    s.map_values(|p: PendingAckInfo| p.view())
}

/// A frame on its way to a subscriber.
pub struct Delivery {
    pub sender: u64,
    pub frame: StompFrame<'static>,
}

/// What a delivery says.
#[verifier::ext_equal]
pub struct DeliveryView {
    pub sender: u64,
    pub frame: FrameView,
}

impl View for Delivery {
    type V = DeliveryView;

    open spec fn view(&self) -> DeliveryView {
        DeliveryView { sender: self.sender, frame: self.frame@ }
    }
}

/// What a list of deliveries says.
pub open spec fn deliveries_view(s: Seq<Delivery>) -> Seq<DeliveryView> {
    s.map_values(|d: Delivery| d@)
}

/// Whether deliveries under this mode wait for an acknowledgement.
pub open spec fn waits_for_ack(ack_mode: Seq<char>) -> bool {
    ack_mode == "client"@ || ack_mode == "client-individual"@
}

impl TopicView {
    /// Whether the pattern is one of topics.
    pub open spec fn wf(self) -> bool {
        destination::kind_of(self.pattern) == Some(DestinationKind::Topic)
    }
}

impl QueueView {
    /// Whether the destination is an exact one of a queue, and the turn is that
    /// of a subscriber where there is one.
    pub open spec fn wf(self) -> bool {
        &&& destination::kind_of(self.destination) == Some(DestinationKind::Queue)
        &&& !destination::has_wildcard(self.destination)
        &&& self.next_index < self.subscriptions.len() || (self.next_index == 0
            && self.subscriptions.len() == 0)
    }
}

impl RouterView {
    /// Whether the router is in order: no pattern, queue, or delivery is listed
    /// twice, and only what waits for an acknowledgement is pending.
    pub open spec fn wf(self) -> bool {
        &&& forall|i: int| 0 <= i < self.topics.len() ==> (#[trigger] self.topics[i]).wf()
        &&& forall|i: int, j: int|
            0 <= i < j < self.topics.len() ==> (#[trigger] self.topics[i]).pattern != (
            #[trigger] self.topics[j]).pattern
        &&& forall|i: int| 0 <= i < self.queues.len() ==> (#[trigger] self.queues[i]).wf()
        &&& forall|i: int, j: int|
            0 <= i < j < self.queues.len() ==> (#[trigger] self.queues[i]).destination != (
            #[trigger] self.queues[j]).destination
        &&& forall|i: int|
            0 <= i < self.pending.len() ==> waits_for_ack((#[trigger] self.pending[i]).ack_mode)
        &&& forall|i: int, j: int|
            0 <= i < j < self.pending.len() ==> (#[trigger] self.pending[i]).delivery_id != (
            #[trigger] self.pending[j]).delivery_id
    }
}

impl View for PubSubRouter {
    type V = RouterView;

    closed spec fn view(&self) -> RouterView {
        RouterView {
            topics: topics_view(self.topics@),
            queues: queues_view(self.queues@),
            pending: pending_view(self.pending_acks@),
        }
    }
}

/// The position of the subscriptions to a pattern; the length of the list where
/// there is none.
pub open spec fn topic_position(topics: Seq<TopicView>, pattern: Seq<char>) -> int
    decreases topics.len(),
{
    if topics.len() == 0 {
        0
    } else if topics[0].pattern == pattern {
        0
    } else {
        1 + topic_position(topics.drop_first(), pattern)
    }
}

/// The position of a queue; the length of the list where there is none.
pub open spec fn queue_position(queues: Seq<QueueView>, name: Seq<char>) -> int
    decreases queues.len(),
{
    if queues.len() == 0 {
        0
    } else if queues[0].destination == name {
        0
    } else {
        1 + queue_position(queues.drop_first(), name)
    }
}

/// The subscriptions to topics with one more.
pub open spec fn topics_with(
    topics: Seq<TopicView>,
    pattern: Seq<char>,
    sub: SubscriptionView,
) -> Seq<TopicView> {
    let i = topic_position(topics, pattern);
    if i < topics.len() {
        topics.update(
            i,
            TopicView { pattern, subscriptions: topics[i].subscriptions.push(sub) },
        )
    } else {
        topics.push(TopicView { pattern, subscriptions: seq![sub] })
    }
}

/// The subscriptions to queues with one more.
pub open spec fn queues_with(
    queues: Seq<QueueView>,
    name: Seq<char>,
    sub: SubscriptionView,
) -> Seq<QueueView> {
    let i = queue_position(queues, name);
    if i < queues.len() {
        queues.update(
            i,
            QueueView {
                destination: name,
                subscriptions: queues[i].subscriptions.push(sub),
                next_index: queues[i].next_index,
            },
        )
    } else {
        queues.push(
            QueueView { destination: name, subscriptions: seq![sub], next_index: 0 },
        )
    }
}

/// What comes of a subscription: an error, or the router with the subscription.
pub open spec fn subscribed(
    router: RouterView,
    name: Seq<char>,
    sub: SubscriptionView,
) -> Result<RouterView, Seq<char>> {
    match destination::kind_of(name) {
        None => Err("Unknown destination"@),
        Some(DestinationKind::Topic) => Ok(
            RouterView { topics: topics_with(router.topics, name, sub), ..router },
        ),
        Some(DestinationKind::Queue) => if destination::has_wildcard(name) {
            Err("Queue subscriptions must use an exact destination"@)
        } else {
            Ok(RouterView { queues: queues_with(router.queues, name, sub), ..router })
        },
    }
}

/// Where the position of a pattern leads.
pub proof fn topic_position_bounds(topics: Seq<TopicView>, pattern: Seq<char>)
    ensures
        ({
            let i = topic_position(topics, pattern);
            &&& 0 <= i <= topics.len()
            &&& i < topics.len() ==> topics[i].pattern == pattern
            &&& forall|j: int| 0 <= j < i ==> (#[trigger] topics[j]).pattern != pattern
        }),
    decreases topics.len(),
{
    if topics.len() > 0 && topics[0].pattern != pattern {
        let rest = topics.drop_first();
        topic_position_bounds(rest, pattern);
        assert forall|j: int| 0 <= j < topic_position(topics, pattern) implies (
        #[trigger] topics[j]).pattern != pattern by {
            if j > 0 {
                assert(rest[j - 1] == topics[j]);
            }
        }
    }
}

/// Where the position of a queue leads.
pub proof fn queue_position_bounds(queues: Seq<QueueView>, name: Seq<char>)
    ensures
        ({
            let i = queue_position(queues, name);
            &&& 0 <= i <= queues.len()
            &&& i < queues.len() ==> queues[i].destination == name
            &&& forall|j: int| 0 <= j < i ==> (#[trigger] queues[j]).destination != name
        }),
    decreases queues.len(),
{
    if queues.len() > 0 && queues[0].destination != name {
        let rest = queues.drop_first();
        queue_position_bounds(rest, name);
        assert forall|j: int| 0 <= j < queue_position(queues, name) implies (
        #[trigger] queues[j]).destination != name by {
            if j > 0 {
                assert(rest[j - 1] == queues[j]);
            }
        }
    }
}

/// A subscription leaves the router in order.
proof fn subscribed_keeps_order(router: RouterView, name: Seq<char>, sub: SubscriptionView)
    requires
        router.wf(),
    ensures
        subscribed(router, name, sub) matches Ok(after) ==> after.wf(),
{
    topic_position_bounds(router.topics, name);
    queue_position_bounds(router.queues, name);
}

fn find_topic(topics: &Vec<TopicInfo>, pattern: &str) -> (at: usize)
    ensures
        at == topic_position(topics_view(topics@), pattern@),
        at <= topics@.len(),
{
    let ghost all = topics_view(topics@);
    let mut i: usize = 0;
    assert(all.skip(0) =~= all);
    while i < topics.len()
        invariant
            i <= topics@.len(),
            all == topics_view(topics@),
            topic_position(all, pattern@) == i + topic_position(all.skip(i as int), pattern@),
        decreases topics@.len() - i,
    {
        assert(all.skip(i as int)[0] == topics@[i as int].view());
        if text::text_eq(topics[i].pattern.as_str(), pattern) {
            return i;
        }
        assert(all.skip(i as int).drop_first() =~= all.skip(i as int + 1));
        i += 1;
    }
    i
}

fn find_queue(queues: &Vec<QueueInfo>, name: &str) -> (at: usize)
    ensures
        at == queue_position(queues_view(queues@), name@),
        at <= queues@.len(),
{
    let ghost all = queues_view(queues@);
    let mut i: usize = 0;
    assert(all.skip(0) =~= all);
    while i < queues.len()
        invariant
            i <= queues@.len(),
            all == queues_view(queues@),
            queue_position(all, name@) == i + queue_position(all.skip(i as int), name@),
        decreases queues@.len() - i,
    {
        assert(all.skip(i as int)[0] == queues@[i as int].view());
        if text::text_eq(queues[i].destination.as_str(), name) {
            return i;
        }
        assert(all.skip(i as int).drop_first() =~= all.skip(i as int + 1));
        i += 1;
    }
    i
}

impl PubSubRouter {
    /// A router without subscriptions.
    pub fn new() -> (router: Self)
        ensures
            router@.wf(),
            router@ == (RouterView { topics: seq![], queues: seq![], pending: seq![] }),
    {
        let router = PubSubRouter {
            topics: Vec::new(),
            queues: Vec::new(),
            pending_acks: Vec::new(),
        };
        assert(router@ =~= (RouterView { topics: seq![], queues: seq![], pending: seq![] }));
        router
    }

    /// Adds a subscription. Unknown destinations are refused, and so are
    /// wildcards in the name of a queue.
    pub fn subscribe(
        &mut self,
        conn_id: u128,
        sub_id: String,
        destination: String,
        ack_mode: String,
        version: StompVersion,
        sender: u64,
    ) -> (result: Result<(), &'static str>)
        requires
            old(self)@.wf(),
        ensures
            final(self)@.wf(),
            match subscribed(
                old(self)@,
                destination@,
                SubscriptionView {
                    conn_id,
                    sub_id: sub_id@,
                    sender,
                    ack_mode: ack_mode@,
                    version,
                },
            ) {
                Ok(after) => result is Ok && final(self)@ == after,
                Err(message) => {
                    &&& result matches Err(m) && m@ == message
                    &&& final(self)@ == old(self)@
                },
            },
    {
        let subscription = SubscriptionInfo { conn_id, sub_id, sender, ack_mode, version };
        let ghost before = self@;
        let ghost sub = subscription@;
        proof {
            subscribed_keeps_order(self@, destination@, sub);
            topic_position_bounds(self@.topics, destination@);
            queue_position_bounds(self@.queues, destination@);
        }
        match destination::classify_destination(destination.as_str()) {
            None => Err("Unknown destination"),
            Some(DestinationKind::Topic) => {
                let i = find_topic(&self.topics, destination.as_str());
                if i < self.topics.len() {
                    self.topics[i].subscriptions.push(subscription);
                } else {
                    let mut subscriptions: Vec<SubscriptionInfo> = Vec::new();
                    subscriptions.push(subscription);
                    assert(subscriptions_view(subscriptions@) =~= seq![sub]);
                    self.topics.push(TopicInfo { pattern: destination, subscriptions });
                }
                proof {
                    let now = self@.topics;
                    let want = topics_with(before.topics, destination@, sub);
                    assert(now.len() == want.len());
                    assert forall|k: int| 0 <= k < now.len() implies now[k] == want[k] by {
                        assert(now[k].subscriptions =~= want[k].subscriptions);
                    }
                    assert(now =~= want);
                }
                Ok(())
            },
            Some(DestinationKind::Queue) => {
                if destination::contains_wildcard(destination.as_str()) {
                    return Err("Queue subscriptions must use an exact destination");
                }
                let i = find_queue(&self.queues, destination.as_str());
                if i < self.queues.len() {
                    self.queues[i].subscriptions.push(subscription);
                } else {
                    let mut subscriptions: Vec<SubscriptionInfo> = Vec::new();
                    subscriptions.push(subscription);
                    assert(subscriptions_view(subscriptions@) =~= seq![sub]);
                    self.queues.push(QueueInfo { destination, subscriptions, next_index: 0 });
                }
                proof {
                    let now = self@.queues;
                    let want = queues_with(before.queues, destination@, sub);
                    assert(now.len() == want.len());
                    assert forall|k: int| 0 <= k < now.len() implies now[k] == want[k] by {
                        assert(now[k].subscriptions =~= want[k].subscriptions);
                    }
                    assert(now =~= want);
                }
                Ok(())
            },
        }
    }
}

/// The subscriptions to topics that a message to `name` goes to, in order.
pub open spec fn topic_targets(topics: Seq<TopicView>, name: Seq<char>) -> Seq<SubscriptionView>
    decreases topics.len(),
{
    if topics.len() == 0 {
        seq![]
    } else {
        let before = topic_targets(topics.drop_last(), name);
        if destination::path_matches(topics.last().pattern, name) {
            before + topics.last().subscriptions
        } else {
            before
        }
    }
}

/// A message as a subscriber gets it: marked with the subscription, and in
/// version 1.2 with the identifier by which the delivery is acknowledged.
pub open spec fn message_for(
    message: FrameView,
    sub: SubscriptionView,
    delivery_id: Option<Seq<char>>,
) -> FrameView {
    let marked = frame::without(message.headers, "subscription"@).push(
        ("subscription"@, sub.sub_id),
    );
    let headers = if delivery_id is Some && sub.version == StompVersion::V1_2 {
        frame::without(marked, "ack"@).push(("ack"@, delivery_id->0))
    } else {
        marked
    };
    FrameView { command: message.command, headers, body: message.body }
}

/// The record of a delivery that waits for an acknowledgement.
pub open spec fn pending_entry(
    message: FrameView,
    sub: SubscriptionView,
    name: Seq<char>,
    delivery_id: Seq<char>,
) -> PendingView {
    PendingView {
        delivery_id,
        conn_id: sub.conn_id,
        sub_id: sub.sub_id,
        destination: name,
        frame: message,
        ack_mode: sub.ack_mode,
        message_id: match frame::header(
            message_for(message, sub, Some(delivery_id)).headers,
            "message-id"@,
        ) {
            Some(id) => id,
            None => seq![],
        },
    }
}

/// The pending deliveries without the one that has this identifier.
pub open spec fn pending_without(pending: Seq<PendingView>, delivery_id: Seq<char>) -> Seq<
    PendingView,
> {
    pending.filter(|p: PendingView| p.delivery_id != delivery_id)
}

/// The pending deliveries with one more, at the end. One that has the same
/// identifier gives way to it.
pub open spec fn pending_with(pending: Seq<PendingView>, entry: PendingView) -> Seq<PendingView> {
    pending_without(pending, entry.delivery_id).push(entry)
}

/// How far work on a router has come: what the router knows, what is on its way
/// to subscribers, and how many identifiers were used.
#[verifier::ext_equal]
pub struct Progress {
    pub router: RouterView,
    pub out: Seq<DeliveryView>,
    pub used: nat,
}

/// One delivery. `ids` are the identifiers to use.
pub open spec fn delivered(
    at: Progress,
    sub: SubscriptionView,
    name: Seq<char>,
    message: FrameView,
    ids: Seq<Seq<char>>,
) -> Progress {
    if waits_for_ack(sub.ack_mode) {
        let id = ids[at.used as int];
        Progress {
            router: RouterView {
                pending: pending_with(
                    at.router.pending,
                    pending_entry(message, sub, name, id),
                ),
                ..at.router
            },
            out: at.out.push(
                DeliveryView { sender: sub.sender, frame: message_for(message, sub, Some(id)) },
            ),
            used: at.used + 1,
        }
    } else {
        Progress {
            out: at.out.push(
                DeliveryView { sender: sub.sender, frame: message_for(message, sub, None) },
            ),
            ..at
        }
    }
}

/// A delivery to each of some subscriptions, in order.
pub open spec fn delivered_to_all(
    at: Progress,
    subs: Seq<SubscriptionView>,
    name: Seq<char>,
    message: FrameView,
    ids: Seq<Seq<char>>,
) -> Progress
    decreases subs.len(),
{
    if subs.len() == 0 {
        at
    } else {
        delivered(
            delivered_to_all(at, subs.drop_last(), name, message, ids),
            subs.last(),
            name,
            message,
            ids,
        )
    }
}

/// A message to a queue: it goes to the subscriber whose turn it is, and the
/// turn goes to the next one. Without subscribers it is dropped.
pub open spec fn queued(
    at: Progress,
    name: Seq<char>,
    message: FrameView,
    ids: Seq<Seq<char>>,
) -> Progress {
    let i = queue_position(at.router.queues, name);
    if i >= at.router.queues.len() || at.router.queues[i].subscriptions.len() == 0 {
        at
    } else {
        let queue = at.router.queues[i];
        let n = queue.subscriptions.len();
        let turn = queue.next_index % n;
        let moved = Progress {
            router: RouterView {
                queues: at.router.queues.update(
                    i,
                    QueueView { next_index: (turn + 1) % n, ..queue },
                ),
                ..at.router
            },
            ..at
        };
        delivered(moved, queue.subscriptions[turn as int], name, message, ids)
    }
}

/// A message to a destination. Nothing comes of one to an unknown destination.
pub open spec fn published(
    at: Progress,
    name: Seq<char>,
    message: FrameView,
    ids: Seq<Seq<char>>,
) -> Progress {
    match destination::kind_of(name) {
        None => at,
        Some(DestinationKind::Topic) => delivered_to_all(
            at,
            topic_targets(at.router.topics, name),
            name,
            message,
            ids,
        ),
        Some(DestinationKind::Queue) => queued(at, name, message, ids),
    }
}

/// How far a router, the deliveries made, and a supply of identifiers are.
pub open spec fn progress(router: PubSubRouter, out: Seq<Delivery>, ids: IdSupply) -> Progress {
    Progress { router: router@, out: deliveries_view(out), used: ids.used() }
}

/// Taking one out leaves the rest different from it and from each other.
proof fn pending_without_keeps_order(pending: Seq<PendingView>, id: Seq<char>)
    requires
        forall|i: int, j: int|
            0 <= i < j < pending.len() ==> (#[trigger] pending[i]).delivery_id != (
            #[trigger] pending[j]).delivery_id,
    ensures
        ({
            let kept = pending_without(pending, id);
            &&& forall|i: int| 0 <= i < kept.len() ==> (#[trigger] kept[i]).delivery_id != id
            &&& forall|i: int|
                0 <= i < kept.len() ==> pending.contains(#[trigger] kept[i])
            &&& forall|i: int, j: int|
                0 <= i < j < kept.len() ==> (#[trigger] kept[i]).delivery_id != (
                #[trigger] kept[j]).delivery_id
        }),
    decreases pending.len(),
{
    reveal(Seq::filter);
    if pending.len() > 0 {
        let rest = pending.drop_last();
        let kept = pending_without(rest, id);
        pending_without_keeps_order(rest, id);
        assert forall|p: PendingView| rest.contains(p) implies pending.contains(p) && p.delivery_id
            != pending.last().delivery_id by {
            let k = choose|k: int| 0 <= k < rest.len() && rest[k] == p;
            assert(pending[k] == p);
        }
        assert(pending.contains(pending.last()));
        assert forall|i: int, j: int|
            0 <= i < j < pending_without(pending, id).len() implies (
        #[trigger] pending_without(pending, id)[i]).delivery_id != (
        #[trigger] pending_without(pending, id)[j]).delivery_id by {
            assert(rest.contains(kept[i]));
        }
    }
}

/// A delivery leaves the router in order, and its subscriptions alone.
proof fn delivered_keeps_order(
    at: Progress,
    sub: SubscriptionView,
    name: Seq<char>,
    message: FrameView,
    ids: Seq<Seq<char>>,
)
    requires
        at.router.wf(),
    ensures
        delivered(at, sub, name, message, ids).router.wf(),
        delivered(at, sub, name, message, ids).router.topics == at.router.topics,
        delivered(at, sub, name, message, ids).router.queues == at.router.queues,
{
    if waits_for_ack(sub.ack_mode) {
        let entry = pending_entry(message, sub, name, ids[at.used as int]);
        pending_without_keeps_order(at.router.pending, entry.delivery_id);
    }
}

proof fn delivered_to_all_keeps_order(
    at: Progress,
    subs: Seq<SubscriptionView>,
    name: Seq<char>,
    message: FrameView,
    ids: Seq<Seq<char>>,
)
    requires
        at.router.wf(),
    ensures
        delivered_to_all(at, subs, name, message, ids).router.wf(),
        delivered_to_all(at, subs, name, message, ids).router.topics == at.router.topics,
        delivered_to_all(at, subs, name, message, ids).router.queues == at.router.queues,
    decreases subs.len(),
{
    if subs.len() > 0 {
        delivered_to_all_keeps_order(at, subs.drop_last(), name, message, ids);
        delivered_keeps_order(
            delivered_to_all(at, subs.drop_last(), name, message, ids),
            subs.last(),
            name,
            message,
            ids,
        );
    }
}

/// A message leaves the router in order. No subscription comes or goes.
pub proof fn published_keeps_order(
    at: Progress,
    name: Seq<char>,
    message: FrameView,
    ids: Seq<Seq<char>>,
)
    requires
        at.router.wf(),
    ensures
        published(at, name, message, ids).router.wf(),
        published(at, name, message, ids).router.topics == at.router.topics,
        published(at, name, message, ids).router.queues.len() == at.router.queues.len(),
        forall|i: int|
            0 <= i < at.router.queues.len() ==> {
                let now = #[trigger] published(at, name, message, ids).router.queues[i];
                &&& now.destination == at.router.queues[i].destination
                &&& now.subscriptions == at.router.queues[i].subscriptions
            },
{
    match destination::kind_of(name) {
        None => {},
        Some(DestinationKind::Topic) => {
            delivered_to_all_keeps_order(
                at,
                topic_targets(at.router.topics, name),
                name,
                message,
                ids,
            );
        },
        Some(DestinationKind::Queue) => {
            queue_position_bounds(at.router.queues, name);
            let i = queue_position(at.router.queues, name);
            if i < at.router.queues.len() && at.router.queues[i].subscriptions.len() > 0 {
                let queue = at.router.queues[i];
                let n = queue.subscriptions.len();
                let turn = queue.next_index % n;
                let moved = Progress {
                    router: RouterView {
                        queues: at.router.queues.update(
                            i,
                            QueueView { next_index: (turn + 1) % n, ..queue },
                        ),
                        ..at.router
                    },
                    ..at
                };
                assert(moved.router.wf());
                delivered_keeps_order(
                    moved,
                    queue.subscriptions[turn as int],
                    name,
                    message,
                    ids,
                );
            }
        },
    }
}

/// The message that a subscriber gets.
pub fn mark_message(
    message: &StompFrame<'static>,
    sub: &SubscriptionInfo,
    delivery_id: Option<&str>,
) -> (marked: StompFrame<'static>)
    ensures
        marked@ == message_for(
            message@,
            sub@,
            match delivery_id {
                Some(id) => Some(id@),
                None => None,
            },
        ),
{
    let copy = message.to_static();
    let mut headers = frame::remove_headers(copy.headers, "subscription");
    frame::push_header(&mut headers, "subscription", sub.sub_id.clone());
    if let Some(id) = delivery_id {
        if sub.version == StompVersion::V1_2 {
            headers = frame::remove_headers(headers, "ack");
            frame::push_header(&mut headers, "ack", id.to_string());
        }
    }
    StompFrame { command: copy.command, headers, body: copy.body }
}

fn is_client_mode(ack_mode: &str) -> (yes: bool)
    ensures
        yes == waits_for_ack(ack_mode@),
{
    text::text_eq(ack_mode, "client") || text::text_eq(ack_mode, "client-individual")
}

impl PubSubRouter {
    /// Remembers a delivery that waits for an acknowledgement.
    fn remember(&mut self, entry: PendingAckInfo)
        ensures
            final(self)@ == (RouterView {
                pending: pending_with(old(self)@.pending, entry.view()),
                ..old(self)@
            }),
    {
        let ghost id = entry.delivery_id@;
        let ghost all = self.pending_acks@;
        let ghost picks = |p: PendingAckInfo| p.delivery_id@ == id;
        let count = self.pending_acks.len();
        lists::take_out(
            &mut self.pending_acks,
            count,
            |p: &PendingAckInfo| -> (yes: bool)
                ensures
                    p.delivery_id@ == id <==> yes
                { text::text_eq(p.delivery_id.as_str(), entry.delivery_id.as_str()) },
            Ghost(picks),
        );
        let ghost kept = self.pending_acks@;
        self.pending_acks.push(entry);
        proof {
            let keeps = lists::others(picks);
            let keep = |p: PendingView| p.delivery_id != id;
            assert(all.take(count as int) =~= all);
            assert(kept =~= all.filter(keeps));
            lists::filter_of_map(all, |p: PendingAckInfo| p.view(), keeps, keep);
            assert(pending_view(self.pending_acks@) =~= pending_view(kept).push(entry.view()));
        }
    }

    fn deliver(
        &mut self,
        sub: &SubscriptionInfo,
        destination: &str,
        message: &StompFrame<'static>,
        ids: &mut IdSupply,
        out: &mut Vec<Delivery>,
    )
        requires
            old(ids).wf(),
        ensures
            final(ids).wf(),
            final(ids).follows(*old(ids)),
            forall|all: Seq<Seq<char>>| #[trigger]
                final(ids).may_give(all) ==> delivered(
                    progress(*old(self), old(out)@, *old(ids)),
                    sub@,
                    destination@,
                    message@,
                    all,
                ) == progress(*final(self), final(out)@, *final(ids)),
    {
        let ghost start = progress(*self, out@, *ids);
        if is_client_mode(sub.ack_mode.as_str()) {
            let delivery_id = ids.next_id();
            let marked = mark_message(message, sub, Some(delivery_id.as_str()));
            let message_id = match marked.get_header("message-id") {
                Some(id) => id.to_string(),
                None => String::new(),
            };
            let entry = PendingAckInfo {
                delivery_id,
                conn_id: sub.conn_id,
                sub_id: sub.sub_id.clone(),
                destination: destination.to_string(),
                frame: message.to_static(),
                ack_mode: sub.ack_mode.clone(),
                message_id,
            };
            proof {
                let want = pending_entry(message@, sub@, destination@, delivery_id@);
                assert(entry.view().message_id =~= want.message_id);
                assert(entry.view() =~= want);
            }
            self.remember(entry);
            out.push(Delivery { sender: sub.sender, frame: marked });
        } else {
            let marked = mark_message(message, sub, None);
            out.push(Delivery { sender: sub.sender, frame: marked });
        }
        proof {
            assert(deliveries_view(out@) =~= start.out.push(out@.last()@));
            assert forall|all: Seq<Seq<char>>| #[trigger] ids.may_give(all) implies delivered(
                start,
                sub@,
                destination@,
                message@,
                all,
            ) == progress(*self, out@, *ids) by {
                assert(delivered(start, sub@, destination@, message@, all) =~= progress(
                    *self,
                    out@,
                    *ids,
                ));
            }
        }
    }

    fn collect_targets(&self, destination: &str) -> (targets: Vec<SubscriptionInfo>)
        ensures
            subscriptions_view(targets@) == topic_targets(self@.topics, destination@),
    {
        let ghost all = self@.topics;
        let mut targets: Vec<SubscriptionInfo> = Vec::new();
        let mut i: usize = 0;
        assert(subscriptions_view(targets@) =~= topic_targets(all.take(0), destination@));
        while i < self.topics.len()
            invariant
                i <= self.topics@.len(),
                all == topics_view(self.topics@),
                subscriptions_view(targets@) == topic_targets(all.take(i as int), destination@),
            decreases self.topics@.len() - i,
        {
            let ghost before = subscriptions_view(targets@);
            let topic = &self.topics[i];
            proof {
                assert(all.take(i as int + 1).drop_last() =~= all.take(i as int));
                assert(all.take(i as int + 1).last() == topic.view());
            }
            if destination::matches_destination(topic.pattern.as_str(), destination) {
                let ghost subs = subscriptions_view(topic.subscriptions@);
                let mut j: usize = 0;
                assert(before + subs.take(0) =~= before);
                while j < topic.subscriptions.len()
                    invariant
                        j <= topic.subscriptions@.len(),
                        subs == subscriptions_view(topic.subscriptions@),
                        subscriptions_view(targets@) == before + subs.take(j as int),
                    decreases topic.subscriptions@.len() - j,
                {
                    let ghost so_far = subscriptions_view(targets@);
                    targets.push(topic.subscriptions[j].copy());
                    proof {
                        assert(subs[j as int] == topic.subscriptions@[j as int]@);
                        assert(subscriptions_view(targets@) =~= so_far.push(subs[j as int]));
                        assert(subscriptions_view(targets@) =~= before + subs.take(j as int + 1));
                    }
                    j += 1;
                }
                assert(subs.take(j as int) =~= subs);
            }
            i += 1;
        }
        assert(all.take(i as int) =~= all);
        targets
    }

    /// Publishes a message, and adds the deliveries to `out`.
    fn send(
        &mut self,
        destination: &str,
        message: &StompFrame<'static>,
        ids: &mut IdSupply,
        out: &mut Vec<Delivery>,
    )
        requires
            old(self)@.wf(),
            old(ids).wf(),
        ensures
            final(self)@.wf(),
            final(ids).wf(),
            final(ids).follows(*old(ids)),
            forall|all: Seq<Seq<char>>| #[trigger]
                final(ids).may_give(all) ==> published(
                    progress(*old(self), old(out)@, *old(ids)),
                    destination@,
                    message@,
                    all,
                ) == progress(*final(self), final(out)@, *final(ids)),
    {
        let ghost start = progress(*self, out@, *ids);
        let ghost ids_start = *ids;
        match destination::classify_destination(destination) {
            None => {},
            Some(DestinationKind::Topic) => {
                let targets = self.collect_targets(destination);
                let ghost subs = subscriptions_view(targets@);
                let mut i: usize = 0;
                while i < targets.len()
                    invariant
                        i <= targets@.len(),
                        subs == subscriptions_view(targets@),
                        ids.wf(),
                        ids.follows(ids_start),
                        forall|all: Seq<Seq<char>>| #[trigger]
                            ids.may_give(all) ==> delivered_to_all(
                                start,
                                subs.take(i as int),
                                destination@,
                                message@,
                                all,
                            ) == progress(*self, out@, *ids),
                    decreases targets@.len() - i,
                {
                    let ghost ids_before = *ids;
                    self.deliver(&targets[i], destination, message, ids, out);
                    proof {
                        ids.follows_on(ids_before, ids_start);
                        assert(subs.take(i as int + 1).drop_last() =~= subs.take(i as int));
                        assert(subs.take(i as int + 1).last() == targets@[i as int]@);
                        assert forall|all: Seq<Seq<char>>| #[trigger]
                            ids.may_give(all) implies delivered_to_all(
                            start,
                            subs.take(i as int + 1),
                            destination@,
                            message@,
                            all,
                        ) == progress(*self, out@, *ids) by {
                            assert(ids_before.may_give(all));
                        }
                    }
                    i += 1;
                }
                assert(subs.take(i as int) =~= subs);
            },
            Some(DestinationKind::Queue) => {
                let i = find_queue(&self.queues, destination);
                proof {
                    queue_position_bounds(self@.queues, destination@);
                }
                if i < self.queues.len() && self.queues[i].subscriptions.len() > 0 {
                    let count = self.queues[i].subscriptions.len();
                    let index = self.queues[i].next_index % count;
                    let sub = self.queues[i].subscriptions[index].copy();
                    let ghost queue = self.queues@[i as int].view();
                    self.queues[i].next_index = (index + 1) % count;
                    let ghost moved = progress(*self, out@, *ids);
                    proof {
                        let want = Progress {
                            router: RouterView {
                                queues: start.router.queues.update(
                                    i as int,
                                    QueueView {
                                        next_index: ((index + 1) % count as int) as nat,
                                        ..queue
                                    },
                                ),
                                ..start.router
                            },
                            ..start
                        };
                        assert(moved.router.queues =~= want.router.queues);
                        assert(moved =~= want);
                        assert(queue.subscriptions[index as int] == sub@);
                    }
                    self.deliver(&sub, destination, message, ids, out);
                    proof {
                        assert forall|all: Seq<Seq<char>>| #[trigger]
                            ids.may_give(all) implies published(
                            start,
                            destination@,
                            message@,
                            all,
                        ) == progress(*self, out@, *ids) by {
                            assert(published(start, destination@, message@, all) == delivered(
                                moved,
                                sub@,
                                destination@,
                                message@,
                                all,
                            ));
                        }
                    }
                }
            },
        }
        proof {
            let all = ids.known();
            assert(ids.may_give(all));
            published_keeps_order(start, destination@, message@, all);
        }
    }

    /// Publishes a message. Messages to unknown destinations are refused.
    pub fn publish(
        &mut self,
        destination: &str,
        frame: StompFrame<'static>,
        ids: &mut IdSupply,
    ) -> (result: Result<Vec<Delivery>, &'static str>)
        requires
            old(self)@.wf(),
            old(ids).wf(),
        ensures
            final(self)@.wf(),
            final(ids).wf(),
            final(ids).follows(*old(ids)),
            match result {
                Ok(out) => {
                    &&& destination::kind_of(destination@) is Some
                    &&& forall|all: Seq<Seq<char>>| #[trigger]
                        final(ids).may_give(all) ==> published(
                            progress(*old(self), seq![], *old(ids)),
                            destination@,
                            frame@,
                            all,
                        ) == progress(*final(self), out@, *final(ids))
                },
                Err(message) => {
                    &&& destination::kind_of(destination@) is None
                    &&& message@ == "Unknown destination"@
                    &&& final(self)@ == old(self)@
                    &&& *final(ids) == *old(ids)
                },
            },
    {
        if destination::classify_destination(destination).is_none() {
            return Err("Unknown destination");
        }
        let mut out: Vec<Delivery> = Vec::new();
        assert(out@ =~= seq![]);
        self.send(destination, &frame, ids, &mut out);
        Ok(out)
    }
}

/// Which subscriptions go: all those of a connection, or the one of that name.
pub open spec fn ends(sub: SubscriptionView, conn_id: u128, sub_id: Option<Seq<char>>) -> bool {
    &&& sub.conn_id == conn_id
    &&& sub_id matches Some(id) ==> sub.sub_id == id
}

/// The subscriptions that stay.
pub open spec fn remaining(
    subs: Seq<SubscriptionView>,
    conn_id: u128,
    sub_id: Option<Seq<char>>,
) -> Seq<SubscriptionView> {
    subs.filter(|sub: SubscriptionView| !ends(sub, conn_id, sub_id))
}

/// A topic after subscriptions have gone.
pub open spec fn topic_after(t: TopicView, conn_id: u128, sub_id: Option<Seq<char>>) -> TopicView {
    TopicView { subscriptions: remaining(t.subscriptions, conn_id, sub_id), ..t }
}

/// A queue after subscriptions have gone. The turn stays within those left.
pub open spec fn queue_after(q: QueueView, conn_id: u128, sub_id: Option<Seq<char>>) -> QueueView {
    let subscriptions = remaining(q.subscriptions, conn_id, sub_id);
    QueueView {
        destination: q.destination,
        subscriptions,
        next_index: if subscriptions.len() == 0 {
            0
        } else {
            q.next_index % subscriptions.len()
        },
    }
}

/// A router after subscriptions have gone.
pub open spec fn unsubscribed(
    router: RouterView,
    conn_id: u128,
    sub_id: Option<Seq<char>>,
) -> RouterView {
    RouterView {
        topics: router.topics.map_values(|t: TopicView| topic_after(t, conn_id, sub_id)),
        queues: router.queues.map_values(|q: QueueView| queue_after(q, conn_id, sub_id)),
        pending: router.pending,
    }
}

/// When subscriptions go, the router stays in order.
pub proof fn unsubscribed_keeps_order(router: RouterView, conn_id: u128, sub_id: Option<Seq<char>>)
    requires
        router.wf(),
    ensures
        unsubscribed(router, conn_id, sub_id).wf(),
{
    let after = unsubscribed(router, conn_id, sub_id);
    assert forall|i: int| 0 <= i < after.topics.len() implies (#[trigger] after.topics[i]).wf() by {
        assert(router.topics[i].wf());
    }
    assert forall|i: int| 0 <= i < after.queues.len() implies (#[trigger] after.queues[i]).wf() by {
        assert(router.queues[i].wf());
    }
}

/// Takes subscriptions out of a list.
fn drop_subscriptions(
    subs: &mut Vec<SubscriptionInfo>,
    conn_id: u128,
    sub_id: Option<&str>,
)
    ensures
        subscriptions_view(final(subs)@) == remaining(
            subscriptions_view(old(subs)@),
            conn_id,
            match sub_id {
                Some(id) => Some(id@),
                None => None,
            },
        ),
{
    let ghost which: Option<Seq<char>> = match sub_id {
        Some(id) => Some(id@),
        None => None,
    };
    let ghost all = subs@;
    let ghost picks = |sub: SubscriptionInfo| ends(sub@, conn_id, which);
    let count = subs.len();
    lists::take_out(
        subs,
        count,
        |sub: &SubscriptionInfo| -> (yes: bool)
            ensures
                ends(sub@, conn_id, which) <==> yes
            {
                let named = match sub_id {
                    Some(id) => text::text_eq(sub.sub_id.as_str(), id),
                    None => true,
                };
                sub.conn_id == conn_id && named
            },
        Ghost(picks),
    );
    proof {
        let keeps = lists::others(picks);
        let keep = |sub: SubscriptionView| !ends(sub, conn_id, which);
        assert(all.take(count as int) =~= all);
        assert(subs@ =~= all.filter(keeps));
        lists::filter_of_map(all, |sub: SubscriptionInfo| sub@, keeps, keep);
    }
}

impl PubSubRouter {
    fn end_subscriptions(&mut self, conn_id: u128, sub_id: Option<&str>)
        ensures
            final(self)@ == unsubscribed(
                old(self)@,
                conn_id,
                match sub_id {
                    Some(id) => Some(id@),
                    None => None,
                },
            ),
    {
        let ghost which: Option<Seq<char>> = match sub_id {
            Some(id) => Some(id@),
            None => None,
        };
        let ghost before = *self;
        let mut i: usize = 0;
        while i < self.topics.len()
            invariant
                i <= self.topics@.len(),
                self.topics@.len() == before.topics@.len(),
                self.queues == before.queues,
                self.pending_acks == before.pending_acks,
                sub_id matches Some(id) ==> which == Some(id@),
                sub_id is None ==> which is None,
                forall|k: int|
                    0 <= k < i ==> (#[trigger] self.topics@[k]).view() == topic_after(
                        before.topics@[k].view(),
                        conn_id,
                        which,
                    ),
                forall|k: int|
                    i <= k < self.topics@.len() ==> #[trigger] self.topics@[k]
                        == before.topics@[k],
            decreases self.topics@.len() - i,
        {
            drop_subscriptions(&mut self.topics[i].subscriptions, conn_id, sub_id);
            i += 1;
        }
        let ghost middle = *self;
        let mut i: usize = 0;
        while i < self.queues.len()
            invariant
                i <= self.queues@.len(),
                self.queues@.len() == before.queues@.len(),
                self.topics == middle.topics,
                self.pending_acks == before.pending_acks,
                sub_id matches Some(id) ==> which == Some(id@),
                sub_id is None ==> which is None,
                forall|k: int|
                    0 <= k < i ==> (#[trigger] self.queues@[k]).view() == queue_after(
                        before.queues@[k].view(),
                        conn_id,
                        which,
                    ),
                forall|k: int|
                    i <= k < self.queues@.len() ==> #[trigger] self.queues@[k]
                        == before.queues@[k],
            decreases self.queues@.len() - i,
        {
            drop_subscriptions(&mut self.queues[i].subscriptions, conn_id, sub_id);
            let count = self.queues[i].subscriptions.len();
            let next = if count == 0 {
                0
            } else {
                self.queues[i].next_index % count
            };
            self.queues[i].next_index = next;
            proof {
                let now = self.queues@[i as int].view();
                let was = before.queues@[i as int].view();
                assert(now.subscriptions == remaining(was.subscriptions, conn_id, which));
                assert(now =~= queue_after(was, conn_id, which));
            }
            i += 1;
        }
        proof {
            let want = unsubscribed(before@, conn_id, which);
            assert(self@.topics =~= want.topics);
            assert(self@.queues =~= want.queues);
        }
    }

    /// Ends a subscription. A connection may have several of that name: all of
    /// them end.
    pub fn unsubscribe(&mut self, conn_id: u128, sub_id: &str)
        requires
            old(self)@.wf(),
        ensures
            final(self)@.wf(),
            final(self)@ == unsubscribed(old(self)@, conn_id, Some(sub_id@)),
    {
        proof {
            unsubscribed_keeps_order(self@, conn_id, Some(sub_id@));
        }
        self.end_subscriptions(conn_id, Some(sub_id));
    }
}

/// Whether a list of subscriptions has one whose messages go to `sender`.
pub open spec fn list_sends_to(subs: Seq<SubscriptionView>, sender: u64) -> bool {
    exists|i: int| 0 <= i < subs.len() && (#[trigger] subs[i]).sender == sender
}

/// Whether messages may go to `sender`.
pub open spec fn sends_to(router: RouterView, sender: u64) -> bool {
    ||| exists|i: int|
        0 <= i < router.topics.len() && list_sends_to(
            (#[trigger] router.topics[i]).subscriptions,
            sender,
        )
    ||| exists|i: int|
        0 <= i < router.queues.len() && list_sends_to(
            (#[trigger] router.queues[i]).subscriptions,
            sender,
        )
}

fn any_sends_to(subs: &Vec<SubscriptionInfo>, sender: u64) -> (yes: bool)
    ensures
        yes == list_sends_to(subscriptions_view(subs@), sender),
{
    let ghost all = subscriptions_view(subs@);
    let mut i: usize = 0;
    while i < subs.len()
        invariant
            i <= subs@.len(),
            all == subscriptions_view(subs@),
            forall|k: int| 0 <= k < i ==> (#[trigger] all[k]).sender != sender,
        decreases subs@.len() - i,
    {
        assert(all[i as int] == subs@[i as int]@);
        if subs[i].sender == sender {
            return true;
        }
        i += 1;
    }
    false
}

impl PubSubRouter {
    /// Whether messages may go to `sender`.
    pub fn uses_sender(&self, sender: u64) -> (yes: bool)
        ensures
            yes == sends_to(self@, sender),
    {
        let ghost topics = self@.topics;
        let ghost queues = self@.queues;
        let mut i: usize = 0;
        while i < self.topics.len()
            invariant
                i <= self.topics@.len(),
                topics == topics_view(self.topics@),
                topics == self@.topics,
                forall|k: int|
                    0 <= k < i ==> !list_sends_to((#[trigger] topics[k]).subscriptions, sender),
            decreases self.topics@.len() - i,
        {
            assert(topics[i as int] == self.topics@[i as int].view());
            if any_sends_to(&self.topics[i].subscriptions, sender) {
                return true;
            }
            i += 1;
        }
        let mut i: usize = 0;
        while i < self.queues.len()
            invariant
                i <= self.queues@.len(),
                queues == queues_view(self.queues@),
                queues == self@.queues,
                forall|k: int|
                    0 <= k < i ==> !list_sends_to((#[trigger] queues[k]).subscriptions, sender),
            decreases self.queues@.len() - i,
        {
            assert(queues[i as int] == self.queues@[i as int].view());
            if any_sends_to(&self.queues[i].subscriptions, sender) {
                return true;
            }
            i += 1;
        }
        false
    }
}

/// What an acknowledgement, positive or negative, speaks of.
pub struct AckTarget<'a> {
    pub id: &'a str,
    pub subscription: Option<&'a str>,
    pub version: StompVersion,
}

/// What an acknowledgement speaks of, in plain values.
#[verifier::ext_equal]
pub struct TargetView {
    pub id: Seq<char>,
    pub subscription: Option<Seq<char>>,
    pub version: StompVersion,
}

impl<'a> View for AckTarget<'a> {
    type V = TargetView;

    open spec fn view(&self) -> TargetView {
        TargetView {
            id: self.id@,
            subscription: match self.subscription {
                Some(s) => Some(s@),
                None => None,
            },
            version: self.version,
        }
    }
}

/// Whether an acknowledgement from a connection speaks of a delivery. In version
/// 1.2 it names the delivery; before that, the message, and in version 1.1 the
/// subscription too.
pub open spec fn speaks_of(target: TargetView, conn_id: u128, p: PendingView) -> bool {
    &&& p.conn_id == conn_id
    &&& match target.version {
        StompVersion::V1_2 => p.delivery_id == target.id,
        StompVersion::V1_1 => p.message_id == target.id && target.subscription == Some(p.sub_id),
        StompVersion::V1_0 => p.message_id == target.id,
    }
}

/// The position of the oldest delivery that an acknowledgement speaks of; the
/// length of the list where there is none.
pub open spec fn target_position(
    pending: Seq<PendingView>,
    conn_id: u128,
    target: TargetView,
) -> int
    decreases pending.len(),
{
    if pending.len() == 0 {
        0
    } else if speaks_of(target, conn_id, pending[0]) {
        0
    } else {
        1 + target_position(pending.drop_first(), conn_id, target)
    }
}

/// Where the position of an acknowledged delivery leads.
pub proof fn target_position_bounds(pending: Seq<PendingView>, conn_id: u128, target: TargetView)
    ensures
        ({
            let i = target_position(pending, conn_id, target);
            &&& 0 <= i <= pending.len()
            &&& i < pending.len() ==> speaks_of(target, conn_id, pending[i])
            &&& forall|j: int| 0 <= j < i ==> !speaks_of(target, conn_id, #[trigger] pending[j])
        }),
    decreases pending.len(),
{
    if pending.len() > 0 && !speaks_of(target, conn_id, pending[0]) {
        let rest = pending.drop_first();
        target_position_bounds(rest, conn_id, target);
        assert forall|j: int| 0 <= j < target_position(pending, conn_id, target) implies !speaks_of(
            target,
            conn_id,
            #[trigger] pending[j],
        ) by {
            if j > 0 {
                assert(rest[j - 1] == pending[j]);
            }
        }
    }
}

/// Finds the delivery that an acknowledgement speaks of.
fn find_pending_ack(
    pending_acks: &Vec<PendingAckInfo>,
    conn_id: u128,
    target: &AckTarget<'_>,
) -> (at: usize)
    ensures
        at == target_position(pending_view(pending_acks@), conn_id, target@),
        at <= pending_acks@.len(),
{
    let ghost all = pending_view(pending_acks@);
    let mut i: usize = 0;
    assert(all.skip(0) =~= all);
    while i < pending_acks.len()
        invariant
            i <= pending_acks@.len(),
            all == pending_view(pending_acks@),
            target_position(all, conn_id, target@) == i + target_position(
                all.skip(i as int),
                conn_id,
                target@,
            ),
        decreases pending_acks@.len() - i,
    {
        let info = &pending_acks[i];
        assert(all.skip(i as int)[0] == info.view());
        let named = match target.version {
            StompVersion::V1_2 => text::text_eq(info.delivery_id.as_str(), target.id),
            StompVersion::V1_1 => match target.subscription {
                Some(subscription) => text::text_eq(info.message_id.as_str(), target.id)
                    && text::text_eq(info.sub_id.as_str(), subscription),
                None => false,
            },
            StompVersion::V1_0 => text::text_eq(info.message_id.as_str(), target.id),
        };
        if info.conn_id == conn_id && named {
            return i;
        }
        assert(all.skip(i as int).drop_first() =~= all.skip(i as int + 1));
        i += 1;
    }
    i
}

/// Whether the acknowledgement of a delivery covers an earlier one: under the
/// mode `client` it covers all those of the same subscription.
pub open spec fn covers(p: PendingView, earlier: PendingView) -> bool {
    &&& p.ack_mode == "client"@
    &&& earlier.conn_id == p.conn_id
    &&& earlier.sub_id == p.sub_id
}

/// The deliveries that still wait when the one at position `i` and those it
/// covers are settled.
pub open spec fn unsettled(pending: Seq<PendingView>, i: int) -> Seq<PendingView> {
    pending.take(i).filter(|e: PendingView| !covers(pending[i], e)) + pending.skip(i + 1)
}

/// The deliveries that are settled with the one at position `i`, that one last.
pub open spec fn settled(pending: Seq<PendingView>, i: int) -> Seq<PendingView> {
    pending.take(i).filter(|e: PendingView| covers(pending[i], e)).push(pending[i])
}

/// What stays of a list is part of it, in the same order.
pub proof fn filter_keeps_order(pending: Seq<PendingView>, keep: spec_fn(PendingView) -> bool)
    requires
        forall|i: int, j: int|
            0 <= i < j < pending.len() ==> (#[trigger] pending[i]).delivery_id != (
            #[trigger] pending[j]).delivery_id,
    ensures
        ({
            let kept = pending.filter(keep);
            &&& forall|i: int| 0 <= i < kept.len() ==> pending.contains(#[trigger] kept[i])
            &&& forall|i: int| 0 <= i < kept.len() ==> keep(#[trigger] kept[i])
            &&& forall|i: int, j: int|
                0 <= i < j < kept.len() ==> (#[trigger] kept[i]).delivery_id != (
                #[trigger] kept[j]).delivery_id
        }),
    decreases pending.len(),
{
    reveal(Seq::filter);
    if pending.len() > 0 {
        let rest = pending.drop_last();
        let kept = rest.filter(keep);
        filter_keeps_order(rest, keep);
        assert forall|p: PendingView| rest.contains(p) implies pending.contains(p) && p.delivery_id
            != pending.last().delivery_id by {
            let k = choose|k: int| 0 <= k < rest.len() && rest[k] == p;
            assert(pending[k] == p);
        }
        assert(pending.contains(pending.last()));
        assert forall|i: int, j: int| 0 <= i < j < pending.filter(keep).len() implies (
        #[trigger] pending.filter(keep)[i]).delivery_id != (
        #[trigger] pending.filter(keep)[j]).delivery_id by {
            assert(rest.contains(kept[i]));
        }
    }
}

/// Settling deliveries leaves the router in order.
pub proof fn unsettled_keeps_order(router: RouterView, i: int)
    requires
        router.wf(),
        0 <= i < router.pending.len(),
    ensures
        (RouterView { pending: unsettled(router.pending, i), ..router }).wf(),
        forall|j: int|
            0 <= j < unsettled(router.pending, i).len() ==> router.pending.contains(
                #[trigger] unsettled(router.pending, i)[j],
            ),
{
    let pending = router.pending;
    let front = pending.take(i);
    let keep = |e: PendingView| !covers(pending[i], e);
    let kept = front.filter(keep);
    let now = unsettled(pending, i);
    filter_keeps_order(front, keep);
    assert forall|j: int| 0 <= j < kept.len() implies exists|k: int|
        0 <= k < i && pending[k] == #[trigger] kept[j] by {
        assert(front.contains(kept[j]));
        let k = choose|k: int| 0 <= k < front.len() && front[k] == kept[j];
        assert(pending[k] == kept[j]);
    }
    assert forall|j: int| 0 <= j < now.len() implies pending.contains(#[trigger] now[j]) by {
        if j < kept.len() {
            assert(now[j] == kept[j]);
        } else {
            assert(now[j] == pending[i + 1 + j - kept.len()]);
        }
    }
    assert forall|j: int, k: int| 0 <= j < k < now.len() implies (#[trigger] now[j]).delivery_id
        != (#[trigger] now[k]).delivery_id by {
        if k < kept.len() {
            assert(now[j] == kept[j] && now[k] == kept[k]);
        } else {
            assert(now[k] == pending[i + 1 + k - kept.len()]);
            if j < kept.len() {
                assert(now[j] == kept[j]);
                let m = choose|m: int| 0 <= m < i && pending[m] == kept[j];
                assert(pending[m].delivery_id != pending[i + 1 + k - kept.len()].delivery_id);
            } else {
                assert(now[j] == pending[i + 1 + j - kept.len()]);
            }
        }
    }
}

/// A router after an acknowledgement.
pub open spec fn acknowledged(router: RouterView, conn_id: u128, target: TargetView) -> RouterView {
    let i = target_position(router.pending, conn_id, target);
    if i < router.pending.len() {
        RouterView { pending: unsettled(router.pending, i), ..router }
    } else {
        router
    }
}

/// Messages for publication, one after the other.
pub open spec fn republished(
    at: Progress,
    messages: Seq<PendingView>,
    ids: Seq<Seq<char>>,
) -> Progress
    decreases messages.len(),
{
    if messages.len() == 0 {
        at
    } else {
        let m = messages.last();
        published(republished(at, messages.drop_last(), ids), m.destination, m.frame, ids)
    }
}

/// What comes of a negative acknowledgement: what it settles is published anew.
pub open spec fn rejected(
    at: Progress,
    conn_id: u128,
    target: TargetView,
    ids: Seq<Seq<char>>,
) -> Progress {
    let pending = at.router.pending;
    let i = target_position(pending, conn_id, target);
    if i < pending.len() {
        republished(
            Progress { router: RouterView { pending: unsettled(pending, i), ..at.router }, ..at },
            settled(pending, i),
            ids,
        )
    } else {
        at
    }
}

/// What comes of the end of a connection: its subscriptions go, and what it has
/// not acknowledged is published anew.
pub open spec fn cleaned(at: Progress, conn_id: u128, ids: Seq<Seq<char>>) -> Progress {
    let left = unsubscribed(at.router, conn_id, None);
    republished(
        Progress {
            router: RouterView {
                pending: left.pending.filter(|p: PendingView| p.conn_id != conn_id),
                ..left
            },
            ..at
        },
        left.pending.filter(|p: PendingView| p.conn_id == conn_id),
        ids,
    )
}

/// Publishing anew leaves the router in order.
proof fn republished_keeps_order(at: Progress, messages: Seq<PendingView>, ids: Seq<Seq<char>>)
    requires
        at.router.wf(),
    ensures
        republished(at, messages, ids).router.wf(),
    decreases messages.len(),
{
    if messages.len() > 0 {
        republished_keeps_order(at, messages.drop_last(), ids);
        let m = messages.last();
        published_keeps_order(
            republished(at, messages.drop_last(), ids),
            m.destination,
            m.frame,
            ids,
        );
    }
}

impl PubSubRouter {
    /// Takes the deliveries that are settled with the one at position `at` out
    /// of those that wait.
    fn settle(&mut self, at: usize) -> (taken: Vec<PendingAckInfo>)
        requires
            at < old(self)@.pending.len(),
        ensures
            pending_view(taken@) == settled(old(self)@.pending, at as int),
            final(self)@ == (RouterView {
                pending: unsettled(old(self)@.pending, at as int),
                ..old(self)@
            }),
    {
        let ghost all = self.pending_acks@;
        let ghost pending = self@.pending;
        let ghost this = pending[at as int];
        let target = self.pending_acks.remove(at);
        assert(target.view() == this);
        let ghost front = all.take(at as int);
        let ghost back = all.skip(at as int + 1);
        assert(self.pending_acks@.take(at as int) =~= front);
        assert(self.pending_acks@.skip(at as int) =~= back);
        let cumulative = text::text_eq(target.ack_mode.as_str(), "client");
        let ghost picks = |e: PendingAckInfo| covers(this, e.view());
        let mut taken = lists::take_out(
            &mut self.pending_acks,
            at,
            |e: &PendingAckInfo| -> (yes: bool)
                ensures
                    covers(this, e.view()) <==> yes
                {
                    cumulative && e.conn_id == target.conn_id && text::text_eq(
                        e.sub_id.as_str(),
                        target.sub_id.as_str(),
                    )
                },
            Ghost(picks),
        );
        let ghost covered = taken@;
        taken.push(target);
        proof {
            let look = |e: PendingAckInfo| e.view();
            let keeps = lists::others(picks);
            lists::filter_of_map(front, look, picks, |e: PendingView| covers(this, e));
            lists::filter_of_map(front, look, keeps, |e: PendingView| !covers(this, e));
            assert(self.pending_acks@ =~= front.filter(keeps) + back);
            assert(pending_view(front) =~= pending.take(at as int));
            assert(pending_view(back) =~= pending.skip(at as int + 1));
            assert(pending_view(taken@) =~= pending_view(covered).push(this));
            assert(pending_view(self.pending_acks@) =~= pending_view(front.filter(keeps))
                + pending_view(back));
        }
        taken
    }

    /// Publishes messages anew, and adds the deliveries to `out`.
    fn republish(
        &mut self,
        messages: &Vec<PendingAckInfo>,
        ids: &mut IdSupply,
        out: &mut Vec<Delivery>,
    )
        requires
            old(self)@.wf(),
            old(ids).wf(),
        ensures
            final(self)@.wf(),
            final(ids).wf(),
            final(ids).follows(*old(ids)),
            forall|all: Seq<Seq<char>>| #[trigger]
                final(ids).may_give(all) ==> republished(
                    progress(*old(self), old(out)@, *old(ids)),
                    pending_view(messages@),
                    all,
                ) == progress(*final(self), final(out)@, *final(ids)),
    {
        let ghost start = progress(*self, out@, *ids);
        let ghost ids_start = *ids;
        let ghost list = pending_view(messages@);
        let mut i: usize = 0;
        while i < messages.len()
            invariant
                i <= messages@.len(),
                list == pending_view(messages@),
                self@.wf(),
                ids.wf(),
                ids.follows(ids_start),
                forall|all: Seq<Seq<char>>| #[trigger]
                    ids.may_give(all) ==> republished(start, list.take(i as int), all) == progress(
                        *self,
                        out@,
                        *ids,
                    ),
            decreases messages@.len() - i,
        {
            let ghost ids_before = *ids;
            let m = &messages[i];
            self.send(m.destination.as_str(), &m.frame, ids, out);
            proof {
                ids.follows_on(ids_before, ids_start);
                assert(list.take(i as int + 1).drop_last() =~= list.take(i as int));
                assert(list.take(i as int + 1).last() == m.view());
                assert forall|all: Seq<Seq<char>>| #[trigger] ids.may_give(all) implies republished(
                    start,
                    list.take(i as int + 1),
                    all,
                ) == progress(*self, out@, *ids) by {
                    assert(ids_before.may_give(all));
                }
            }
            i += 1;
        }
        assert(list.take(i as int) =~= list);
    }

    /// Settles what a connection acknowledges.
    pub fn handle_ack(&mut self, conn_id: u128, target: AckTarget<'_>)
        requires
            old(self)@.wf(),
        ensures
            final(self)@.wf(),
            final(self)@ == acknowledged(old(self)@, conn_id, target@),
    {
        let i = find_pending_ack(&self.pending_acks, conn_id, &target);
        if i < self.pending_acks.len() {
            proof {
                unsettled_keeps_order(self@, i as int);
            }
            let _ = self.settle(i);
        }
    }

    /// Settles what a connection rejects, and publishes it anew. Adds the
    /// deliveries to `out`.
    pub fn handle_nack(
        &mut self,
        conn_id: u128,
        target: AckTarget<'_>,
        ids: &mut IdSupply,
        out: &mut Vec<Delivery>,
    )
        requires
            old(self)@.wf(),
            old(ids).wf(),
        ensures
            final(self)@.wf(),
            final(ids).wf(),
            final(ids).follows(*old(ids)),
            forall|all: Seq<Seq<char>>| #[trigger]
                final(ids).may_give(all) ==> rejected(
                    progress(*old(self), old(out)@, *old(ids)),
                    conn_id,
                    target@,
                    all,
                ) == progress(*final(self), final(out)@, *final(ids)),
    {
        let i = find_pending_ack(&self.pending_acks, conn_id, &target);
        if i < self.pending_acks.len() {
            proof {
                unsettled_keeps_order(self@, i as int);
            }
            let taken = self.settle(i);
            self.republish(&taken, ids, out);
        }
    }

    /// Forgets a connection: its subscriptions end, and what it has not
    /// acknowledged is published anew. Adds the deliveries to `out`.
    pub fn clean_connection(
        &mut self,
        conn_id: u128,
        ids: &mut IdSupply,
        out: &mut Vec<Delivery>,
    )
        requires
            old(self)@.wf(),
            old(ids).wf(),
        ensures
            final(self)@.wf(),
            final(ids).wf(),
            final(ids).follows(*old(ids)),
            forall|all: Seq<Seq<char>>| #[trigger]
                final(ids).may_give(all) ==> cleaned(
                    progress(*old(self), old(out)@, *old(ids)),
                    conn_id,
                    all,
                ) == progress(*final(self), final(out)@, *final(ids)),
    {
        proof {
            unsubscribed_keeps_order(self@, conn_id, None);
        }
        self.end_subscriptions(conn_id, None);
        let ghost all = self@.pending;
        let ghost own = |p: PendingView| p.conn_id == conn_id;
        let ghost others = |p: PendingView| p.conn_id != conn_id;
        let ghost waiting = self.pending_acks@;
        let ghost picks = |p: PendingAckInfo| p.conn_id == conn_id;
        let count = self.pending_acks.len();
        let taken = lists::take_out(
            &mut self.pending_acks,
            count,
            |p: &PendingAckInfo| -> (yes: bool)
                ensures
                    p.conn_id == conn_id <==> yes
                { p.conn_id == conn_id },
            Ghost(picks),
        );
        proof {
            let look = |p: PendingAckInfo| p.view();
            let keeps = lists::others(picks);
            assert(waiting.take(count as int) =~= waiting);
            assert(self.pending_acks@ =~= waiting.filter(keeps));
            lists::filter_of_map(waiting, look, picks, own);
            lists::filter_of_map(waiting, look, keeps, others);
            filter_keeps_order(all, others);
            assert(self@.pending == all.filter(others));
            assert forall|k: int| 0 <= k < self@.pending.len() implies waits_for_ack(
                (#[trigger] self@.pending[k]).ack_mode,
            ) by {
                assert(all.contains(all.filter(others)[k]));
            }
            assert(self@.wf());
        }
        self.republish(&taken, ids, out);
    }
}

} // verus!
