//! What holds of publishing, subscribing and unsubscribing, taken together.

use crate::broker::{
    at_place, count_on, deliver, is_registered, lemma_count_on_remove, lemma_publish_keeps_wf,
    place_of, spec_publish, BrokerView, SinkId, SinkView,
};
use vstd::prelude::*;

verus! {

/// A message with the channel it is published to.
pub type Posting = (Seq<char>, Seq<u8>);

/// The broker after `posts` were published, one after the other.
pub open spec fn publish_all(b: BrokerView, posts: Seq<Posting>) -> BrokerView
    decreases posts.len(),
{
    if posts.len() == 0 {
        b
    } else {
        publish_all(b, posts.drop_last()).publish(posts.last().0, posts.last().1)
    }
}

/// The messages among `posts` that were published to `channel`, in order.
pub open spec fn sent_to(posts: Seq<Posting>, channel: Seq<char>) -> Seq<Seq<u8>>
    decreases posts.len(),
{
    if posts.len() == 0 {
        Seq::empty()
    } else if posts.last().0 == channel {
        sent_to(posts.drop_last(), channel).push(posts.last().1)
    } else {
        sent_to(posts.drop_last(), channel)
    }
}

/// What the sink `id` of `channel` holds.
pub open spec fn mailbox_of(b: BrokerView, channel: Seq<char>, id: SinkId) -> Seq<Seq<u8>> {
    b.sinks[place_of(b.sinks, channel, id)].mailbox
}

/// In a broker in order, a sink stands where its handle is found.
pub proof fn lemma_place_is(b: BrokerView, channel: Seq<char>, id: SinkId, i: int)
    requires
        b.wf(),
        0 <= i < b.sinks.len(),
        at_place(b.sinks, channel, id, i),
    ensures
        is_registered(b.sinks, channel, id),
        place_of(b.sinks, channel, id) == i,
{
    let p = place_of(b.sinks, channel, id);
    assert(at_place(b.sinks, channel, id, p));
    if p != i {
        assert(b.sinks[p].id == b.sinks[i].id);
    }
}

/// A message published where nobody listens reaches nobody: the count is
/// zero and the broker is as it was.
pub proof fn law_publish_without_subscribers(b: BrokerView, channel: Seq<char>, message: Seq<u8>)
    requires
        forall|i: int| 0 <= i < b.sinks.len() ==> (#[trigger] b.sinks[i]).channel != channel,
    ensures
        count_on(b.sinks, channel) == 0,
        b.publish(channel, message) == b,
{
    lemma_count_zero(b.sinks, channel);
    assert(b.publish(channel, message).sinks =~= b.sinks);
}

proof fn lemma_count_zero(sinks: Seq<SinkView>, channel: Seq<char>)
    requires
        forall|i: int| 0 <= i < sinks.len() ==> (#[trigger] sinks[i]).channel != channel,
    ensures
        count_on(sinks, channel) == 0,
    decreases sinks.len(),
{
    if sinks.len() > 0 {
        let rest = sinks.drop_last();
        assert forall|i: int| 0 <= i < rest.len() implies (#[trigger] rest[i]).channel
            != channel by {
            assert(rest[i] == sinks[i]);
        }
        lemma_count_zero(sinks.drop_last(), channel);
        assert(sinks.last() == sinks[sinks.len() - 1]);
    }
}

/// Publishing registers nobody and takes nobody away: every count stays.
pub proof fn law_publish_keeps_counts(
    sinks: Seq<SinkView>,
    capacity: nat,
    channel: Seq<char>,
    message: Seq<u8>,
    other: Seq<char>,
)
    ensures
        count_on(spec_publish(sinks, capacity, channel, message), other) == count_on(sinks, other),
    decreases sinks.len(),
{
    let after = spec_publish(sinks, capacity, channel, message);
    if sinks.len() > 0 {
        law_publish_keeps_counts(sinks.drop_last(), capacity, channel, message, other);
        assert(after.drop_last() =~= spec_publish(sinks.drop_last(), capacity, channel, message));
    }
}

/// A new subscription raises the count of its channel by one, and of no
/// other channel.
pub proof fn law_subscribe_raises_count(b: BrokerView, channel: Seq<char>, other: Seq<char>)
    requires
        !b.exhausted(),
    ensures
        count_on(b.subscribe(channel).sinks, channel) == count_on(b.sinks, channel) + 1,
        other != channel ==> count_on(b.subscribe(channel).sinks, other) == count_on(
            b.sinks,
            other,
        ),
{
    let after = b.subscribe(channel).sinks;
    assert(after.drop_last() =~= b.sinks);
}

/// After a sink was taken away, a message published to its channel is
/// counted for one sink fewer; the counts of other channels stay.
pub proof fn law_unsubscribe_lowers_count(
    b: BrokerView,
    channel: Seq<char>,
    id: SinkId,
    other: Seq<char>,
)
    requires
        is_registered(b.sinks, channel, id),
    ensures
        count_on(b.unsubscribe(channel, id).sinks, channel) == count_on(b.sinks, channel) - 1,
        other != channel ==> count_on(b.unsubscribe(channel, id).sinks, other) == count_on(
            b.sinks,
            other,
        ),
{
    let i = place_of(b.sinks, channel, id);
    assert(at_place(b.sinks, channel, id, i));
    lemma_count_on_remove(b.sinks, channel, i);
    lemma_count_on_remove(b.sinks, other, i);
}

/// A sink with room gathers, behind what it holds, the messages published
/// to its channel, in the order of publishing, and no others.
pub proof fn lemma_publish_all_mailbox(
    b: BrokerView,
    channel: Seq<char>,
    id: SinkId,
    posts: Seq<Posting>,
)
    requires
        b.wf(),
        is_registered(b.sinks, channel, id),
        mailbox_of(b, channel, id).len() + sent_to(posts, channel).len() <= b.capacity,
    ensures
        publish_all(b, posts).wf(),
        publish_all(b, posts).capacity == b.capacity,
        is_registered(publish_all(b, posts).sinks, channel, id),
        mailbox_of(publish_all(b, posts), channel, id) == mailbox_of(b, channel, id) + sent_to(
            posts,
            channel,
        ),
    decreases posts.len(),
{
    let m0 = mailbox_of(b, channel, id);
    if posts.len() == 0 {
        assert(m0 + sent_to(posts, channel) =~= m0);
    } else {
        let before = posts.drop_last();
        let mid = publish_all(b, before);
        lemma_publish_all_mailbox(b, channel, id, before);
        let p = place_of(mid.sinks, channel, id);
        assert(at_place(mid.sinks, channel, id, p));
        let after = mid.publish(posts.last().0, posts.last().1);
        lemma_publish_keeps_wf(mid, posts.last().0, posts.last().1);
        let post = posts.last();
        assert(after.sinks[p] == deliver(mid.sinks[p], mid.capacity, post.0, post.1));
        assert(at_place(after.sinks, channel, id, p));
        lemma_place_is(after, channel, id, p);
        if posts.last().0 == channel {
            assert(mailbox_of(after, channel, id) =~= m0 + sent_to(posts, channel));
        }
    }
}

/// A subscriber receives exactly the messages that are published to its
/// channel after it has subscribed, in the order of publishing, as long as
/// its mailbox has room for them.
pub proof fn law_subscriber_receives_in_order(
    b: BrokerView,
    channel: Seq<char>,
    posts: Seq<Posting>,
)
    requires
        b.wf(),
        !b.exhausted(),
        sent_to(posts, channel).len() <= b.capacity,
    ensures
        is_registered(publish_all(b.subscribe(channel), posts).sinks, channel, b.next_id),
        mailbox_of(publish_all(b.subscribe(channel), posts), channel, b.next_id) == sent_to(
            posts,
            channel,
        ),
{
    let s = b.subscribe(channel);
    let i = b.sinks.len() as int;
    lemma_subscribe_keeps_wf(b, channel);
    assert(at_place(s.sinks, channel, b.next_id, i));
    lemma_place_is(s, channel, b.next_id, i);
    lemma_publish_all_mailbox(s, channel, b.next_id, posts);
    assert(Seq::<Seq<u8>>::empty() + sent_to(posts, channel) =~= sent_to(posts, channel));
}

/// Registering a sink leaves a broker in order.
pub proof fn lemma_subscribe_keeps_wf(b: BrokerView, channel: Seq<char>)
    requires
        b.wf(),
    ensures
        b.subscribe(channel).wf(),
{
    let after = b.subscribe(channel).sinks;
    if !b.exhausted() {
        assert forall|x: int, y: int| 0 <= x < y < after.len() implies (#[trigger] after[x]).id != (
        #[trigger] after[y]).id by {
            assert(after[x] == b.sinks[x]);
            if y < b.sinks.len() {
                assert(after[y] == b.sinks[y]);
            }
        }
        assert forall|x: int| 0 <= x < after.len() implies (#[trigger] after[x]).mailbox.len()
            <= b.capacity && after[x].id < b.next_id + 1 by {
            if x < b.sinks.len() {
                assert(after[x] == b.sinks[x]);
            }
        }
    }
}

/// A mailbox gives its messages out oldest first.
pub proof fn law_receive_is_first_in_first_out(b: BrokerView, channel: Seq<char>, id: SinkId)
    requires
        b.wf(),
        is_registered(b.sinks, channel, id),
        mailbox_of(b, channel, id).len() > 0,
    ensures
        b.pending(channel, id) == Some(mailbox_of(b, channel, id)[0]),
        is_registered(b.receive(channel, id).sinks, channel, id),
        mailbox_of(b.receive(channel, id), channel, id) == mailbox_of(b, channel, id).skip(1),
{
    let i = place_of(b.sinks, channel, id);
    assert(at_place(b.sinks, channel, id, i));
    let after = b.receive(channel, id);
    assert(at_place(after.sinks, channel, id, i));
    let p = place_of(after.sinks, channel, id);
    assert(at_place(after.sinks, channel, id, p));
    if p != i {
        assert(after.sinks[p] == b.sinks[p]);
        assert(b.sinks[p].id == b.sinks[i].id);
    }
}

} // verus!
