//! The publish/subscribe broker: an arena of sinks, each registered for one
//! channel and holding a bounded mailbox. A message published to a channel
//! is put into the mailbox of every sink of that channel that has room; a
//! full mailbox misses the message, and the publisher never waits.

use crate::text::str_eq;
use crate::trusted::bytes_contents;
use bytes::Bytes;
use vstd::prelude::*;

verus! {

/// The handle by which a subscriber names its sink.
pub type SinkId = u64;

pub struct Sink {
    id: SinkId,
    channel: String,
    /// The messages not yet received, oldest first.
    mailbox: Vec<Bytes>,
}

/// What a sink is, apart from how it is stored.
pub struct SinkView {
    pub id: SinkId,
    pub channel: Seq<char>,
    pub mailbox: Seq<Seq<u8>>,
}

impl View for Sink {
    type V = SinkView;

    closed spec fn view(&self) -> SinkView {
        SinkView {
            id: self.id,
            channel: self.channel@,
            mailbox: Seq::new(self.mailbox@.len(), |i: int| bytes_contents(self.mailbox@[i])),
        }
    }
}

pub struct Broker {
    sinks: Vec<Sink>,
    next_id: SinkId,
    capacity: usize,
}

/// What a broker is, apart from how it is stored.
pub struct BrokerView {
    /// The sinks, in the order in which they were registered.
    pub sinks: Seq<SinkView>,
    /// The handle that the next sink will get.
    pub next_id: SinkId,
    /// How many messages a mailbox holds at most.
    pub capacity: nat,
}

/// What a run of buffers holds.
pub open spec fn contents_of(v: Seq<Bytes>) -> Seq<Seq<u8>> {
    Seq::new(v.len(), |i: int| bytes_contents(v[i]))
}

/// How many of `sinks` are registered for `channel`.
pub open spec fn count_on(sinks: Seq<SinkView>, channel: Seq<char>) -> nat
    decreases sinks.len(),
{
    if sinks.len() == 0 {
        0
    } else {
        count_on(sinks.drop_last(), channel) + if sinks.last().channel == channel {
            1nat
        } else {
            0nat
        }
    }
}

/// A sink after `message` was published to `channel`.
pub open spec fn deliver(
    s: SinkView,
    capacity: nat,
    channel: Seq<char>,
    message: Seq<u8>,
) -> SinkView {
    if s.channel == channel && s.mailbox.len() < capacity {
        SinkView { id: s.id, channel: s.channel, mailbox: s.mailbox.push(message) }
    } else {
        s
    }
}

/// The sinks after `message` was published to `channel`.
pub open spec fn spec_publish(
    sinks: Seq<SinkView>,
    capacity: nat,
    channel: Seq<char>,
    message: Seq<u8>,
) -> Seq<SinkView> {
    Seq::new(sinks.len(), |i: int| deliver(sinks[i], capacity, channel, message))
}

/// Whether the sink `id` is registered for `channel`.
pub open spec fn is_registered(sinks: Seq<SinkView>, channel: Seq<char>, id: SinkId) -> bool {
    exists|i: int| 0 <= i < sinks.len() && #[trigger] at_place(sinks, channel, id, i)
}

pub open spec fn at_place(sinks: Seq<SinkView>, channel: Seq<char>, id: SinkId, i: int) -> bool {
    sinks[i].id == id && sinks[i].channel == channel
}

/// Where the sink `id` of `channel` stands among `sinks`.
pub open spec fn place_of(sinks: Seq<SinkView>, channel: Seq<char>, id: SinkId) -> int {
    choose|i: int| 0 <= i < sinks.len() && #[trigger] at_place(sinks, channel, id, i)
}

/// The sinks after the sink `id` of `channel` was taken away.
pub open spec fn spec_unsubscribe(
    sinks: Seq<SinkView>,
    channel: Seq<char>,
    id: SinkId,
) -> Seq<SinkView> {
    if is_registered(sinks, channel, id) {
        sinks.remove(place_of(sinks, channel, id))
    } else {
        sinks
    }
}

/// Whether no two of `sinks` have the same handle.
pub open spec fn distinct_ids(sinks: Seq<SinkView>) -> bool {
    forall|i: int, j: int|
        0 <= i < j < sinks.len() ==> (#[trigger] sinks[i]).id != (#[trigger] sinks[j]).id
}

/// Taking one sink away lowers the count of its channel by one and leaves
/// every other count as it was.
pub proof fn lemma_count_on_remove(sinks: Seq<SinkView>, channel: Seq<char>, i: int)
    requires
        0 <= i < sinks.len(),
    ensures
        count_on(sinks.remove(i), channel) + (if sinks[i].channel == channel {
            1nat
        } else {
            0nat
        }) == count_on(sinks, channel),
    decreases sinks.len(),
{
    let rest = sinks.remove(i);
    if i == sinks.len() - 1 {
        assert(rest =~= sinks.drop_last());
    } else {
        lemma_count_on_remove(sinks.drop_last(), channel, i);
        assert(rest.drop_last() =~= sinks.drop_last().remove(i));
        assert(rest.last() == sinks.last());
    }
}

impl View for Broker {
    type V = BrokerView;

    closed spec fn view(&self) -> BrokerView {
        BrokerView {
            sinks: Seq::new(self.sinks@.len(), |i: int| self.sinks@[i]@),
            next_id: self.next_id,
            capacity: self.capacity as nat,
        }
    }
}

impl BrokerView {
    /// No two sinks share a handle, no mailbox holds more than it may, and
    /// the handles not yet given out are unused.
    pub open spec fn wf(self) -> bool {
        &&& distinct_ids(self.sinks)
        &&& forall|i: int|
            0 <= i < self.sinks.len() ==> (#[trigger] self.sinks[i]).mailbox.len() <= self.capacity
        &&& forall|i: int|
            0 <= i < self.sinks.len() ==> (#[trigger] self.sinks[i]).id < self.next_id
    }

    /// Whether every handle has been given out.
    pub open spec fn exhausted(self) -> bool {
        self.next_id == u64::MAX
    }

    /// The broker after a sink was registered for `channel`.
    pub open spec fn subscribe(self, channel: Seq<char>) -> BrokerView {
        if self.exhausted() {
            self
        } else {
            BrokerView {
                sinks: self.sinks.push(
                    SinkView { id: self.next_id, channel, mailbox: Seq::empty() },
                ),
                next_id: (self.next_id + 1) as u64,
                capacity: self.capacity,
            }
        }
    }

    /// The broker after the sink `id` of `channel` was taken away.
    pub open spec fn unsubscribe(self, channel: Seq<char>, id: SinkId) -> BrokerView {
        BrokerView {
            sinks: spec_unsubscribe(self.sinks, channel, id),
            next_id: self.next_id,
            capacity: self.capacity,
        }
    }

    /// The broker after `message` was published to `channel`.
    pub open spec fn publish(self, channel: Seq<char>, message: Seq<u8>) -> BrokerView {
        BrokerView {
            sinks: spec_publish(self.sinks, self.capacity, channel, message),
            next_id: self.next_id,
            capacity: self.capacity,
        }
    }

    /// The oldest message that the sink `id` of `channel` holds.
    pub open spec fn pending(self, channel: Seq<char>, id: SinkId) -> Option<Seq<u8>> {
        if is_registered(self.sinks, channel, id) && self.sinks[place_of(
            self.sinks,
            channel,
            id,
        )].mailbox.len() > 0 {
            Some(self.sinks[place_of(self.sinks, channel, id)].mailbox[0])
        } else {
            None
        }
    }

    /// What the sink `id` of `channel` holds, oldest first; nothing where
    /// there is no such sink.
    pub open spec fn mailbox(self, channel: Seq<char>, id: SinkId) -> Seq<Seq<u8>> {
        if is_registered(self.sinks, channel, id) {
            self.sinks[place_of(self.sinks, channel, id)].mailbox
        } else {
            Seq::empty()
        }
    }

    /// The broker after the sink `id` of `channel` gave out all that it
    /// held.
    pub open spec fn drained(self, channel: Seq<char>, id: SinkId) -> BrokerView {
        if is_registered(self.sinks, channel, id) {
            let i = place_of(self.sinks, channel, id);
            let s = self.sinks[i];
            BrokerView {
                sinks: self.sinks.update(
                    i,
                    SinkView { id: s.id, channel: s.channel, mailbox: Seq::empty() },
                ),
                next_id: self.next_id,
                capacity: self.capacity,
            }
        } else {
            self
        }
    }

    /// The broker after the sink `id` of `channel` gave out its oldest
    /// message.
    pub open spec fn receive(self, channel: Seq<char>, id: SinkId) -> BrokerView {
        if self.pending(channel, id) is Some {
            let i = place_of(self.sinks, channel, id);
            let s = self.sinks[i];
            BrokerView {
                sinks: self.sinks.update(
                    i,
                    SinkView { id: s.id, channel: s.channel, mailbox: s.mailbox.skip(1) },
                ),
                next_id: self.next_id,
                capacity: self.capacity,
            }
        } else {
            self
        }
    }
}

impl Broker {
    /// A broker without sinks, whose mailboxes will hold `capacity` messages.
    pub fn new(capacity: usize) -> (b: Broker)
        ensures
            b@.wf(),
            b@ == (BrokerView { sinks: Seq::empty(), next_id: 0, capacity: capacity as nat }),
    {
        let b = Broker { sinks: Vec::new(), next_id: 0, capacity };
        assert(b@.sinks =~= Seq::<SinkView>::empty());
        b
    }

    /// Registers a new sink for `channel`. Its mailbox starts empty, so it
    /// holds nothing that was published before. `None` when every handle
    /// has been given out.
    pub fn subscribe(&mut self, channel: String) -> (r: Option<SinkId>)
        requires
            old(self)@.wf(),
        ensures
            final(self)@.wf(),
            final(self)@ == old(self)@.subscribe(channel@),
            r == if old(self)@.exhausted() {
                None
            } else {
                Some(old(self)@.next_id)
            },
    {
        if self.next_id == u64::MAX {
            return None;
        }
        let id = self.next_id;
        let sink = Sink { id, channel, mailbox: Vec::new() };
        assert(sink@.mailbox =~= Seq::<Seq<u8>>::empty());
        self.sinks.push(sink);
        self.next_id = id + 1;
        proof {
            assert(self@.sinks =~= old(self)@.sinks.push(sink@));
            let after = self@.sinks;
            let before = old(self)@.sinks;
            assert forall|i: int, j: int| 0 <= i < j < after.len() implies (#[trigger] after[i]).id
                != (#[trigger] after[j]).id by {
                assert(after[i] == before[i]);
                if j < before.len() {
                    assert(after[j] == before[j]);
                }
            }
            assert forall|i: int| 0 <= i < after.len() implies (#[trigger] after[i]).mailbox.len()
                <= self@.capacity && after[i].id < self@.next_id by {
                if i < before.len() {
                    assert(after[i] == before[i]);
                }
            }
        }
        Some(id)
    }

    /// Where the sink `id` of `channel` stands, if it is registered.
    fn find(&self, channel: &str, id: SinkId) -> (r: Option<usize>)
        requires
            self@.wf(),
        ensures
            match r {
                Some(i) => i < self.sinks.len() && is_registered(self@.sinks, channel@, id)
                    && place_of(self@.sinks, channel@, id) == i,
                None => !is_registered(self@.sinks, channel@, id),
            },
    {
        let mut i: usize = 0;
        while i < self.sinks.len()
            invariant
                i <= self.sinks.len(),
                self@.wf(),
                forall|k: int| 0 <= k < i ==> !at_place(self@.sinks, channel@, id, k),
            decreases self.sinks.len() - i,
        {
            if self.sinks[i].id == id && str_eq(self.sinks[i].channel.as_str(), channel) {
                proof {
                    assert(at_place(self@.sinks, channel@, id, i as int));
                    let p = place_of(self@.sinks, channel@, id);
                    assert(at_place(self@.sinks, channel@, id, p));
                    if p != i {
                        assert(self@.sinks[p].id == self@.sinks[i as int].id);
                    }
                }
                return Some(i);
            }
            i = i + 1;
        }
        None
    }

    /// Takes the sink `id` of `channel` away, with what its mailbox still
    /// holds. The result says whether there was such a sink.
    pub fn unsubscribe(&mut self, channel: &str, id: SinkId) -> (removed: bool)
        requires
            old(self)@.wf(),
        ensures
            final(self)@.wf(),
            removed == is_registered(old(self)@.sinks, channel@, id),
            final(self)@ == old(self)@.unsubscribe(channel@, id),
    {
        match self.find(channel, id) {
            Some(i) => {
                self.sinks.remove(i);
                proof {
                    assert(self@.sinks =~= old(self)@.sinks.remove(i as int));
                    lemma_remove_keeps_wf(old(self)@, i as int);
                }
                true
            },
            None => false,
        }
    }

    /// Gives out the oldest message that the sink `id` of `channel` holds.
    pub fn receive(&mut self, channel: &str, id: SinkId) -> (r: Option<Bytes>)
        requires
            old(self)@.wf(),
        ensures
            final(self)@.wf(),
            final(self)@ == old(self)@.receive(channel@, id),
            match old(self)@.pending(channel@, id) {
                Some(m) => r matches Some(b) && bytes_contents(b) == m,
                None => r is None,
            },
    {
        match self.find(channel, id) {
            Some(i) => {
                if self.sinks[i].mailbox.len() == 0 {
                    return None;
                }
                let ghost was = self.sinks@[i as int];
                let message = self.sinks[i].mailbox.remove(0);
                proof {
                    let now = self.sinks@[i as int];
                    assert(now@.mailbox =~= was@.mailbox.skip(1));
                    assert(self@.sinks =~= old(self)@.receive(channel@, id).sinks);
                }
                Some(message)
            },
            None => None,
        }
    }

    /// Gives out all that the sink `id` of `channel` holds, oldest first.
    pub fn drain(&mut self, channel: &str, id: SinkId) -> (r: Vec<Bytes>)
        requires
            old(self)@.wf(),
        ensures
            final(self)@.wf(),
            final(self)@ == old(self)@.drained(channel@, id),
            contents_of(r@) == old(self)@.mailbox(channel@, id),
    {
        let mut out: Vec<Bytes> = Vec::new();
        match self.find(channel, id) {
            Some(i) => {
                let ghost was = self.sinks@[i as int];
                core::mem::swap(&mut out, &mut self.sinks[i].mailbox);
                proof {
                    let now = self.sinks@[i as int];
                    assert(now@.mailbox =~= Seq::<Seq<u8>>::empty());
                    assert(self@.sinks =~= old(self)@.drained(channel@, id).sinks);
                    assert(contents_of(out@) =~= was@.mailbox);
                }
            },
            None => {
                assert(contents_of(out@) =~= Seq::<Seq<u8>>::empty());
            },
        }
        out
    }

    /// How many sinks are registered for `channel`.
    pub fn subscriber_count(&self, channel: &str) -> (n: usize)
        ensures
            n == count_on(self@.sinks, channel@),
    {
        let mut n: usize = 0;
        let mut i: usize = 0;
        assert(self@.sinks.take(0) =~= Seq::<SinkView>::empty());
        while i < self.sinks.len()
            invariant
                i <= self.sinks.len(),
                self@.sinks.len() == self.sinks.len(),
                n == count_on(self@.sinks.take(i as int), channel@),
                n <= i,
            decreases self.sinks.len() - i,
        {
            proof {
                assert(self@.sinks.take(i + 1).drop_last() =~= self@.sinks.take(i as int));
                assert(self@.sinks.take(i + 1).last() == self.sinks@[i as int]@);
            }
            if str_eq(self.sinks[i].channel.as_str(), channel) {
                n = n + 1;
            }
            i = i + 1;
        }
        assert(self@.sinks.take(i as int) =~= self@.sinks);
        n
    }

    /// Publishes `message` to `channel` and returns how many sinks are
    /// registered for it. Each of them that has room receives the message
    /// behind what it already holds; one whose mailbox is full misses it.
    pub fn publish(&mut self, channel: &str, message: Bytes) -> (n: usize)
        requires
            old(self)@.wf(),
        ensures
            final(self)@.wf(),
            n == count_on(old(self)@.sinks, channel@),
            final(self)@ == old(self)@.publish(channel@, bytes_contents(message)),
    {
        let n = self.subscriber_count(channel);
        let ghost msg = bytes_contents(message);
        let ghost goal = old(self)@.publish(channel@, msg).sinks;
        let mut i: usize = 0;
        while i < self.sinks.len()
            invariant
                i <= self.sinks.len(),
                self.sinks.len() == old(self).sinks.len(),
                self.next_id == old(self).next_id,
                self.capacity == old(self).capacity,
                msg == bytes_contents(message),
                goal == old(self)@.publish(channel@, msg).sinks,
                forall|k: int| 0 <= k < i ==> (#[trigger] self.sinks@[k])@ == goal[k],
                forall|k: int|
                    i <= k < self.sinks.len() ==> (#[trigger] self.sinks@[k]) == old(self).sinks@[k],
            decreases self.sinks.len() - i,
        {
            let ghost before = self.sinks@;
            assert(before[i as int]@ == old(self)@.sinks[i as int]);
            if str_eq(self.sinks[i].channel.as_str(), channel) && self.sinks[i].mailbox.len()
                < self.capacity {
                let ghost was = self.sinks@[i as int];
                self.sinks[i].mailbox.push(message.clone());
                proof {
                    let now = self.sinks@[i as int];
                    assert(now@.mailbox =~= was@.mailbox.push(msg));
                    assert(now@ == goal[i as int]);
                }
            }
            proof {
                assert forall|k: int| 0 <= k < i implies (#[trigger] self.sinks@[k])@
                    == goal[k] by {
                    assert(self.sinks@[k] == before[k]);
                }
                assert forall|k: int| i < k < self.sinks.len() implies (#[trigger] self.sinks@[k])
                    == old(self).sinks@[k] by {
                    assert(self.sinks@[k] == before[k]);
                }
            }
            i = i + 1;
        }
        proof {
            assert(self@.sinks =~= goal);
            lemma_publish_keeps_wf(old(self)@, channel@, msg);
        }
        n
    }
}

/// Taking a sink away leaves a broker in order.
pub proof fn lemma_remove_keeps_wf(b: BrokerView, i: int)
    requires
        b.wf(),
        0 <= i < b.sinks.len(),
    ensures
        (BrokerView { sinks: b.sinks.remove(i), next_id: b.next_id, capacity: b.capacity }).wf(),
{
    let after = b.sinks.remove(i);
    assert forall|x: int, y: int| 0 <= x < y < after.len() implies (#[trigger] after[x]).id != (
    #[trigger] after[y]).id by {
        let x0 = if x < i { x } else { x + 1 };
        let y0 = if y < i { y } else { y + 1 };
        assert(after[x] == b.sinks[x0]);
        assert(after[y] == b.sinks[y0]);
    }
    assert forall|x: int| 0 <= x < after.len() implies (#[trigger] after[x]).mailbox.len()
        <= b.capacity && after[x].id < b.next_id by {
        let x0 = if x < i { x } else { x + 1 };
        assert(after[x] == b.sinks[x0]);
    }
}

/// Publishing leaves a broker in order.
pub proof fn lemma_publish_keeps_wf(b: BrokerView, channel: Seq<char>, message: Seq<u8>)
    requires
        b.wf(),
    ensures
        b.publish(channel, message).wf(),
{
    let after = b.publish(channel, message).sinks;
    assert forall|x: int, y: int| 0 <= x < y < after.len() implies (#[trigger] after[x]).id != (
    #[trigger] after[y]).id by {
        assert(b.sinks[x].id != b.sinks[y].id);
    }
    assert forall|x: int| 0 <= x < after.len() implies (#[trigger] after[x]).mailbox.len()
        <= b.capacity && after[x].id < b.next_id by {
        assert(b.sinks[x].mailbox.len() <= b.capacity);
        assert(b.sinks[x].id < b.next_id);
    }
}

} // verus!
