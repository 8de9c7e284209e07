//! What holds of a connection's part in the protocol.

use crate::broker::{
    at_place, is_registered, lemma_remove_keeps_wf, place_of, BrokerView, SinkView,
};
use crate::cmd::spec_command;
use crate::cmd::subscribe::{index_of, lemma_index_of, Held, Tally};
use crate::cmd::unsubscribe::{names, unsubscribe_all, unsubscribe_one};
use crate::frame::FrameView;
use crate::session::{lemma_unsubscribe_everything, spec_handle, World};
use vstd::prelude::*;

verus! {

/// A frame that is no command is answered by exactly one error frame, and
/// changes neither the store, nor the broker, nor the connection.
pub proof fn law_rejection_changes_nothing(w: World, frame: FrameView, now: u64)
    requires
        !w.session.closed,
        !(spec_command(frame) is Done),
    ensures
        spec_handle(w, frame, now).world == w,
        spec_handle(w, frame, now).replies.len() == 1,
        spec_handle(w, frame, now).replies[0] is Error,
        !spec_handle(w, frame, now).wake,
{
}

/// A connection that is closed takes no frame: nothing is written and
/// nothing changes.
pub proof fn law_closed_is_final(w: World, frame: FrameView, now: u64)
    requires
        w.session.closed,
    ensures
        spec_handle(w, frame, now).world == w,
        spec_handle(w, frame, now).replies.len() == 0,
{
}

/// Whether every sink of `after` is a sink of `before`.
pub open spec fn among(after: Seq<SinkView>, before: Seq<SinkView>) -> bool {
    forall|i: int| 0 <= i < after.len() ==> before.contains(#[trigger] after[i])
}

/// Ending a subscription registers nobody, leaves the broker in order, and
/// leaves no sink with the handle that was given up.
proof fn lemma_unsubscribe_one(t: Tally, channel: Seq<char>)
    requires
        t.broker.wf(),
    ensures
        unsubscribe_one(t, channel).broker.wf(),
        among(unsubscribe_one(t, channel).broker.sinks, t.broker.sinks),
        index_of(t.held, channel) >= 0 ==> !is_registered(
            unsubscribe_one(t, channel).broker.sinks,
            channel,
            t.held[index_of(t.held, channel)].1,
        ),
{
    let i = index_of(t.held, channel);
    let before = t.broker.sinks;
    let after = unsubscribe_one(t, channel).broker.sinks;
    if i >= 0 && is_registered(before, channel, t.held[i].1) {
        let id = t.held[i].1;
        let p = place_of(before, channel, id);
        assert(at_place(before, channel, id, p));
        lemma_remove_keeps_wf(t.broker, p);
        assert(after == before.remove(p));
        assert forall|q: int| 0 <= q < after.len() implies before.contains(#[trigger] after[q]) by {
            let q0 = if q < p { q } else { q + 1 };
            assert(after[q] == before[q0]);
        }
        if is_registered(after, channel, id) {
            let q = place_of(after, channel, id);
            assert(at_place(after, channel, id, q));
            let q0 = if q < p { q } else { q + 1 };
            assert(after[q] == before[q0]);
            assert(before[q0].id == before[p].id);
        }
    } else {
        assert(after == before);
        assert forall|q: int| 0 <= q < after.len() implies before.contains(#[trigger] after[q]) by {
            assert(after[q] == before[q]);
        }
    }
}

/// A sink that is not among the sinks of a broker is among no part of them.
proof fn lemma_among_keeps_out(
    after: Seq<SinkView>,
    before: Seq<SinkView>,
    channel: Seq<char>,
    id: u64,
)
    requires
        among(after, before),
        !is_registered(before, channel, id),
    ensures
        !is_registered(after, channel, id),
{
    if is_registered(after, channel, id) {
        let q = place_of(after, channel, id);
        assert(at_place(after, channel, id, q));
        assert(before.contains(after[q]));
        let j = choose|j: int| 0 <= j < before.len() && before[j] == after[q];
        assert(at_place(before, channel, id, j));
    }
}

/// Working through the channels of the first `n` subscriptions held leaves
/// the broker in order and without the sinks of these subscriptions.
proof fn lemma_close_prefix(t: Tally, n: int, k: int)
    requires
        t.broker.wf(),
        0 <= k < n <= t.held.len(),
    ensures
        unsubscribe_all(t, names(t.held).take(n)).broker.wf(),
        !is_registered(
            unsubscribe_all(t, names(t.held).take(n)).broker.sinks,
            t.held[k].0,
            t.held[k].1,
        ),
    decreases n,
{
    let all = names(t.held);
    let mid = unsubscribe_all(t, all.take(n - 1));
    assert(all.take(n).drop_last() =~= all.take(n - 1));
    assert(all.take(n).last() == t.held[n - 1].0);
    lemma_unsubscribe_everything(t, n - 1);
    assert(mid.held[0] == t.held[n - 1]);
    lemma_index_of(mid.held, t.held[n - 1].0, 0);
    if n - 1 == 0 {
        assert(all.take(0) =~= Seq::<Seq<char>>::empty());
        lemma_unsubscribe_one(mid, t.held[n - 1].0);
    } else if k < n - 1 {
        lemma_close_prefix(t, n - 1, k);
        lemma_unsubscribe_one(mid, t.held[n - 1].0);
        lemma_among_keeps_out(
            unsubscribe_one(mid, t.held[n - 1].0).broker.sinks,
            mid.broker.sinks,
            t.held[k].0,
            t.held[k].1,
        );
    } else {
        lemma_close_prefix(t, n - 1, 0);
        lemma_unsubscribe_one(mid, t.held[n - 1].0);
    }
}

/// After a connection was closed, the broker keeps none of its sinks.
pub proof fn law_close_leaves_no_sink(broker: BrokerView, held: Held, k: int)
    requires
        broker.wf(),
        0 <= k < held.len(),
    ensures
        !is_registered(
            unsubscribe_all(
                Tally { broker, held, replies: Seq::empty() },
                names(held),
            ).broker.sinks,
            held[k].0,
            held[k].1,
        ),
{
    let t = Tally { broker, held, replies: Seq::<FrameView>::empty() };
    lemma_close_prefix(t, held.len() as int, k);
    assert(names(held).take(held.len() as int) =~= names(held));
}

} // verus!
