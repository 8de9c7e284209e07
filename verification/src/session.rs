//! One connection's part in the protocol: which commands it accepts in
//! which phase, what each command does to the store and the broker, and
//! what is written back.
//!
//! Reading and writing bytes is left to the caller. The caller hands each
//! frame that arrives to `handle_frame` and writes the frames of the reply;
//! it asks `poll` for the messages that were published meanwhile; and it
//! calls `close` when the stream has ended or failed.

use crate::broker::{contents_of, count_on, Broker, BrokerView, SinkId};
use crate::cmd::get::get_response;
use crate::cmd::{spec_command, Command, CommandView};
use crate::cmd::subscribe::{held_view, subscribe_all, Held, Subscription, Tally};
use crate::cmd::unsubscribe::{names, targets, unsubscribe_all, Unsubscribe};
use crate::frame::{count_frame, views, Frame, FrameView};
use crate::parse::{Outcome, MSG_END_OF_STREAM, MSG_TRAILING};
use crate::store::{spec_deadline, spec_get, spec_set, wakes_sweeper, Contents, Kv};
use crate::trusted::bytes_from_slice;
use vstd::prelude::*;
use vstd::utf8::encode_utf8;

verus! {

pub const MSG_SUBSCRIBED: &'static str =
    "ERR only SUBSCRIBE and UNSUBSCRIBE are accepted while subscribed";

/// Where a connection stands in the protocol.
#[derive(Clone, Copy, Debug, PartialEq, Eq, Structural)]
pub enum Phase {
    /// Ready for any command.
    Idle,
    /// Listening to channels: only subscribing and unsubscribing are
    /// accepted.
    Subscribed,
    /// Done: nothing is accepted any more.
    Closed,
}

#[derive(Debug)]
pub struct Session {
    closed: bool,
    held: Vec<Subscription>,
}

pub struct SessionView {
    pub closed: bool,
    /// The subscriptions held, oldest first.
    pub held: Held,
}

impl SessionView {
    /// A connection is subscribed exactly while it holds a subscription.
    pub open spec fn phase(self) -> Phase {
        if self.closed {
            Phase::Closed
        } else if self.held.len() == 0 {
            Phase::Idle
        } else {
            Phase::Subscribed
        }
    }
}

impl View for Session {
    type V = SessionView;

    closed spec fn view(&self) -> SessionView {
        SessionView { closed: self.closed, held: held_view(self.held@) }
    }
}

/// What is written back for one frame.
#[derive(Debug)]
pub struct Reply {
    /// The frames to write, in order.
    pub frames: Vec<Frame>,
    /// Whether a sweeper that waits for the next expiration must be woken.
    pub wake_sweeper: bool,
}

/// The store, the broker and one connection.
pub struct World {
    pub kv: Contents,
    pub broker: BrokerView,
    pub session: SessionView,
}

/// What handling one frame comes to.
pub struct Step {
    pub world: World,
    pub replies: Seq<FrameView>,
    pub wake: bool,
}

/// A command is rejected: one error frame is written and nothing changes.
pub open spec fn rejected(w: World, text: Seq<char>) -> Step {
    Step { world: w, replies: seq![FrameView::Error(text)], wake: false }
}

/// The outcome of a command that works through channels.
pub open spec fn tallied(w: World, t: Tally) -> Step {
    Step {
        world: World {
            kv: w.kv,
            broker: t.broker,
            session: SessionView { closed: w.session.closed, held: t.held },
        },
        replies: t.replies,
        wake: false,
    }
}

/// What a command does, and what is written back.
pub open spec fn spec_apply(w: World, cmd: CommandView, now: u64) -> Step {
    let start = Tally { broker: w.broker, held: w.session.held, replies: Seq::empty() };
    match cmd {
        CommandView::Subscribe(c) => tallied(w, subscribe_all(start, c.channels)),
        CommandView::Unsubscribe(c) => tallied(
            w,
            unsubscribe_all(start, targets(c.channels, w.session.held)),
        ),
        CommandView::Get(c) => if w.session.held.len() > 0 {
            rejected(w, MSG_SUBSCRIBED@)
        } else {
            Step { world: w, replies: seq![get_response(spec_get(w.kv, c.key, now))], wake: false }
        },
        CommandView::SetValue(c) => if w.session.held.len() > 0 {
            rejected(w, MSG_SUBSCRIBED@)
        } else {
            Step {
                world: World {
                    kv: spec_set(w.kv, c.key, c.value, c.expire, now),
                    broker: w.broker,
                    session: w.session,
                },
                replies: seq![FrameView::Simple("OK"@)],
                wake: wakes_sweeper(w.kv, spec_deadline(now, c.expire)),
            }
        },
        CommandView::Publish(c) => if w.session.held.len() > 0 {
            rejected(w, MSG_SUBSCRIBED@)
        } else {
            Step {
                world: World {
                    kv: w.kv,
                    broker: w.broker.publish(c.channel, c.message),
                    session: w.session,
                },
                replies: seq![count_frame(count_on(w.broker.sinks, c.channel))],
                wake: false,
            }
        },
    }
}

/// What a frame that arrives at `now` does, and what is written back. A
/// closed connection takes no frame. A frame that is no command, or a
/// command that the phase does not accept, is answered by one error frame.
pub open spec fn spec_handle(w: World, frame: FrameView, now: u64) -> Step {
    if w.session.closed {
        Step { world: w, replies: Seq::empty(), wake: false }
    } else {
        match spec_command(frame) {
            Outcome::Done { value, rest } => spec_apply(w, value, now),
            Outcome::EndOfStream => rejected(w, MSG_END_OF_STREAM@),
            Outcome::TrailingArguments => rejected(w, MSG_TRAILING@),
            Outcome::Other(m) => rejected(w, m),
        }
    }
}

/// The frame that hands a published message to a subscriber.
pub open spec fn message_frame(channel: Seq<char>, payload: Seq<u8>) -> FrameView {
    FrameView::Array(
        seq![
            FrameView::Bulk(encode_utf8("message"@)),
            FrameView::Bulk(encode_utf8(channel)),
            FrameView::Bulk(payload),
        ],
    )
}

/// The frames that hand the messages of one channel to a subscriber.
pub open spec fn message_frames(channel: Seq<char>, payloads: Seq<Seq<u8>>) -> Seq<FrameView> {
    Seq::new(payloads.len(), |i: int| message_frame(channel, payloads[i]))
}

/// The broker and the frames gathered so far, as a connection empties its
/// mailboxes.
pub struct Inbox {
    pub broker: BrokerView,
    pub frames: Seq<FrameView>,
}

/// Emptying the mailboxes of the subscriptions held, in their order.
pub open spec fn drain_all(x: Inbox, held: Held) -> Inbox
    decreases held.len(),
{
    if held.len() == 0 {
        x
    } else {
        let before = drain_all(x, held.drop_last());
        let (channel, id) = held.last();
        Inbox {
            broker: before.broker.drained(channel, id),
            frames: before.frames + message_frames(channel, before.broker.mailbox(channel, id)),
        }
    }
}

/// Ending every subscription held, oldest first, leaves none.
pub proof fn lemma_unsubscribe_everything(t: Tally, k: int)
    requires
        0 <= k <= t.held.len(),
    ensures
        unsubscribe_all(t, names(t.held).take(k)).held == t.held.skip(k),
    decreases k,
{
    let all = names(t.held);
    if k == 0 {
        assert(all.take(0) =~= Seq::<Seq<char>>::empty());
        assert(t.held.skip(0) =~= t.held);
    } else {
        lemma_unsubscribe_everything(t, k - 1);
        assert(all.take(k).drop_last() =~= all.take(k - 1));
        let mid = unsubscribe_all(t, all.take(k - 1));
        assert(mid.held[0] == t.held[k - 1]);
        assert(all.take(k).last() == t.held[k - 1].0);
        assert(mid.held.remove(0) =~= t.held.skip(k));
    }
}

fn error_reply(text: String) -> (r: Reply)
    ensures
        views(r.frames@) == seq![FrameView::Error(text@)],
        !r.wake_sweeper,
{
    single_reply(Frame::Error(text), false)
}

fn single_reply(frame: Frame, wake: bool) -> (r: Reply)
    ensures
        views(r.frames@) == seq![frame@],
        r.wake_sweeper == wake,
{
    let mut frames: Vec<Frame> = Vec::new();
    frames.push(frame);
    assert(views(frames@) =~= seq![frame@]);
    Reply { frames, wake_sweeper: wake }
}

impl Session {
    /// A connection that has just been accepted.
    pub fn new() -> (s: Session)
        ensures
            s@ == (SessionView { closed: false, held: Seq::empty() }),
            s@.phase() == Phase::Idle,
    {
        let s = Session { closed: false, held: Vec::new() };
        assert(s@.held =~= Seq::<(Seq<char>, SinkId)>::empty());
        s
    }

    pub fn phase(&self) -> (p: Phase)
        ensures
            p == self@.phase(),
    {
        if self.closed {
            Phase::Closed
        } else if self.held.len() == 0 {
            Phase::Idle
        } else {
            Phase::Subscribed
        }
    }

    /// The subscriptions held, oldest first.
    pub fn subscriptions(&self) -> (held: &Vec<Subscription>)
        ensures
            held_view(held@) == self@.held,
    {
        &self.held
    }

    /// Handles a frame that arrived at the instant `now`.
    pub fn handle_frame(
        &mut self,
        frame: Frame,
        kv: &mut Kv,
        broker: &mut Broker,
        now: u64,
    ) -> (reply: Reply)
        requires
            old(kv).wf(),
            old(broker)@.wf(),
        ensures
            final(kv).wf(),
            final(broker)@.wf(),
            (Step {
                world: World { kv: final(kv)@, broker: final(broker)@, session: final(self)@ },
                replies: views(reply.frames@),
                wake: reply.wake_sweeper,
            }) == spec_handle(
                World { kv: old(kv)@, broker: old(broker)@, session: old(self)@ },
                frame@,
                now,
            ),
    {
        if self.closed {
            let frames: Vec<Frame> = Vec::new();
            assert(views(frames@) =~= Seq::<FrameView>::empty());
            return Reply { frames, wake_sweeper: false };
        }
        let command = match Command::from_frame(frame) {
            Ok(command) => command,
            Err(e) => {
                return error_reply(e.message());
            },
        };
        let listening = self.held.len() > 0;
        match command {
            Command::Subscribe(c) => {
                let frames = c.apply(&mut self.held, broker);
                Reply { frames, wake_sweeper: false }
            },
            Command::Unsubscribe(c) => {
                let frames = c.apply(&mut self.held, broker);
                Reply { frames, wake_sweeper: false }
            },
            Command::Get(c) => {
                if listening {
                    error_reply(MSG_SUBSCRIBED.to_owned())
                } else {
                    single_reply(c.apply(kv, now), false)
                }
            },
            Command::SetValue(c) => {
                if listening {
                    error_reply(MSG_SUBSCRIBED.to_owned())
                } else {
                    let (response, wake) = c.apply(kv, now);
                    single_reply(response, wake)
                }
            },
            Command::Publish(c) => {
                if listening {
                    error_reply(MSG_SUBSCRIBED.to_owned())
                } else {
                    single_reply(c.apply(broker), false)
                }
            },
        }
    }

    /// Takes the messages that were published to the channels of this
    /// connection out of their mailboxes, and returns a frame for each.
    pub fn poll(&self, broker: &mut Broker) -> (frames: Vec<Frame>)
        requires
            old(broker)@.wf(),
        ensures
            final(broker)@.wf(),
            (Inbox { broker: final(broker)@, frames: views(frames@) }) == drain_all(
                Inbox { broker: old(broker)@, frames: Seq::empty() },
                self@.held,
            ),
    {
        let mut frames: Vec<Frame> = Vec::new();
        let ghost start = Inbox { broker: broker@, frames: Seq::empty() };
        let ghost held = self@.held;
        let mut i: usize = 0;
        assert(views(frames@) =~= Seq::<FrameView>::empty());
        assert(held.take(0) =~= Seq::<(Seq<char>, SinkId)>::empty());
        while i < self.held.len()
            invariant
                i <= self.held.len(),
                held == held_view(self.held@),
                broker@.wf(),
                (Inbox { broker: broker@, frames: views(frames@) }) == drain_all(
                    start,
                    held.take(i as int),
                ),
            decreases self.held.len() - i,
        {
            let ghost before = Inbox { broker: broker@, frames: views(frames@) };
            let channel = self.held[i].channel();
            let id = self.held[i].id();
            proof {
                assert(held.take(i + 1).drop_last() =~= held.take(i as int));
                assert(held.take(i + 1).last() == (channel@, id));
            }
            let messages = broker.drain(channel, id);
            let ghost payloads = contents_of(messages@);
            let ghost wanted = before.frames + message_frames(channel@, payloads);
            let mut j: usize = 0;
            assert(views(frames@) =~= before.frames + message_frames(channel@, payloads).take(0));
            while j < messages.len()
                invariant
                    j <= messages.len(),
                    payloads == contents_of(messages@),
                    views(frames@) == before.frames + message_frames(channel@, payloads).take(
                        j as int,
                    ),
                decreases messages.len() - j,
            {
                let ghost so_far = views(frames@);
                let mut frame = Frame::array();
                frame.push_bulk(bytes_from_slice("message".as_bytes()));
                frame.push_bulk(bytes_from_slice(channel.as_bytes()));
                frame.push_bulk(messages[j].clone());
                assert(frame@->Array_0 =~= message_frame(channel@, payloads[j as int])->Array_0);
                frames.push(frame);
                assert(views(frames@) =~= so_far.push(frame@));
                assert(views(frames@) =~= before.frames + message_frames(channel@, payloads).take(
                    j + 1,
                ));
                j = j + 1;
            }
            assert(message_frames(channel@, payloads).take(j as int) =~= message_frames(
                channel@,
                payloads,
            ));
            i = i + 1;
        }
        assert(held.take(i as int) =~= held);
        frames
    }

    /// Ends the connection: every subscription is given up, so that the
    /// broker keeps no sink of it, and no frame is accepted any more.
    pub fn close(&mut self, broker: &mut Broker)
        requires
            old(broker)@.wf(),
        ensures
            final(broker)@.wf(),
            final(self)@ == (SessionView { closed: true, held: Seq::empty() }),
            final(broker)@ == unsubscribe_all(
                Tally { broker: old(broker)@, held: old(self)@.held, replies: Seq::empty() },
                names(old(self)@.held),
            ).broker,
    {
        let everything = Unsubscribe::new(Vec::new());
        proof {
            let t = Tally { broker: broker@, held: self@.held, replies: Seq::empty() };
            lemma_unsubscribe_everything(t, self@.held.len() as int);
            assert(names(self@.held).take(self@.held.len() as int) =~= names(self@.held));
            assert(self@.held.skip(self@.held.len() as int) =~= Seq::<
                (Seq<char>, SinkId),
            >::empty());
        }
        let _ = everything.apply(&mut self.held, broker);
        self.closed = true;
    }
}

} // verus!
