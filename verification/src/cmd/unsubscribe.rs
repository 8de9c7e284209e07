//! `UNSUBSCRIBE [channel ...]`: ends the connection's subscription to the
//! channels named, or to every channel when none is named.

use crate::broker::Broker;
use crate::cmd::subscribe::{
    find_held, held_view, index_of, named_frame, names_as_bulk, parse_channels,
    spec_parse_channels, Held, Subscription, Tally,
};
use crate::frame::{notice_frame, views, Frame, FrameView};
use crate::parse::{outcome_is, Outcome, Parse, ParseError};
use crate::text::texts_of;
use vstd::prelude::*;
use vstd::utf8::encode_utf8;

verus! {

#[derive(Debug)]
pub struct Unsubscribe {
    channels: Vec<String>,
}

pub struct UnsubscribeView {
    pub channels: Seq<Seq<char>>,
}

impl View for Unsubscribe {
    type V = UnsubscribeView;

    closed spec fn view(&self) -> UnsubscribeView {
        UnsubscribeView { channels: texts_of(self.channels@) }
    }
}

/// `UNSUBSCRIBE` takes any number of arguments, the channels.
pub open spec fn spec_parse_unsubscribe(args: Seq<Seq<u8>>) -> Outcome<UnsubscribeView> {
    match spec_parse_channels(args) {
        Outcome::Done { value, rest } => Outcome::Done {
            value: UnsubscribeView { channels: value },
            rest,
        },
        Outcome::EndOfStream => Outcome::EndOfStream,
        Outcome::TrailingArguments => Outcome::TrailingArguments,
        Outcome::Other(m) => Outcome::Other(m),
    }
}

/// Ending the subscription to one channel. The response tells how many
/// subscriptions the connection still holds. A channel that the
/// connection does not listen to is answered and nothing changes.
pub open spec fn unsubscribe_one(t: Tally, channel: Seq<char>) -> Tally {
    let i = index_of(t.held, channel);
    if i >= 0 {
        Tally {
            broker: t.broker.unsubscribe(channel, t.held[i].1),
            held: t.held.remove(i),
            replies: t.replies.push(
                notice_frame("unsubscribe"@, channel, (t.held.len() - 1) as nat),
            ),
        }
    } else {
        Tally {
            broker: t.broker,
            held: t.held,
            replies: t.replies.push(notice_frame("unsubscribe"@, channel, t.held.len())),
        }
    }
}

/// Ending the subscriptions to a run of channels, one after the other.
pub open spec fn unsubscribe_all(t: Tally, channels: Seq<Seq<char>>) -> Tally
    decreases channels.len(),
{
    if channels.len() == 0 {
        t
    } else {
        unsubscribe_one(unsubscribe_all(t, channels.drop_last()), channels.last())
    }
}

/// The channels of the subscriptions held, in order.
pub open spec fn names(held: Held) -> Seq<Seq<char>> {
    Seq::new(held.len(), |i: int| held[i].0)
}

/// The channels that the command is about: those it names, or, when it
/// names none, all that the connection listens to.
pub open spec fn targets(channels: Seq<Seq<char>>, held: Held) -> Seq<Seq<char>> {
    if channels.len() == 0 {
        names(held)
    } else {
        channels
    }
}

/// The channels of the subscriptions held, in order.
pub fn held_names(held: &Vec<Subscription>) -> (r: Vec<String>)
    ensures
        texts_of(r@) == names(held_view(held@)),
{
    let mut out: Vec<String> = Vec::new();
    let mut i: usize = 0;
    while i < held.len()
        invariant
            i <= held.len(),
            out.len() == i,
            forall|k: int| 0 <= k < i ==> (#[trigger] out[k])@ == held[k]@.0,
        decreases held.len() - i,
    {
        out.push(held[i].channel().to_owned());
        i = i + 1;
    }
    assert(texts_of(out@) =~= names(held_view(held@)));
    out
}

impl Unsubscribe {
    pub fn new(channels: Vec<String>) -> (s: Unsubscribe)
        ensures
            s@.channels == texts_of(channels@),
    {
        Unsubscribe { channels }
    }

    pub fn channels(&self) -> (c: &Vec<String>)
        ensures
            texts_of(c@) == self@.channels,
    {
        &self.channels
    }

    /// Reads the arguments of `UNSUBSCRIBE` from the cursor, which stands
    /// behind the command's name.
    pub fn parse_frames(parse: &mut Parse) -> (r: Result<Unsubscribe, ParseError>)
        ensures
            outcome_is(r, final(parse).remaining(), spec_parse_unsubscribe(old(parse).remaining())),
    {
        match parse_channels(parse) {
            Ok(channels) => Ok(Unsubscribe { channels }),
            Err(e) => Err(e),
        }
    }

    /// Takes the sinks of the channels away, in order, and returns one
    /// response for each channel.
    pub fn apply(self, held: &mut Vec<Subscription>, broker: &mut Broker) -> (replies: Vec<Frame>)
        requires
            old(broker)@.wf(),
        ensures
            final(broker)@.wf(),
            (Tally {
                broker: final(broker)@,
                held: held_view(final(held)@),
                replies: views(replies@),
            }) == unsubscribe_all(
                Tally {
                    broker: old(broker)@,
                    held: held_view(old(held)@),
                    replies: Seq::empty(),
                },
                targets(self@.channels, held_view(old(held)@)),
            ),
    {
        let channels = if self.channels.len() == 0 {
            held_names(held)
        } else {
            self.channels
        };
        let ghost names = targets(self@.channels, held_view(held@));
        let ghost start = Tally {
            broker: broker@,
            held: held_view(held@),
            replies: Seq::empty(),
        };
        let mut replies: Vec<Frame> = Vec::new();
        let mut i: usize = 0;
        assert(views(replies@) =~= Seq::<FrameView>::empty());
        assert(names.take(0) =~= Seq::<Seq<char>>::empty());
        while i < channels.len()
            invariant
                i <= channels.len(),
                names == texts_of(channels@),
                broker@.wf(),
                (Tally { broker: broker@, held: held_view(held@), replies: views(replies@) })
                    == unsubscribe_all(start, names.take(i as int)),
            decreases channels.len() - i,
        {
            let ghost before = Tally {
                broker: broker@,
                held: held_view(held@),
                replies: views(replies@),
            };
            let channel = channels[i].as_str();
            proof {
                assert(names.take(i + 1).drop_last() =~= names.take(i as int));
                assert(names.take(i + 1).last() == channel@);
            }
            match find_held(held, channel) {
                Some(at) => {
                    let gone = held.remove(at);
                    assert(held_view(held@) =~= before.held.remove(at as int));
                    assert(gone@ == before.held[at as int]);
                    broker.unsubscribe(channel, gone.id());
                },
                None => {},
            }
            let reply = Frame::notice("unsubscribe", channel, held.len());
            replies.push(reply);
            assert(views(replies@) =~= before.replies.push(reply@));
            i = i + 1;
        }
        assert(names.take(i as int) =~= names);
        replies
    }

    /// The frame that asks a server for this command.
    pub fn get_frame(self) -> (f: Frame)
        ensures
            f@ == FrameView::Array(
                seq![FrameView::Bulk(encode_utf8("unsubscribe"@))] + names_as_bulk(self@.channels),
            ),
    {
        named_frame("unsubscribe", &self.channels)
    }
}

} // verus!
