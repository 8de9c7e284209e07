//! `SUBSCRIBE channel [channel ...]`: registers the connection for the
//! messages of one or more channels.

use crate::broker::{Broker, BrokerView, SinkId};
use crate::frame::{notice_frame, views, Frame, FrameView};
use crate::parse::{outcome_is, Outcome, Parse, ParseError, MSG_INVALID_STRING};
use crate::text::{str_eq, texts_of};
use crate::trusted::bytes_from_slice;
use vstd::prelude::*;
use vstd::utf8::{decode_utf8, encode_utf8, valid_utf8};

verus! {

pub const MSG_TOO_MANY: &'static str = "ERR too many subscriptions";

/// A channel that a connection listens to, with the handle of its sink.
#[derive(Debug)]
pub struct Subscription {
    channel: String,
    id: SinkId,
}

impl View for Subscription {
    type V = (Seq<char>, SinkId);

    closed spec fn view(&self) -> (Seq<char>, SinkId) {
        (self.channel@, self.id)
    }
}

impl Subscription {
    pub fn new(channel: String, id: SinkId) -> (s: Subscription)
        ensures
            s@ == (channel@, id),
    {
        Subscription { channel, id }
    }

    pub fn channel(&self) -> (c: &str)
        ensures
            c@ == self@.0,
    {
        self.channel.as_str()
    }

    pub fn id(&self) -> (id: SinkId)
        ensures
            id == self@.1,
    {
        self.id
    }
}

/// The subscriptions that a connection holds, oldest first.
pub type Held = Seq<(Seq<char>, SinkId)>;

pub open spec fn held_view(v: Seq<Subscription>) -> Held {
    Seq::new(v.len(), |i: int| v[i]@)
}

/// Where the first subscription to `channel` stands in `held`; -1 if there
/// is none.
pub open spec fn index_of(held: Held, channel: Seq<char>) -> int
    decreases held.len(),
{
    if held.len() == 0 {
        -1
    } else if held[0].0 == channel {
        0
    } else if index_of(held.skip(1), channel) < 0 {
        -1
    } else {
        index_of(held.skip(1), channel) + 1
    }
}

pub proof fn lemma_index_of(held: Held, channel: Seq<char>, i: int)
    requires
        0 <= i <= held.len(),
        forall|k: int| 0 <= k < i ==> (#[trigger] held[k]).0 != channel,
        i < held.len() ==> held[i].0 == channel,
    ensures
        index_of(held, channel) == if i < held.len() {
            i
        } else {
            -1
        },
    decreases i,
{
    if i > 0 {
        let rest = held.skip(1);
        assert forall|k: int| 0 <= k < i - 1 implies (#[trigger] rest[k]).0 != channel by {
            assert(rest[k] == held[k + 1]);
        }
        lemma_index_of(rest, channel, i - 1);
        assert(held[0].0 != channel);
    }
}

/// The broker, the subscriptions of one connection, and the responses
/// written so far, as a command works through its channels.
pub struct Tally {
    pub broker: BrokerView,
    pub held: Held,
    pub replies: Seq<FrameView>,
}

/// Subscribing to one channel. A channel that the connection already
/// listens to is confirmed and nothing changes. Where the broker has no
/// handle left, an error is written and nothing changes.
pub open spec fn subscribe_one(t: Tally, channel: Seq<char>) -> Tally {
    if index_of(t.held, channel) >= 0 {
        Tally {
            broker: t.broker,
            held: t.held,
            replies: t.replies.push(notice_frame("subscribe"@, channel, t.held.len())),
        }
    } else if t.broker.exhausted() {
        Tally {
            broker: t.broker,
            held: t.held,
            replies: t.replies.push(FrameView::Error(MSG_TOO_MANY@)),
        }
    } else {
        Tally {
            broker: t.broker.subscribe(channel),
            held: t.held.push((channel, t.broker.next_id)),
            replies: t.replies.push(notice_frame("subscribe"@, channel, t.held.len() + 1)),
        }
    }
}

/// Subscribing to a run of channels, one after the other.
pub open spec fn subscribe_all(t: Tally, channels: Seq<Seq<char>>) -> Tally
    decreases channels.len(),
{
    if channels.len() == 0 {
        t
    } else {
        subscribe_one(subscribe_all(t, channels.drop_last()), channels.last())
    }
}

/// Whether every argument is text.
pub open spec fn all_text(args: Seq<Seq<u8>>) -> bool {
    forall|i: int| 0 <= i < args.len() ==> valid_utf8(#[trigger] args[i])
}

/// The arguments, as texts.
pub open spec fn texts(args: Seq<Seq<u8>>) -> Seq<Seq<char>> {
    Seq::new(args.len(), |i: int| decode_utf8(args[i]))
}

/// Every argument that is left is the name of a channel.
pub open spec fn spec_parse_channels(args: Seq<Seq<u8>>) -> Outcome<Seq<Seq<char>>> {
    if all_text(args) {
        Outcome::Done { value: texts(args), rest: Seq::empty() }
    } else {
        Outcome::Other(MSG_INVALID_STRING@)
    }
}

/// Reads every argument that is left as the name of a channel.
pub fn parse_channels(parse: &mut Parse) -> (r: Result<Vec<String>, ParseError>)
    ensures
        match spec_parse_channels(old(parse).remaining()) {
            Outcome::Done { value, rest } => {
                &&& r matches Ok(v)
                &&& texts_of(v@) == value
                &&& final(parse).remaining() == rest
            },
            _ => r matches Err(ParseError::Other(m)) && m@ == MSG_INVALID_STRING@,
        },
{
    let ghost args = parse.remaining();
    let mut channels: Vec<String> = Vec::new();
    let mut done = false;
    assert(args.skip(0) =~= args);
    while !done
        invariant
            channels.len() <= args.len(),
            args == old(parse).remaining(),
            parse.remaining() == args.skip(channels.len() as int),
            done ==> channels.len() == args.len(),
            forall|k: int| 0 <= k < channels.len() ==> valid_utf8(#[trigger] args[k]),
            forall|k: int|
                0 <= k < channels.len() ==> (#[trigger] channels[k])@ == decode_utf8(args[k]),
        decreases args.len() - channels.len(), if done { 0int } else { 1int },
    {
        let ghost n = channels.len() as int;
        match parse.next_string() {
            Ok(s) => {
                assert(args.skip(n)[0] == args[n]);
                assert(args.skip(n).skip(1) =~= args.skip(n + 1));
                channels.push(s);
            },
            Err(ParseError::EndOfStream) => {
                done = true;
            },
            Err(e) => {
                assert(args.skip(n)[0] == args[n]);
                assert(!valid_utf8(args[n]));
                return Err(e);
            },
        }
    }
    assert(texts_of(channels@) =~= texts(args));
    Ok(channels)
}

#[derive(Debug)]
pub struct Subscribe {
    channels: Vec<String>,
}

pub struct SubscribeView {
    pub channels: Seq<Seq<char>>,
}

impl View for Subscribe {
    type V = SubscribeView;

    closed spec fn view(&self) -> SubscribeView {
        SubscribeView { channels: texts_of(self.channels@) }
    }
}

/// `SUBSCRIBE` takes one or more arguments, the channels.
pub open spec fn spec_parse_subscribe(args: Seq<Seq<u8>>) -> Outcome<SubscribeView> {
    if args.len() == 0 {
        Outcome::EndOfStream
    } else {
        match spec_parse_channels(args) {
            Outcome::Done { value, rest } => Outcome::Done {
                value: SubscribeView { channels: value },
                rest,
            },
            Outcome::EndOfStream => Outcome::EndOfStream,
            Outcome::TrailingArguments => Outcome::TrailingArguments,
            Outcome::Other(m) => Outcome::Other(m),
        }
    }
}

/// Where the first subscription to `channel` stands in `held`.
pub fn find_held(held: &Vec<Subscription>, channel: &str) -> (r: Option<usize>)
    ensures
        match r {
            Some(i) => i < held.len() && index_of(held_view(held@), channel@) == i,
            None => index_of(held_view(held@), channel@) == -1,
        },
{
    let mut i: usize = 0;
    while i < held.len()
        invariant
            i <= held.len(),
            forall|k: int| 0 <= k < i ==> (#[trigger] held_view(held@)[k]).0 != channel@,
        decreases held.len() - i,
    {
        if str_eq(held[i].channel.as_str(), channel) {
            proof {
                lemma_index_of(held_view(held@), channel@, i as int);
            }
            return Some(i);
        }
        assert(held_view(held@)[i as int].0 != channel@);
        i = i + 1;
    }
    proof {
        lemma_index_of(held_view(held@), channel@, i as int);
    }
    None
}

impl Subscribe {
    pub fn new(channels: Vec<String>) -> (s: Subscribe)
        ensures
            s@.channels == texts_of(channels@),
    {
        Subscribe { channels }
    }

    pub fn channels(&self) -> (c: &Vec<String>)
        ensures
            texts_of(c@) == self@.channels,
    {
        &self.channels
    }

    /// Reads the arguments of `SUBSCRIBE` from the cursor, which stands
    /// behind the command's name.
    pub fn parse_frames(parse: &mut Parse) -> (r: Result<Subscribe, ParseError>)
        ensures
            outcome_is(r, final(parse).remaining(), spec_parse_subscribe(old(parse).remaining())),
    {
        if parse.finish().is_ok() {
            return Err(ParseError::EndOfStream);
        }
        match parse_channels(parse) {
            Ok(channels) => Ok(Subscribe { channels }),
            Err(e) => Err(e),
        }
    }

    /// Registers a sink for each channel, in order, and returns one
    /// response for each channel.
    pub fn apply(self, held: &mut Vec<Subscription>, broker: &mut Broker) -> (replies: Vec<Frame>)
        requires
            old(broker)@.wf(),
        ensures
            final(broker)@.wf(),
            (Tally {
                broker: final(broker)@,
                held: held_view(final(held)@),
                replies: views(replies@),
            }) == subscribe_all(
                Tally {
                    broker: old(broker)@,
                    held: held_view(old(held)@),
                    replies: Seq::empty(),
                },
                self@.channels,
            ),
    {
        let mut replies: Vec<Frame> = Vec::new();
        let ghost start = Tally {
            broker: broker@,
            held: held_view(held@),
            replies: Seq::empty(),
        };
        let ghost names = self@.channels;
        let mut i: usize = 0;
        assert(views(replies@) =~= Seq::<FrameView>::empty());
        assert(names.take(0) =~= Seq::<Seq<char>>::empty());
        while i < self.channels.len()
            invariant
                i <= self.channels.len(),
                names == texts_of(self.channels@),
                broker@.wf(),
                (Tally { broker: broker@, held: held_view(held@), replies: views(replies@) })
                    == subscribe_all(start, names.take(i as int)),
            decreases self.channels.len() - i,
        {
            let ghost before = Tally {
                broker: broker@,
                held: held_view(held@),
                replies: views(replies@),
            };
            let ghost old_held = held@;
            let ghost old_replies = replies@;
            let channel = self.channels[i].clone();
            proof {
                assert(names.take(i + 1).drop_last() =~= names.take(i as int));
                assert(names.take(i + 1).last() == channel@);
            }
            let reply = match find_held(held, channel.as_str()) {
                Some(_) => Frame::notice("subscribe", channel.as_str(), held.len()),
                None => match broker.subscribe(channel.clone()) {
                    Some(id) => {
                        held.push(Subscription { channel: channel.clone(), id });
                        assert(held_view(held@) =~= before.held.push((channel@, id)));
                        Frame::notice("subscribe", channel.as_str(), held.len())
                    },
                    None => Frame::Error(MSG_TOO_MANY.to_owned()),
                },
            };
            replies.push(reply);
            assert(views(replies@) =~= before.replies.push(reply@));
            i = i + 1;
        }
        assert(names.take(i as int) =~= names);
        replies
    }

    /// The frame that asks a server for this command.
    pub fn get_frame(self) -> (f: Frame)
        ensures
            f@ == FrameView::Array(
                seq![FrameView::Bulk(encode_utf8("subscribe"@))] + names_as_bulk(self@.channels),
            ),
    {
        named_frame("subscribe", &self.channels)
    }
}

/// The bulk frames that hold the names of channels.
pub open spec fn names_as_bulk(names: Seq<Seq<char>>) -> Seq<FrameView> {
    Seq::new(names.len(), |i: int| FrameView::Bulk(encode_utf8(names[i])))
}

/// The array frame of a command's name and the names of channels.
pub fn named_frame(word: &str, channels: &Vec<String>) -> (f: Frame)
    ensures
        f@ == FrameView::Array(
            seq![FrameView::Bulk(encode_utf8(word@))] + names_as_bulk(texts_of(channels@)),
        ),
{
    let mut frame = Frame::array();
    frame.push_bulk(bytes_from_slice(word.as_bytes()));
    let ghost head = seq![FrameView::Bulk(encode_utf8(word@))];
    let ghost all = names_as_bulk(texts_of(channels@));
    assert(frame@->Array_0 =~= head + all.take(0));
    let mut i: usize = 0;
    while i < channels.len()
        invariant
            i <= channels.len(),
            all == names_as_bulk(texts_of(channels@)),
            frame@ == FrameView::Array(head + all.take(i as int)),
        decreases channels.len() - i,
    {
        frame.push_bulk(bytes_from_slice(channels[i].as_str().as_bytes()));
        assert(frame@->Array_0 =~= head + all.take(i + 1));
        i = i + 1;
    }
    assert(all.take(i as int) =~= all);
    frame
}

} // verus!
