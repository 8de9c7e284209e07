//! `PUBLISH channel message`: sends a message to the subscribers of a
//! channel.

use crate::broker::{count_on, Broker};
use crate::frame::{count_frame, Frame, FrameView};
use crate::parse::{outcome_is, take_bytes, take_string, Outcome, Parse, ParseError};
use crate::trusted::{bytes_contents, bytes_from_slice, bytes_from_string};
use bytes::Bytes;
use vstd::prelude::*;
use vstd::utf8::encode_utf8;

verus! {

#[derive(Debug)]
pub struct Publish {
    channel: String,
    message: Bytes,
}

pub struct PublishView {
    pub channel: Seq<char>,
    pub message: Seq<u8>,
}

impl View for Publish {
    type V = PublishView;

    closed spec fn view(&self) -> PublishView {
        PublishView { channel: self.channel@, message: bytes_contents(self.message) }
    }
}

/// `PUBLISH` takes two arguments, the channel and the message.
pub open spec fn spec_parse_publish(args: Seq<Seq<u8>>) -> Outcome<PublishView> {
    match take_string(args) {
        Outcome::Done { value: channel, rest } => match take_bytes(rest) {
            Outcome::Done { value: message, rest } => Outcome::Done {
                value: PublishView { channel, message },
                rest,
            },
            Outcome::EndOfStream => Outcome::EndOfStream,
            Outcome::TrailingArguments => Outcome::TrailingArguments,
            Outcome::Other(m) => Outcome::Other(m),
        },
        Outcome::EndOfStream => Outcome::EndOfStream,
        Outcome::TrailingArguments => Outcome::TrailingArguments,
        Outcome::Other(m) => Outcome::Other(m),
    }
}

impl Publish {
    pub fn new(channel: String, message: Bytes) -> (p: Publish)
        ensures
            p@ == (PublishView { channel: channel@, message: bytes_contents(message) }),
    {
        Publish { channel, message }
    }

    pub fn channel(&self) -> (c: &str)
        ensures
            c@ == self@.channel,
    {
        self.channel.as_str()
    }

    pub fn message(&self) -> (m: &Bytes)
        ensures
            bytes_contents(*m) == self@.message,
    {
        &self.message
    }

    /// Reads the arguments of `PUBLISH` from the cursor, which stands behind
    /// the command's name.
    pub fn parse_frames(parse: &mut Parse) -> (r: Result<Publish, ParseError>)
        ensures
            outcome_is(r, final(parse).remaining(), spec_parse_publish(old(parse).remaining())),
    {
        let channel = match parse.next_string() {
            Ok(channel) => channel,
            Err(e) => {
                return Err(e);
            },
        };
        match parse.next_bytes() {
            Ok(message) => Ok(Publish { channel, message }),
            Err(e) => Err(e),
        }
    }

    /// Publishes the message and returns the response: the number of sinks
    /// that are registered for the channel.
    pub fn apply(self, broker: &mut Broker) -> (response: Frame)
        requires
            old(broker)@.wf(),
        ensures
            final(broker)@.wf(),
            final(broker)@ == old(broker)@.publish(self@.channel, self@.message),
            response@ == count_frame(count_on(old(broker)@.sinks, self@.channel)),
    {
        let n = broker.publish(self.channel.as_str(), self.message);
        Frame::count(n)
    }

    /// The frame that asks a server for this command.
    pub fn get_frame(self) -> (f: Frame)
        ensures
            f@ == FrameView::Array(
                seq![
                    FrameView::Bulk(encode_utf8("publish"@)),
                    FrameView::Bulk(encode_utf8(self@.channel)),
                    FrameView::Bulk(self@.message),
                ],
            ),
    {
        let mut frame = Frame::array();
        frame.push_bulk(bytes_from_slice("publish".as_bytes()));
        frame.push_bulk(bytes_from_string(self.channel));
        frame.push_bulk(self.message);
        assert(frame@->Array_0 =~= seq![
            FrameView::Bulk(encode_utf8("publish"@)),
            FrameView::Bulk(encode_utf8(self@.channel)),
            FrameView::Bulk(self@.message),
        ]);
        frame
    }
}

} // verus!
