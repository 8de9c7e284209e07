//! `GET key`: reads the value of a key.

use crate::frame::{Frame, FrameView};
use crate::parse::{outcome_is, take_string, Outcome, Parse, ParseError};
use crate::store::{spec_get, Kv};
use crate::trusted::{bytes_from_slice, bytes_from_string};
use vstd::prelude::*;
use vstd::utf8::encode_utf8;

verus! {

#[derive(Debug)]
pub struct Get {
    key: String,
}

pub struct GetView {
    pub key: Seq<char>,
}

impl View for Get {
    type V = GetView;

    closed spec fn view(&self) -> GetView {
        GetView { key: self.key@ }
    }
}

/// `GET` takes one argument, the key.
pub open spec fn spec_parse_get(args: Seq<Seq<u8>>) -> Outcome<GetView> {
    match take_string(args) {
        Outcome::Done { value, rest } => Outcome::Done { value: GetView { key: value }, rest },
        Outcome::EndOfStream => Outcome::EndOfStream,
        Outcome::TrailingArguments => Outcome::TrailingArguments,
        Outcome::Other(m) => Outcome::Other(m),
    }
}

/// The response to `GET`: the value, or null where there is none.
pub open spec fn get_response(found: Option<Seq<u8>>) -> FrameView {
    match found {
        Some(data) => FrameView::Bulk(data),
        None => FrameView::Null,
    }
}

impl Get {
    pub fn new(key: String) -> (g: Get)
        ensures
            g@.key == key@,
    {
        Get { key }
    }

    pub fn key(&self) -> (k: &str)
        ensures
            k@ == self@.key,
    {
        self.key.as_str()
    }

    /// Reads the arguments of `GET` from the cursor, which stands behind the
    /// command's name.
    pub fn parse_frames(parse: &mut Parse) -> (r: Result<Get, ParseError>)
        ensures
            outcome_is(r, final(parse).remaining(), spec_parse_get(old(parse).remaining())),
    {
        match parse.next_string() {
            Ok(key) => Ok(Get { key }),
            Err(e) => Err(e),
        }
    }

    /// Looks the key up at the instant `now` and returns the response.
    pub fn apply(self, kv: &Kv, now: u64) -> (response: Frame)
        ensures
            response@ == get_response(spec_get(kv@, self@.key, now)),
    {
        match kv.get(self.key.as_str(), now) {
            Some(data) => Frame::Bulk(data),
            None => Frame::Null,
        }
    }

    /// The frame that asks a server for this command.
    pub fn get_frame(self) -> (f: Frame)
        ensures
            f@ == FrameView::Array(
                seq![
                    FrameView::Bulk(encode_utf8("get"@)),
                    FrameView::Bulk(encode_utf8(self@.key)),
                ],
            ),
    {
        let mut frame = Frame::array();
        frame.push_bulk(bytes_from_slice("get".as_bytes()));
        frame.push_bulk(bytes_from_string(self.key));
        assert(frame@->Array_0 =~= seq![
            FrameView::Bulk(encode_utf8("get"@)),
            FrameView::Bulk(encode_utf8(self@.key)),
        ]);
        frame
    }
}

} // verus!
