//! `SET key value [EX seconds | PX milliseconds]`: stores a value, with or
//! without a time to live.

use crate::decimal::{is_u64_text, unsigned_value};
use crate::frame::{Frame, FrameView};
use crate::parse::{
    outcome_is, take_bytes, take_int, take_string, Outcome, Parse, ParseError, MSG_INVALID_NUMBER,
};
use crate::store::{spec_deadline, spec_set, ttl_millis, wakes_sweeper, Kv};
use crate::text::str_eq;
use crate::trusted::{
    bytes_contents, bytes_from_slice, bytes_from_string, duration_millis, duration_of_millis,
    duration_of_secs, parse_u64,
};
use bytes::Bytes;
use std::num::ParseIntError;
use std::time::Duration;
use vstd::prelude::*;
use vstd::utf8::{decode_utf8, encode_utf8, valid_utf8};

verus! {

pub const MSG_SET_OPTION: &'static str = "currently `SET` only supports the expiration option";

/// The command `SET`. It is not called `Set`, which in verified code is the
/// name of vstd's sets.
#[derive(Debug)]
pub struct SetCommand {
    /// the lookup key
    key: String,
    /// the value to be stored
    value: Bytes,
    /// when the value expires, counted from the moment it is stored
    expire: Option<Duration>,
}

pub struct SetView {
    pub key: Seq<char>,
    pub value: Seq<u8>,
    /// The time to live, in milliseconds.
    pub expire: Option<nat>,
}

impl View for SetCommand {
    type V = SetView;

    closed spec fn view(&self) -> SetView {
        SetView {
            key: self.key@,
            value: bytes_contents(self.value),
            expire: ttl_millis(self.expire),
        }
    }
}

/// Reads a time to live given in milliseconds as unsigned decimal text.
pub fn duration_from_ms(src: &str) -> (r: Result<Duration, ParseIntError>)
    ensures
        r is Ok <==> is_u64_text(encode_utf8(src@)),
        r matches Ok(d) ==> duration_millis(d) == unsigned_value(encode_utf8(src@)),
{
    match parse_u64(src) {
        Ok(millis) => Ok(duration_of_millis(millis)),
        Err(e) => Err(e),
    }
}

/// The bytes of a text, as a value to be stored.
pub fn bytes_from_str(src: &str) -> (b: Bytes)
    ensures
        bytes_contents(b) == encode_utf8(src@),
{
    bytes_from_string(src.to_owned())
}

/// The time to live that an option of `SET` gives: `count` units of
/// `unit_ms` milliseconds each. A negative count is no time to live.
pub open spec fn spec_ttl(
    count: Outcome<i64>,
    unit_ms: nat,
    key: Seq<char>,
    value: Seq<u8>,
) -> Outcome<SetView> {
    match count {
        Outcome::Done { value: n, rest } => if n < 0 {
            Outcome::Other(MSG_INVALID_NUMBER@)
        } else {
            Outcome::Done {
                value: SetView { key, value, expire: Some((n * unit_ms) as nat) },
                rest,
            }
        },
        Outcome::EndOfStream => Outcome::EndOfStream,
        Outcome::TrailingArguments => Outcome::TrailingArguments,
        Outcome::Other(m) => Outcome::Other(m),
    }
}

/// `SET` takes the key and the value, and then either nothing, or `EX` and
/// a count of seconds, or `PX` and a count of milliseconds. Any other
/// third argument is an error.
pub open spec fn spec_parse_set(args: Seq<Seq<u8>>) -> Outcome<SetView> {
    match take_string(args) {
        Outcome::Done { value: key, rest } => match take_bytes(rest) {
            Outcome::Done { value, rest } => match take_string(rest) {
                Outcome::Done { value: option, rest: after } => if option == "EX"@ {
                    spec_ttl(take_int(after), 1000, key, value)
                } else if option == "PX"@ {
                    spec_ttl(take_int(after), 1, key, value)
                } else {
                    Outcome::Other(MSG_SET_OPTION@)
                },
                Outcome::EndOfStream => Outcome::Done {
                    value: SetView { key, value, expire: None },
                    rest,
                },
                Outcome::TrailingArguments => Outcome::TrailingArguments,
                Outcome::Other(m) => Outcome::Other(m),
            },
            Outcome::EndOfStream => Outcome::EndOfStream,
            Outcome::TrailingArguments => Outcome::TrailingArguments,
            Outcome::Other(m) => Outcome::Other(m),
        },
        Outcome::EndOfStream => Outcome::EndOfStream,
        Outcome::TrailingArguments => Outcome::TrailingArguments,
        Outcome::Other(m) => Outcome::Other(m),
    }
}

/// A third argument that is neither `EX` nor `PX` makes `SET` fail,
/// whatever follows it: it is never passed over.
pub proof fn law_unknown_option_is_rejected(args: Seq<Seq<u8>>)
    requires
        args.len() >= 3,
        valid_utf8(args[0]),
        valid_utf8(args[2]),
        decode_utf8(args[2]) != "EX"@,
        decode_utf8(args[2]) != "PX"@,
    ensures
        spec_parse_set(args) == Outcome::<SetView>::Other(MSG_SET_OPTION@),
{
    assert(args.skip(1)[0] == args[1]);
    assert(args.skip(1).skip(1)[0] == args[2]);
}

impl SetCommand {
    pub fn new(key: String, value: Bytes, expire: Option<Duration>) -> (s: SetCommand)
        ensures
            s@ == (SetView {
                key: key@,
                value: bytes_contents(value),
                expire: ttl_millis(expire),
            }),
    {
        SetCommand { key, value, expire }
    }

    pub fn key(&self) -> (k: &str)
        ensures
            k@ == self@.key,
    {
        self.key.as_str()
    }

    pub fn value(&self) -> (v: &Bytes)
        ensures
            bytes_contents(*v) == self@.value,
    {
        &self.value
    }

    pub fn expire(&self) -> (e: Option<Duration>)
        ensures
            ttl_millis(e) == self@.expire,
    {
        self.expire
    }

    /// Reads the arguments of `SET` from the cursor, which stands behind the
    /// command's name.
    pub fn parse_frames(parse: &mut Parse) -> (r: Result<SetCommand, ParseError>)
        ensures
            outcome_is(r, final(parse).remaining(), spec_parse_set(old(parse).remaining())),
    {
        let key = match parse.next_string() {
            Ok(key) => key,
            Err(e) => {
                return Err(e);
            },
        };
        let value = match parse.next_bytes() {
            Ok(value) => value,
            Err(e) => {
                return Err(e);
            },
        };
        let mut expire: Option<Duration> = None;
        match parse.next_string() {
            Ok(s) => {
                if str_eq(s.as_str(), "EX") {
                    let secs = match parse.next_int() {
                        Ok(secs) => secs,
                        Err(e) => {
                            return Err(e);
                        },
                    };
                    if secs < 0 {
                        return Err(ParseError::Other(MSG_INVALID_NUMBER.to_owned()));
                    }
                    expire = Some(duration_of_secs(secs as u64));
                } else if str_eq(s.as_str(), "PX") {
                    let ms = match parse.next_int() {
                        Ok(ms) => ms,
                        Err(e) => {
                            return Err(e);
                        },
                    };
                    if ms < 0 {
                        return Err(ParseError::Other(MSG_INVALID_NUMBER.to_owned()));
                    }
                    expire = Some(duration_of_millis(ms as u64));
                } else {
                    return Err(ParseError::Other(MSG_SET_OPTION.to_owned()));
                }
            },
            Err(ParseError::EndOfStream) => {},
            Err(err) => {
                return Err(err);
            },
        }
        Ok(SetCommand { key, value, expire })
    }

    /// Stores the value at the instant `now` and returns the response,
    /// which is always `OK`, and whether a sweeper that waits for the next
    /// expiration must be woken.
    pub fn apply(self, kv: &mut Kv, now: u64) -> (r: (Frame, bool))
        requires
            old(kv).wf(),
        ensures
            final(kv).wf(),
            final(kv)@ == spec_set(old(kv)@, self@.key, self@.value, self@.expire, now),
            r.0@ == FrameView::Simple("OK"@),
            r.1 == wakes_sweeper(old(kv)@, spec_deadline(now, self@.expire)),
    {
        let wake = kv.set(self.key, self.value, self.expire, now);
        let response = Frame::Simple("OK".to_owned());
        (response, wake)
    }

    /// The frame that asks a server for this command: the command's name,
    /// the key and the value. The time to live is not part of it.
    pub fn get_frame(self) -> (f: Frame)
        ensures
            f@ == FrameView::Array(
                seq![
                    FrameView::Bulk(encode_utf8("set"@)),
                    FrameView::Bulk(encode_utf8(self@.key)),
                    FrameView::Bulk(self@.value),
                ],
            ),
    {
        let mut frame = Frame::array();
        frame.push_bulk(bytes_from_slice("set".as_bytes()));
        frame.push_bulk(bytes_from_string(self.key));
        frame.push_bulk(self.value);
        assert(frame@->Array_0 =~= seq![
            FrameView::Bulk(encode_utf8("set"@)),
            FrameView::Bulk(encode_utf8(self@.key)),
            FrameView::Bulk(self@.value),
        ]);
        frame
    }
}

} // verus!
