//! A cursor over the arguments of a command. A command arrives as an array
//! frame whose elements are all bulk frames; each command reads its fixed
//! arguments from the cursor and then probes for optional ones.

use crate::decimal::{decimal_value, is_decimal, parse_decimal};
use crate::frame::{lemma_array_view, views, Frame, FrameView};
use crate::trusted::{bytes_as_slice, bytes_contents, string_from_utf8};
use bytes::Bytes;
use vstd::prelude::*;
use vstd::slice::slice_to_vec;
use vstd::utf8::{decode_utf8, valid_utf8};

verus! {

/// Why an argument could not be read.
#[derive(Debug, PartialEq, Eq)]
pub enum ParseError {
    /// The cursor is exhausted. A command that probes for an optional
    /// argument reads this as "the argument is absent".
    EndOfStream,
    /// Arguments are left where the command should end.
    TrailingArguments,
    /// Any other fault, with a message for the peer.
    Other(String),
}

pub const MSG_NOT_ARRAY: &'static str = "protocol error; expected array";

pub const MSG_NOT_BULK: &'static str = "protocol error; expected an array of bulk frames";

pub const MSG_INVALID_STRING: &'static str = "protocol error; invalid string";

pub const MSG_INVALID_NUMBER: &'static str = "protocol error; invalid number";

pub const MSG_END_OF_STREAM: &'static str = "protocol error; unexpected end of stream";

pub const MSG_TRAILING: &'static str = "protocol error; expected end of frame, but there was more";

/// Whether `r` is the error `Other` with the text `msg`.
pub open spec fn is_other<T>(r: Result<T, ParseError>, msg: Seq<char>) -> bool {
    r matches Err(ParseError::Other(m)) && m@ == msg
}

/// Whether every frame of `a` is a bulk frame.
pub open spec fn all_bulk(a: Seq<FrameView>) -> bool {
    forall|i: int| 0 <= i < a.len() ==> #[trigger] a[i] is Bulk
}

/// The payloads of a run of bulk frames.
pub open spec fn payloads(a: Seq<FrameView>) -> Seq<Seq<u8>> {
    Seq::new(a.len(), |i: int| a[i]->Bulk_0)
}

pub struct Parse {
    parts: Vec<Bytes>,
    pos: usize,
}

impl ParseError {
    /// The text that tells the peer of this error.
    pub fn message(&self) -> (m: String)
        ensures
            m@ == self.spec_message(),
    {
        match self {
            ParseError::EndOfStream => MSG_END_OF_STREAM.to_owned(),
            ParseError::TrailingArguments => MSG_TRAILING.to_owned(),
            ParseError::Other(m) => m.clone(),
        }
    }

    pub open spec fn spec_message(&self) -> Seq<char> {
        match self {
            ParseError::EndOfStream => MSG_END_OF_STREAM@,
            ParseError::TrailingArguments => MSG_TRAILING@,
            ParseError::Other(m) => m@,
        }
    }
}

impl Parse {
    #[verifier::type_invariant]
    spec fn in_bounds(&self) -> bool {
        self.pos <= self.parts.len()
    }

    /// The arguments that have not been read yet, in order.
    pub closed spec fn remaining(&self) -> Seq<Seq<u8>> {
        Seq::new(
            (self.parts.len() - self.pos) as nat,
            |i: int| bytes_contents(self.parts[self.pos + i]),
        )
    }

    /// A cursor over the elements of `frame`, which must be an array of bulk
    /// frames.
    pub fn new(frame: Frame) -> (r: Result<Parse, ParseError>)
        ensures
            match frame@ {
                FrameView::Array(a) => if all_bulk(a) {
                    r matches Ok(p) && p.remaining() == payloads(a)
                } else {
                    is_other(r, MSG_NOT_BULK@)
                },
                _ => is_other(r, MSG_NOT_ARRAY@),
            },
    {
        match frame {
            Frame::Array(v) => {
                proof {
                    lemma_array_view(v);
                }
                let ghost a = views(v@);
                let mut parts: Vec<Bytes> = Vec::new();
                let mut i: usize = 0;
                while i < v.len()
                    invariant
                        i <= v.len(),
                        a == views(v@),
                        frame@ == FrameView::Array(a),
                        parts.len() == i,
                        forall|k: int| 0 <= k < i ==> #[trigger] a[k] is Bulk,
                        forall|k: int|
                            0 <= k < i ==> bytes_contents(#[trigger] parts[k]) == a[k]->Bulk_0,
                    decreases v.len() - i,
                {
                    match &v[i] {
                        Frame::Bulk(b) => {
                            parts.push(b.clone());
                        },
                        _ => {
                            assert(!(a[i as int] is Bulk));
                            return Err(ParseError::Other(MSG_NOT_BULK.to_owned()));
                        },
                    }
                    i = i + 1;
                }
                let p = Parse { parts, pos: 0 };
                assert(p.remaining() =~= payloads(a));
                Ok(p)
            },
            _ => Err(ParseError::Other(MSG_NOT_ARRAY.to_owned())),
        }
    }

    /// The next argument, as it is.
    pub fn next_bytes(&mut self) -> (r: Result<Bytes, ParseError>)
        ensures
            old(self).remaining().len() == 0 ==> r == Err::<Bytes, ParseError>(
                ParseError::EndOfStream,
            ) && final(self).remaining() == old(self).remaining(),
            old(self).remaining().len() > 0 ==> ({
                &&& final(self).remaining() == old(self).remaining().skip(1)
                &&& r matches Ok(b)
                &&& bytes_contents(b) == old(self).remaining()[0]
            }),
    {
        proof {
            use_type_invariant(&*self);
        }
        if self.pos < self.parts.len() {
            let b = self.parts[self.pos].clone();
            self.pos = self.pos + 1;
            assert(self.remaining() =~= old(self).remaining().skip(1));
            Ok(b)
        } else {
            Err(ParseError::EndOfStream)
        }
    }

    /// The next argument, as text. An argument that is not UTF-8 is consumed
    /// and reported.
    pub fn next_string(&mut self) -> (r: Result<String, ParseError>)
        ensures
            old(self).remaining().len() == 0 ==> r == Err::<String, ParseError>(
                ParseError::EndOfStream,
            ) && final(self).remaining() == old(self).remaining(),
            old(self).remaining().len() > 0 ==> ({
                &&& final(self).remaining() == old(self).remaining().skip(1)
                &&& if valid_utf8(old(self).remaining()[0]) {
                    r matches Ok(s) && s@ == decode_utf8(old(self).remaining()[0])
                } else {
                    is_other(r, MSG_INVALID_STRING@)
                }
            }),
    {
        match self.next_bytes() {
            Ok(b) => match string_from_utf8(slice_to_vec(bytes_as_slice(&b))) {
                Ok(s) => {
                    proof {
                        vstd::utf8::encode_utf8_decode_utf8(s@);
                    }
                    Ok(s)
                },
                Err(_) => Err(ParseError::Other(MSG_INVALID_STRING.to_owned())),
            },
            Err(e) => Err(e),
        }
    }

    /// The next argument, as a signed 64-bit integer in decimal text. An
    /// argument that is no such text is consumed and reported.
    pub fn next_int(&mut self) -> (r: Result<i64, ParseError>)
        ensures
            old(self).remaining().len() == 0 ==> r == Err::<i64, ParseError>(
                ParseError::EndOfStream,
            ) && final(self).remaining() == old(self).remaining(),
            old(self).remaining().len() > 0 ==> ({
                &&& final(self).remaining() == old(self).remaining().skip(1)
                &&& if is_int_text(old(self).remaining()[0]) {
                    r == Ok::<i64, ParseError>(decimal_value(old(self).remaining()[0]) as i64)
                } else {
                    is_other(r, MSG_INVALID_NUMBER@)
                }
            }),
    {
        match self.next_bytes() {
            Ok(b) => {
                let data = bytes_as_slice(&b);
                assert(data@.subrange(0, data@.len() as int) =~= data@);
                match parse_decimal(data, 0, data.len()) {
                    Some(v) => Ok(v),
                    None => Err(ParseError::Other(MSG_INVALID_NUMBER.to_owned())),
                }
            },
            Err(e) => Err(e),
        }
    }

    /// Checks that no argument is left.
    pub fn finish(&self) -> (r: Result<(), ParseError>)
        ensures
            r == if self.remaining().len() == 0 {
                Ok::<(), ParseError>(())
            } else {
                Err::<(), ParseError>(ParseError::TrailingArguments)
            },
    {
        proof {
            use_type_invariant(self);
        }
        if self.pos == self.parts.len() {
            Ok(())
        } else {
            Err(ParseError::TrailingArguments)
        }
    }
}

/// What reading from a run of arguments comes to.
pub enum Outcome<T> {
    /// `value` was read, and `rest` is left.
    Done { value: T, rest: Seq<Seq<u8>> },
    EndOfStream,
    TrailingArguments,
    Other(Seq<char>),
}

/// Reading the next argument as it is.
pub open spec fn take_bytes(args: Seq<Seq<u8>>) -> Outcome<Seq<u8>> {
    if args.len() == 0 {
        Outcome::EndOfStream
    } else {
        Outcome::Done { value: args[0], rest: args.skip(1) }
    }
}

/// Reading the next argument as text.
pub open spec fn take_string(args: Seq<Seq<u8>>) -> Outcome<Seq<char>> {
    if args.len() == 0 {
        Outcome::EndOfStream
    } else if valid_utf8(args[0]) {
        Outcome::Done { value: decode_utf8(args[0]), rest: args.skip(1) }
    } else {
        Outcome::Other(MSG_INVALID_STRING@)
    }
}

/// Reading the next argument as an integer.
pub open spec fn take_int(args: Seq<Seq<u8>>) -> Outcome<i64> {
    if args.len() == 0 {
        Outcome::EndOfStream
    } else if is_int_text(args[0]) {
        Outcome::Done { value: decimal_value(args[0]) as i64, rest: args.skip(1) }
    } else {
        Outcome::Other(MSG_INVALID_NUMBER@)
    }
}

/// Whether the result `r`, with `rest` left in the cursor, says what `o`
/// says. After an error nothing is said of the cursor.
pub open spec fn outcome_is<T: View>(
    r: Result<T, ParseError>,
    rest: Seq<Seq<u8>>,
    o: Outcome<T::V>,
) -> bool {
    match o {
        Outcome::Done { value, rest: left } => r matches Ok(v) && v@ == value && rest == left,
        Outcome::EndOfStream => r matches Err(ParseError::EndOfStream),
        Outcome::TrailingArguments => r matches Err(ParseError::TrailingArguments),
        Outcome::Other(m) => is_other(r, m),
    }
}

/// Whether `t` is decimal text for a signed 64-bit integer.
pub open spec fn is_int_text(t: Seq<u8>) -> bool {
    is_decimal(t) && i64::MIN <= decimal_value(t) <= i64::MAX
}

} // verus!
