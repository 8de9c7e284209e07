//! The read side of a connection: a buffer that gathers what arrives from
//! the stream, and that gives out one frame at a time.
//!
//! The stream itself is the caller's. The caller asks `advance` what to do
//! next, reads from the stream when it is told to, and hands what it has
//! read to `feed`.

use crate::frame::{append_bytes, spec_decode, Frame, Parsed};
use crate::wire::DecodeError;
use vstd::prelude::*;

verus! {

/// What the reader of a connection does next.
#[derive(Debug)]
pub enum Progress {
    /// A whole frame has arrived, and has left the buffer.
    Frame(Frame),
    /// The buffer holds no whole frame: more must be read from the stream.
    ReadMore,
    /// The stream has ended, and nothing of a frame was left behind.
    End,
}

pub struct Connection {
    buffer: Vec<u8>,
}

impl View for Connection {
    type V = Seq<u8>;

    /// The bytes that have arrived and belong to no frame given out yet.
    closed spec fn view(&self) -> Seq<u8> {
        self.buffer@
    }
}

impl Connection {
    /// A connection on which nothing has arrived yet.
    pub fn new() -> (c: Connection)
        ensures
            c@ == Seq::<u8>::empty(),
    {
        Connection { buffer: Vec::new() }
    }

    /// Takes in bytes that were read from the stream.
    pub fn feed(&mut self, data: &[u8])
        ensures
            final(self)@ == old(self)@ + data@,
    {
        append_bytes(&mut self.buffer, data);
    }

    /// How many bytes wait in the buffer.
    pub fn buffered(&self) -> (n: usize)
        ensures
            n == self@.len(),
    {
        self.buffer.len()
    }

    /// Says what to do next. `at_end` tells that the stream has ended, so
    /// that no more bytes will be fed.
    ///
    /// A whole frame at the front of the buffer is given out and leaves the
    /// buffer; what follows it stays. Where the buffer ends before the
    /// frame does, more must be read; but if the stream has ended, this is
    /// the clean end where the buffer is empty, and corruption where it
    /// holds part of a frame. Bytes that can start no frame are corruption.
    pub fn advance(&mut self, at_end: bool) -> (r: Result<Progress, DecodeError>)
        ensures
            match spec_decode(old(self)@) {
                Parsed::Complete { frame, next } => {
                    &&& r matches Ok(Progress::Frame(f))
                    &&& f@ == frame
                    &&& final(self)@ == old(self)@.skip(next)
                },
                Parsed::Incomplete => {
                    &&& final(self)@ == old(self)@
                    &&& if !at_end {
                        r matches Ok(Progress::ReadMore)
                    } else if old(self)@.len() == 0 {
                        r matches Ok(Progress::End)
                    } else {
                        r matches Err(DecodeError::Corrupt)
                    }
                },
                Parsed::Corrupt => {
                    &&& final(self)@ == old(self)@
                    &&& r matches Err(DecodeError::Corrupt)
                },
            },
    {
        match Frame::decode(self.buffer.as_slice()) {
            Ok((frame, used)) => {
                let rest = self.buffer.split_off(used);
                self.buffer = rest;
                assert(self.buffer@ =~= old(self)@.skip(used as int));
                Ok(Progress::Frame(frame))
            },
            Err(DecodeError::NeedMoreData) => {
                if !at_end {
                    Ok(Progress::ReadMore)
                } else if self.buffer.len() == 0 {
                    Ok(Progress::End)
                } else {
                    Err(DecodeError::Corrupt)
                }
            },
            Err(DecodeError::Corrupt) => Err(DecodeError::Corrupt),
        }
    }

    /// The bytes to write to the stream for `frame`.
    pub fn write_frame(frame: &Frame) -> (bytes: Vec<u8>)
        ensures
            bytes@ == crate::frame::spec_encode(frame@),
    {
        frame.encode()
    }
}

} // verus!
