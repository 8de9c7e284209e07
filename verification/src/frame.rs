//! Frames: the values that travel on the wire, their byte encoding, and the
//! streaming decoder that reads one frame from the front of a buffer.

use crate::decimal::{decimal, push_decimal, push_length};
use crate::trusted::{bytes_as_slice, bytes_contents, bytes_from_slice, string_from_utf8};
use crate::wire::{
    crlf, find_line, lemma_scan_line_bounds, read_number, scan_line, scan_number, DecodeError,
    Line, Number, CR, LF, TAG_ARRAY, TAG_BULK, TAG_ERROR, TAG_INTEGER, TAG_SIMPLE,
};
use bytes::Bytes;
use vstd::prelude::*;
use vstd::slice::{slice_subrange, slice_to_vec};
use vstd::std_specs::cmp::PartialEqSpecImpl;
use vstd::utf8::{decode_utf8, encode_utf8, valid_utf8};

verus! {

/// A value of the wire protocol.
#[derive(Debug)]
pub enum Frame {
    Simple(String),
    Error(String),
    Integer(i64),
    Bulk(Bytes),
    Null,
    Array(Vec<Frame>),
}

/// What a frame is, apart from how it is stored.
pub enum FrameView {
    Simple(Seq<char>),
    Error(Seq<char>),
    Integer(i64),
    Bulk(Seq<u8>),
    Null,
    Array(Seq<FrameView>),
}

/// The view of a frame; `Frame::view` is this function.
pub open spec fn frame_view(f: Frame) -> FrameView
    decreases f,
{
    match f {
        Frame::Simple(s) => FrameView::Simple(s@),
        Frame::Error(s) => FrameView::Error(s@),
        Frame::Integer(n) => FrameView::Integer(n),
        Frame::Bulk(b) => FrameView::Bulk(bytes_contents(b)),
        Frame::Null => FrameView::Null,
        Frame::Array(v) => FrameView::Array(
            Seq::new(
                v.len() as nat,
                |i: int|
                    if 0 <= i < v.len() {
                        frame_view(v[i])
                    } else {
                        FrameView::Null
                    },
            ),
        ),
    }
}

impl View for Frame {
    type V = FrameView;

    open spec fn view(&self) -> FrameView {
        frame_view(*self)
    }
}

impl Clone for Frame {
    fn clone(&self) -> (r: Frame)
        ensures
            r@ == self@,
    {
        self.duplicate()
    }
}

impl PartialEq for Frame {
    fn eq(&self, other: &Frame) -> (r: bool) {
        self.same_as(other)
    }
}

impl PartialEqSpecImpl for Frame {
    open spec fn obeys_eq_spec() -> bool {
        true
    }

    open spec fn eq_spec(&self, other: &Frame) -> bool {
        self@ == other@
    }
}

/// The integer frame that reports a count. A count beyond the range of an
/// integer frame is reported as the greatest integer.
pub open spec fn count_frame(n: nat) -> FrameView {
    FrameView::Integer(
        if n > i64::MAX {
            i64::MAX
        } else {
            n as i64
        },
    )
}

/// The array frame of a word, a text and a count, as it confirms a
/// subscription or its end.
pub open spec fn notice_frame(word: Seq<char>, text: Seq<char>, n: nat) -> FrameView {
    FrameView::Array(
        seq![
            FrameView::Bulk(encode_utf8(word)),
            FrameView::Bulk(encode_utf8(text)),
            count_frame(n),
        ],
    )
}

/// The views of a run of frames, in order.
pub open spec fn views(v: Seq<Frame>) -> Seq<FrameView> {
    Seq::new(v.len(), |i: int| v[i]@)
}

pub proof fn lemma_array_view(v: Vec<Frame>)
    ensures
        Frame::Array(v)@ == FrameView::Array(views(v@)),
{
    assert(Frame::Array(v)@->Array_0 =~= views(v@));
}

/// The bytes that stand for a frame on the wire.
pub open spec fn spec_encode(f: FrameView) -> Seq<u8>
    decreases f,
{
    match f {
        FrameView::Simple(s) => seq![TAG_SIMPLE] + encode_utf8(s) + crlf(),
        FrameView::Error(s) => seq![TAG_ERROR] + encode_utf8(s) + crlf(),
        FrameView::Integer(n) => seq![TAG_INTEGER] + decimal(n as int) + crlf(),
        FrameView::Bulk(b) => seq![TAG_BULK] + decimal(b.len() as int) + crlf() + b + crlf(),
        FrameView::Null => seq![TAG_BULK] + decimal(-1) + crlf(),
        FrameView::Array(a) => seq![TAG_ARRAY] + decimal(a.len() as int) + crlf()
            + spec_encode_all(a),
    }
}

/// The encodings of a run of frames, one after the other.
pub open spec fn spec_encode_all(fs: Seq<FrameView>) -> Seq<u8>
    decreases fs,
{
    if fs.len() == 0 {
        Seq::empty()
    } else {
        spec_encode(fs[0]) + spec_encode_all(fs.skip(1))
    }
}

/// What the decoder finds at a position of a buffer.
pub enum Parsed {
    /// A whole frame, whose last byte stands just before `next`.
    Complete { frame: FrameView, next: int },
    /// The buffer ends before the frame does.
    Incomplete,
    /// No frame can start with these bytes.
    Corrupt,
}

/// What the decoder finds where a run of frames is expected.
pub enum ParsedSeq {
    Complete { frames: Seq<FrameView>, next: int },
    Incomplete,
    Corrupt,
}

/// The frame that starts at `pos` in `s`.
///
/// A frame is corrupt when its first byte is no frame tag, when a header line
/// holds a lone CR or LF, when a simple or error line is not UTF-8, when an
/// integer or a length is not decimal text within the signed 64-bit range,
/// when a length is negative and not -1, and when the payload of a bulk frame
/// is not followed by CR LF.
pub open spec fn spec_decode_at(s: Seq<u8>, pos: int) -> Parsed
    decreases s.len() - pos, 0int,
{
    if pos < 0 || pos >= s.len() {
        Parsed::Incomplete
    } else if s[pos] == TAG_SIMPLE || s[pos] == TAG_ERROR {
        match scan_line(s, pos + 1) {
            Line::Complete { end } => {
                let t = s.subrange(pos + 1, end);
                if !valid_utf8(t) {
                    Parsed::Corrupt
                } else if s[pos] == TAG_SIMPLE {
                    Parsed::Complete { frame: FrameView::Simple(decode_utf8(t)), next: end + 2 }
                } else {
                    Parsed::Complete { frame: FrameView::Error(decode_utf8(t)), next: end + 2 }
                }
            },
            Line::Incomplete => Parsed::Incomplete,
            Line::Corrupt => Parsed::Corrupt,
        }
    } else if s[pos] == TAG_INTEGER {
        match scan_number(s, pos + 1) {
            Number::Complete { value, next } => Parsed::Complete {
                frame: FrameView::Integer(value),
                next,
            },
            Number::Incomplete => Parsed::Incomplete,
            Number::Corrupt => Parsed::Corrupt,
        }
    } else if s[pos] == TAG_BULK {
        match scan_number(s, pos + 1) {
            Number::Complete { value, next } => {
                if value == -1 {
                    Parsed::Complete { frame: FrameView::Null, next }
                } else if value < 0 {
                    Parsed::Corrupt
                } else if s.len() < next + value + 2 {
                    Parsed::Incomplete
                } else if s[next + value] == CR && s[next + value + 1] == LF {
                    Parsed::Complete {
                        frame: FrameView::Bulk(s.subrange(next, next + value)),
                        next: next + value + 2,
                    }
                } else {
                    Parsed::Corrupt
                }
            },
            Number::Incomplete => Parsed::Incomplete,
            Number::Corrupt => Parsed::Corrupt,
        }
    } else if s[pos] == TAG_ARRAY {
        match scan_number(s, pos + 1) {
            Number::Complete { value, next } => {
                if value == -1 {
                    Parsed::Complete { frame: FrameView::Null, next }
                } else if value < 0 {
                    Parsed::Corrupt
                } else {
                    proof {
                        lemma_scan_line_bounds(s, pos + 1);
                    }
                    match spec_decode_seq(s, next, value as nat) {
                        ParsedSeq::Complete { frames, next } => Parsed::Complete {
                            frame: FrameView::Array(frames),
                            next,
                        },
                        ParsedSeq::Incomplete => Parsed::Incomplete,
                        ParsedSeq::Corrupt => Parsed::Corrupt,
                    }
                }
            },
            Number::Incomplete => Parsed::Incomplete,
            Number::Corrupt => Parsed::Corrupt,
        }
    } else {
        Parsed::Corrupt
    }
}

/// The `n` frames that stand one after the other from `pos` on.
pub open spec fn spec_decode_seq(s: Seq<u8>, pos: int, n: nat) -> ParsedSeq
    decreases s.len() - pos, n + 1,
{
    if n == 0 {
        ParsedSeq::Complete { frames: Seq::empty(), next: pos }
    } else {
        match spec_decode_at(s, pos) {
            Parsed::Complete { frame, next } => {
                // A frame spans at least one byte, and none beyond the buffer.
                if next <= pos || next > s.len() {
                    ParsedSeq::Corrupt
                } else {
                    prepend(seq![frame], spec_decode_seq(s, next, (n - 1) as nat))
                }
            },
            Parsed::Incomplete => ParsedSeq::Incomplete,
            Parsed::Corrupt => ParsedSeq::Corrupt,
        }
    }
}

/// `p`, with `head` before the frames that it found.
pub open spec fn prepend(head: Seq<FrameView>, p: ParsedSeq) -> ParsedSeq {
    match p {
        ParsedSeq::Complete { frames, next } => ParsedSeq::Complete { frames: head + frames, next },
        ParsedSeq::Incomplete => ParsedSeq::Incomplete,
        ParsedSeq::Corrupt => ParsedSeq::Corrupt,
    }
}

pub proof fn lemma_prepend_empty(p: ParsedSeq)
    ensures
        prepend(Seq::empty(), p) == p,
{
    if let ParsedSeq::Complete { frames, next } = p {
        assert(Seq::<FrameView>::empty() + frames =~= frames);
    }
}

pub proof fn lemma_prepend_twice(a: Seq<FrameView>, b: Seq<FrameView>, p: ParsedSeq)
    ensures
        prepend(a, prepend(b, p)) == prepend(a + b, p),
{
    if let ParsedSeq::Complete { frames, next } = p {
        assert(a + (b + frames) =~= (a + b) + frames);
    }
}

/// The frame at the front of `s`.
pub open spec fn spec_decode(s: Seq<u8>) -> Parsed {
    spec_decode_at(s, 0)
}

/// Whether the decoder's answer `r` says what `p` says.
pub open spec fn decoded_as(r: Result<(Frame, usize), DecodeError>, p: Parsed) -> bool {
    match p {
        Parsed::Complete { frame, next } => r matches Ok((f, n)) && f@ == frame && n == next,
        Parsed::Incomplete => r matches Err(DecodeError::NeedMoreData),
        Parsed::Corrupt => r matches Err(DecodeError::Corrupt),
    }
}

/// The encoding of a run grows at its end as the run does.
pub proof fn lemma_encode_all_push(fs: Seq<FrameView>, x: FrameView)
    ensures
        spec_encode_all(fs.push(x)) == spec_encode_all(fs) + spec_encode(x),
    decreases fs.len(),
{
    let g = fs.push(x);
    if fs.len() == 0 {
        assert(g.skip(1) =~= Seq::<FrameView>::empty());
        assert(spec_encode_all(g.skip(1)) =~= Seq::<u8>::empty());
        assert(spec_encode_all(g) =~= spec_encode_all(fs) + spec_encode(x));
    } else {
        lemma_encode_all_push(fs.skip(1), x);
        assert(g.skip(1) =~= fs.skip(1).push(x));
        assert(spec_encode_all(g) =~= spec_encode_all(fs) + spec_encode(x));
    }
}

/// Appends `data` to `out`.
pub fn append_bytes(out: &mut Vec<u8>, data: &[u8])
    ensures
        final(out)@ == old(out)@ + data@,
{
    let mut i: usize = 0;
    while i < data.len()
        invariant
            i <= data.len(),
            out@ == old(out)@ + data@.take(i as int),
        decreases data.len() - i,
    {
        out.push(data[i]);
        assert(data@.take(i + 1) =~= data@.take(i as int).push(data@[i as int]));
        i = i + 1;
    }
    assert(data@.take(i as int) =~= data@);
}

impl Frame {
    /// An array frame without elements.
    pub fn array() -> (r: Frame)
        ensures
            r@ == FrameView::Array(Seq::empty()),
    {
        let v: Vec<Frame> = Vec::new();
        proof {
            lemma_array_view(v);
            assert(views(v@) =~= Seq::empty());
        }
        Frame::Array(v)
    }

    /// The integer frame that reports the count `n`.
    pub fn count(n: usize) -> (r: Frame)
        ensures
            r@ == count_frame(n as nat),
    {
        if n as u64 > 0x7fff_ffff_ffff_ffff {
            Frame::Integer(i64::MAX)
        } else {
            Frame::Integer(n as i64)
        }
    }

    /// The array frame of a word, a text and a count.
    pub fn notice(word: &str, text: &str, n: usize) -> (r: Frame)
        ensures
            r@ == notice_frame(word@, text@, n as nat),
    {
        let mut frame = Frame::array();
        frame.push_bulk(bytes_from_slice(word.as_bytes()));
        frame.push_bulk(bytes_from_slice(text.as_bytes()));
        frame.push_frame(Frame::count(n));
        assert(frame@->Array_0 =~= notice_frame(word@, text@, n as nat)->Array_0);
        frame
    }

    /// Appends a bulk frame to an array frame.
    pub fn push_bulk(&mut self, bytes: Bytes)
        requires
            *old(self) is Array,
        ensures
            final(self)@ == FrameView::Array(
                old(self)@->Array_0.push(FrameView::Bulk(bytes_contents(bytes))),
            ),
    {
        self.push_frame(Frame::Bulk(bytes));
    }

    /// Appends an integer frame to an array frame.
    pub fn push_int(&mut self, value: i64)
        requires
            *old(self) is Array,
        ensures
            final(self)@ == FrameView::Array(old(self)@->Array_0.push(FrameView::Integer(value))),
    {
        self.push_frame(Frame::Integer(value));
    }

    /// Appends a frame to an array frame.
    pub fn push_frame(&mut self, item: Frame)
        requires
            *old(self) is Array,
        ensures
            final(self)@ == FrameView::Array(old(self)@->Array_0.push(item@)),
    {
        match self {
            Frame::Array(v) => {
                let ghost before = *v;
                v.push(item);
                proof {
                    lemma_array_view(before);
                    lemma_array_view(*v);
                    assert(views(v@) =~= views(before@).push(item@));
                }
            },
            _ => {},
        }
    }

    /// Appends the encoding of this frame to `out`.
    pub fn encode_into(&self, out: &mut Vec<u8>)
        ensures
            final(out)@ == old(out)@ + spec_encode(self@),
        decreases self,
    {
        match self {
            Frame::Simple(s) => {
                out.push(TAG_SIMPLE);
                append_bytes(out, s.as_str().as_bytes());
                out.push(CR);
                out.push(LF);
                assert(out@ =~= old(out)@ + spec_encode(self@));
            },
            Frame::Error(s) => {
                out.push(TAG_ERROR);
                append_bytes(out, s.as_str().as_bytes());
                out.push(CR);
                out.push(LF);
                assert(out@ =~= old(out)@ + spec_encode(self@));
            },
            Frame::Integer(n) => {
                out.push(TAG_INTEGER);
                push_decimal(out, *n);
                out.push(CR);
                out.push(LF);
                assert(out@ =~= old(out)@ + spec_encode(self@));
            },
            Frame::Bulk(b) => {
                let data = bytes_as_slice(b);
                out.push(TAG_BULK);
                push_length(out, data.len());
                out.push(CR);
                out.push(LF);
                append_bytes(out, data);
                out.push(CR);
                out.push(LF);
                assert(out@ =~= old(out)@ + spec_encode(self@));
            },
            Frame::Null => {
                out.push(TAG_BULK);
                push_decimal(out, -1);
                out.push(CR);
                out.push(LF);
                assert(out@ =~= old(out)@ + spec_encode(self@));
            },
            Frame::Array(v) => {
                out.push(TAG_ARRAY);
                push_length(out, v.len());
                out.push(CR);
                out.push(LF);
                let ghost head = out@;
                let ghost all = views(v@);
                proof {
                    lemma_array_view(*v);
                    assert(all.take(0) =~= Seq::<FrameView>::empty());
                    assert(head =~= old(out)@ + (seq![TAG_ARRAY] + decimal(v.len() as int)
                        + crlf()));
                }
                let mut i: usize = 0;
                while i < v.len()
                    invariant
                        i <= v.len(),
                        *self == Frame::Array(*v),
                        all == views(v@),
                        out@ == head + spec_encode_all(all.take(i as int)),
                    decreases v.len() - i,
                {
                    proof {
                        vstd::std_specs::vec::axiom_vec_index_decreases(*v, i as int);
                        assert(decreases_to!(*self => self->Array_0));
                    }
                    v[i].encode_into(out);
                    proof {
                        lemma_encode_all_push(all.take(i as int), all[i as int]);
                        assert(all.take(i + 1) =~= all.take(i as int).push(all[i as int]));
                    }
                    i = i + 1;
                }
                proof {
                    assert(all.take(i as int) =~= all);
                    assert(out@ =~= old(out)@ + spec_encode(self@));
                }
            },
        }
    }

    /// Reads the frame that starts at `pos`. On success, the second
    /// component is the position just after the frame.
    pub fn decode_at(buf: &[u8], pos: usize) -> (r: Result<(Frame, usize), DecodeError>)
        ensures
            decoded_as(r, spec_decode_at(buf@, pos as int)),
            r matches Ok((f, n)) ==> pos < n <= buf.len(),
        decreases buf.len() - pos,
    {
        if pos >= buf.len() {
            return Err(DecodeError::NeedMoreData);
        }
        let tag = buf[pos];
        if tag == TAG_SIMPLE || tag == TAG_ERROR {
            let end = match find_line(buf, pos + 1) {
                Ok(end) => end,
                Err(e) => {
                    return Err(e);
                },
            };
            let text = slice_to_vec(slice_subrange(buf, pos + 1, end));
            match string_from_utf8(text) {
                Ok(s) => {
                    proof {
                        vstd::utf8::encode_utf8_decode_utf8(s@);
                    }
                    if tag == TAG_SIMPLE {
                        Ok((Frame::Simple(s), end + 2))
                    } else {
                        Ok((Frame::Error(s), end + 2))
                    }
                },
                Err(_) => Err(DecodeError::Corrupt),
            }
        } else if tag == TAG_INTEGER {
            match read_number(buf, pos + 1) {
                Ok((value, next)) => Ok((Frame::Integer(value), next)),
                Err(e) => Err(e),
            }
        } else if tag == TAG_BULK {
            let (value, next) = match read_number(buf, pos + 1) {
                Ok(header) => header,
                Err(e) => {
                    return Err(e);
                },
            };
            if value == -1 {
                return Ok((Frame::Null, next));
            }
            if value < 0 {
                return Err(DecodeError::Corrupt);
            }
            let rest: u64 = (buf.len() - next) as u64;
            if rest < value as u64 + 2 {
                return Err(DecodeError::NeedMoreData);
            }
            let stop: usize = next + value as usize;
            if buf[stop] == CR && buf[stop + 1] == LF {
                let data = bytes_from_slice(slice_subrange(buf, next, stop));
                Ok((Frame::Bulk(data), stop + 2))
            } else {
                Err(DecodeError::Corrupt)
            }
        } else if tag == TAG_ARRAY {
            let (count, first) = match read_number(buf, pos + 1) {
                Ok(header) => header,
                Err(e) => {
                    return Err(e);
                },
            };
            if count == -1 {
                return Ok((Frame::Null, first));
            }
            if count < 0 {
                return Err(DecodeError::Corrupt);
            }
            let mut items: Vec<Frame> = Vec::new();
            let mut cur: usize = first;
            let mut i: i64 = 0;
            proof {
                assert(views(items@) =~= Seq::<FrameView>::empty());
                lemma_prepend_empty(spec_decode_seq(buf@, first as int, count as nat));
            }
            while i < count
                invariant
                    pos < first <= cur <= buf.len(),
                    0 <= i <= count,
                    buf@[pos as int] == TAG_ARRAY,
                    scan_number(buf@, pos + 1) == (Number::Complete {
                        value: count,
                        next: first as int,
                    }),
                    spec_decode_seq(buf@, first as int, count as nat) == prepend(
                        views(items@),
                        spec_decode_seq(buf@, cur as int, (count - i) as nat),
                    ),
                decreases count - i,
            {
                let ghost before = views(items@);
                let ghost tail = spec_decode_seq(buf@, cur as int, (count - i) as nat);
                match Frame::decode_at(buf, cur) {
                    Ok((item, next)) => {
                        proof {
                            let rest = spec_decode_seq(buf@, next as int, (count - i - 1) as nat);
                            assert(tail == prepend(seq![item@], rest));
                            lemma_prepend_twice(before, seq![item@], rest);
                            assert(views(items@.push(item)) =~= before + seq![item@]);
                        }
                        items.push(item);
                        cur = next;
                        i = i + 1;
                    },
                    Err(e) => {
                        return Err(e);
                    },
                }
            }
            proof {
                lemma_array_view(items);
                assert(views(items@) + Seq::<FrameView>::empty() =~= views(items@));
            }
            Ok((Frame::Array(items), cur))
        } else {
            Err(DecodeError::Corrupt)
        }
    }

    /// Reads one frame from the front of `buf`, and says how many bytes it
    /// spans. Bytes after the frame are not looked at.
    pub fn decode(buf: &[u8]) -> (r: Result<(Frame, usize), DecodeError>)
        ensures
            decoded_as(r, spec_decode(buf@)),
            r matches Ok((f, n)) ==> 0 < n <= buf.len(),
    {
        Frame::decode_at(buf, 0)
    }

    /// A copy of this frame.
    pub fn duplicate(&self) -> (r: Frame)
        ensures
            r@ == self@,
        decreases self,
    {
        match self {
            Frame::Simple(s) => Frame::Simple(s.clone()),
            Frame::Error(s) => Frame::Error(s.clone()),
            Frame::Integer(n) => Frame::Integer(*n),
            Frame::Bulk(b) => Frame::Bulk(b.clone()),
            Frame::Null => Frame::Null,
            Frame::Array(v) => {
                let mut items: Vec<Frame> = Vec::new();
                let mut i: usize = 0;
                while i < v.len()
                    invariant
                        i <= v.len(),
                        *self == Frame::Array(*v),
                        items.len() == i,
                        forall|k: int| 0 <= k < i ==> (#[trigger] items[k])@ == v[k]@,
                    decreases v.len() - i,
                {
                    proof {
                        assert(decreases_to!(*self => self->Array_0));
                        vstd::std_specs::vec::axiom_vec_index_decreases(*v, i as int);
                    }
                    items.push(v[i].duplicate());
                    i = i + 1;
                }
                proof {
                    lemma_array_view(items);
                    lemma_array_view(*v);
                    assert(views(items@) =~= views(v@));
                }
                Frame::Array(items)
            },
        }
    }

    /// Whether two frames are the same value.
    pub fn same_as(&self, other: &Frame) -> (r: bool)
        ensures
            r == (self@ == other@),
        decreases self,
    {
        match (self, other) {
            (Frame::Simple(a), Frame::Simple(b)) => *a == *b,
            (Frame::Error(a), Frame::Error(b)) => *a == *b,
            (Frame::Integer(a), Frame::Integer(b)) => *a == *b,
            (Frame::Bulk(a), Frame::Bulk(b)) => *a == *b,
            (Frame::Null, Frame::Null) => true,
            (Frame::Array(a), Frame::Array(b)) => {
                proof {
                    lemma_array_view(*a);
                    lemma_array_view(*b);
                }
                if a.len() != b.len() {
                    assert(views(a@).len() != views(b@).len());
                    return false;
                }
                let mut i: usize = 0;
                while i < a.len()
                    invariant
                        i <= a.len(),
                        a.len() == b.len(),
                        *self == Frame::Array(*a),
                        self@ == FrameView::Array(views(a@)),
                        other@ == FrameView::Array(views(b@)),
                        forall|k: int| 0 <= k < i ==> (#[trigger] a[k])@ == b[k]@,
                    decreases a.len() - i,
                {
                    proof {
                        assert(decreases_to!(*self => self->Array_0));
                        vstd::std_specs::vec::axiom_vec_index_decreases(*a, i as int);
                    }
                    if !a[i].same_as(&b[i]) {
                        assert(views(a@)[i as int] != views(b@)[i as int]);
                        return false;
                    }
                    i = i + 1;
                }
                assert(views(a@) =~= views(b@));
                true
            },
            _ => false,
        }
    }

    /// The bytes that stand for this frame on the wire.
    pub fn encode(&self) -> (out: Vec<u8>)
        ensures
            out@ == spec_encode(self@),
    {
        let mut out: Vec<u8> = Vec::new();
        self.encode_into(&mut out);
        assert(out@ =~= spec_encode(self@));
        out
    }
}

} // verus!
