//! What holds between the encoder and the decoder.

use crate::decimal::{decimal, lemma_decimal_round_trip};
use crate::frame::{
    spec_decode, spec_decode_at, spec_decode_seq, spec_encode, spec_encode_all, Frame,
    FrameView, Parsed, ParsedSeq,
};
use crate::wire::{
    crlf, is_eol, lemma_find_eol_is, line_safe, scan_line, scan_number, Line, Number,
    CR, LF, TAG_ARRAY, TAG_BULK, TAG_ERROR, TAG_INTEGER, TAG_SIMPLE,
};
use vstd::prelude::*;
use vstd::utf8::{encode_utf8, encode_utf8_decode_utf8, encode_utf8_valid_utf8};

verus! {

/// Whether a frame survives the wire: the text of a simple or error frame
/// holds neither CR nor LF, and every length fits the signed 64-bit header.
pub open spec fn wire_safe(f: FrameView) -> bool
    decreases f,
{
    match f {
        FrameView::Simple(s) => line_safe(encode_utf8(s)),
        FrameView::Error(s) => line_safe(encode_utf8(s)),
        FrameView::Integer(_) => true,
        FrameView::Bulk(b) => b.len() <= i64::MAX,
        FrameView::Null => true,
        FrameView::Array(a) => a.len() <= i64::MAX && forall|i: int|
            0 <= i < a.len() ==> wire_safe(#[trigger] a[i]),
    }
}

pub open spec fn all_wire_safe(fs: Seq<FrameView>) -> bool {
    forall|i: int| 0 <= i < fs.len() ==> wire_safe(#[trigger] fs[i])
}

/// A line that stands whole at `from` is found there.
proof fn lemma_whole_line(s: Seq<u8>, from: int, t: Seq<u8>)
    requires
        0 <= from,
        from + t.len() + 2 <= s.len(),
        s.subrange(from, from + t.len()) == t,
        line_safe(t),
        s[from + t.len()] == CR,
        s[from + t.len() + 1] == LF,
    ensures
        scan_line(s, from) == (Line::Complete { end: from + t.len() }),
{
    assert forall|i: int| from <= i < from + t.len() implies !is_eol(#[trigger] s[i]) by {
        assert(s[i] == t[i - from]);
    }
    lemma_find_eol_is(s, from, from + t.len());
}

/// A line of which the buffer holds only a strict prefix is incomplete.
proof fn lemma_partial_line(s: Seq<u8>, from: int, t: Seq<u8>, k: int)
    requires
        line_safe(t),
        0 <= from,
        0 <= k < t.len() + 2,
        s.len() == from + k,
        s.subrange(from, from + k) == (t + crlf()).take(k),
    ensures
        scan_line(s, from) == Line::Incomplete,
        scan_number(s, from) == Number::Incomplete,
{
    let full = t + crlf();
    if k <= t.len() {
        assert forall|i: int| from <= i < s.len() implies !is_eol(#[trigger] s[i]) by {
            assert(s[i] == s.subrange(from, from + k)[i - from]);
            assert(full.take(k)[i - from] == t[i - from]);
        }
        lemma_find_eol_is(s, from, s.len() as int);
    } else {
        let e = from + t.len();
        assert forall|i: int| from <= i < e implies !is_eol(#[trigger] s[i]) by {
            assert(s[i] == s.subrange(from, from + k)[i - from]);
            assert(full.take(k)[i - from] == t[i - from]);
        }
        assert(s[e] == s.subrange(from, from + k)[e - from]);
        assert(full.take(k)[e - from] == CR);
        lemma_find_eol_is(s, from, e);
    }
}

/// A header line `tag t CR LF` that stands whole behind `a` is found there.
proof fn lemma_header_line(a: Seq<u8>, tag: u8, t: Seq<u8>, more: Seq<u8>)
    requires
        line_safe(t),
    ensures
        ({
            let s = a + (seq![tag] + t + crlf()) + more;
            &&& s[a.len() as int] == tag
            &&& scan_line(s, a.len() as int + 1) == (Line::Complete {
                end: a.len() as int + 1 + t.len(),
            })
            &&& s.subrange(a.len() as int + 1, a.len() as int + 1 + t.len()) == t
        }),
{
    let s = a + (seq![tag] + t + crlf()) + more;
    let p = a.len() as int;
    let tl = t.len() as int;
    assert(s.subrange(p + 1, p + 1 + tl) =~= t);
    assert(s[p + 1 + tl] == CR);
    assert(s[p + 2 + tl] == LF);
    lemma_whole_line(s, p + 1, t);
}

/// A decimal header `tag n CR LF` that stands whole behind `a` is read there.
proof fn lemma_header_number(a: Seq<u8>, tag: u8, n: int, more: Seq<u8>)
    requires
        i64::MIN <= n <= i64::MAX,
    ensures
        ({
            let s = a + (seq![tag] + decimal(n) + crlf()) + more;
            &&& s[a.len() as int] == tag
            &&& scan_number(s, a.len() as int + 1) == (Number::Complete {
                value: n as i64,
                next: a.len() as int + 3 + decimal(n).len(),
            })
        }),
{
    lemma_decimal_round_trip(n);
    lemma_header_line(a, tag, decimal(n), more);
}

/// A header line of which the buffer holds only a strict prefix is
/// incomplete.
proof fn lemma_header_cut(a: Seq<u8>, tag: u8, t: Seq<u8>, k: int)
    requires
        line_safe(t),
        1 <= k < t.len() + 3,
    ensures
        ({
            let s = a + (seq![tag] + t + crlf()).take(k);
            &&& s[a.len() as int] == tag
            &&& scan_line(s, a.len() as int + 1) == Line::Incomplete
            &&& scan_number(s, a.len() as int + 1) == Number::Incomplete
        }),
{
    let s = a + (seq![tag] + t + crlf()).take(k);
    let p = a.len() as int;
    assert(s.subrange(p + 1, p + k) =~= (t + crlf()).take(k - 1));
    lemma_partial_line(s, p + 1, t, k - 1);
}

/// A frame that stands whole at some place of a buffer is decoded there,
/// whatever stands before and after it.
pub proof fn lemma_decode_encode_at(f: FrameView, a: Seq<u8>, b: Seq<u8>)
    requires
        wire_safe(f),
    ensures
        spec_decode_at(a + spec_encode(f) + b, a.len() as int) == (Parsed::Complete {
            frame: f,
            next: (a.len() + spec_encode(f).len()) as int,
        }),
    decreases f,
{
    let enc = spec_encode(f);
    let s = a + enc + b;
    let p = a.len() as int;
    match f {
        FrameView::Simple(c) => {
            lemma_header_line(a, TAG_SIMPLE, encode_utf8(c), b);
            encode_utf8_valid_utf8(c);
            encode_utf8_decode_utf8(c);
        },
        FrameView::Error(c) => {
            lemma_header_line(a, TAG_ERROR, encode_utf8(c), b);
            encode_utf8_valid_utf8(c);
            encode_utf8_decode_utf8(c);
        },
        FrameView::Integer(n) => {
            lemma_header_number(a, TAG_INTEGER, n as int, b);
        },
        FrameView::Bulk(d) => {
            lemma_decode_encode_bulk(d, a, b);
        },
        FrameView::Null => {
            lemma_header_number(a, TAG_BULK, -1, b);
        },
        FrameView::Array(fs) => {
            let hdr = seq![TAG_ARRAY] + decimal(fs.len() as int) + crlf();
            lemma_header_number(a, TAG_ARRAY, fs.len() as int, spec_encode_all(fs) + b);
            assert(a + hdr + (spec_encode_all(fs) + b) =~= s);
            lemma_decode_encode_seq(fs, a + hdr, b);
            assert((a + hdr) + spec_encode_all(fs) + b =~= s);
        },
    }
}

proof fn lemma_decode_encode_bulk(d: Seq<u8>, a: Seq<u8>, b: Seq<u8>)
    requires
        d.len() <= i64::MAX,
    ensures
        spec_decode_at(a + spec_encode(FrameView::Bulk(d)) + b, a.len() as int) == (
        Parsed::Complete {
            frame: FrameView::Bulk(d),
            next: (a.len() + spec_encode(FrameView::Bulk(d)).len()) as int,
        }),
{
    let s = a + spec_encode(FrameView::Bulk(d)) + b;
    let hdr = seq![TAG_BULK] + decimal(d.len() as int) + crlf();
    let more = d + crlf() + b;
    lemma_header_number(a, TAG_BULK, d.len() as int, more);
    assert(a + hdr + more =~= s);
    let next = (a.len() + hdr.len()) as int;
    assert(s.subrange(next, next + d.len()) =~= d);
    assert(s[next + d.len()] == CR);
    assert(s[next + d.len() + 1] == LF);
}

/// A run of frames that stands whole at some place of a buffer is decoded
/// there, whatever stands before and after it.
pub proof fn lemma_decode_encode_seq(fs: Seq<FrameView>, a: Seq<u8>, b: Seq<u8>)
    requires
        all_wire_safe(fs),
    ensures
        spec_decode_seq(a + spec_encode_all(fs) + b, a.len() as int, fs.len()) == (
        ParsedSeq::Complete { frames: fs, next: (a.len() + spec_encode_all(fs).len()) as int }),
    decreases fs,
{
    let s = a + spec_encode_all(fs) + b;
    if fs.len() == 0 {
        assert(fs =~= Seq::<FrameView>::empty());
    } else {
        let e0 = spec_encode(fs[0]);
        let rest = fs.skip(1);
        let tail = spec_encode_all(rest) + b;
        lemma_decode_encode_at(fs[0], a, tail);
        assert(a + e0 + tail =~= s);
        lemma_encode_nonempty(fs[0]);
        assert forall|i: int| 0 <= i < rest.len() implies wire_safe(#[trigger] rest[i]) by {
            assert(rest[i] == fs[i + 1]);
        }
        lemma_decode_encode_seq(rest, a + e0, b);
        assert((a + e0) + spec_encode_all(rest) + b =~= s);
        assert(seq![fs[0]] + rest =~= fs);
    }
}

/// No frame has an empty encoding.
pub proof fn lemma_encode_nonempty(f: FrameView)
    ensures
        spec_encode(f).len() >= 3,
{
}

/// Of a frame cut short, the decoder says that it needs more data.
pub proof fn lemma_prefix_incomplete_at(f: FrameView, a: Seq<u8>, k: int)
    requires
        wire_safe(f),
        0 <= k < spec_encode(f).len(),
    ensures
        spec_decode_at(a + spec_encode(f).take(k), a.len() as int) == Parsed::Incomplete,
    decreases f,
{
    let enc = spec_encode(f);
    let s = a + enc.take(k);
    if k > 0 {
        match f {
            FrameView::Simple(c) => {
                lemma_header_cut(a, TAG_SIMPLE, encode_utf8(c), k);
            },
            FrameView::Error(c) => {
                lemma_header_cut(a, TAG_ERROR, encode_utf8(c), k);
            },
            FrameView::Integer(n) => {
                lemma_decimal_round_trip(n as int);
                lemma_header_cut(a, TAG_INTEGER, decimal(n as int), k);
            },
            FrameView::Null => {
                lemma_decimal_round_trip(-1);
                lemma_header_cut(a, TAG_BULK, decimal(-1), k);
            },
            FrameView::Bulk(d) => {
                let t = decimal(d.len() as int);
                let hdr = seq![TAG_BULK] + t + crlf();
                lemma_decimal_round_trip(d.len() as int);
                if k < hdr.len() {
                    lemma_header_cut(a, TAG_BULK, t, k);
                    assert(enc.take(k) =~= hdr.take(k));
                } else {
                    let more = (d + crlf()).take(k - hdr.len());
                    lemma_header_number(a, TAG_BULK, d.len() as int, more);
                    assert(a + hdr + more =~= s);
                }
            },
            FrameView::Array(fs) => {
                let t = decimal(fs.len() as int);
                let hdr = seq![TAG_ARRAY] + t + crlf();
                lemma_decimal_round_trip(fs.len() as int);
                if k < hdr.len() {
                    lemma_header_cut(a, TAG_ARRAY, t, k);
                    assert(enc.take(k) =~= hdr.take(k));
                } else {
                    let j = k - hdr.len();
                    let more = spec_encode_all(fs).take(j);
                    lemma_header_number(a, TAG_ARRAY, fs.len() as int, more);
                    assert(a + hdr + more =~= s);
                    lemma_prefix_incomplete_seq(fs, a + hdr, j);
                }
            },
        }
    }
}

/// Of a run of frames cut short, the decoder says that it needs more data.
pub proof fn lemma_prefix_incomplete_seq(fs: Seq<FrameView>, a: Seq<u8>, k: int)
    requires
        all_wire_safe(fs),
        0 <= k < spec_encode_all(fs).len(),
    ensures
        spec_decode_seq(a + spec_encode_all(fs).take(k), a.len() as int, fs.len())
            == ParsedSeq::Incomplete,
    decreases fs,
{
    let all = spec_encode_all(fs);
    let s = a + all.take(k);
    let e0 = spec_encode(fs[0]);
    let rest = fs.skip(1);
    if k < e0.len() {
        lemma_prefix_incomplete_at(fs[0], a, k);
        assert(a + e0.take(k) =~= s);
    } else {
        let j = k - e0.len();
        let tail = spec_encode_all(rest).take(j);
        lemma_decode_encode_at(fs[0], a, tail);
        assert(a + e0 + tail =~= s);
        lemma_encode_nonempty(fs[0]);
        assert forall|i: int| 0 <= i < rest.len() implies wire_safe(#[trigger] rest[i]) by {
            assert(rest[i] == fs[i + 1]);
        }
        lemma_prefix_incomplete_seq(rest, a + e0, j);
        assert((a + e0) + tail =~= s);
    }
}

/// Round trip: the encoding of a frame decodes to that frame, and the decoder
/// stops at the frame's last byte, whatever follows it in the buffer.
pub proof fn law_round_trip(f: Frame, rest: Seq<u8>)
    requires
        wire_safe(f@),
    ensures
        spec_decode(spec_encode(f@) + rest) == (Parsed::Complete {
            frame: f@,
            next: spec_encode(f@).len() as int,
        }),
{
    lemma_decode_encode_at(f@, Seq::empty(), rest);
    assert(Seq::<u8>::empty() + spec_encode(f@) + rest =~= spec_encode(f@) + rest);
}

/// Resumability: every strict prefix of the encoding of a frame makes the
/// decoder ask for more data, and never makes it report corruption.
pub proof fn law_prefix_needs_more_data(f: Frame, k: int)
    requires
        wire_safe(f@),
        0 <= k < spec_encode(f@).len(),
    ensures
        spec_decode(spec_encode(f@).take(k)) == Parsed::Incomplete,
{
    lemma_prefix_incomplete_at(f@, Seq::empty(), k);
    assert(Seq::<u8>::empty() + spec_encode(f@).take(k) =~= spec_encode(f@).take(k));
}

} // verus!
