//! The line structure of the wire format: every header ends in CR LF, and a
//! lone CR or LF inside a header is a protocol violation.

use crate::decimal::{decimal_value, is_decimal, parse_decimal};
use vstd::prelude::*;

verus! {

pub const CR: u8 = 13;

pub const LF: u8 = 10;

pub const TAG_SIMPLE: u8 = 43;

pub const TAG_ERROR: u8 = 45;

pub const TAG_INTEGER: u8 = 58;

pub const TAG_BULK: u8 = 36;

pub const TAG_ARRAY: u8 = 42;

/// Why a buffer did not yield a frame.
#[derive(Clone, Copy, Debug, PartialEq, Eq, Structural)]
pub enum DecodeError {
    /// The buffer ends before the frame does: read more and try again.
    NeedMoreData,
    /// The bytes cannot be the start of any frame.
    Corrupt,
}

pub open spec fn crlf() -> Seq<u8> {
    seq![CR, LF]
}

pub open spec fn is_eol(b: u8) -> bool {
    b == CR || b == LF
}

/// Whether `t` can stand inside a header line: it holds neither CR nor LF.
pub open spec fn line_safe(t: Seq<u8>) -> bool {
    forall|i: int| 0 <= i < t.len() ==> !is_eol(#[trigger] t[i])
}

/// Index of the first CR or LF at or after `from`, or `s.len()` if there is none.
pub open spec fn find_eol(s: Seq<u8>, from: int) -> int
    decreases s.len() - from,
{
    if from < 0 || from >= s.len() {
        s.len() as int
    } else if is_eol(s[from]) {
        from
    } else {
        find_eol(s, from + 1)
    }
}

/// What a scan for the end of a header line finds.
pub enum Line {
    /// The line is `s[from..end]`, and CR LF stands at `end`.
    Complete { end: int },
    Incomplete,
    Corrupt,
}

pub open spec fn scan_line(s: Seq<u8>, from: int) -> Line {
    let e = find_eol(s, from);
    if e >= s.len() {
        Line::Incomplete
    } else if s[e] == LF {
        Line::Corrupt
    } else if e + 1 >= s.len() {
        Line::Incomplete
    } else if s[e + 1] != LF {
        Line::Corrupt
    } else {
        Line::Complete { end: e }
    }
}

/// What a scan for a decimal header line finds.
pub enum Number {
    /// The line denotes `value`, and the next byte after its CR LF is at `next`.
    Complete { value: i64, next: int },
    Incomplete,
    Corrupt,
}

pub open spec fn scan_number(s: Seq<u8>, from: int) -> Number {
    match scan_line(s, from) {
        Line::Complete { end } => {
            let t = s.subrange(from, end);
            if is_decimal(t) && i64::MIN <= decimal_value(t) <= i64::MAX {
                Number::Complete { value: decimal_value(t) as i64, next: end + 2 }
            } else {
                Number::Corrupt
            }
        },
        Line::Incomplete => Number::Incomplete,
        Line::Corrupt => Number::Corrupt,
    }
}

pub proof fn lemma_find_eol_bounds(s: Seq<u8>, from: int)
    requires
        0 <= from <= s.len(),
    ensures
        from <= find_eol(s, from) <= s.len(),
        forall|i: int| from <= i < find_eol(s, from) ==> !is_eol(#[trigger] s[i]),
        find_eol(s, from) < s.len() ==> is_eol(s[find_eol(s, from)]),
    decreases s.len() - from,
{
    if from < s.len() && !is_eol(s[from]) {
        lemma_find_eol_bounds(s, from + 1);
    }
}

/// The first CR or LF is where it is, whatever way one looks for it.
pub proof fn lemma_find_eol_is(s: Seq<u8>, from: int, e: int)
    requires
        0 <= from <= e <= s.len(),
        forall|i: int| from <= i < e ==> !is_eol(#[trigger] s[i]),
        e < s.len() ==> is_eol(s[e]),
    ensures
        find_eol(s, from) == e,
    decreases e - from,
{
    if from < e {
        lemma_find_eol_is(s, from + 1, e);
    }
}

pub proof fn lemma_scan_line_bounds(s: Seq<u8>, from: int)
    requires
        0 <= from <= s.len(),
    ensures
        scan_line(s, from) matches Line::Complete { end } ==> from <= end && end + 2 <= s.len(),
        scan_number(s, from) matches Number::Complete { value, next } ==> from + 2 < next
            <= s.len(),
{
    lemma_find_eol_bounds(s, from);
}

/// Finds the end of the header line that starts at `from`.
pub fn find_line(buf: &[u8], from: usize) -> (r: Result<usize, DecodeError>)
    requires
        from <= buf.len(),
    ensures
        match scan_line(buf@, from as int) {
            Line::Complete { end } => r == Ok::<usize, DecodeError>(end as usize) && from <= end
                && end + 2 <= buf.len(),
            Line::Incomplete => r == Err::<usize, DecodeError>(DecodeError::NeedMoreData),
            Line::Corrupt => r == Err::<usize, DecodeError>(DecodeError::Corrupt),
        },
{
    let mut i: usize = from;
    while i < buf.len() && buf[i] != CR && buf[i] != LF
        invariant
            from <= i <= buf.len(),
            forall|k: int| from <= k < i ==> !is_eol(#[trigger] buf@[k]),
        decreases buf.len() - i,
    {
        i = i + 1;
    }
    proof {
        lemma_find_eol_is(buf@, from as int, i as int);
    }
    if i >= buf.len() {
        Err(DecodeError::NeedMoreData)
    } else if buf[i] == LF {
        Err(DecodeError::Corrupt)
    } else if i + 1 >= buf.len() {
        Err(DecodeError::NeedMoreData)
    } else if buf[i + 1] != LF {
        Err(DecodeError::Corrupt)
    } else {
        Ok(i)
    }
}

/// Reads the decimal header line that starts at `from`: its value and the
/// position just after its CR LF.
pub fn read_number(buf: &[u8], from: usize) -> (r: Result<(i64, usize), DecodeError>)
    requires
        from <= buf.len(),
    ensures
        match scan_number(buf@, from as int) {
            Number::Complete { value, next } => r == Ok::<(i64, usize), DecodeError>(
                (value, next as usize),
            ) && from + 2 < next <= buf.len(),
            Number::Incomplete => r == Err::<(i64, usize), DecodeError>(
                DecodeError::NeedMoreData,
            ),
            Number::Corrupt => r == Err::<(i64, usize), DecodeError>(DecodeError::Corrupt),
        },
{
    match find_line(buf, from) {
        Ok(end) => match parse_decimal(buf, from, end) {
            Some(value) => Ok((value, end + 2)),
            None => Err(DecodeError::Corrupt),
        },
        Err(e) => Err(e),
    }
}

} // verus!
