//! What this library takes on trust: the items of `bytes` and of std that
//! it calls, each with what it is believed to do. Nothing here is proved;
//! everything else in the library is.

use crate::decimal::{is_u64_text, unsigned_value};
use bytes::Bytes;
use std::num::ParseIntError;
use std::string::FromUtf8Error;
use std::time::Duration;
use vstd::prelude::*;
use vstd::utf8::{encode_utf8, valid_utf8};

verus! {

/// `bytes::Bytes`, a buffer of octets that is cheap to clone.
#[verifier::external_type_specification]
#[verifier::external_body]
pub struct ExBytes(bytes::Bytes);

/// The octets that a `Bytes` value holds, in order: the slice that it
/// dereferences to.
pub uninterp spec fn bytes_contents(b: Bytes) -> Seq<u8>;

/// `std::string::FromUtf8Error`, the error of `String::from_utf8`.
#[verifier::external_type_specification]
#[verifier::external_body]
pub struct ExFromUtf8Error(std::string::FromUtf8Error);

/// `std::num::ParseIntError`, the error of `str::parse` for integers.
#[verifier::external_type_specification]
#[verifier::external_body]
pub struct ExParseIntError(std::num::ParseIntError);

/// The whole milliseconds that a `Duration` spans: what `Duration::as_millis`
/// returns for it.
pub uninterp spec fn duration_millis(d: Duration) -> nat;

/// `Clone` of `Bytes`: the clone holds the same octets.
pub assume_specification[ <Bytes as Clone>::clone ](b: &Bytes) -> (r: Bytes)
    ensures
        bytes_contents(r) == bytes_contents(*b),
;

/// `PartialEq` of `Bytes`: equal exactly when both hold the same octets.
pub assume_specification[ <Bytes as PartialEq>::eq ](a: &Bytes, b: &Bytes) -> (r: bool)
    ensures
        r == (bytes_contents(*a) == bytes_contents(*b)),
;

/// `Bytes::copy_from_slice`: the new buffer holds a copy of `data`.
#[verifier::external_body]
pub(crate) fn bytes_from_slice(data: &[u8]) -> (b: Bytes)
    ensures
        bytes_contents(b) == data@,
{
    Bytes::copy_from_slice(data)
}

/// `Bytes::from(String)`: the buffer holds the UTF-8 encoding of `s`.
#[verifier::external_body]
pub(crate) fn bytes_from_string(s: String) -> (b: Bytes)
    ensures
        bytes_contents(b) == encode_utf8(s@),
{
    Bytes::from(s)
}

/// `String::from_utf8`: succeeds exactly on valid UTF-8, and the string then
/// encodes to the very octets it was made from.
#[verifier::external_body]
pub(crate) fn string_from_utf8(v: Vec<u8>) -> (r: Result<String, FromUtf8Error>)
    ensures
        r is Ok <==> valid_utf8(v@),
        r matches Ok(s) ==> encode_utf8(s@) == v@,
{
    String::from_utf8(v)
}

/// `AsRef<[u8]>` of `Bytes`: the slice that the buffer holds.
#[verifier::external_body]
pub(crate) fn bytes_as_slice(b: &Bytes) -> (s: &[u8])
    ensures
        s@ == bytes_contents(*b),
{
    b.as_ref()
}

/// `str::parse::<u64>`: succeeds exactly on an optional `+` followed by one
/// or more ASCII digits that denote a number no greater than `u64::MAX`, and
/// then yields that number.
#[verifier::external_body]
pub(crate) fn parse_u64(src: &str) -> (r: Result<u64, ParseIntError>)
    ensures
        r is Ok <==> is_u64_text(encode_utf8(src@)),
        r matches Ok(v) ==> v == unsigned_value(encode_utf8(src@)),
{
    src.parse::<u64>()
}

/// `Duration::from_secs`: a span of exactly `secs` seconds.
#[verifier::external_body]
pub(crate) fn duration_of_secs(secs: u64) -> (d: Duration)
    ensures
        duration_millis(d) == secs * 1000,
{
    Duration::from_secs(secs)
}

/// `Duration::as_millis`: the whole milliseconds of the span.
#[verifier::external_body]
pub(crate) fn duration_as_millis(d: &Duration) -> (ms: u128)
    ensures
        ms == duration_millis(*d),
{
    d.as_millis()
}

/// `Duration::from_millis`: a span of exactly `ms` milliseconds.
#[verifier::external_body]
pub(crate) fn duration_of_millis(ms: u64) -> (d: Duration)
    ensures
        duration_millis(d) == ms,
{
    Duration::from_millis(ms)
}

} // verus!
