//! The calls into std and outside crates that the library relies on, each
//! with the contract it is trusted to meet, and names for results too long
//! to state (case folding, RFC 3339 parsing, CityHash, LZ4).

use vstd::prelude::*;

verus! {

/// What `str::to_lowercase` gives for a text.
pub uninterp spec fn lower_of(s: Seq<char>) -> Seq<char>;

/// What `str::to_uppercase` gives for a text.
pub uninterp spec fn upper_of(s: Seq<char>) -> Seq<char>;

/// The instant that an RFC 3339 text denotes, in nanoseconds since the Unix
/// epoch, when chrono reads it and the instant fits an `i64`.
pub uninterp spec fn rfc3339_nanos(s: Seq<char>) -> Option<i64>;

/// Relies on `str::to_lowercase`: Unicode lower-casing, a function of the
/// characters alone.
#[verifier::external_body]
pub(crate) fn to_lower(s: &str) -> (r: String)
    ensures
        r@ == lower_of(s@),
{
    s.to_lowercase()
}

/// Relies on `str::to_uppercase`: Unicode upper-casing, a function of the
/// characters alone.
#[verifier::external_body]
pub(crate) fn to_upper(s: &str) -> (r: String)
    ensures
        r@ == upper_of(s@),
{
    s.to_uppercase()
}

/// Relies on chrono's `DateTime::parse_from_rfc3339`, read into nanoseconds
/// with `DateTime::timestamp_nanos_opt` (which gives `None` outside the range
/// of an `i64`).
#[verifier::external_body]
pub(crate) fn parse_rfc3339_nanos(s: &str) -> (r: Option<i64>)
    ensures
        r == rfc3339_nanos(s@),
{
    match chrono::DateTime::parse_from_rfc3339(s) {
        Ok(dt) => dt.timestamp_nanos_opt(),
        Err(_) => None,
    }
}

/// CityHash128 (version 1.0.2) of a byte string.
pub uninterp spec fn city_hash_128(data: Seq<u8>) -> u128;

/// The LZ4 block of a byte string after a 4-byte little-endian size, as
/// lz4_flex writes it.
pub uninterp spec fn lz4_prepended(data: Seq<u8>) -> Seq<u8>;

/// What lz4_flex makes of an LZ4 block given an output bound: the decoded
/// bytes, or the text of its error.
pub uninterp spec fn lz4_decoded(data: Seq<u8>, bound: usize) -> Result<Seq<u8>, Seq<char>>;

/// Relies on `cityhash_rs::cityhash_102_128`: CityHash128 v1.0.2 of the bytes.
#[verifier::external_body]
pub(crate) fn cityhash_128(data: &[u8]) -> (r: u128)
    ensures
        r == city_hash_128(data@),
{
    cityhash_rs::cityhash_102_128(data)
}

/// Relies on `lz4_flex::compress_prepend_size`: the LZ4 block of the bytes,
/// after the input length as a 4-byte little-endian header.
#[verifier::external_body]
pub(crate) fn lz4_compress_prepend_size(data: &[u8]) -> (r: Vec<u8>)
    ensures
        r@ == lz4_prepended(data@),
        r@.len() >= 4,
{
    lz4_flex::compress_prepend_size(data)
}

/// Relies on `lz4_flex::decompress` (safe decoding): the decoded bytes, or
/// the error's text (its `Display`).
#[verifier::external_body]
pub(crate) fn lz4_decompress_bounded(data: &[u8], bound: usize) -> (r: Result<Vec<u8>, String>)
    ensures
        match r {
            Ok(v) => lz4_decoded(data@, bound) == Ok::<Seq<u8>, Seq<char>>(v@),
            Err(e) => lz4_decoded(data@, bound) == Err::<Seq<u8>, Seq<char>>(e@),
        },
{
    match lz4_flex::decompress(data, bound) {
        Ok(v) => Ok(v),
        Err(e) => Err(format!("{}", e)),
    }
}

} // verus!
