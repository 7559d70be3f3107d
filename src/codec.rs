//! Byte utilities of the native layer: CityHash128 framing, raw LZ4 blocks,
//! and the small decisions around SQL parsing.

use vstd::prelude::*;
use crate::outside::{
    city_hash_128, cityhash_128, lz4_prepended, lz4_compress_prepend_size, lz4_decoded,
    lz4_decompress_bounded,
};

verus! {

/// The 16 little-endian bytes of a 128-bit value: the low 64 bits first.
pub open spec fn le_bytes(h: u128) -> Seq<u8> {
    Seq::new(16, |i: int| ((h >> (8 * i) as u128) & 0xff) as u8)
}

/// CityHash128 (v1.0.2) of the bytes, as 16 bytes in little-endian order
/// (the low 64 bits, then the high 64 bits).
pub fn hash128(data: &[u8]) -> (r: Vec<u8>)
    ensures
        r@ == le_bytes(city_hash_128(data@)),
{
    let h = cityhash_128(data);
    let mut out: Vec<u8> = Vec::new();
    let mut i: u32 = 0;
    while i < 16
        invariant
            i <= 16,
            out@.len() == i,
            forall|k: int| 0 <= k < i ==> out@[k] == ((h >> (8 * k) as u128) & 0xff) as u8,
        decreases 16 - i,
    {
        out.push(((h >> (8 * i) as u128) & 0xff) as u8);
        i = i + 1;
    }
    proof {
        assert(out@ =~= le_bytes(h));
    }
    out
}

/// Compresses the bytes into a raw LZ4 block (without a size header).
pub fn lz4_compress(data: &[u8]) -> (r: Vec<u8>)
    ensures
        r@ == lz4_prepended(data@).subrange(4, lz4_prepended(data@).len() as int),
{
    let framed = lz4_compress_prepend_size(data);
    let mut out: Vec<u8> = Vec::new();
    let mut i: usize = 4;
    while i < framed.len()
        invariant
            4 <= i <= framed@.len(),
            out@ == framed@.subrange(4, i as int),
        decreases framed.len() - i,
    {
        out.push(framed[i]);
        proof {
            assert(framed@.subrange(4, i + 1) == framed@.subrange(4, i as int).push(framed@[i as int]));
        }
        i = i + 1;
    }
    out
}

/// Decompresses a raw LZ4 block whose decoded size is at most
/// `uncompressed_size`: the bytes, or the decoder's error text.
pub fn lz4_decompress(data: &[u8], uncompressed_size: usize) -> (r: Result<Vec<u8>, String>)
    ensures
        match r {
            Ok(v) => lz4_decoded(data@, uncompressed_size) == Ok::<Seq<u8>, Seq<char>>(v@),
            Err(e) => lz4_decoded(data@, uncompressed_size) == Err::<Seq<u8>, Seq<char>>(e@),
        },
{
    lz4_decompress_bounded(data, uncompressed_size)
}

/// The SQL dialects a query can be parsed in.
#[derive(Clone, Copy, Debug, PartialEq, Eq, Structural)]
pub enum Dialect {
    BigQuery,
    ClickHouse,
    Postgres,
}

/// The dialect a name selects: `bigquery`, `clickhouse` or `postgres`.
pub open spec fn dialect_spec(name: Seq<char>) -> Option<Dialect> {
    if name == "bigquery"@ {
        Some(Dialect::BigQuery)
    } else if name == "clickhouse"@ {
        Some(Dialect::ClickHouse)
    } else if name == "postgres"@ {
        Some(Dialect::Postgres)
    } else {
        None
    }
}

/// Selects a dialect by name; `None` for an unsupported one.
pub fn dialect_of(name: &str) -> (r: Option<Dialect>)
    ensures
        r == dialect_spec(name@),
{
    if crate::value::str_eq(name, "bigquery") {
        Some(Dialect::BigQuery)
    } else if crate::value::str_eq(name, "clickhouse") {
        Some(Dialect::ClickHouse)
    } else if crate::value::str_eq(name, "postgres") {
        Some(Dialect::Postgres)
    } else {
        None
    }
}

/// The texts joined with a newline between each two.
pub open spec fn joined(parts: Seq<Seq<char>>) -> Seq<char>
    decreases parts.len(),
{
    if parts.len() == 0 {
        seq![]
    } else if parts.len() == 1 {
        parts[0]
    } else {
        joined(parts.drop_last()) + seq!['\n'] + parts.last()
    }
}

/// Joins statement texts with newlines.
pub fn join_lines(parts: &Vec<String>) -> (r: String)
    ensures
        r@ == joined(parts@.map_values(|s: String| s@)),
{
    proof {
        reveal_strlit("");
        reveal_strlit("\n");
        assert(""@ =~= Seq::<char>::empty());
        assert("\n"@ =~= seq!['\n']);
    }
    let ghost texts = parts@.map_values(|s: String| s@);
    let mut out = String::from_str("");
    let mut i: usize = 0;
    while i < parts.len()
        invariant
            i <= parts@.len(),
            texts == parts@.map_values(|s: String| s@),
            out@ == joined(texts.subrange(0, i as int)),
            "\n"@ == seq!['\n'],
        decreases parts.len() - i,
    {
        proof {
            assert(texts.subrange(0, i + 1).drop_last() == texts.subrange(0, i as int));
            assert(texts.subrange(0, i + 1).last() == parts@[i as int]@);
            if i == 0 {
                assert(texts.subrange(0, 1)[0] == parts@[0]@);
            }
        }
        if i > 0 {
            out.append("\n");
        }
        out.append(parts[i].as_str());
        i = i + 1;
    }
    proof {
        assert(texts.subrange(0, parts@.len() as int) == texts);
    }
    out
}

} // verus!
