//! Byte layout of data records and hint entries, little-endian throughout.
use vstd::bytes::*;
use vstd::prelude::*;
use vstd::slice::slice_subrange;

verus! {

/// Timestamp (8 bytes), key length (4 bytes), value length (4 bytes).
pub const RECORD_HEADER_SIZE: usize = 16;

/// Timestamp (8), key length (4), value length (4), value offset (8).
pub const HINT_HEADER_SIZE: usize = 24;

/// The 16-byte header of a data record.
pub open spec fn header_bytes(timestamp: u64, key_len: u32, value_len: u32) -> Seq<u8> {
    spec_u64_to_le_bytes(timestamp) + spec_u32_to_le_bytes(key_len) + spec_u32_to_le_bytes(
        value_len,
    )
}

/// The bytes of one data record: header, key, value.
pub open spec fn record_bytes(timestamp: u64, key: Seq<u8>, value: Seq<u8>) -> Seq<u8> {
    header_bytes(timestamp, key.len() as u32, value.len() as u32) + key + value
}

/// The bytes of one hint entry: header, then key.
pub open spec fn hint_bytes(timestamp: u64, key: Seq<u8>, value_len: u32, value_offset: u64) -> Seq<
    u8,
> {
    spec_u64_to_le_bytes(timestamp) + spec_u32_to_le_bytes(key.len() as u32)
        + spec_u32_to_le_bytes(value_len) + spec_u64_to_le_bytes(value_offset) + key
}

/// The little-endian `u64` stored at `pos`.
pub open spec fn u64_at(bytes: Seq<u8>, pos: int) -> u64 {
    spec_u64_from_le_bytes(bytes.subrange(pos, pos + 8))
}

/// The little-endian `u32` stored at `pos`.
pub open spec fn u32_at(bytes: Seq<u8>, pos: int) -> u32 {
    spec_u32_from_le_bytes(bytes.subrange(pos, pos + 4))
}

pub fn read_u64_at(bytes: &[u8], pos: usize) -> (r: u64)
    requires
        pos + 8 <= bytes@.len(),
    ensures
        r == u64_at(bytes@, pos as int),
{
    let len = bytes.len();
    let end = len - (len - pos - 8);
    u64_from_le_bytes(slice_subrange(bytes, pos, end))
}

pub fn read_u32_at(bytes: &[u8], pos: usize) -> (r: u32)
    requires
        pos + 4 <= bytes@.len(),
    ensures
        r == u32_at(bytes@, pos as int),
{
    let len = bytes.len();
    let end = len - (len - pos - 4);
    u32_from_le_bytes(slice_subrange(bytes, pos, end))
}

/// Encodes the header of a data record.
pub fn encode_header(timestamp: u64, key_len: u32, value_len: u32) -> (r: Vec<u8>)
    ensures
        r@ == header_bytes(timestamp, key_len, value_len),
        r@.len() == RECORD_HEADER_SIZE,
{
    let mut r = u64_to_le_bytes(timestamp);
    let mut k = u32_to_le_bytes(key_len);
    let mut v = u32_to_le_bytes(value_len);
    r.append(&mut k);
    r.append(&mut v);
    r
}

/// Encodes a whole data record as it is appended to a segment.
pub fn encode_record(timestamp: u64, key: &[u8], value: &[u8]) -> (r: Vec<u8>)
    requires
        key@.len() <= u32::MAX,
        value@.len() <= u32::MAX,
    ensures
        r@ == record_bytes(timestamp, key@, value@),
{
    let mut r = encode_header(timestamp, key.len() as u32, value.len() as u32);
    r.extend_from_slice(key);
    r.extend_from_slice(value);
    r
}

/// Encodes one hint entry.
pub fn encode_hint_entry(timestamp: u64, key: &[u8], value_len: u32, value_offset: u64) -> (r: Vec<
    u8,
>)
    requires
        key@.len() <= u32::MAX,
    ensures
        r@ == hint_bytes(timestamp, key@, value_len, value_offset),
{
    let mut r = u64_to_le_bytes(timestamp);
    let mut k = u32_to_le_bytes(key.len() as u32);
    let mut v = u32_to_le_bytes(value_len);
    let mut o = u64_to_le_bytes(value_offset);
    r.append(&mut k);
    r.append(&mut v);
    r.append(&mut o);
    r.extend_from_slice(key);
    r
}

} // verus!
