//! The record format of the log.
//!
//! A record is a header of two 4-byte big-endian fields, the key's length and
//! the value's length, then the key's bytes and the value's bytes. In a
//! tombstone, which records that the key was deleted, the second field holds
//! -1 as a signed integer (all bits set) and no value follows.

use vstd::prelude::*;

verus! {

/// Bytes in one header field.
pub const FIELD_LEN: usize = 4;

/// Bytes in a record's header.
pub const HEADER_LEN: usize = 8;

/// The second header field of a tombstone: -1 as a signed 32-bit integer.
pub const TOMBSTONE: u32 = 0xFFFF_FFFF;

/// The longest value a record can hold: the largest signed 32-bit integer.
pub const MAX_VALUE_LEN: u32 = 0x7FFF_FFFF;

/// Why the library turned an input down.
#[derive(Clone, Copy, Debug, PartialEq, Eq, Structural)]
pub enum StoreError {
    /// The log's bytes end inside a record, or a record's length field holds
    /// a negative number other than the mark of a tombstone.
    Corrupt,
    /// The key's length does not fit the header's first field.
    KeyTooLong,
    /// The value's length does not fit the header's second field.
    ValueTooLong,
    /// A read reaches past the end of the log.
    OutOfRange,
}

/// Where a value lies in the log: the offset of its first byte and its length.
#[derive(Clone, Copy, Debug, PartialEq, Eq, Structural)]
pub struct Location {
    pub offset: u64,
    pub len: u32,
}

/// The four bytes of `x`, most significant first.
pub open spec fn be32(x: u32) -> Seq<u8> {
    seq![
        (x / 0x100_0000) as u8,
        ((x / 0x1_0000) % 0x100) as u8,
        ((x / 0x100) % 0x100) as u8,
        (x % 0x100) as u8,
    ]
}

/// The number that the first four bytes of `b` hold, most significant first.
pub open spec fn be32_value(b: Seq<u8>) -> int {
    b[0] * 0x100_0000 + b[1] * 0x1_0000 + b[2] * 0x100 + b[3]
}

/// Reading back what `be32` wrote gives the number again.
pub proof fn lemma_be32_round_trip(x: u32)
    ensures
        be32(x).len() == 4,
        be32_value(be32(x)) == x,
{
}

/// The header's second field for a value, or for none.
pub open spec fn length_field(value: Option<Seq<u8>>) -> u32 {
    match value {
        Some(v) => v.len() as u32,
        None => TOMBSTONE,
    }
}

/// The payload that follows the key: the value's bytes, or nothing.
pub open spec fn payload(value: Option<Seq<u8>>) -> Seq<u8> {
    match value {
        Some(v) => v,
        None => Seq::empty(),
    }
}

/// Whether a key and a value, or none, fit a record.
pub open spec fn fits_record(key: Seq<u8>, value: Option<Seq<u8>>) -> bool {
    &&& key.len() <= u32::MAX
    &&& payload(value).len() <= MAX_VALUE_LEN
}

/// The error for a key and a value that do not fit a record: the key's
/// length is looked at first.
pub open spec fn size_error(key: Seq<u8>) -> StoreError {
    if key.len() > u32::MAX {
        StoreError::KeyTooLong
    } else {
        StoreError::ValueTooLong
    }
}

/// The bytes of the record for `key` and `value`; `None` gives a tombstone.
pub open spec fn encode_record(key: Seq<u8>, value: Option<Seq<u8>>) -> Seq<u8> {
    be32(key.len() as u32) + be32(length_field(value)) + key + payload(value)
}

/// The length of the record for `key` and `value`.
pub open spec fn record_len(key: Seq<u8>, value: Option<Seq<u8>>) -> int {
    HEADER_LEN + key.len() + payload(value).len()
}

/// What an optional slice holds.
pub open spec fn value_view(value: Option<&[u8]>) -> Option<Seq<u8>> {
    match value {
        Some(v) => Some(v@),
        None => None,
    }
}

/// Writes `x` to the end of `buf`, most significant byte first.
pub fn put_be32(buf: &mut Vec<u8>, x: u32)
    ensures
        final(buf)@ == old(buf)@ + be32(x),
{
    buf.push((x / 0x100_0000) as u8);
    buf.push(((x / 0x1_0000) % 0x100) as u8);
    buf.push(((x / 0x100) % 0x100) as u8);
    buf.push((x % 0x100) as u8);
    proof {
        assert(buf@ =~= old(buf)@ + be32(x));
    }
}

/// Reads the number held by the four bytes of `data` from `pos` on.
pub fn get_be32(data: &[u8], pos: usize) -> (x: u32)
    requires
        pos + FIELD_LEN <= data@.len(),
    ensures
        x == be32_value(data@.subrange(pos as int, pos + 4)),
{
    let b0: u32 = data[pos] as u32;
    let b1: u32 = data[pos + 1] as u32;
    let b2: u32 = data[pos + 2] as u32;
    let b3: u32 = data[pos + 3] as u32;
    b0 * 0x100_0000 + b1 * 0x1_0000 + b2 * 0x100 + b3
}

/// Appends the bytes of `src` to `buf`.
pub fn put_bytes(buf: &mut Vec<u8>, src: &[u8])
    ensures
        final(buf)@ == old(buf)@ + src@,
{
    let mut i: usize = 0;
    while i < src.len()
        invariant
            i <= src.len(),
            buf@ == old(buf)@ + src@.take(i as int),
        decreases src.len() - i,
    {
        buf.push(src[i]);
        i += 1;
        proof {
            assert(buf@ =~= old(buf)@ + src@.take(i as int));
        }
    }
    proof {
        assert(src@.take(i as int) =~= src@);
    }
}

/// Appends the record for `key` and `value` to `buf`; without a value, a
/// tombstone. A key or a value too long for its header field is turned down
/// and `buf` is left as it was.
pub fn append_record(buf: &mut Vec<u8>, key: &[u8], value: Option<&[u8]>) -> (r: Result<
    (),
    StoreError,
>)
    ensures
        match r {
            Ok(()) => fits_record(key@, value_view(value)) && final(buf)@ == old(buf)@
                + encode_record(key@, value_view(value)),
            Err(e) => !fits_record(key@, value_view(value)) && final(buf)@ == old(buf)@
                && e == size_error(key@),
        },
{
    if key.len() > u32::MAX as usize {
        return Err(StoreError::KeyTooLong);
    }
    let field: u32 = match value {
        Some(v) => {
            if v.len() > MAX_VALUE_LEN as usize {
                return Err(StoreError::ValueTooLong);
            }
            v.len() as u32
        },
        None => TOMBSTONE,
    };
    put_be32(buf, key.len() as u32);
    put_be32(buf, field);
    put_bytes(buf, key);
    if let Some(v) = value {
        put_bytes(buf, v);
    }
    proof {
        assert(buf@ =~= old(buf)@ + encode_record(key@, value_view(value)));
    }
    Ok(())
}

/// The record for `key` and `value` as bytes of its own.
pub fn encode_entry(key: &[u8], value: Option<&[u8]>) -> (r: Result<Vec<u8>, StoreError>)
    ensures
        match r {
            Ok(bytes) => fits_record(key@, value_view(value)) && bytes@ == encode_record(
                key@,
                value_view(value),
            ),
            Err(e) => !fits_record(key@, value_view(value)) && e == size_error(key@),
        },
{
    let mut buf: Vec<u8> = Vec::new();
    match append_record(&mut buf, key, value) {
        Ok(()) => {
            proof {
                assert(buf@ =~= encode_record(key@, value_view(value)));
            }
            Ok(buf)
        },
        Err(e) => Err(e),
    }
}

/// The offset of a value's first byte, from where its record starts, the
/// record's whole length and the value's length: the value is the record's
/// tail.
pub fn value_offset(entry_start: u64, entry_len: u64, value_len: u32) -> (r: u64)
    requires
        entry_start + entry_len <= u64::MAX,
        value_len <= entry_len,
    ensures
        r == entry_start + entry_len - value_len,
{
    entry_start + (entry_len - value_len as u64)
}

} // verus!
