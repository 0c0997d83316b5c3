//! The log: records one after another, oldest first, held as a byte image.
//! Replaying it from its first byte gives the key directory.

use crate::keydir::{weight, KeyDir};
use crate::record::{
    append_record, be32, be32_value, encode_record, fits_record, get_be32, length_field,
    lemma_be32_round_trip, payload, record_len, size_error, value_view, Location, StoreError,
    HEADER_LEN, MAX_VALUE_LEN, TOMBSTONE,
};
use vstd::prelude::*;
use vstd::slice::{slice_subrange, slice_to_vec};

verus! {

/// The key length that the record at `pos` declares.
pub open spec fn key_len_at(data: Seq<u8>, pos: int) -> int {
    be32_value(data.subrange(pos, pos + 4))
}

/// The second header field of the record at `pos`, read as unsigned.
pub open spec fn length_field_at(data: Seq<u8>, pos: int) -> int {
    be32_value(data.subrange(pos + 4, pos + 8))
}

/// Where the key of the record at `pos` ends and its value, if any, starts.
pub open spec fn value_pos_at(data: Seq<u8>, pos: int) -> int {
    pos + 8 + key_len_at(data, pos)
}

/// The key of the record at `pos`.
pub open spec fn record_key_at(data: Seq<u8>, pos: int) -> Seq<u8> {
    data.subrange(pos + 8, value_pos_at(data, pos))
}

/// The record at `pos` is a tombstone: its second field holds -1 as a signed
/// integer, all bits set.
pub open spec fn is_tombstone_at(data: Seq<u8>, pos: int) -> bool {
    length_field_at(data, pos) == TOMBSTONE
}

/// The second field of the record at `pos` is one that a record can have: a
/// value's length, which is not negative as a signed integer, or the mark of
/// a tombstone.
pub open spec fn length_field_ok_at(data: Seq<u8>, pos: int) -> bool {
    length_field_at(data, pos) <= MAX_VALUE_LEN || is_tombstone_at(data, pos)
}

/// Where the record at `pos` ends.
pub open spec fn record_end_at(data: Seq<u8>, pos: int) -> int {
    if is_tombstone_at(data, pos) {
        value_pos_at(data, pos)
    } else {
        value_pos_at(data, pos) + length_field_at(data, pos)
    }
}

/// The record that starts at `pos` has a length field that a record can
/// have and lies within `data`, header, key and value.
pub open spec fn record_fits_at(data: Seq<u8>, pos: int) -> bool {
    &&& 0 <= pos
    &&& pos + 8 <= data.len()
    &&& length_field_ok_at(data, pos)
    &&& record_end_at(data, pos) <= data.len()
}

/// The directory after the record at `pos`: a value record maps its key to
/// the place of its value, a tombstone takes its key out.
pub open spec fn apply_record_at(dir: Map<Seq<u8>, Location>, data: Seq<u8>, pos: int) -> Map<
    Seq<u8>,
    Location,
> {
    if is_tombstone_at(data, pos) {
        dir.remove(record_key_at(data, pos))
    } else {
        dir.insert(
            record_key_at(data, pos),
            Location {
                offset: value_pos_at(data, pos) as u64,
                len: length_field_at(data, pos) as u32,
            },
        )
    }
}

/// The directory that the records from `pos` to the end make of `dir`, or
/// `None` where the bytes end inside a record or a record's length field is
/// negative without being the mark of a tombstone.
pub open spec fn replay(data: Seq<u8>, pos: int, dir: Map<Seq<u8>, Location>) -> Option<
    Map<Seq<u8>, Location>,
>
    decreases data.len() - pos,
{
    if pos >= data.len() {
        Some(dir)
    } else if !record_fits_at(data, pos) {
        None
    } else {
        replay(data, record_end_at(data, pos), apply_record_at(dir, data, pos))
    }
}

/// The directory of a whole log.
pub open spec fn scan(data: Seq<u8>) -> Option<Map<Seq<u8>, Location>> {
    replay(data, 0, Map::empty())
}

/// Every entry of `dir` has a key and a value that fit a record, and its
/// value lies within the first `len` bytes.
pub open spec fn within(dir: Map<Seq<u8>, Location>, len: int) -> bool {
    forall|k: Seq<u8>| #[trigger]
        dir.contains_key(k) ==> k.len() <= u32::MAX && dir[k].len <= MAX_VALUE_LEN
            && dir[k].offset + dir[k].len <= len
}

/// The directory after a write of `key` with `value` at the offset `start`.
pub open spec fn apply_write(
    dir: Map<Seq<u8>, Location>,
    key: Seq<u8>,
    value: Option<Seq<u8>>,
    start: int,
) -> Map<Seq<u8>, Location> {
    match value {
        Some(v) => dir.insert(
            key,
            Location { offset: (start + HEADER_LEN + key.len()) as u64, len: v.len() as u32 },
        ),
        None => dir.remove(key),
    }
}

/// A record written at the end of `data` reads back as what was written.
pub proof fn lemma_record_at_end(data: Seq<u8>, key: Seq<u8>, value: Option<Seq<u8>>)
    requires
        fits_record(key, value),
    ensures
        ({
            let all = data + encode_record(key, value);
            let pos = data.len() as int;
            &&& key_len_at(all, pos) == key.len()
            &&& length_field_at(all, pos) == length_field(value)
            &&& record_key_at(all, pos) == key
            &&& is_tombstone_at(all, pos) == value.is_none()
            &&& record_end_at(all, pos) == all.len()
            &&& all.len() == data.len() + record_len(key, value)
            &&& value_pos_at(all, pos) == all.len() - payload(value).len()
            &&& all.subrange(value_pos_at(all, pos), all.len() as int) == payload(value)
        }),
{
    let all = data + encode_record(key, value);
    let pos = data.len() as int;
    lemma_be32_round_trip(key.len() as u32);
    lemma_be32_round_trip(length_field(value));
    assert(all.subrange(pos, pos + 4) =~= be32(key.len() as u32));
    assert(all.subrange(pos + 4, pos + 8) =~= be32(length_field(value)));
    assert(all.subrange(pos + 8, pos + 8 + key.len()) =~= key);
    assert(all.subrange(pos + 8 + key.len(), all.len() as int) =~= payload(value));
}

/// Appending a record to a log whose replay succeeds gives the replay of the
/// log, followed by that one write.
pub proof fn lemma_replay_append(
    data: Seq<u8>,
    pos: int,
    dir: Map<Seq<u8>, Location>,
    key: Seq<u8>,
    value: Option<Seq<u8>>,
)
    requires
        0 <= pos <= data.len(),
        replay(data, pos, dir).is_some(),
        fits_record(key, value),
    ensures
        replay(data + encode_record(key, value), pos, dir) == Some(
            apply_write(replay(data, pos, dir).unwrap(), key, value, data.len() as int),
        ),
    decreases data.len() - pos,
{
    let all = data + encode_record(key, value);
    if pos == data.len() {
        lemma_record_at_end(data, key, value);
        let next = apply_record_at(dir, all, pos);
        assert(record_fits_at(all, pos));
        assert(replay(all, all.len() as int, next) == Some(next));
        assert(next == apply_write(dir, key, value, pos));
    } else {
        assert(record_fits_at(data, pos));
        assert(all.subrange(pos, pos + 4) =~= data.subrange(pos, pos + 4));
        assert(all.subrange(pos + 4, pos + 8) =~= data.subrange(pos + 4, pos + 8));
        assert(all.subrange(pos + 8, value_pos_at(data, pos)) =~= data.subrange(
            pos + 8,
            value_pos_at(data, pos),
        ));
        assert(record_fits_at(all, pos));
        lemma_replay_append(
            data,
            record_end_at(data, pos),
            apply_record_at(dir, data, pos),
            key,
            value,
        );
    }
}

/// The log's byte image.
pub struct Log {
    data: Vec<u8>,
}

impl Log {
    /// The bytes of the log.
    pub closed spec fn view(&self) -> Seq<u8> {
        self.data@
    }

    /// A log that holds `data`.
    pub fn new(data: Vec<u8>) -> (r: Log)
        ensures
            r@ == data@,
    {
        Log { data }
    }

    /// The bytes of the log, for the caller to persist.
    pub fn as_bytes(&self) -> (r: &[u8])
        ensures
            r@ == self@,
    {
        self.data.as_slice()
    }

    /// The number of bytes in the log.
    pub fn len(&self) -> (r: usize)
        ensures
            r == self@.len(),
    {
        self.data.len()
    }

    /// Builds the key directory by reading the records from the first byte to
    /// the last. Values are passed over, not read. Bytes that end inside a
    /// record, and a negative length other than the mark of a tombstone, are
    /// corrupt. The records of the live keys take no more room than the log
    /// has.
    pub fn load_index(&self) -> (r: Result<KeyDir, StoreError>)
        ensures
            match r {
                Ok(dir) => {
                    &&& dir.wf()
                    &&& scan(self@) == Some(dir@)
                    &&& within(dir@, self@.len() as int)
                    &&& weight(dir.pairs()) <= self@.len()
                },
                Err(e) => e == StoreError::Corrupt && scan(self@).is_none(),
            },
    {
        let data = self.data.as_slice();
        let n = data.len();
        let mut dir = KeyDir::new();
        let mut pos: usize = 0;
        while pos < n
            invariant
                data@ == self@,
                n == data@.len(),
                pos <= n,
                dir.wf(),
                replay(data@, pos as int, dir@) == scan(data@),
                within(dir@, n as int),
                weight(dir.pairs()) <= pos,
            decreases n - pos,
        {
            if n - pos < HEADER_LEN {
                return Err(StoreError::Corrupt);
            }
            let key_len = get_be32(data, pos) as usize;
            let field = get_be32(data, pos + 4);
            if key_len > n - pos - HEADER_LEN {
                return Err(StoreError::Corrupt);
            }
            let value_pos = pos + HEADER_LEN + key_len;
            let key = slice_to_vec(slice_subrange(data, pos + HEADER_LEN, value_pos));
            if field == TOMBSTONE {
                dir.remove(key.as_slice());
                pos = value_pos;
            } else if field > MAX_VALUE_LEN {
                return Err(StoreError::Corrupt);
            } else {
                if field as usize > n - value_pos {
                    return Err(StoreError::Corrupt);
                }
                dir.insert(key, Location { offset: value_pos as u64, len: field });
                pos = value_pos + field as usize;
            }
        }
        Ok(dir)
    }

    /// The `len` bytes from `offset` on. A range that reaches past the end of
    /// the log is an error.
    pub fn read_value(&self, offset: u64, len: u32) -> (r: Result<Vec<u8>, StoreError>)
        ensures
            match r {
                Ok(v) => offset + len <= self@.len() && v@ == self@.subrange(
                    offset as int,
                    offset + len,
                ),
                Err(e) => e == StoreError::OutOfRange && offset + len > self@.len(),
            },
    {
        let n = self.data.len();
        if offset > n as u64 || len as u64 > n as u64 - offset {
            return Err(StoreError::OutOfRange);
        }
        let start = offset as usize;
        let end = start + len as usize;
        Ok(slice_to_vec(slice_subrange(self.data.as_slice(), start, end)))
    }

    /// Appends the record for `key` and `value`, a tombstone where there is
    /// no value, and returns the offset at which the record starts and its
    /// whole length. A key or value that does not fit a record is turned down
    /// and the log stays as it was.
    pub fn write_entry(&mut self, key: &[u8], value: Option<&[u8]>) -> (r: Result<
        (u64, u64),
        StoreError,
    >)
        ensures
            match r {
                Ok((start, total)) => {
                    &&& fits_record(key@, value_view(value))
                    &&& final(self)@ == old(self)@ + encode_record(key@, value_view(value))
                    &&& start == old(self)@.len()
                    &&& total == record_len(key@, value_view(value))
                    &&& start + total <= u64::MAX
                },
                Err(e) => {
                    &&& !fits_record(key@, value_view(value))
                    &&& final(self)@ == old(self)@
                    &&& e == size_error(key@)
                },
            },
    {
        let start = self.data.len();
        match append_record(&mut self.data, key, value) {
            Ok(()) => {
                let total = self.data.len() - start;
                Ok((start as u64, total as u64))
            },
            Err(e) => Err(e),
        }
    }
}

} // verus!
