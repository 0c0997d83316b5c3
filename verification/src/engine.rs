//! The store: one log and the key directory of its live keys.

use crate::keydir::{
    has_key, index_of, keys_of, lemma_pair_in_map, lemma_sorted_keys_unique, pairs_to_map,
    sorted, weight, KeyDir,
};
use crate::log::{apply_write, lemma_record_at_end, lemma_replay_append, scan, within, Log};
use crate::key_order::key_lt;
use crate::record::{
    encode_record, fits_record, payload, record_len, size_error, value_offset, Location,
    StoreError, HEADER_LEN, MAX_VALUE_LEN,
};
use vstd::prelude::*;
use vstd::slice::slice_to_vec;

verus! {

/// The value of each live key: the bytes of `data` at the place that `dir`
/// holds for the key.
pub open spec fn contents(dir: Map<Seq<u8>, Location>, data: Seq<u8>) -> Map<Seq<u8>, Seq<u8>> {
    Map::new(
        |k: Seq<u8>| dir.contains_key(k),
        |k: Seq<u8>| data.subrange(dir[k].offset as int, dir[k].offset + dir[k].len),
    )
}

/// What a store holds after `key` is set to `value`.
pub open spec fn set_model(m: Map<Seq<u8>, Seq<u8>>, key: Seq<u8>, value: Seq<u8>) -> Map<
    Seq<u8>,
    Seq<u8>,
> {
    m.insert(key, value)
}

/// What a store holds after `key` is deleted.
pub open spec fn delete_model(m: Map<Seq<u8>, Seq<u8>>, key: Seq<u8>) -> Map<Seq<u8>, Seq<u8>> {
    m.remove(key)
}

/// What a store answers when asked for `key`.
pub open spec fn get_model(m: Map<Seq<u8>, Seq<u8>>, key: Seq<u8>) -> Option<Seq<u8>> {
    if m.contains_key(key) {
        Some(m[key])
    } else {
        None
    }
}

/// What an optional value holds.
pub open spec fn option_view(value: Option<Vec<u8>>) -> Option<Seq<u8>> {
    match value {
        Some(v) => Some(v@),
        None => None,
    }
}

/// The log that holds one value record for each pair of `live`, in order,
/// and nothing else.
pub open spec fn compacted(live: Seq<(Seq<u8>, Seq<u8>)>) -> Seq<u8>
    decreases live.len(),
{
    if live.len() == 0 {
        Seq::empty()
    } else {
        compacted(live.drop_last()) + encode_record(live.last().0, Some(live.last().1))
    }
}

/// The bytes that the pairs of `live` need as records: for each a header,
/// the key and the value.
pub open spec fn live_size(live: Seq<(Seq<u8>, Seq<u8>)>) -> int
    decreases live.len(),
{
    if live.len() == 0 {
        0
    } else {
        live_size(live.drop_last()) + HEADER_LEN + live.last().0.len() + live.last().1.len()
    }
}

/// The keys of `entries` with their values: for each entry the bytes of
/// `data` at its place.
pub open spec fn live_pairs(entries: Seq<(Seq<u8>, Location)>, data: Seq<u8>) -> Seq<
    (Seq<u8>, Seq<u8>),
> {
    Seq::new(
        entries.len(),
        |i: int|
            (
                entries[i].0,
                data.subrange(entries[i].1.offset as int, entries[i].1.offset + entries[i].1.len),
            ),
    )
}

/// Where every entry points into `data`, the records of the entries take as
/// many bytes as the live pairs need.
pub proof fn lemma_live_size_is_weight(entries: Seq<(Seq<u8>, Location)>, data: Seq<u8>)
    requires
        forall|i: int|
            0 <= i < entries.len() ==> (#[trigger] entries[i]).1.offset + entries[i].1.len
                <= data.len(),
    ensures
        live_size(live_pairs(entries, data)) == weight(entries),
    decreases entries.len(),
{
    if entries.len() > 0 {
        let rest = entries.drop_last();
        assert forall|i: int| 0 <= i < rest.len() implies (#[trigger] rest[i]).1.offset
            + rest[i].1.len <= data.len() by {
            assert(rest[i] == entries[i]);
        }
        lemma_live_size_is_weight(rest, data);
        assert(live_pairs(entries, data).drop_last() =~= live_pairs(rest, data));
        assert(entries.last() == entries[entries.len() - 1]);
    }
}

/// A write to a log whose directory points into it: the directory after the
/// write points into the longer log, every other key keeps its value, and
/// the written key has the written value, or none after a tombstone.
pub proof fn lemma_contents_after_write(
    dir: Map<Seq<u8>, Location>,
    data: Seq<u8>,
    key: Seq<u8>,
    value: Option<Seq<u8>>,
)
    requires
        within(dir, data.len() as int),
        fits_record(key, value),
        data.len() + record_len(key, value) <= u64::MAX,
    ensures
        within(
            apply_write(dir, key, value, data.len() as int),
            data.len() + record_len(key, value),
        ),
        contents(
            apply_write(dir, key, value, data.len() as int),
            data + encode_record(key, value),
        ) == (match value {
            Some(v) => set_model(contents(dir, data), key, v),
            None => delete_model(contents(dir, data), key),
        }),
{
    let all = data + encode_record(key, value);
    let after = apply_write(dir, key, value, data.len() as int);
    let expected = match value {
        Some(v) => set_model(contents(dir, data), key, v),
        None => delete_model(contents(dir, data), key),
    };
    lemma_record_at_end(data, key, value);
    assert forall|k: Seq<u8>| #[trigger] after.contains_key(k) implies k.len() <= u32::MAX
        && after[k].len <= MAX_VALUE_LEN && after[k].offset + after[k].len
        <= all.len() by {
        if k != key {
            assert(dir.contains_key(k));
        }
    }
    assert forall|k: Seq<u8>| #[trigger] expected.contains_key(k) implies contents(after, all)[k]
        == expected[k] by {
        if k == key {
            assert(all.subrange(after[k].offset as int, after[k].offset + after[k].len)
                =~= payload(value));
        } else {
            assert(dir.contains_key(k));
            assert(all.subrange(dir[k].offset as int, dir[k].offset + dir[k].len)
                =~= data.subrange(dir[k].offset as int, dir[k].offset + dir[k].len));
        }
    }
    assert(contents(after, all) =~= expected);
}

/// Some pair among the first `i` of `s` has the key `k`.
pub open spec fn among_first(s: Seq<(Seq<u8>, Location)>, i: int, k: Seq<u8>) -> bool {
    exists|j: int| 0 <= j < i && j < s.len() && #[trigger] s[j].0 == k
}

/// A compacted log is exactly as long as its live keys and values need.
pub proof fn lemma_compacted_len(live: Seq<(Seq<u8>, Seq<u8>)>)
    ensures
        compacted(live).len() == live_size(live),
    decreases live.len(),
{
    if live.len() > 0 {
        lemma_compacted_len(live.drop_last());
    }
}

/// A key-value store: the log, and the directory that says where in the log
/// the value of each live key lies.
pub struct MiniBitcask {
    log: Log,
    keydir: KeyDir,
}

impl MiniBitcask {
    /// The bytes of the log.
    pub closed spec fn log_bytes(&self) -> Seq<u8> {
        self.log@
    }

    /// The key directory's entries, in ascending order of their keys.
    pub closed spec fn entries(&self) -> Seq<(Seq<u8>, Location)> {
        self.keydir.pairs()
    }

    /// The key directory as a map.
    pub open spec fn index(&self) -> Map<Seq<u8>, Location> {
        pairs_to_map(self.entries())
    }

    /// The directory is in order, it is what a replay of the log gives, each
    /// of its entries points at bytes of the log, and the records of the live
    /// keys take no more room than the log has.
    pub open spec fn wf(&self) -> bool {
        &&& sorted(self.entries())
        &&& scan(self.log_bytes()) == Some(self.index())
        &&& within(self.index(), self.log_bytes().len() as int)
        &&& weight(self.entries()) <= self.log_bytes().len()
    }

    /// The store as a map from each live key to its value.
    pub open spec fn view(&self) -> Map<Seq<u8>, Seq<u8>> {
        contents(self.index(), self.log_bytes())
    }

    /// The live keys with their values, in ascending order of the keys.
    pub open spec fn live(&self) -> Seq<(Seq<u8>, Seq<u8>)> {
        live_pairs(self.entries(), self.log_bytes())
    }

    /// The live pairs need no more bytes than the log has: a log is never
    /// shorter than its compacted form.
    pub proof fn lemma_live_size_bounded(&self)
        requires
            self.wf(),
        ensures
            live_size(self.live()) == weight(self.entries()),
            live_size(self.live()) <= self.log_bytes().len(),
    {
        let s = self.entries();
        assert forall|i: int| 0 <= i < s.len() implies (#[trigger] s[i]).1.offset + s[i].1.len
            <= self.log_bytes().len() by {
            lemma_pair_in_map(s, i);
        }
        lemma_live_size_is_weight(s, self.log_bytes());
    }

    /// The live pairs are what the store holds: each pair is a live key with
    /// its value, each live key has a pair, and the keys ascend.
    pub proof fn lemma_live_is_view(&self)
        requires
            self.wf(),
        ensures
            forall|i: int|
                0 <= i < self.live().len() ==> self@.contains_key((#[trigger] self.live()[i]).0)
                    && self@[self.live()[i].0] == self.live()[i].1,
            forall|k: Seq<u8>| #[trigger]
                self@.contains_key(k) ==> exists|i: int|
                    0 <= i < self.live().len() && (#[trigger] self.live()[i]).0 == k,
            forall|i: int, j: int|
                0 <= i < j < self.live().len() ==> key_lt(
                    (#[trigger] self.live()[i]).0,
                    (#[trigger] self.live()[j]).0,
                ),
    {
        let s = self.entries();
        assert forall|i: int| 0 <= i < self.live().len() implies self@.contains_key(
            (#[trigger] self.live()[i]).0,
        ) && self@[self.live()[i].0] == self.live()[i].1 by {
            lemma_pair_in_map(s, i);
        }
        assert forall|k: Seq<u8>| #[trigger] self@.contains_key(k) implies exists|i: int|
            0 <= i < self.live().len() && (#[trigger] self.live()[i]).0 == k by {
            assert(has_key(s, k));
            let i = index_of(s, k);
            assert(self.live()[i].0 == k);
        }
        assert forall|i: int, j: int| 0 <= i < j < self.live().len() implies key_lt(
            (#[trigger] self.live()[i]).0,
            (#[trigger] self.live()[j]).0,
        ) by {
            assert(key_lt(s[i].0, s[j].0));
        }
    }

    /// Opens a store on the bytes of a log, and builds the key directory
    /// from them. Bytes that end inside a record, or that hold a negative
    /// length other than the mark of a tombstone, are turned down.
    pub fn new(data: Vec<u8>) -> (r: Result<MiniBitcask, StoreError>)
        ensures
            match r {
                Ok(store) => store.wf() && store.log_bytes() == data@,
                Err(e) => e == StoreError::Corrupt && scan(data@).is_none(),
            },
    {
        let log = Log::new(data);
        match log.load_index() {
            Ok(keydir) => Ok(MiniBitcask { log, keydir }),
            Err(e) => Err(e),
        }
    }

    /// The bytes of the log, for the caller to persist.
    pub fn log_image(&self) -> (r: &[u8])
        ensures
            r@ == self.log_bytes(),
    {
        self.log.as_bytes()
    }

    /// The number of live keys.
    pub fn live_keys(&self) -> (r: usize)
        ensures
            r == self.entries().len(),
    {
        self.keydir.len()
    }

    /// Appends a value record for `key` to the log and points the directory
    /// at the new value. A key or value that does not fit a record is turned
    /// down, and the store stays as it was.
    pub fn set(&mut self, key: &[u8], value: Vec<u8>) -> (r: Result<(), StoreError>)
        requires
            old(self).wf(),
        ensures
            final(self).wf(),
            match r {
                Ok(()) => {
                    &&& fits_record(key@, Some(value@))
                    &&& final(self)@ == set_model(old(self)@, key@, value@)
                    &&& final(self).log_bytes() == old(self).log_bytes() + encode_record(
                        key@,
                        Some(value@),
                    )
                    &&& final(self).index() == apply_write(
                        old(self).index(),
                        key@,
                        Some(value@),
                        old(self).log_bytes().len() as int,
                    )
                },
                Err(e) => {
                    &&& !fits_record(key@, Some(value@))
                    &&& final(self).log_bytes() == old(self).log_bytes()
                    &&& final(self).entries() == old(self).entries()
                    &&& e == size_error(key@)
                },
            },
    {
        let (start, total) = match self.log.write_entry(key, Some(value.as_slice())) {
            Ok(written) => written,
            Err(e) => {
                return Err(e);
            },
        };
        let value_len = value.len() as u32;
        let offset = value_offset(start, total, value_len);
        proof {
            lemma_replay_append(
                old(self).log_bytes(),
                0,
                Map::empty(),
                key@,
                Some(value@),
            );
            lemma_contents_after_write(
                old(self).index(),
                old(self).log_bytes(),
                key@,
                Some(value@),
            );
        }
        self.keydir.insert(slice_to_vec(key), Location { offset, len: value_len });
        Ok(())
    }

    /// The value of `key`, or `None` where the key is not live.
    pub fn get(&mut self, key: &[u8]) -> (r: Result<Option<Vec<u8>>, StoreError>)
        requires
            old(self).wf(),
        ensures
            final(self).wf(),
            final(self).log_bytes() == old(self).log_bytes(),
            final(self).entries() == old(self).entries(),
            r.is_ok(),
            option_view(r.unwrap()) == get_model(old(self)@, key@),
    {
        match self.keydir.get(key) {
            Some(loc) => {
                let value = self.log.read_value(loc.offset, loc.len)?;
                Ok(Some(value))
            },
            None => Ok(None),
        }
    }

    /// Appends a tombstone for `key` to the log, whether or not the key is
    /// live, and takes the key out of the directory. A key that does not fit
    /// a record is turned down, and the store stays as it was.
    pub fn delete(&mut self, key: &[u8]) -> (r: Result<(), StoreError>)
        requires
            old(self).wf(),
        ensures
            final(self).wf(),
            match r {
                Ok(()) => {
                    &&& key@.len() <= u32::MAX
                    &&& final(self)@ == delete_model(old(self)@, key@)
                    &&& final(self).log_bytes() == old(self).log_bytes() + encode_record(
                        key@,
                        None,
                    )
                    &&& final(self).index() == old(self).index().remove(key@)
                },
                Err(e) => {
                    &&& key@.len() > u32::MAX
                    &&& final(self).log_bytes() == old(self).log_bytes()
                    &&& final(self).entries() == old(self).entries()
                    &&& e == StoreError::KeyTooLong
                },
            },
    {
        match self.log.write_entry(key, None) {
            Ok(_) => {},
            Err(e) => {
                return Err(e);
            },
        }
        proof {
            lemma_replay_append(old(self).log_bytes(), 0, Map::empty(), key@, None);
            lemma_contents_after_write(old(self).index(), old(self).log_bytes(), key@, None);
        }
        self.keydir.remove(key);
        Ok(())
    }

    /// Compacts the log: builds a new log that holds one value record for
    /// each live key, in ascending order of the keys, and a directory that
    /// points into it, and only then puts both in place of the old ones.
    /// Every key keeps its value; tombstones and overwritten values are gone,
    /// so the log is as long as the live keys and values need and no longer
    /// than it was.
    pub fn merge(&mut self) -> (r: Result<(), StoreError>)
        requires
            old(self).wf(),
        ensures
            final(self).wf(),
            r.is_ok(),
            final(self)@ == old(self)@,
            final(self).live() == old(self).live(),
            final(self).log_bytes() == compacted(old(self).live()),
            final(self).log_bytes().len() == live_size(old(self).live()),
            final(self).log_bytes().len() <= old(self).log_bytes().len(),
    {
        let mut fresh = MiniBitcask { log: Log::new(Vec::new()), keydir: KeyDir::new() };
        proof {
            assert(fresh.log_bytes() =~= Seq::<u8>::empty());
            assert(self.live().take(0) =~= Seq::<(Seq<u8>, Seq<u8>)>::empty());
        }
        let n = self.keydir.len();
        let mut i: usize = 0;
        while i < n
            invariant
                *self == *old(self),
                self.wf(),
                n == self.entries().len(),
                i <= n,
                fresh.wf(),
                fresh.log_bytes() == compacted(self.live().take(i as int)),
                forall|k: Seq<u8>| #[trigger]
                    fresh@.contains_key(k) <==> among_first(self.entries(), i as int, k),
                forall|k: Seq<u8>| #[trigger] fresh@.contains_key(k) ==> fresh@[k] == self@[k],
            decreases n - i,
        {
            let key = self.keydir.key_at(i);
            let loc = self.keydir.location_at(i);
            proof {
                lemma_pair_in_map(self.entries(), i as int);
            }
            let value = self.log.read_value(loc.offset, loc.len)?;
            let ghost before = fresh@;
            let ghost v = value@;
            fresh.set(key.as_slice(), value)?;
            proof {
                let s = self.entries();
                let next = self.live().take(i + 1);
                assert(next.drop_last() =~= self.live().take(i as int));
                assert(next.last() == (key@, v));
                assert forall|k: Seq<u8>| #[trigger]
                    fresh@.contains_key(k) <==> among_first(s, i + 1, k) by {
                    if among_first(s, i + 1, k) {
                        let j = choose|j: int|
                            0 <= j < i + 1 && j < s.len() && #[trigger] s[j].0 == k;
                        if j < i {
                            assert(among_first(s, i as int, k));
                        }
                    }
                    if fresh@.contains_key(k) {
                        if k == key@ {
                            assert(s[i as int].0 == k);
                        } else {
                            assert(before.contains_key(k));
                            let j = choose|j: int|
                                0 <= j < i && j < s.len() && #[trigger] s[j].0 == k;
                            assert(s[j].0 == k);
                        }
                    }
                }
            }
            i += 1;
        }
        proof {
            let s = self.entries();
            assert(self.live().take(n as int) =~= self.live());
            assert forall|k: Seq<u8>| #[trigger]
                self@.contains_key(k) implies fresh@.contains_key(k) by {
                assert(has_key(s, k));
                let j = choose|j: int| 0 <= j < s.len() && #[trigger] s[j].0 == k;
                assert(among_first(s, n as int, k));
            }
            assert forall|k: Seq<u8>| #[trigger]
                fresh@.contains_key(k) implies self@.contains_key(k) by {
                assert(among_first(s, n as int, k));
                assert(has_key(s, k));
            }
            assert(fresh@ =~= self@);
            lemma_compacted_len(self.live());
            self.lemma_live_size_bounded();
            let f = fresh.entries();
            assert forall|k: Seq<u8>| has_key(f, k) <==> has_key(s, k) by {
                assert(fresh@.contains_key(k) <==> self@.contains_key(k));
            }
            lemma_sorted_keys_unique(f, s);
            assert(keys_of(f).len() == keys_of(s).len());
            assert forall|j: int| 0 <= j < s.len() implies fresh.live()[j] == self.live()[j] by {
                assert(keys_of(f)[j] == keys_of(s)[j]);
                lemma_pair_in_map(f, j);
                lemma_pair_in_map(s, j);
                assert(fresh@[f[j].0] == self@[s[j].0]);
            }
            assert(fresh.live() =~= self.live());
        }
        *self = fresh;
        Ok(())
    }
}

} // verus!
