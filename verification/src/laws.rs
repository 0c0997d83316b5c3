//! What holds of the store's operations taken together.

use crate::engine::{
    contents, delete_model, get_model, lemma_contents_after_write, set_model, MiniBitcask,
};
use crate::log::{apply_write, lemma_replay_append, scan, within};
use crate::record::{encode_record, fits_record, record_len, Location, HEADER_LEN};
use vstd::prelude::*;

verus! {

/// A key that was set is found with the value it was set to.
pub proof fn lemma_set_then_get(m: Map<Seq<u8>, Seq<u8>>, key: Seq<u8>, value: Seq<u8>)
    ensures
        get_model(set_model(m, key, value), key) == Some(value),
{
}

/// Setting a key leaves what is found for every other key as it was.
pub proof fn lemma_set_keeps_others(
    m: Map<Seq<u8>, Seq<u8>>,
    key: Seq<u8>,
    value: Seq<u8>,
    other: Seq<u8>,
)
    requires
        other != key,
    ensures
        get_model(set_model(m, key, value), other) == get_model(m, other),
{
}

/// A key that was set and then deleted is no longer found.
pub proof fn lemma_set_delete_get(m: Map<Seq<u8>, Seq<u8>>, key: Seq<u8>, value: Seq<u8>)
    ensures
        get_model(delete_model(set_model(m, key, value), key), key).is_none(),
{
}

/// Deleting a key that is not live changes nothing that the store holds, and
/// the key is still not found.
pub proof fn lemma_delete_absent(m: Map<Seq<u8>, Seq<u8>>, key: Seq<u8>)
    requires
        !m.contains_key(key),
    ensures
        delete_model(m, key) == m,
        get_model(delete_model(m, key), key).is_none(),
{
    assert(delete_model(m, key) =~= m);
}

/// Of two values set to one key the later is found, and the store is as if
/// the earlier had never been set.
pub proof fn lemma_overwrite(
    m: Map<Seq<u8>, Seq<u8>>,
    key: Seq<u8>,
    first: Seq<u8>,
    second: Seq<u8>,
)
    ensures
        get_model(set_model(set_model(m, key, first), key, second), key) == Some(second),
        set_model(set_model(m, key, first), key, second) == set_model(m, key, second),
{
    assert(set_model(set_model(m, key, first), key, second) =~= set_model(m, key, second));
}

/// After two writes to one key the directory holds one place for it: that of
/// the second value, in the second record, and the bytes there are that
/// value.
pub proof fn lemma_overwrite_points_at_latest(
    dir: Map<Seq<u8>, Location>,
    data: Seq<u8>,
    key: Seq<u8>,
    first: Seq<u8>,
    second: Seq<u8>,
)
    requires
        within(dir, data.len() as int),
        fits_record(key, Some(first)),
        fits_record(key, Some(second)),
        data.len() + record_len(key, Some(first)) + record_len(key, Some(second)) <= u64::MAX,
    ensures
        ({
            let mid = data + encode_record(key, Some(first));
            let all = mid + encode_record(key, Some(second));
            let after = apply_write(
                apply_write(dir, key, Some(first), data.len() as int),
                key,
                Some(second),
                mid.len() as int,
            );
            &&& after == apply_write(dir, key, Some(second), mid.len() as int)
            &&& after[key].offset == mid.len() + HEADER_LEN + key.len()
            &&& after[key].len == second.len()
            &&& all.subrange(after[key].offset as int, after[key].offset + after[key].len)
                == second
        }),
{
    let mid = data + encode_record(key, Some(first));
    let all = mid + encode_record(key, Some(second));
    let after = apply_write(
        apply_write(dir, key, Some(first), data.len() as int),
        key,
        Some(second),
        mid.len() as int,
    );
    assert(after =~= apply_write(dir, key, Some(second), mid.len() as int));
    assert(all.subrange(after[key].offset as int, after[key].offset + after[key].len)
        =~= second);
}

/// A store opened on the bytes of another store's log has the same
/// directory and holds the same values: the log alone decides the state.
pub proof fn lemma_reopen_gives_same_state(before: MiniBitcask, after: MiniBitcask)
    requires
        before.wf(),
        after.wf(),
        after.log_bytes() == before.log_bytes(),
    ensures
        scan(before.log_bytes()).is_some(),
        after.index() == before.index(),
        after@ == before@,
{
}

/// Every write of `ops` fits a record.
pub open spec fn all_fit(ops: Seq<(Seq<u8>, Option<Seq<u8>>)>) -> bool {
    forall|i: int| 0 <= i < ops.len() ==> fits_record((#[trigger] ops[i]).0, ops[i].1)
}

/// The log that the writes of `ops` leave, made one after another on an
/// empty log; a write without a value is a delete.
pub open spec fn written(ops: Seq<(Seq<u8>, Option<Seq<u8>>)>) -> Seq<u8>
    decreases ops.len(),
{
    if ops.len() == 0 {
        Seq::empty()
    } else {
        written(ops.drop_last()) + encode_record(ops.last().0, ops.last().1)
    }
}

/// The directory that the writes of `ops` leave.
pub open spec fn directory_after(ops: Seq<(Seq<u8>, Option<Seq<u8>>)>) -> Map<Seq<u8>, Location>
    decreases ops.len(),
{
    if ops.len() == 0 {
        Map::empty()
    } else {
        apply_write(
            directory_after(ops.drop_last()),
            ops.last().0,
            ops.last().1,
            written(ops.drop_last()).len() as int,
        )
    }
}

/// What the store holds after the writes of `ops`.
pub open spec fn state_after(ops: Seq<(Seq<u8>, Option<Seq<u8>>)>) -> Map<Seq<u8>, Seq<u8>>
    decreases ops.len(),
{
    if ops.len() == 0 {
        Map::empty()
    } else {
        match ops.last().1 {
            Some(v) => set_model(state_after(ops.drop_last()), ops.last().0, v),
            None => delete_model(state_after(ops.drop_last()), ops.last().0),
        }
    }
}

/// Replaying the log that a sequence of sets and deletes has written gives
/// the directory that those writes built, and through it every key has the
/// value that the writes left for it.
pub proof fn lemma_replay_of_written_log(ops: Seq<(Seq<u8>, Option<Seq<u8>>)>)
    requires
        all_fit(ops),
        written(ops).len() <= u64::MAX,
    ensures
        scan(written(ops)) == Some(directory_after(ops)),
        within(directory_after(ops), written(ops).len() as int),
        contents(directory_after(ops), written(ops)) == state_after(ops),
    decreases ops.len(),
{
    if ops.len() == 0 {
        assert(contents(directory_after(ops), written(ops)) =~= state_after(ops));
    } else {
        let prev = ops.drop_last();
        let key = ops.last().0;
        let value = ops.last().1;
        assert forall|i: int| 0 <= i < prev.len() implies fits_record(
            (#[trigger] prev[i]).0,
            prev[i].1,
        ) by {
            assert(prev[i] == ops[i]);
        }
        lemma_replay_of_written_log(prev);
        lemma_replay_append(written(prev), 0, Map::empty(), key, value);
        lemma_contents_after_write(directory_after(prev), written(prev), key, value);
    }
}

/// A store opened on the log that a sequence of sets and deletes has
/// written holds what those writes left.
pub proof fn lemma_reopen_after_writes(store: MiniBitcask, ops: Seq<(Seq<u8>, Option<Seq<u8>>)>)
    requires
        store.wf(),
        all_fit(ops),
        store.log_bytes() == written(ops),
        written(ops).len() <= u64::MAX,
    ensures
        store.index() == directory_after(ops),
        store@ == state_after(ops),
{
    lemma_replay_of_written_log(ops);
}

} // verus!
